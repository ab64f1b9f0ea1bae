//! Tag names and namespaces as the matching engine sees them.

use vstd::prelude::*;

verus! {

/// The namespace an element belongs to.
#[derive(Clone, Copy, Debug, PartialEq, Eq, Structural)]
pub enum Namespace {
    Html,
    Svg,
    MathMl,
}

/// Lower-cases one ASCII letter and leaves every other byte alone.
pub open spec fn ascii_lower(b: u8) -> u8 {
    if 0x41 <= b && b <= 0x5a {
        (b + 0x20) as u8
    } else {
        b
    }
}

/// A byte string with every ASCII letter lower-cased.
pub open spec fn lowercased(bytes: Seq<u8>) -> Seq<u8> {
    Seq::new(bytes.len(), |i: int| ascii_lower(bytes[i]))
}

/// Executable form of [`ascii_lower`].
pub fn to_ascii_lower(b: u8) -> (r: u8)
    ensures
        r == ascii_lower(b),
{
    if 0x41 <= b && b <= 0x5a {
        b + 0x20
    } else {
        b
    }
}

/// The local name of a tag. While a tag is being scanned the name borrows the
/// input; a name kept on the open-element stack owns its bytes.
///
/// Names are compared without regard to ASCII case: the view of a name is its
/// lower-cased byte string.
#[derive(Debug)]
pub enum LocalName<'i> {
    Borrowed(&'i [u8]),
    Owned(Vec<u8>),
}

impl<'i> View for LocalName<'i> {
    type V = Seq<u8>;

    open spec fn view(&self) -> Seq<u8> {
        lowercased(self.bytes())
    }
}

impl<'i> LocalName<'i> {
    /// The bytes of the name as they were written.
    pub open spec fn bytes(&self) -> Seq<u8> {
        match self {
            LocalName::Borrowed(b) => b@,
            LocalName::Owned(v) => v@,
        }
    }

    /// A name that borrows `bytes`.
    pub fn new(bytes: &'i [u8]) -> (name: Self)
        ensures
            name.bytes() == bytes@,
            name@ == lowercased(bytes@),
    {
        LocalName::Borrowed(bytes)
    }

    /// A name that owns `bytes`.
    pub fn from_vec(bytes: Vec<u8>) -> (name: LocalName<'static>)
        ensures
            name.bytes() == bytes@,
            name@ == lowercased(bytes@),
    {
        LocalName::Owned(bytes)
    }

    /// The bytes of the name as they were written.
    pub fn as_bytes(&self) -> (b: &[u8])
        ensures
            b@ == self.bytes(),
    {
        match self {
            LocalName::Borrowed(b) => b,
            LocalName::Owned(v) => v.as_slice(),
        }
    }

    /// The same name with bytes of its own.
    pub fn into_owned(self) -> (name: LocalName<'static>)
        ensures
            name.bytes() == self.bytes(),
            name@ == self@,
            name is Owned,
    {
        match self {
            LocalName::Borrowed(b) => LocalName::Owned(copy_bytes(b)),
            LocalName::Owned(v) => LocalName::Owned(v),
        }
    }

    /// Whether two names are the same tag name.
    pub fn same_as(&self, other: &LocalName<'_>) -> (r: bool)
        ensures
            r == (self@ == other@),
    {
        lowercase_equal(self.as_bytes(), other.as_bytes())
    }
}

/// Copies a slice into a vector.
pub fn copy_bytes(bytes: &[u8]) -> (v: Vec<u8>)
    ensures
        v@ == bytes@,
{
    let mut v: Vec<u8> = Vec::new();
    let mut i: usize = 0;
    while i < bytes.len()
        invariant
            i <= bytes.len(),
            v@ == bytes@.take(i as int),
        decreases bytes.len() - i,
    {
        v.push(bytes[i]);
        i += 1;
        assert(bytes@.take(i as int) == bytes@.take(i - 1).push(bytes@[i - 1]));
    }
    assert(bytes@.take(bytes.len() as int) == bytes@);
    v
}

/// Whether two byte strings are equal once both are lower-cased.
pub fn lowercase_equal(a: &[u8], b: &[u8]) -> (r: bool)
    ensures
        r == (lowercased(a@) == lowercased(b@)),
{
    if a.len() != b.len() {
        assert(lowercased(a@).len() != lowercased(b@).len());
        return false;
    }
    let mut i: usize = 0;
    while i < a.len()
        invariant
            i <= a.len(),
            a.len() == b.len(),
            forall|j: int| 0 <= j < i ==> ascii_lower(a@[j]) == ascii_lower(b@[j]),
        decreases a.len() - i,
    {
        if to_ascii_lower(a[i]) != to_ascii_lower(b[i]) {
            assert(lowercased(a@)[i as int] != lowercased(b@)[i as int]);
            return false;
        }
        i += 1;
    }
    assert(lowercased(a@) =~= lowercased(b@));
    true
}

/// Whether `bytes`, lower-cased, spells exactly `word`.
pub fn lowercase_is(bytes: &[u8], word: &[u8]) -> (r: bool)
    ensures
        r == (lowercased(bytes@) == word@),
{
    if bytes.len() != word.len() {
        assert(lowercased(bytes@).len() != word@.len());
        return false;
    }
    let mut i: usize = 0;
    while i < bytes.len()
        invariant
            i <= bytes.len(),
            bytes.len() == word.len(),
            forall|j: int| 0 <= j < i ==> ascii_lower(bytes@[j]) == word@[j],
        decreases bytes.len() - i,
    {
        if to_ascii_lower(bytes[i]) != word[i] {
            assert(lowercased(bytes@)[i as int] != word@[i as int]);
            return false;
        }
        i += 1;
    }
    assert(lowercased(bytes@) =~= word@);
    true
}

/// The tag names of HTML's void elements: `area`, `base`, `br`, `col`,
/// `embed`, `hr`, `img`, `input`, `link`, `meta`, `param`, `source`, `track`
/// and `wbr`.
pub open spec fn void_names() -> Seq<Seq<u8>> {
    seq![
        seq![0x61u8, 0x72, 0x65, 0x61],
        seq![0x62u8, 0x61, 0x73, 0x65],
        seq![0x62u8, 0x72],
        seq![0x63u8, 0x6f, 0x6c],
        seq![0x65u8, 0x6d, 0x62, 0x65, 0x64],
        seq![0x68u8, 0x72],
        seq![0x69u8, 0x6d, 0x67],
        seq![0x69u8, 0x6e, 0x70, 0x75, 0x74],
        seq![0x6cu8, 0x69, 0x6e, 0x6b],
        seq![0x6du8, 0x65, 0x74, 0x61],
        seq![0x70u8, 0x61, 0x72, 0x61, 0x6d],
        seq![0x73u8, 0x6f, 0x75, 0x72, 0x63, 0x65],
        seq![0x74u8, 0x72, 0x61, 0x63, 0x6b],
        seq![0x77u8, 0x62, 0x72],
    ]
}

/// Whether a (lower-cased) tag name is that of a void element.
pub open spec fn is_void_name(name: Seq<u8>) -> bool {
    void_names().contains(name)
}

/// Whether an element of this name is void in HTML: it has no content and no
/// end tag.
pub fn is_void_element(name: &LocalName<'_>) -> (r: bool)
    ensures
        r == is_void_name(name@),
{
    let b = name.as_bytes();
    let area: [u8; 4] = [0x61, 0x72, 0x65, 0x61];
    let base: [u8; 4] = [0x62, 0x61, 0x73, 0x65];
    let br: [u8; 2] = [0x62, 0x72];
    let col: [u8; 3] = [0x63, 0x6f, 0x6c];
    let embed: [u8; 5] = [0x65, 0x6d, 0x62, 0x65, 0x64];
    let hr: [u8; 2] = [0x68, 0x72];
    let img: [u8; 3] = [0x69, 0x6d, 0x67];
    let input: [u8; 5] = [0x69, 0x6e, 0x70, 0x75, 0x74];
    let link: [u8; 4] = [0x6c, 0x69, 0x6e, 0x6b];
    let meta: [u8; 4] = [0x6d, 0x65, 0x74, 0x61];
    let param: [u8; 5] = [0x70, 0x61, 0x72, 0x61, 0x6d];
    let source: [u8; 6] = [0x73, 0x6f, 0x75, 0x72, 0x63, 0x65];
    let track: [u8; 5] = [0x74, 0x72, 0x61, 0x63, 0x6b];
    let wbr: [u8; 3] = [0x77, 0x62, 0x72];
    let r = lowercase_is(b, area.as_slice()) || lowercase_is(b, base.as_slice())
        || lowercase_is(b, br.as_slice()) || lowercase_is(b, col.as_slice())
        || lowercase_is(b, embed.as_slice()) || lowercase_is(b, hr.as_slice())
        || lowercase_is(b, img.as_slice()) || lowercase_is(b, input.as_slice())
        || lowercase_is(b, link.as_slice()) || lowercase_is(b, meta.as_slice())
        || lowercase_is(b, param.as_slice()) || lowercase_is(b, source.as_slice())
        || lowercase_is(b, track.as_slice()) || lowercase_is(b, wbr.as_slice());
    proof {
        let names = void_names();
        assert(names.len() == 14);
        assert(area@ =~= names[0]);
        assert(base@ =~= names[1]);
        assert(br@ =~= names[2]);
        assert(col@ =~= names[3]);
        assert(embed@ =~= names[4]);
        assert(hr@ =~= names[5]);
        assert(img@ =~= names[6]);
        assert(input@ =~= names[7]);
        assert(link@ =~= names[8]);
        assert(meta@ =~= names[9]);
        assert(param@ =~= names[10]);
        assert(source@ =~= names[11]);
        assert(track@ =~= names[12]);
        assert(wbr@ =~= names[13]);
    }
    r
}

} // verus!
