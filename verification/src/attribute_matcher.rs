//! Answers questions about the attributes of one start tag, read straight from
//! the bytes of the tag.

use vstd::prelude::*;
use vstd::slice::slice_subrange;
use crate::html::lowercased;

verus! {

/// A half-open span `[start, end)` of the start tag's bytes.
#[derive(Clone, Copy, Debug, PartialEq, Eq, Structural)]
pub struct Span {
    pub start: usize,
    pub end: usize,
}

impl Span {
    /// The span lies within `len` bytes.
    pub open spec fn within(&self, len: nat) -> bool {
        self.start <= self.end && self.end <= len
    }

    /// The bytes of `input` that the span covers.
    pub open spec fn of(&self, input: Seq<u8>) -> Seq<u8> {
        input.subrange(self.start as int, self.end as int)
    }
}

/// Where one attribute's name and value stand in the start tag.
#[derive(Clone, Copy, Debug, PartialEq, Eq, Structural)]
pub struct AttributeOutline {
    pub name: Span,
    pub value: Span,
}

/// What the tokenizer knows of a start tag once it has scanned it whole.
#[derive(Clone, Copy, Debug)]
pub struct AuxStartTagInfo<'i> {
    /// The bytes that the spans of `attr_buffer` point into.
    pub input: &'i [u8],
    /// The attributes, in source order.
    pub attr_buffer: &'i [AttributeOutline],
    /// Whether the tag ends in `/>`.
    pub self_closing: bool,
}

/// One attribute as the predicates see it: the name lower-cased, the value as
/// written.
pub struct Attr {
    pub name: Seq<u8>,
    pub value: Seq<u8>,
}

/// Every span of `outlines` lies within `input`.
pub open spec fn spans_within(input: Seq<u8>, outlines: Seq<AttributeOutline>) -> bool {
    forall|i: int|
        0 <= i < outlines.len() ==> (#[trigger] outlines[i]).name.within(input.len())
            && outlines[i].value.within(input.len())
}

/// The attributes that `outlines` cuts out of `input`.
pub open spec fn attrs_of(input: Seq<u8>, outlines: Seq<AttributeOutline>) -> Seq<Attr> {
    Seq::new(
        outlines.len(),
        |i: int| Attr { name: lowercased(outlines[i].name.of(input)), value: outlines[i].value.of(input) },
    )
}

/// Some attribute is called `name`.
pub open spec fn has_attr(attrs: Seq<Attr>, name: Seq<u8>) -> bool {
    exists|i: int| 0 <= i < attrs.len() && (#[trigger] attrs[i]).name == name
}

/// `i` is the first attribute called `name`.
pub open spec fn is_first_named(attrs: Seq<Attr>, name: Seq<u8>, i: int) -> bool {
    &&& 0 <= i < attrs.len()
    &&& attrs[i].name == name
    &&& forall|j: int| 0 <= j < i ==> (#[trigger] attrs[j]).name != name
}

/// The value of the first attribute called `name`, if there is one. A later
/// attribute of the same name is ignored, as HTML asks.
pub open spec fn attr_value(attrs: Seq<Attr>, name: Seq<u8>) -> Option<Seq<u8>> {
    if has_attr(attrs, name) {
        Some(attrs[choose|i: int| is_first_named(attrs, name, i)].value)
    } else {
        None
    }
}

/// The first attribute of a name is the one whose value `attr_value` gives.
pub proof fn lemma_first_named_gives_value(attrs: Seq<Attr>, name: Seq<u8>, i: int)
    requires
        is_first_named(attrs, name, i),
    ensures
        attr_value(attrs, name) == Some(attrs[i].value),
{
    let k = choose|k: int| is_first_named(attrs, name, k);
    assert(has_attr(attrs, name));
    if k < i {
        assert(attrs[k].name != name);
    } else if i < k {
        assert(attrs[i].name != name);
    }
}

/// Whether the span lies within the first `len` bytes.
pub fn span_is_within(span: &Span, len: usize) -> (r: bool)
    ensures
        r == span.within(len as nat),
{
    span.start <= span.end && span.end <= len
}

/// Whether every span of `outlines` lies within `input`.
pub fn spans_are_within(input: &[u8], outlines: &[AttributeOutline]) -> (r: bool)
    ensures
        r == spans_within(input@, outlines@),
{
    let mut i: usize = 0;
    while i < outlines.len()
        invariant
            i <= outlines.len(),
            forall|j: int|
                0 <= j < i ==> (#[trigger] outlines@[j]).name.within(input@.len())
                    && outlines@[j].value.within(input@.len()),
        decreases outlines.len() - i,
    {
        if !span_is_within(&outlines[i].name, input.len()) || !span_is_within(
            &outlines[i].value,
            input.len(),
        ) {
            return false;
        }
        i += 1;
    }
    true
}

/// Whether two byte strings are equal.
pub fn bytes_equal(a: &[u8], b: &[u8]) -> (r: bool)
    ensures
        r == (a@ == b@),
{
    if a.len() != b.len() {
        return false;
    }
    let mut i: usize = 0;
    while i < a.len()
        invariant
            i <= a.len(),
            a.len() == b.len(),
            forall|j: int| 0 <= j < i ==> a@[j] == b@[j],
        decreases a.len() - i,
    {
        if a[i] != b[i] {
            return false;
        }
        i += 1;
    }
    assert(a@ =~= b@);
    true
}

/// Whether `hay` begins with `prefix`.
pub fn starts_with(hay: &[u8], prefix: &[u8]) -> (r: bool)
    ensures
        r == prefix@.is_prefix_of(hay@),
{
    if prefix.len() > hay.len() {
        return false;
    }
    let head = slice_subrange(hay, 0, prefix.len());
    bytes_equal(prefix, head)
}

/// Whether `hay` ends with `suffix`.
pub fn ends_with(hay: &[u8], suffix: &[u8]) -> (r: bool)
    ensures
        r == suffix@.is_suffix_of(hay@),
{
    if suffix.len() > hay.len() {
        return false;
    }
    let tail = slice_subrange(hay, hay.len() - suffix.len(), hay.len());
    bytes_equal(suffix, tail)
}

/// The attributes of the start tag that is being matched.
pub struct AttributeMatcher<'i> {
    input: &'i [u8],
    attributes: &'i [AttributeOutline],
}

impl<'i> View for AttributeMatcher<'i> {
    type V = Seq<Attr>;

    closed spec fn view(&self) -> Seq<Attr> {
        attrs_of(self.input@, self.attributes@)
    }
}

impl<'i> AttributeMatcher<'i> {
    #[verifier::type_invariant]
    spec fn spans_fit(&self) -> bool {
        spans_within(self.input@, self.attributes@)
    }

    /// A matcher over the attributes that `attr_buffer` cuts out of `input`.
    pub fn new(input: &'i [u8], attr_buffer: &'i [AttributeOutline]) -> (m: Self)
        requires
            spans_within(input@, attr_buffer@),
        ensures
            m@ == attrs_of(input@, attr_buffer@),
    {
        AttributeMatcher { input, attributes: attr_buffer }
    }

    /// The value of the first attribute called `name`, which is given in lower
    /// case.
    pub fn find_value(&self, name: &[u8]) -> (r: Option<&'i [u8]>)
        ensures
            match r {
                Some(v) => attr_value(self@, name@) == Some(v@),
                None => attr_value(self@, name@) is None,
            },
    {
        proof {
            use_type_invariant(self);
        }
        let mut i: usize = 0;
        while i < self.attributes.len()
            invariant
                i <= self.attributes.len(),
                spans_within(self.input@, self.attributes@),
                forall|j: int| 0 <= j < i ==> (#[trigger] self@[j]).name != name@,
            decreases self.attributes.len() - i,
        {
            let outline = &self.attributes[i];
            let attr_name = slice_subrange(self.input, outline.name.start, outline.name.end);
            if crate::html::lowercase_is(attr_name, name) {
                let value = slice_subrange(self.input, outline.value.start, outline.value.end);
                proof {
                    assert(is_first_named(self@, name@, i as int));
                    lemma_first_named_gives_value(self@, name@, i as int);
                }
                return Some(value);
            }
            i += 1;
        }
        None
    }

    /// Whether some attribute is called `name`.
    pub fn has_attribute(&self, name: &[u8]) -> (r: bool)
        ensures
            r == has_attr(self@, name@),
    {
        self.find_value(name).is_some()
    }
}

/// What an attribute's value is asked.
#[derive(Debug)]
pub enum AttributeTest {
    /// `[name]`: the attribute is there.
    Exists,
    /// `[name=value]`: the value is exactly this.
    Equals(Vec<u8>),
    /// `[name^=value]`: the value begins with this.
    StartsWith(Vec<u8>),
    /// `[name$=value]`: the value ends with this.
    EndsWith(Vec<u8>),
}

impl AttributeTest {
    /// Whether the looked-up value passes the test.
    pub open spec fn passes(&self, value: Option<Seq<u8>>) -> bool {
        match value {
            None => false,
            Some(v) => match self {
                AttributeTest::Exists => true,
                AttributeTest::Equals(x) => v == x@,
                AttributeTest::StartsWith(x) => x@.is_prefix_of(v),
                AttributeTest::EndsWith(x) => x@.is_suffix_of(v),
            },
        }
    }
}

/// One attribute predicate of a selector, possibly negated.
#[derive(Debug)]
pub struct AttributeExpr {
    /// The attribute's name, in lower case.
    pub name: Vec<u8>,
    pub test: AttributeTest,
    pub negation: bool,
}

impl AttributeExpr {
    /// Whether the predicate holds of these attributes.
    pub open spec fn holds(&self, attrs: Seq<Attr>) -> bool {
        self.test.passes(attr_value(attrs, self.name@)) != self.negation
    }

    /// Whether the predicate holds of the start tag's attributes.
    pub fn eval(&self, attr_matcher: &AttributeMatcher<'_>) -> (r: bool)
        ensures
            r == self.holds(attr_matcher@),
    {
        let passed = match attr_matcher.find_value(self.name.as_slice()) {
            None => false,
            Some(v) => match &self.test {
                AttributeTest::Exists => true,
                AttributeTest::Equals(x) => bytes_equal(v, x.as_slice()),
                AttributeTest::StartsWith(x) => starts_with(v, x.as_slice()),
                AttributeTest::EndsWith(x) => ends_with(v, x.as_slice()),
            },
        };
        passed != self.negation
    }
}

} // verus!
