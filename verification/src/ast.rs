//! Selectors as the selector parser hands them over: each a chain of
//! compound selectors joined by combinators, with the payload that stands
//! for it.

use vstd::prelude::*;
use vstd::utf8::encode_utf8;
use crate::error::SelectorError;

verus! {

/// How a compound selector is joined to the one before it.
#[derive(Clone, Copy, Debug, PartialEq, Eq, Structural)]
pub enum Combinator {
    /// `a > b`: the element is a child of the one before.
    Child,
    /// `a b`: the element is a descendant of the one before.
    Descendant,
}

/// What an attribute selector asks of the attribute's value.
#[derive(Clone, Copy, Debug, PartialEq, Eq, Structural)]
pub enum AttributeOperator {
    /// `[name]`
    Exists,
    /// `[name=value]`
    Equals,
    /// `[name^=value]`
    StartsWith,
    /// `[name$=value]`
    EndsWith,
}

/// One attribute selector, such as `[href^=http]`, possibly negated.
#[derive(Debug)]
pub struct AttributeSelector {
    pub name: String,
    pub operator: AttributeOperator,
    /// The value that the operator compares with; `Exists` ignores it.
    pub value: String,
    pub negation: bool,
}

/// One compound selector, such as `a[href]`: a tag name, or none for `*`,
/// and attribute selectors.
#[derive(Debug)]
pub struct CompoundSelector {
    pub local_name: Option<String>,
    pub attributes: Vec<AttributeSelector>,
}

/// One selector with its payload. Between each two compound selectors
/// stands one combinator.
#[derive(Debug)]
pub struct Selector<P> {
    pub compounds: Vec<CompoundSelector>,
    pub combinators: Vec<Combinator>,
    pub payload: P,
}

/// The selectors that a machine is to match.
#[derive(Debug)]
pub struct Ast<P> {
    pub selectors: Vec<Selector<P>>,
}

/// The greatest length in bytes, as UTF-8, of a name or a value in a
/// selector.
pub const MAX_TEXT_BYTES: usize = 65536;

/// The text is no longer than `MAX_TEXT_BYTES`.
pub open spec fn text_fits(text: Seq<char>) -> bool {
    encode_utf8(text).len() <= MAX_TEXT_BYTES
}

impl AttributeSelector {
    /// The name and the value are no longer than `MAX_TEXT_BYTES`.
    pub open spec fn texts_fit(&self) -> bool {
        text_fits(self.name@) && text_fits(self.value@)
    }
}

impl CompoundSelector {
    /// No name or value in the compound selector is longer than
    /// `MAX_TEXT_BYTES`.
    pub open spec fn texts_fit(&self) -> bool {
        &&& self.local_name matches Some(name) ==> text_fits(name@)
        &&& forall|k: int| 0 <= k < self.attributes@.len() ==> (#[trigger] self.attributes@[k]).texts_fit()
    }
}

impl<P> Selector<P> {
    /// There is a compound selector, and one combinator between each two.
    pub open spec fn well_formed(&self) -> bool {
        self.compounds@.len() == self.combinators@.len() + 1
    }

    /// No name or value in the selector is longer than `MAX_TEXT_BYTES`.
    pub open spec fn texts_fit(&self) -> bool {
        forall|j: int| 0 <= j < self.compounds@.len() ==> (#[trigger] self.compounds@[j]).texts_fit()
    }
}

/// The number of compound selectors that do not stand first in their
/// selector.
pub open spec fn tail_count<P>(selectors: Seq<Selector<P>>) -> nat
    decreases selectors.len(),
{
    if selectors.len() == 0 {
        0
    } else {
        tail_count(selectors.drop_last()) + if selectors.last().compounds@.len() > 0 {
            (selectors.last().compounds@.len() - 1) as nat
        } else {
            0
        }
    }
}

/// What is wrong with the selectors before any of their text is encoded, if
/// anything is: a malformed selector first, then an overlong text, then
/// their number.
pub open spec fn ast_error<P>(selectors: Seq<Selector<P>>) -> Option<SelectorError> {
    if exists|s: int| 0 <= s < selectors.len() && !(#[trigger] selectors[s]).well_formed() {
        Some(SelectorError::MalformedSelector)
    } else if exists|s: int| 0 <= s < selectors.len() && !(#[trigger] selectors[s]).texts_fit() {
        Some(SelectorError::TextTooLong)
    } else if selectors.len() + tail_count(selectors) > usize::MAX {
        Some(SelectorError::ProgramTooLarge)
    } else {
        None
    }
}

/// The selectors up to the `s`-th have as many later compound selectors as
/// those before the `s`-th and the `s`-th itself.
pub proof fn lemma_tail_count_step<P>(selectors: Seq<Selector<P>>, s: int)
    requires
        0 <= s < selectors.len(),
        selectors[s].well_formed(),
    ensures
        tail_count(selectors.take(s + 1)) == tail_count(selectors.take(s)) + selectors[s].compounds@.len()
            - 1,
{
    assert(selectors.take(s + 1).drop_last() =~= selectors.take(s));
    assert(selectors.take(s + 1).last() == selectors[s]);
}

/// Fewer selectors have no more later compound selectors.
pub proof fn lemma_tail_count_grows<P>(selectors: Seq<Selector<P>>, s: int)
    requires
        0 <= s <= selectors.len(),
    ensures
        tail_count(selectors.take(s)) <= tail_count(selectors),
    decreases selectors.len() - s,
{
    if s == selectors.len() {
        assert(selectors.take(s) =~= selectors);
    } else {
        lemma_tail_count_grows(selectors, s + 1);
        assert(selectors.take(s + 1).drop_last() =~= selectors.take(s));
    }
}

/// Whether the text is no longer than `MAX_TEXT_BYTES`.
pub fn text_is_short(text: &String) -> (r: bool)
    ensures
        r == text_fits(text@),
{
    text.as_str().as_bytes().len() <= MAX_TEXT_BYTES
}

/// Whether no name or value in the compound selector is longer than
/// `MAX_TEXT_BYTES`.
pub fn compound_texts_are_short(compound: &CompoundSelector) -> (r: bool)
    ensures
        r == compound.texts_fit(),
{
    if let Some(name) = &compound.local_name {
        if !text_is_short(name) {
            return false;
        }
    }
    let mut k: usize = 0;
    while k < compound.attributes.len()
        invariant
            k <= compound.attributes@.len(),
            forall|i: int| 0 <= i < k ==> (#[trigger] compound.attributes@[i]).texts_fit(),
        decreases compound.attributes@.len() - k,
    {
        let attribute = &compound.attributes[k];
        if !text_is_short(&attribute.name) || !text_is_short(&attribute.value) {
            return false;
        }
        k += 1;
    }
    true
}

/// Whether no name or value in the selector is longer than
/// `MAX_TEXT_BYTES`.
pub fn selector_texts_are_short<P>(selector: &Selector<P>) -> (r: bool)
    ensures
        r == selector.texts_fit(),
{
    let mut j: usize = 0;
    while j < selector.compounds.len()
        invariant
            j <= selector.compounds@.len(),
            forall|i: int| 0 <= i < j ==> (#[trigger] selector.compounds@[i]).texts_fit(),
        decreases selector.compounds@.len() - j,
    {
        if !compound_texts_are_short(&selector.compounds[j]) {
            return false;
        }
        j += 1;
    }
    true
}

/// Checks the selectors before any of their text is encoded, and counts the
/// instructions that they need.
pub fn validate<P>(ast: &Ast<P>) -> (r: Result<usize, SelectorError>)
    ensures
        match r {
            Ok(total) => ast_error(ast.selectors@) is None && total == ast.selectors@.len() + tail_count(
                ast.selectors@,
            ),
            Err(e) => ast_error(ast.selectors@) == Some(e),
        },
{
    let n = ast.selectors.len();
    let mut s: usize = 0;
    while s < n
        invariant
            n == ast.selectors@.len(),
            s <= n,
            forall|i: int| 0 <= i < s ==> (#[trigger] ast.selectors@[i]).well_formed(),
        decreases n - s,
    {
        let selector = &ast.selectors[s];
        if selector.compounds.len() == 0 || selector.compounds.len() - 1 != selector.combinators.len() {
            assert(!ast.selectors@[s as int].well_formed());
            return Err(SelectorError::MalformedSelector);
        }
        s += 1;
    }
    s = 0;
    while s < n
        invariant
            n == ast.selectors@.len(),
            s <= n,
            forall|i: int| 0 <= i < n ==> (#[trigger] ast.selectors@[i]).well_formed(),
            forall|i: int| 0 <= i < s ==> (#[trigger] ast.selectors@[i]).texts_fit(),
        decreases n - s,
    {
        if !selector_texts_are_short(&ast.selectors[s]) {
            assert(!ast.selectors@[s as int].texts_fit());
            return Err(SelectorError::TextTooLong);
        }
        s += 1;
    }
    let mut total: usize = n;
    s = 0;
    assert(ast.selectors@.take(0) =~= Seq::<Selector<P>>::empty());
    while s < n
        invariant
            n == ast.selectors@.len(),
            s <= n,
            forall|i: int| 0 <= i < n ==> (#[trigger] ast.selectors@[i]).well_formed(),
            forall|i: int| 0 <= i < n ==> (#[trigger] ast.selectors@[i]).texts_fit(),
            total == n + tail_count(ast.selectors@.take(s as int)),
        decreases n - s,
    {
        let more = ast.selectors[s].compounds.len() - 1;
        proof {
            lemma_tail_count_step(ast.selectors@, s as int);
            lemma_tail_count_grows(ast.selectors@, s + 1);
        }
        if more > usize::MAX - total {
            return Err(SelectorError::ProgramTooLarge);
        }
        total += more;
        s += 1;
    }
    assert(ast.selectors@.take(n as int) =~= ast.selectors@);
    Ok(total)
}

} // verus!
