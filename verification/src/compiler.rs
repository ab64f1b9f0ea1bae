//! Turns selectors into a program: one instruction for each compound
//! selector, the first of each selector among the entry points, each later
//! one reached by a jump from the one before it. Names and values are
//! encoded the way the document is, so that they can be compared with the
//! document's bytes.

use vstd::prelude::*;
use encoding_rs::Encoding;
use crate::ast::{
    ast_error, lemma_tail_count_grows, lemma_tail_count_step, tail_count, text_fits, validate, Ast,
    AttributeOperator, AttributeSelector, Combinator, CompoundSelector, Selector,
};
use crate::attribute_matcher::{AttributeExpr, AttributeTest};
use crate::error::SelectorError;
use crate::html::{lowercased, to_ascii_lower};
use crate::program::{
    AddressRange, BranchView, ExecutionBranch, Instruction, LocalNameExpr, LocalNameTest, Program,
};

verus! {

/// A character encoding, as the `encoding_rs` crate knows it.
#[verifier::external_type_specification]
#[verifier::external_body]
pub struct ExEncoding(Encoding);

/// A text in the bytes of some encoding.
#[derive(Debug)]
pub struct EncodedText {
    pub bytes: Vec<u8>,
    /// Whether the text has a character that the encoding cannot express;
    /// the bytes then hold a numeric character reference in its place.
    pub had_unmappable: bool,
}

/// An [`EncodedText`] as a mathematical value.
pub struct EncodedTextView {
    pub bytes: Seq<u8>,
    pub had_unmappable: bool,
}

impl View for EncodedText {
    type V = EncodedTextView;

    open spec fn view(&self) -> EncodedTextView {
        EncodedTextView { bytes: self.bytes@, had_unmappable: self.had_unmappable }
    }
}

/// What `Encoding::encode` of `encoding_rs` makes of a whole text: the bytes
/// of the text in the encoding's output encoding, and whether the text had a
/// character that this encoding cannot express.
pub uninterp spec fn encoded_as(encoding: Encoding, text: Seq<char>) -> EncodedTextView;

/// Calls `Encoding::encode` of `encoding_rs` on a whole text. The claim is
/// that the bytes and the flag that come back depend on the encoding and on
/// the text alone; what they are is not said. The text may be no longer than
/// `MAX_TEXT_BYTES`: `encode` stops the program where the size of its buffer
/// overflows `usize`, which a text of that length cannot bring about.
#[verifier::external_body]
fn encode_text(encoding: &'static Encoding, text: &str) -> (encoded: EncodedText)
    requires
        text_fits(text@),
    ensures
        encoded@ == encoded_as(*encoding, text@),
{
    let (bytes, _, had_unmappable) = encoding.encode(text);
    EncodedText { bytes: bytes.into_owned(), had_unmappable }
}

/// The bytes of an encoded text, where the encoding could express all of
/// it.
pub fn accept_encoded(encoded: EncodedText) -> (r: Result<Vec<u8>, SelectorError>)
    ensures
        match r {
            Ok(bytes) => !encoded@.had_unmappable && bytes@ == encoded@.bytes,
            Err(e) => encoded@.had_unmappable && e == SelectorError::UnencodableText,
        },
{
    if encoded.had_unmappable {
        Err(SelectorError::UnencodableText)
    } else {
        Ok(encoded.bytes)
    }
}

/// The bytes with every ASCII letter lower-cased.
pub fn lowercase_bytes(bytes: &Vec<u8>) -> (lower: Vec<u8>)
    ensures
        lower@ == lowercased(bytes@),
{
    let mut lower: Vec<u8> = Vec::new();
    let mut i: usize = 0;
    while i < bytes.len()
        invariant
            i <= bytes@.len(),
            lower@ == lowercased(bytes@.take(i as int)),
        decreases bytes@.len() - i,
    {
        lower.push(to_ascii_lower(bytes[i]));
        i += 1;
        assert(lower@ =~= lowercased(bytes@.take(i as int)));
    }
    assert(bytes@.take(i as int) =~= bytes@);
    lower
}

/// The encoding can express every character of the text.
pub open spec fn encodable(encoding: Encoding, text: Seq<char>) -> bool {
    !encoded_as(encoding, text).had_unmappable
}

/// A name as instructions hold it: encoded, then lower-cased.
pub open spec fn name_bytes(encoding: Encoding, name: Seq<char>) -> Seq<u8> {
    lowercased(encoded_as(encoding, name).bytes)
}

/// A value as instructions hold it: encoded.
pub open spec fn value_bytes(encoding: Encoding, value: Seq<char>) -> Seq<u8> {
    encoded_as(encoding, value).bytes
}

/// The encoding can express the attribute selector: its name, and its value
/// where the operator looks at it.
pub open spec fn attribute_encodable(encoding: Encoding, attribute: AttributeSelector) -> bool {
    &&& encodable(encoding, attribute.name@)
    &&& attribute.operator != AttributeOperator::Exists ==> encodable(encoding, attribute.value@)
}

/// The encoding can express the compound selector.
pub open spec fn compound_encodable(encoding: Encoding, compound: CompoundSelector) -> bool {
    &&& compound.local_name matches Some(name) ==> encodable(encoding, name@)
    &&& forall|k: int|
        0 <= k < compound.attributes@.len() ==> attribute_encodable(
            encoding,
            #[trigger] compound.attributes@[k],
        )
}

/// The encoding can express the selector.
pub open spec fn selector_encodable<P>(encoding: Encoding, selector: Selector<P>) -> bool {
    forall|j: int|
        0 <= j < selector.compounds@.len() ==> compound_encodable(
            encoding,
            #[trigger] selector.compounds@[j],
        )
}

/// The encoding can express every selector.
pub open spec fn all_encodable<P>(encoding: Encoding, selectors: Seq<Selector<P>>) -> bool {
    forall|s: int| 0 <= s < selectors.len() ==> selector_encodable(encoding, #[trigger] selectors[s])
}

/// The predicate stands for the attribute selector: the same operator, the
/// same negation, the name encoded and in lower case, the value encoded.
pub open spec fn attribute_encoded(encoding: Encoding, attribute: AttributeSelector, expr: AttributeExpr) -> bool {
    &&& expr.negation == attribute.negation
    &&& expr.name@ == name_bytes(encoding, attribute.name@)
    &&& match attribute.operator {
        AttributeOperator::Exists => expr.test is Exists,
        AttributeOperator::Equals => expr.test matches AttributeTest::Equals(value) && value@
            == value_bytes(encoding, attribute.value@),
        AttributeOperator::StartsWith => expr.test matches AttributeTest::StartsWith(value) && value@
            == value_bytes(encoding, attribute.value@),
        AttributeOperator::EndsWith => expr.test matches AttributeTest::EndsWith(value) && value@
            == value_bytes(encoding, attribute.value@),
    }
}

/// The instruction stands for the compound selector: it asks the tag name
/// what the selector asks, any name for `*` and else the selector's name,
/// encoded and in lower case; and it asks each attribute, in the selector's
/// order, what the selector asks.
pub open spec fn compound_encoded<P>(encoding: Encoding, compound: CompoundSelector, instr: Instruction<P>) -> bool {
    &&& instr.local_name_exprs@.len() == 1
    &&& !instr.local_name_exprs@[0].negation
    &&& match compound.local_name {
        None => instr.local_name_exprs@[0].test is Any,
        Some(local_name) => instr.local_name_exprs@[0].test matches LocalNameTest::Is(name) && name@
            == name_bytes(encoding, local_name@),
    }
    &&& instr.attribute_exprs@.len() == compound.attributes@.len()
    &&& forall|k: int|
        0 <= k < compound.attributes@.len() ==> attribute_encoded(
            encoding,
            #[trigger] compound.attributes@[k],
            instr.attribute_exprs@[k],
        )
}

/// The address of the instruction for the `j`-th compound selector of the
/// `s`-th selector: the first compound selectors stand at the beginning, in
/// the order of their selectors; the later ones follow, selector after
/// selector.
pub open spec fn addr_of<P>(selectors: Seq<Selector<P>>, s: int, j: int) -> int {
    if j == 0 {
        s
    } else {
        selectors.len() + tail_count(selectors.take(s)) + j - 1
    }
}

/// The range that holds the one address `addr`.
pub open spec fn one_at(addr: int) -> AddressRange {
    AddressRange { start: addr as usize, end: (addr + 1) as usize }
}

/// The branch is that of the `j`-th compound selector of a selector whose
/// second compound selector has its instruction at `first_tail`, the third
/// at the next address, and so on: the last compound selector reports the
/// payload; any other jumps to the next, for children or for descendants as
/// the combinator between them says.
pub open spec fn chain_links<P>(selector: Selector<P>, first_tail: int, j: int, branch: BranchView<P>) -> bool {
    if j == selector.compounds@.len() - 1 {
        &&& branch.matched_payload == seq![selector.payload]
        &&& branch.jumps is None
        &&& branch.hereditary_jumps is None
    } else {
        let next = one_at(first_tail + j);
        &&& branch.matched_payload == Seq::<P>::empty()
        &&& match selector.combinators@[j] {
            Combinator::Child => branch.jumps == Some(next) && branch.hereditary_jumps is None,
            Combinator::Descendant => branch.jumps is None && branch.hereditary_jumps == Some(next),
        }
    }
}

/// The branch is that of the `j`-th compound selector of the `s`-th
/// selector.
pub open spec fn branch_links<P>(selectors: Seq<Selector<P>>, s: int, j: int, branch: BranchView<P>) -> bool {
    chain_links(selectors[s], addr_of(selectors, s, 1), j, branch)
}

/// The program is what the selectors compile to for documents in
/// `encoding`: its entry points are the first compound selectors, and each
/// compound selector has its instruction at its address.
pub open spec fn compiled_from<P>(encoding: Encoding, selectors: Seq<Selector<P>>, program: Program<P>) -> bool {
    &&& program.wf()
    &&& program.len() == selectors.len() + tail_count(selectors)
    &&& program.entry_points() == (AddressRange { start: 0, end: selectors.len() as usize })
    &&& forall|s: int, j: int|
        0 <= s < selectors.len() && 0 <= j < selectors[s].compounds@.len() ==> instr_stands_for(
            encoding,
            selectors,
            s,
            j,
            #[trigger] program.instructions()[addr_of(selectors, s, j)],
        )
}

/// The instruction is that of the `j`-th compound selector of the `s`-th
/// selector.
pub open spec fn instr_stands_for<P>(
    encoding: Encoding,
    selectors: Seq<Selector<P>>,
    s: int,
    j: int,
    instr: Instruction<P>,
) -> bool {
    compound_encoded(encoding, selectors[s].compounds@[j], instr) && branch_links(
        selectors,
        s,
        j,
        instr.associated_branch@,
    )
}

/// What compiling the selectors for documents in `encoding` comes to: the
/// error that is wrong with them before any text is encoded, or else the
/// error of a text that the encoding cannot express, or else the program.
pub open spec fn compiles_to<P>(
    encoding: Encoding,
    selectors: Seq<Selector<P>>,
    r: Result<Program<P>, SelectorError>,
) -> bool {
    match ast_error(selectors) {
        Some(e) => r matches Err(x) && x == e,
        None => if all_encodable(encoding, selectors) {
            r matches Ok(program) && compiled_from(encoding, selectors, program)
        } else {
            r matches Err(x) && x == SelectorError::UnencodableText
        },
    }
}

/// Encodes a name and lower-cases it.
fn encode_name(encoding: &'static Encoding, name: &String) -> (r: Result<Vec<u8>, SelectorError>)
    requires
        text_fits(name@),
    ensures
        match r {
            Ok(bytes) => encodable(*encoding, name@) && bytes@ == name_bytes(*encoding, name@),
            Err(e) => !encodable(*encoding, name@) && e == SelectorError::UnencodableText,
        },
{
    match accept_encoded(encode_text(encoding, name.as_str())) {
        Ok(bytes) => Ok(lowercase_bytes(&bytes)),
        Err(e) => Err(e),
    }
}

/// Encodes a value.
fn encode_value(encoding: &'static Encoding, value: &String) -> (r: Result<Vec<u8>, SelectorError>)
    requires
        text_fits(value@),
    ensures
        match r {
            Ok(bytes) => encodable(*encoding, value@) && bytes@ == value_bytes(*encoding, value@),
            Err(e) => !encodable(*encoding, value@) && e == SelectorError::UnencodableText,
        },
{
    accept_encoded(encode_text(encoding, value.as_str()))
}

/// Encodes an attribute selector.
fn encode_attribute(encoding: &'static Encoding, attribute: &AttributeSelector) -> (r: Result<
    AttributeExpr,
    SelectorError,
>)
    requires
        attribute.texts_fit(),
    ensures
        match r {
            Ok(expr) => attribute_encodable(*encoding, *attribute) && attribute_encoded(
                *encoding,
                *attribute,
                expr,
            ),
            Err(e) => !attribute_encodable(*encoding, *attribute) && e
                == SelectorError::UnencodableText,
        },
{
    let name = match encode_name(encoding, &attribute.name) {
        Ok(name) => name,
        Err(e) => {
            return Err(e);
        },
    };
    let test = match attribute.operator {
        AttributeOperator::Exists => AttributeTest::Exists,
        AttributeOperator::Equals => match encode_value(encoding, &attribute.value) {
            Ok(value) => AttributeTest::Equals(value),
            Err(e) => {
                return Err(e);
            },
        },
        AttributeOperator::StartsWith => match encode_value(encoding, &attribute.value) {
            Ok(value) => AttributeTest::StartsWith(value),
            Err(e) => {
                return Err(e);
            },
        },
        AttributeOperator::EndsWith => match encode_value(encoding, &attribute.value) {
            Ok(value) => AttributeTest::EndsWith(value),
            Err(e) => {
                return Err(e);
            },
        },
    };
    Ok(AttributeExpr { name, test, negation: attribute.negation })
}

/// Encodes a compound selector into an instruction with the given branch.
fn encode_compound<P>(
    encoding: &'static Encoding,
    compound: &CompoundSelector,
    branch: ExecutionBranch<P>,
) -> (r: Result<Instruction<P>, SelectorError>)
    requires
        compound.texts_fit(),
    ensures
        match r {
            Ok(instr) => compound_encodable(*encoding, *compound) && compound_encoded(
                *encoding,
                *compound,
                instr,
            ) && instr.associated_branch == branch,
            Err(e) => !compound_encodable(*encoding, *compound) && e
                == SelectorError::UnencodableText,
        },
{
    let test = match &compound.local_name {
        None => LocalNameTest::Any,
        Some(name) => match encode_name(encoding, name) {
            Ok(bytes) => LocalNameTest::Is(bytes),
            Err(e) => {
                return Err(e);
            },
        },
    };
    let mut local_name_exprs: Vec<LocalNameExpr> = Vec::new();
    local_name_exprs.push(LocalNameExpr { test, negation: false });
    let mut attribute_exprs: Vec<AttributeExpr> = Vec::new();
    let mut k: usize = 0;
    while k < compound.attributes.len()
        invariant
            compound.texts_fit(),
            k <= compound.attributes@.len(),
            attribute_exprs@.len() == k,
            compound.local_name matches Some(name) ==> encodable(*encoding, name@),
            forall|i: int|
                0 <= i < k ==> attribute_encodable(*encoding, #[trigger] compound.attributes@[i])
                    && attribute_encoded(*encoding, compound.attributes@[i], attribute_exprs@[i]),
        decreases compound.attributes@.len() - k,
    {
        match encode_attribute(encoding, &compound.attributes[k]) {
            Ok(expr) => {
                attribute_exprs.push(expr);
            },
            Err(e) => {
                assert(!attribute_encodable(*encoding, compound.attributes@[k as int]));
                return Err(e);
            },
        }
        k += 1;
    }
    Ok(Instruction { local_name_exprs, attribute_exprs, associated_branch: branch })
}

/// The instruction that stands for the `j`-th compound selector of the
/// `s`-th selector while the program is being put together: the first
/// compound selectors are collected in `entries`, the later ones in `tails`.
pub open spec fn slot<P>(
    entries: Seq<Instruction<P>>,
    tails: Seq<Instruction<P>>,
    selectors: Seq<Selector<P>>,
    s: int,
    j: int,
) -> Instruction<P> {
    if j == 0 {
        entries[s]
    } else {
        tails[tail_count(selectors.take(s)) + j - 1]
    }
}

/// The first selectors have no more later compound selectors than the first
/// and some more.
pub proof fn lemma_tail_count_prefix<P>(selectors: Seq<Selector<P>>, a: int, b: int)
    requires
        0 <= a <= b <= selectors.len(),
    ensures
        tail_count(selectors.take(a)) <= tail_count(selectors.take(b)),
{
    lemma_tail_count_grows(selectors.take(b), a);
    assert(selectors.take(b).take(a) =~= selectors.take(a));
}

/// Compiles compound selectors to instructions for a document in a given
/// encoding.
pub struct Compiler {
    encoding: &'static Encoding,
}

impl Compiler {
    /// The encoding of the documents that the compiler compiles for.
    pub closed spec fn encoding(&self) -> Encoding {
        *self.encoding
    }

    /// A compiler for documents in `encoding`.
    pub fn new(encoding: &'static Encoding) -> (compiler: Self)
        ensures
            compiler.encoding() == *encoding,
    {
        Compiler { encoding }
    }

    /// Compiles one selector to the chain of its instructions, the first
    /// compound selector first. The instruction of the second compound
    /// selector will stand at `first_tail`, that of the third at the next
    /// address, and so on.
    fn compile_selector<P: Copy>(&self, selector: &Selector<P>, first_tail: usize) -> (r: Result<
        Vec<Instruction<P>>,
        SelectorError,
    >)
        requires
            selector.well_formed(),
            selector.texts_fit(),
            first_tail + selector.compounds@.len() - 1 <= usize::MAX,
        ensures
            match r {
                Ok(chain) => selector_encodable(self.encoding(), *selector) && chain@.len()
                    == selector.compounds@.len() && forall|j: int|
                    0 <= j < chain@.len() ==> compound_encoded(
                        self.encoding(),
                        selector.compounds@[j],
                        #[trigger] chain@[j],
                    ) && chain_links(*selector, first_tail as int, j, chain@[j].associated_branch@),
                Err(e) => !selector_encodable(self.encoding(), *selector) && e
                    == SelectorError::UnencodableText,
            },
    {
        let m = selector.compounds.len();
        let mut chain: Vec<Instruction<P>> = Vec::new();
        let mut j: usize = 0;
        while j < m
            invariant
                selector.well_formed(),
                selector.texts_fit(),
                first_tail + m - 1 <= usize::MAX,
                m == selector.compounds@.len(),
                j <= m,
                chain@.len() == j,
                forall|i: int|
                    0 <= i < j ==> compound_encodable(self.encoding(), #[trigger] selector.compounds@[i]),
                forall|i: int|
                    0 <= i < j ==> compound_encoded(
                        self.encoding(),
                        selector.compounds@[i],
                        #[trigger] chain@[i],
                    ) && chain_links(*selector, first_tail as int, i, chain@[i].associated_branch@),
            decreases m - j,
        {
            let mut matched_payload: Vec<P> = Vec::new();
            let mut jumps: Option<AddressRange> = None;
            let mut hereditary_jumps: Option<AddressRange> = None;
            if j + 1 == m {
                matched_payload.push(selector.payload);
                assert(matched_payload@ =~= seq![selector.payload]);
            } else {
                let next = AddressRange { start: first_tail + j, end: first_tail + j + 1 };
                match selector.combinators[j] {
                    Combinator::Child => {
                        jumps = Some(next);
                    },
                    Combinator::Descendant => {
                        hereditary_jumps = Some(next);
                    },
                }
            }
            let branch = ExecutionBranch { matched_payload, jumps, hereditary_jumps };
            assert(selector.compounds@[j as int].texts_fit());
            match encode_compound(self.encoding, &selector.compounds[j], branch) {
                Ok(instr) => {
                    chain.push(instr);
                },
                Err(e) => {
                    assert(!compound_encodable(self.encoding(), selector.compounds@[j as int]));
                    return Err(e);
                },
            }
            j += 1;
        }
        Ok(chain)
    }

    /// Compiles the selectors to a program. Selectors that are malformed, too
    /// long or too many are refused before any text is encoded; a text that
    /// the encoding cannot express is refused when it is met.
    pub fn compile<P: Copy>(&self, ast: Ast<P>) -> (r: Result<Program<P>, SelectorError>)
        ensures
            compiles_to(self.encoding(), ast.selectors@, r),
    {
        let total = match validate(&ast) {
            Ok(total) => total,
            Err(e) => {
                return Err(e);
            },
        };
        let n = ast.selectors.len();
        let ghost sel = ast.selectors@;
        let mut entries: Vec<Instruction<P>> = Vec::new();
        let mut tails: Vec<Instruction<P>> = Vec::new();
        let mut s: usize = 0;
        assert(sel.take(0) =~= Seq::<Selector<P>>::empty());
        while s < n
            invariant
                sel == ast.selectors@,
                n == sel.len(),
                s <= n,
                ast_error(sel) is None,
                total == n + tail_count(sel),
                entries@.len() == s,
                tails@.len() == tail_count(sel.take(s as int)),
                forall|i: int| 0 <= i < s ==> selector_encodable(self.encoding(), #[trigger] sel[i]),
                forall|i: int|
                    0 <= i < entries@.len() ==> (#[trigger] entries@[i]).associated_branch@.within(
                        total as nat,
                    ),
                forall|i: int|
                    0 <= i < tails@.len() ==> (#[trigger] tails@[i]).associated_branch@.within(
                        total as nat,
                    ),
                forall|s2: int, j: int|
                    0 <= s2 < s && 0 <= j < sel[s2].compounds@.len() ==> instr_stands_for(
                        self.encoding(),
                        sel,
                        s2,
                        j,
                        #[trigger] slot(entries@, tails@, sel, s2, j),
                    ),
            decreases n - s,
        {
            let selector = &ast.selectors[s];
            let ghost base = tail_count(sel.take(s as int));
            let ghost old_entries = entries@;
            let ghost old_tails = tails@;
            proof {
                assert(sel[s as int].well_formed());
                assert(sel[s as int].texts_fit());
                lemma_tail_count_step(sel, s as int);
                lemma_tail_count_grows(sel, s + 1);
            }
            let mut chain = match self.compile_selector(selector, n + tails.len()) {
                Ok(chain) => chain,
                Err(e) => {
                    assert(!selector_encodable(self.encoding(), sel[s as int]));
                    return Err(e);
                },
            };
            let ghost whole = chain@;
            let first = chain.remove(0);
            assert(chain@ =~= whole.skip(1));
            entries.push(first);
            tails.append(&mut chain);
            proof {
                let m = sel[s as int].compounds@.len() as int;
                assert forall|i: int| 0 <= i < entries@.len() implies (#[trigger] entries@[i]).associated_branch@.within(
                    total as nat,
                ) by {
                    if i == s {
                        assert(entries@[i] == whole[0]);
                    } else {
                        assert(entries@[i] == old_entries[i]);
                    }
                }
                assert forall|i: int| 0 <= i < tails@.len() implies (#[trigger] tails@[i]).associated_branch@.within(
                    total as nat,
                ) by {
                    if i >= base {
                        assert(tails@[i] == whole[i - base + 1]);
                    } else {
                        assert(tails@[i] == old_tails[i]);
                    }
                }
                assert forall|s2: int, j: int| 0 <= s2 < s + 1 && 0 <= j < sel[s2].compounds@.len() implies instr_stands_for(
                    self.encoding(),
                    sel,
                    s2,
                    j,
                    #[trigger] slot(entries@, tails@, sel, s2, j),
                ) by {
                    if s2 == s {
                        assert(slot(entries@, tails@, sel, s2, j) == whole[j]);
                    } else {
                        assert(sel[s2].well_formed());
                        lemma_tail_count_step(sel, s2);
                        lemma_tail_count_prefix(sel, s2 + 1, s as int);
                        assert(slot(entries@, tails@, sel, s2, j) == slot(old_entries, old_tails, sel, s2, j));
                    }
                }
            }
            s += 1;
        }
        let ghost entries_seq = entries@;
        let ghost tails_seq = tails@;
        let mut instructions = entries;
        instructions.append(&mut tails);
        let entry_points = AddressRange { start: 0, end: n };
        proof {
            assert(sel.take(n as int) =~= sel);
            assert forall|addr: int| 0 <= addr < instructions@.len() implies (#[trigger] instructions@[addr]).associated_branch@.within(
                instructions@.len(),
            ) by {
                if addr < n {
                    assert(instructions@[addr] == entries_seq[addr]);
                } else {
                    assert(instructions@[addr] == tails_seq[addr - n]);
                }
            }
        }
        let program = Program::new(instructions, entry_points).unwrap();
        proof {
            assert forall|s2: int, j: int| 0 <= s2 < sel.len() && 0 <= j < sel[s2].compounds@.len() implies instr_stands_for(
                self.encoding(),
                sel,
                s2,
                j,
                #[trigger] program.instructions()[addr_of(sel, s2, j)],
            ) by {
                assert(sel[s2].well_formed());
                lemma_tail_count_step(sel, s2);
                lemma_tail_count_grows(sel, s2 + 1);
                assert(program.instructions()[addr_of(sel, s2, j)] == slot(
                    entries_seq,
                    tails_seq,
                    sel,
                    s2,
                    j,
                ));
            }
        }
        Ok(program)
    }
}

} // verus!
