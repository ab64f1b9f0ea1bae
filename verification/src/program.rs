//! The compiled form of a set of selectors: a flat array of instructions, the
//! range of those that every start tag is tried against, and, on each
//! instruction, what a match reports and which instructions it schedules for
//! the element's children and descendants.

use vstd::prelude::*;
use crate::attribute_matcher::{Attr, AttributeExpr, AttributeMatcher};
use crate::html::{lowercase_is, LocalName};

verus! {

/// A half-open range `[start, end)` of instruction addresses.
#[derive(Clone, Copy, Debug, PartialEq, Eq, Structural)]
pub struct AddressRange {
    pub start: usize,
    pub end: usize,
}

impl AddressRange {
    /// The range lies within a program of `n` instructions.
    pub open spec fn within(&self, n: nat) -> bool {
        self.start <= self.end && self.end <= n
    }

    /// The addresses of the range from its `offset`-th on, in rising order.
    /// Past the end of the range there are none.
    pub open spec fn addrs_from(&self, offset: nat) -> Seq<int> {
        if self.start + offset <= self.end {
            Seq::new((self.end - self.start - offset) as nat, |i: int| self.start + offset + i)
        } else {
            Seq::empty()
        }
    }

    /// The addresses of the range, in rising order.
    pub open spec fn addrs(&self) -> Seq<int> {
        self.addrs_from(0)
    }
}

/// What a matching instruction brings about.
#[derive(Debug)]
pub struct ExecutionBranch<P> {
    /// The payloads of the selectors that match here.
    pub matched_payload: Vec<P>,
    /// Instructions to try on each child of the matched element.
    pub jumps: Option<AddressRange>,
    /// Instructions to try on each descendant of the matched element.
    pub hereditary_jumps: Option<AddressRange>,
}

/// An [`ExecutionBranch`] as a mathematical value.
pub struct BranchView<P> {
    pub matched_payload: Seq<P>,
    pub jumps: Option<AddressRange>,
    pub hereditary_jumps: Option<AddressRange>,
}

impl<P> View for ExecutionBranch<P> {
    type V = BranchView<P>;

    open spec fn view(&self) -> BranchView<P> {
        BranchView {
            matched_payload: self.matched_payload@,
            jumps: self.jumps,
            hereditary_jumps: self.hereditary_jumps,
        }
    }
}

impl<P> BranchView<P> {
    /// Both jump tables lie within a program of `n` instructions.
    pub open spec fn within(&self, n: nat) -> bool {
        &&& self.jumps matches Some(r) ==> r.within(n)
        &&& self.hereditary_jumps matches Some(r) ==> r.within(n)
    }
}

/// What a tag name is asked.
#[derive(Debug)]
pub enum LocalNameTest {
    /// `*`: any name will do.
    Any,
    /// No name will do.
    Unmatchable,
    /// The name is this one, given in lower case.
    Is(Vec<u8>),
}

/// One tag-name predicate of a selector, possibly negated.
#[derive(Debug)]
pub struct LocalNameExpr {
    pub test: LocalNameTest,
    pub negation: bool,
}

impl LocalNameExpr {
    /// Whether the predicate holds of a tag name.
    pub open spec fn holds(&self, name: Seq<u8>) -> bool {
        (match self.test {
            LocalNameTest::Any => true,
            LocalNameTest::Unmatchable => false,
            LocalNameTest::Is(n) => name == n@,
        }) != self.negation
    }

    /// Whether the predicate holds of a tag name.
    pub fn eval(&self, local_name: &LocalName<'_>) -> (r: bool)
        ensures
            r == self.holds(local_name@),
    {
        let passed = match &self.test {
            LocalNameTest::Any => true,
            LocalNameTest::Unmatchable => false,
            LocalNameTest::Is(n) => lowercase_is(local_name.as_bytes(), n.as_slice()),
        };
        passed != self.negation
    }
}

/// What an instruction says of a start tag whose attributes are not known yet.
#[derive(Debug)]
pub enum TryExecResult<'a, P> {
    /// The instruction matches, whatever the attributes are.
    Branch(&'a ExecutionBranch<P>),
    /// The instruction does not match, whatever the attributes are.
    Fail,
    /// The tag name fits, and the attributes decide.
    AttributesRequired,
}

/// One compiled selector node: predicates on the tag name, predicates on the
/// attributes, and the branch taken when all of them hold.
#[derive(Debug)]
pub struct Instruction<P> {
    pub local_name_exprs: Vec<LocalNameExpr>,
    pub attribute_exprs: Vec<AttributeExpr>,
    pub associated_branch: ExecutionBranch<P>,
}

impl<P> Instruction<P> {
    /// Every tag-name predicate holds of `name`.
    pub open spec fn name_matches(&self, name: Seq<u8>) -> bool {
        forall|i: int|
            0 <= i < self.local_name_exprs@.len() ==> (#[trigger] self.local_name_exprs@[i]).holds(
                name,
            )
    }

    /// The instruction has predicates on attributes.
    pub open spec fn needs_attrs(&self) -> bool {
        self.attribute_exprs@.len() > 0
    }

    /// Every attribute predicate holds of `attrs`.
    pub open spec fn attrs_match(&self, attrs: Seq<Attr>) -> bool {
        forall|i: int|
            0 <= i < self.attribute_exprs@.len() ==> (#[trigger] self.attribute_exprs@[i]).holds(
                attrs,
            )
    }

    /// The instruction matches a start tag with this name and these attributes.
    pub open spec fn matches(&self, name: Seq<u8>, attrs: Seq<Attr>) -> bool {
        self.name_matches(name) && self.attrs_match(attrs)
    }

    fn eval_local_name_exprs(&self, local_name: &LocalName<'_>) -> (r: bool)
        ensures
            r == self.name_matches(local_name@),
    {
        let mut i: usize = 0;
        while i < self.local_name_exprs.len()
            invariant
                i <= self.local_name_exprs@.len(),
                forall|j: int|
                    0 <= j < i ==> (#[trigger] self.local_name_exprs@[j]).holds(local_name@),
            decreases self.local_name_exprs@.len() - i,
        {
            if !self.local_name_exprs[i].eval(local_name) {
                return false;
            }
            i += 1;
        }
        true
    }

    fn eval_attribute_exprs(&self, attr_matcher: &AttributeMatcher<'_>) -> (r: bool)
        ensures
            r == self.attrs_match(attr_matcher@),
    {
        let mut i: usize = 0;
        while i < self.attribute_exprs.len()
            invariant
                i <= self.attribute_exprs@.len(),
                forall|j: int|
                    0 <= j < i ==> (#[trigger] self.attribute_exprs@[j]).holds(attr_matcher@),
            decreases self.attribute_exprs@.len() - i,
        {
            if !self.attribute_exprs[i].eval(attr_matcher) {
                return false;
            }
            i += 1;
        }
        true
    }

    /// Decides the instruction from the tag name alone, where that is
    /// possible.
    pub fn try_exec_without_attrs(&self, local_name: &LocalName<'_>) -> (r: TryExecResult<'_, P>)
        ensures
            match r {
                TryExecResult::Branch(b) => self.name_matches(local_name@) && !self.needs_attrs()
                    && *b == self.associated_branch,
                TryExecResult::Fail => !self.name_matches(local_name@),
                TryExecResult::AttributesRequired => self.name_matches(local_name@)
                    && self.needs_attrs(),
            },
    {
        if self.eval_local_name_exprs(local_name) {
            if self.attribute_exprs.len() == 0 {
                TryExecResult::Branch(&self.associated_branch)
            } else {
                TryExecResult::AttributesRequired
            }
        } else {
            TryExecResult::Fail
        }
    }

    /// Finishes an instruction that [`Self::try_exec_without_attrs`] could not
    /// decide: the tag name is known to fit, so only the attributes are asked.
    pub fn complete_execution_with_attrs(&self, attr_matcher: &AttributeMatcher<'_>) -> (r: Option<
        &ExecutionBranch<P>,
    >)
        ensures
            match r {
                Some(b) => self.attrs_match(attr_matcher@) && *b == self.associated_branch,
                None => !self.attrs_match(attr_matcher@),
            },
    {
        if self.eval_attribute_exprs(attr_matcher) {
            Some(&self.associated_branch)
        } else {
            None
        }
    }

    /// Decides the instruction from the tag name and the attributes.
    pub fn exec(&self, local_name: &LocalName<'_>, attr_matcher: &AttributeMatcher<'_>) -> (r:
        Option<&ExecutionBranch<P>>)
        ensures
            match r {
                Some(b) => self.matches(local_name@, attr_matcher@) && *b
                    == self.associated_branch,
                None => !self.matches(local_name@, attr_matcher@),
            },
    {
        if self.eval_local_name_exprs(local_name) && self.eval_attribute_exprs(attr_matcher) {
            Some(&self.associated_branch)
        } else {
            None
        }
    }
}

/// A compiled set of selectors. Every address that it mentions, in its entry
/// points or in a jump table, is the address of one of its instructions.
#[derive(Debug)]
pub struct Program<P> {
    instructions: Vec<Instruction<P>>,
    entry_points: AddressRange,
}

impl<P> Program<P> {
    /// The instructions, by address.
    pub closed spec fn instructions(&self) -> Seq<Instruction<P>> {
        self.instructions@
    }

    /// The number of instructions.
    pub open spec fn len(&self) -> nat {
        self.instructions().len()
    }

    /// The range of the instructions that every start tag is tried against.
    pub closed spec fn entry_points(&self) -> AddressRange {
        self.entry_points
    }

    /// The branch of the instruction at `addr`.
    pub open spec fn branch(&self, addr: int) -> BranchView<P> {
        self.instructions()[addr].associated_branch@
    }

    /// Every address that the program mentions is in range.
    pub open spec fn wf(&self) -> bool {
        &&& self.entry_points().within(self.len())
        &&& forall|addr: int| 0 <= addr < self.len() ==> (#[trigger] self.branch(addr)).within(self.len())
    }

    /// Every address of `range` is the address of an instruction, and so is
    /// every address in the jump tables of `instructions`.
    pub open spec fn addresses_in_range(
        instructions: Seq<Instruction<P>>,
        entry_points: AddressRange,
    ) -> bool {
        &&& entry_points.within(instructions.len())
        &&& forall|addr: int|
            0 <= addr < instructions.len() ==> (#[trigger] instructions[addr]).associated_branch@.within(
                instructions.len(),
            )
    }

    /// Makes a program of `instructions`, or nothing where an address is out of
    /// range.
    pub fn new(instructions: Vec<Instruction<P>>, entry_points: AddressRange) -> (r: Option<Self>)
        ensures
            r is Some <==> Self::addresses_in_range(instructions@, entry_points),
            r matches Some(p) ==> p.wf() && p.instructions() == instructions@ && p.entry_points()
                == entry_points,
    {
        let n = instructions.len();
        if !(entry_points.start <= entry_points.end && entry_points.end <= n) {
            return None;
        }
        let mut addr: usize = 0;
        while addr < n
            invariant
                addr <= n,
                n == instructions@.len(),
                forall|a: int|
                    0 <= a < addr ==> (#[trigger] instructions@[a]).associated_branch@.within(
                        n as nat,
                    ),
            decreases n - addr,
        {
            let branch = &instructions[addr].associated_branch;
            if let Some(r) = branch.jumps {
                if !(r.start <= r.end && r.end <= n) {
                    return None;
                }
            }
            if let Some(r) = branch.hereditary_jumps {
                if !(r.start <= r.end && r.end <= n) {
                    return None;
                }
            }
            addr += 1;
        }
        let p = Program { instructions, entry_points };
        assert forall|a: int| 0 <= a < p.len() implies (#[trigger] p.branch(a)).within(p.len()) by {
            assert(p.instructions()[a].associated_branch@.within(n as nat));
        }
        Some(p)
    }

    /// The range of the instructions that every start tag is tried against.
    pub fn entry_point_range(&self) -> (r: AddressRange)
        ensures
            r == self.entry_points(),
    {
        self.entry_points
    }

    /// The number of instructions.
    pub fn instruction_count(&self) -> (n: usize)
        ensures
            n == self.len(),
    {
        self.instructions.len()
    }

    /// The instruction at `addr`.
    pub fn instruction(&self, addr: usize) -> (instr: &Instruction<P>)
        requires
            addr < self.len(),
        ensures
            *instr == self.instructions()[addr as int],
    {
        &self.instructions[addr]
    }
}

} // verus!
