//! Which instructions a start tag is tried against, and in which order: the
//! program's entry points, then the instruction sets that the parent element
//! has for its children, then those that each ancestor has for its
//! descendants, innermost ancestor first. Also where in that order matching
//! takes up again after it had to wait for the attributes.

use vstd::prelude::*;
use crate::program::AddressRange;
use crate::stack::{has_hereditary_jumps_below, stack_wf, stack_within, ItemView};

verus! {

/// A place among the instruction sets of one stack item: the set, and how
/// many of its instructions are behind.
#[derive(Clone, Copy, Debug, PartialEq, Eq, Structural)]
pub struct JumpPtr {
    pub instr_set_idx: usize,
    pub offset: usize,
}

/// A place among the instruction sets that the ancestors have for their
/// descendants: the ancestor, counted from the innermost, the set, and how
/// many of its instructions are behind.
#[derive(Clone, Copy, Debug, PartialEq, Eq, Structural)]
pub struct HereditaryJumpPtr {
    pub stack_offset: usize,
    pub instr_set_idx: usize,
    pub offset: usize,
}

impl Default for JumpPtr {
    /// The first instruction of the first set.
    fn default() -> (ptr: Self)
        ensures
            ptr == (JumpPtr { instr_set_idx: 0, offset: 0 }),
    {
        JumpPtr { instr_set_idx: 0, offset: 0 }
    }
}

impl Default for HereditaryJumpPtr {
    /// The first instruction of the first set of the innermost ancestor.
    fn default() -> (ptr: Self)
        ensures
            ptr == (HereditaryJumpPtr { stack_offset: 0, instr_set_idx: 0, offset: 0 }),
    {
        HereditaryJumpPtr { stack_offset: 0, instr_set_idx: 0, offset: 0 }
    }
}

/// The addresses of the instruction sets `sets`, set after set.
pub open spec fn flat_addrs(sets: Seq<AddressRange>) -> Seq<int>
    decreases sets.len(),
{
    if sets.len() == 0 {
        Seq::empty()
    } else {
        flat_addrs(sets.drop_last()) + sets.last().addrs()
    }
}

/// The addresses of `sets` from the place `ptr` on: the rest of the set that
/// `ptr` names, then the sets after it. Where `ptr` names no set there are
/// none.
pub open spec fn flat_addrs_from(sets: Seq<AddressRange>, ptr: JumpPtr) -> Seq<int> {
    if ptr.instr_set_idx < sets.len() {
        sets[ptr.instr_set_idx as int].addrs_from(ptr.offset as nat) + flat_addrs(
            sets.skip(ptr.instr_set_idx + 1),
        )
    } else {
        Seq::empty()
    }
}

/// The addresses that the innermost open element has for its children.
pub open spec fn child_addrs<P>(items: Seq<ItemView<P>>) -> Seq<int> {
    if items.len() == 0 {
        Seq::empty()
    } else {
        flat_addrs(items.last().jumps)
    }
}

/// The addresses that the innermost open element has for its children, from
/// the place `ptr` on.
pub open spec fn child_addrs_from<P>(items: Seq<ItemView<P>>, ptr: JumpPtr) -> Seq<int> {
    if items.len() == 0 {
        Seq::empty()
    } else {
        flat_addrs_from(items.last().jumps, ptr)
    }
}

/// The addresses that the open elements have for their descendants,
/// innermost element first.
pub open spec fn hereditary_addrs<P>(items: Seq<ItemView<P>>) -> Seq<int>
    decreases items.len(),
{
    if items.len() == 0 {
        Seq::empty()
    } else {
        flat_addrs(items.last().hereditary_jumps) + hereditary_addrs(items.drop_last())
    }
}

/// The addresses that the open elements have for their descendants, from the
/// place `ptr` on: the rest of the ancestor that `ptr` names, then the
/// ancestors further out. Where `ptr` names no ancestor there are none.
pub open spec fn hereditary_addrs_from<P>(items: Seq<ItemView<P>>, ptr: HereditaryJumpPtr) -> Seq<int> {
    if ptr.stack_offset < items.len() {
        let i = items.len() - 1 - ptr.stack_offset;
        flat_addrs_from(
            items[i].hereditary_jumps,
            JumpPtr { instr_set_idx: ptr.instr_set_idx, offset: ptr.offset },
        ) + hereditary_addrs(items.take(i))
    } else {
        Seq::empty()
    }
}

/// The addresses that a start tag is tried against, in order.
pub open spec fn schedule<P>(entry_points: AddressRange, items: Seq<ItemView<P>>) -> Seq<int> {
    entry_points.addrs() + child_addrs(items) + hereditary_addrs(items)
}

/// Every address of `addrs` is below `n`.
pub open spec fn addrs_below(addrs: Seq<int>, n: nat) -> bool {
    forall|i: int| 0 <= i < addrs.len() ==> 0 <= #[trigger] addrs[i] < n
}

/// The addresses of a range, cut at its `k`-th.
pub proof fn lemma_range_split(range: AddressRange, k: nat)
    requires
        range.start + k < range.end,
    ensures
        range.addrs().take(k as int) + seq![range.start + k] + range.addrs_from(k + 1) == range.addrs(),
        range.addrs()[k as int] == range.start + k,
        range.addrs().skip(k as int + 1) == range.addrs_from(k + 1),
        range.addrs_from(k) == seq![range.start + k] + range.addrs_from(k + 1),
{
    assert(range.addrs().take(k as int) + seq![range.start + k] + range.addrs_from(k + 1)
        =~= range.addrs());
    assert(range.addrs().skip(k as int + 1) =~= range.addrs_from(k + 1));
    assert(range.addrs_from(k) =~= seq![range.start + k] + range.addrs_from(k + 1));
}

/// The addresses of a range in a program of `n` instructions are below `n`.
pub proof fn lemma_range_addrs_below(range: AddressRange, offset: nat, n: nat)
    requires
        range.within(n),
    ensures
        addrs_below(range.addrs_from(offset), n),
{
}

/// Addresses below `n`, put together, are below `n`.
pub proof fn lemma_addrs_below_concat(a: Seq<int>, b: Seq<int>, n: nat)
    requires
        addrs_below(a, n),
        addrs_below(b, n),
    ensures
        addrs_below(a + b, n),
{
    assert forall|i: int| 0 <= i < (a + b).len() implies 0 <= #[trigger] (a + b)[i] < n by {
        if i < a.len() {
            assert((a + b)[i] == a[i]);
        } else {
            assert((a + b)[i] == b[i - a.len()]);
        }
    }
}

/// The addresses of two lists of sets, put together.
pub proof fn lemma_flat_addrs_concat(a: Seq<AddressRange>, b: Seq<AddressRange>)
    ensures
        flat_addrs(a + b) == flat_addrs(a) + flat_addrs(b),
    decreases b.len(),
{
    if b.len() == 0 {
        assert(a + b =~= a);
        assert(flat_addrs(a) + flat_addrs(b) =~= flat_addrs(a));
    } else {
        assert((a + b).drop_last() =~= a + b.drop_last());
        assert((a + b).last() == b.last());
        lemma_flat_addrs_concat(a, b.drop_last());
        assert(flat_addrs(a + b) =~= flat_addrs(a) + flat_addrs(b));
    }
}

/// The addresses of a list of sets, cut at the `i`-th set.
pub proof fn lemma_flat_addrs_split(sets: Seq<AddressRange>, i: int)
    requires
        0 <= i < sets.len(),
    ensures
        flat_addrs(sets) == flat_addrs(sets.take(i)) + sets[i].addrs() + flat_addrs(sets.skip(i + 1)),
        flat_addrs(sets.take(i + 1)) == flat_addrs(sets.take(i)) + sets[i].addrs(),
{
    assert(sets.take(i + 1).drop_last() =~= sets.take(i));
    assert(sets.take(i + 1).last() == sets[i]);
    assert(sets =~= sets.take(i + 1) + sets.skip(i + 1));
    lemma_flat_addrs_concat(sets.take(i + 1), sets.skip(i + 1));
}

/// From the first instruction of the first set on, the addresses are all of
/// them.
pub proof fn lemma_flat_addrs_from_start(sets: Seq<AddressRange>)
    ensures
        flat_addrs_from(sets, JumpPtr { instr_set_idx: 0, offset: 0 }) == flat_addrs(sets),
{
    if sets.len() > 0 {
        lemma_flat_addrs_split(sets, 0);
        assert(sets.take(0) =~= Seq::<AddressRange>::empty());
        assert(flat_addrs(sets.take(0)) + sets[0].addrs() =~= sets[0].addrs());
    }
}

/// From the first instruction of the innermost ancestor on, the addresses
/// for descendants are all of them.
pub proof fn lemma_hereditary_addrs_from_start<P>(items: Seq<ItemView<P>>)
    ensures
        hereditary_addrs_from(
            items,
            HereditaryJumpPtr { stack_offset: 0, instr_set_idx: 0, offset: 0 },
        ) == hereditary_addrs(items),
{
    if items.len() > 0 {
        lemma_flat_addrs_from_start(items.last().hereditary_jumps);
        assert(items.take(items.len() - 1) =~= items.drop_last());
    }
}

/// The addresses of sets that lie within a program of `n` instructions are
/// below `n`.
pub proof fn lemma_flat_addrs_below(sets: Seq<AddressRange>, n: nat)
    requires
        forall|i: int| 0 <= i < sets.len() ==> (#[trigger] sets[i]).within(n),
    ensures
        addrs_below(flat_addrs(sets), n),
    decreases sets.len(),
{
    if sets.len() > 0 {
        assert forall|i: int| 0 <= i < sets.drop_last().len() implies (#[trigger] sets.drop_last()[i]).within(
            n,
        ) by {
            assert(sets.drop_last()[i] == sets[i]);
        }
        lemma_flat_addrs_below(sets.drop_last(), n);
        lemma_addrs_below_concat(flat_addrs(sets.drop_last()), sets.last().addrs(), n);
    }
}

/// The addresses that a stack within a program of `n` instructions has for
/// descendants are below `n`.
pub proof fn lemma_hereditary_addrs_below<P>(items: Seq<ItemView<P>>, n: nat)
    requires
        stack_within(items, n),
    ensures
        addrs_below(hereditary_addrs(items), n),
    decreases items.len(),
{
    if items.len() > 0 {
        assert(items.last().within(n));
        assert forall|i: int| 0 <= i < items.drop_last().len() implies (#[trigger] items.drop_last()[i]).within(
            n,
        ) by {
            assert(items.drop_last()[i] == items[i]);
        }
        lemma_hereditary_addrs_below(items.drop_last(), n);
        lemma_flat_addrs_below(items.last().hereditary_jumps, n);
        lemma_addrs_below_concat(
            flat_addrs(items.last().hereditary_jumps),
            hereditary_addrs(items.drop_last()),
            n,
        );
    }
}

/// Every address of the schedule is the address of an instruction.
pub proof fn lemma_schedule_below<P>(entry_points: AddressRange, items: Seq<ItemView<P>>, n: nat)
    requires
        entry_points.within(n),
        stack_within(items, n),
    ensures
        addrs_below(entry_points.addrs(), n),
        addrs_below(child_addrs(items), n),
        addrs_below(hereditary_addrs(items), n),
        addrs_below(schedule(entry_points, items), n),
{
    lemma_hereditary_addrs_below(items, n);
    if items.len() > 0 {
        assert(items.last().within(n));
        lemma_flat_addrs_below(items.last().jumps, n);
    }
    lemma_addrs_below_concat(entry_points.addrs(), child_addrs(items), n);
    lemma_addrs_below_concat(entry_points.addrs() + child_addrs(items), hereditary_addrs(items), n);
}

/// Below an item whose flag is down no item has instruction sets for its
/// descendants, so the walk over the ancestors may end there.
pub proof fn lemma_flag_down_ends_walk<P>(items: Seq<ItemView<P>>, i: int)
    requires
        stack_wf(items),
        0 <= i < items.len(),
        !items[i].has_ancestor_with_hereditary_jumps,
    ensures
        hereditary_addrs(items.take(i)) == Seq::<int>::empty(),
    decreases i,
{
    if i > 0 {
        assert(!has_hereditary_jumps_below(items, i));
        assert(items[i - 1].hereditary_jumps.len() == 0);
        if items[i - 1].has_ancestor_with_hereditary_jumps {
            assert(has_hereditary_jumps_below(items, i - 1));
            let j = choose|j: int|
                0 <= j < i - 1 && j < items.len() && (#[trigger] items[j]).hereditary_jumps.len() > 0;
            assert(has_hereditary_jumps_below(items, i));
        }
        lemma_flag_down_ends_walk(items, i - 1);
        assert(items.take(i).drop_last() =~= items.take(i - 1));
        assert(items.take(i).last() == items[i - 1]);
        assert(flat_addrs(items[i - 1].hereditary_jumps) =~= Seq::<int>::empty());
    }
}

/// The addresses of sets within a program of `n` instructions, from any place
/// on, are below `n`.
pub proof fn lemma_flat_addrs_from_below(sets: Seq<AddressRange>, ptr: JumpPtr, n: nat)
    requires
        forall|i: int| 0 <= i < sets.len() ==> (#[trigger] sets[i]).within(n),
    ensures
        addrs_below(flat_addrs_from(sets, ptr), n),
{
    if ptr.instr_set_idx < sets.len() {
        let after = sets.skip(ptr.instr_set_idx + 1);
        assert forall|i: int| 0 <= i < after.len() implies (#[trigger] after[i]).within(n) by {
            assert(after[i] == sets[ptr.instr_set_idx + 1 + i]);
        }
        lemma_flat_addrs_below(after, n);
        assert(sets[ptr.instr_set_idx as int].within(n));
        lemma_range_addrs_below(sets[ptr.instr_set_idx as int], ptr.offset as nat, n);
        lemma_addrs_below_concat(
            sets[ptr.instr_set_idx as int].addrs_from(ptr.offset as nat),
            flat_addrs(after),
            n,
        );
    }
}

/// The addresses that a stack within a program of `n` instructions has for
/// children and for descendants, from any place on, are below `n`.
pub proof fn lemma_addrs_from_below<P>(
    items: Seq<ItemView<P>>,
    child_ptr: JumpPtr,
    hereditary_ptr: HereditaryJumpPtr,
    n: nat,
)
    requires
        stack_within(items, n),
    ensures
        addrs_below(child_addrs_from(items, child_ptr), n),
        addrs_below(hereditary_addrs_from(items, hereditary_ptr), n),
{
    if items.len() > 0 {
        assert(items.last().within(n));
        lemma_flat_addrs_from_below(items.last().jumps, child_ptr, n);
    }
    if hereditary_ptr.stack_offset < items.len() {
        let i = items.len() - 1 - hereditary_ptr.stack_offset;
        assert(items[i].within(n));
        let in_ancestor = JumpPtr {
            instr_set_idx: hereditary_ptr.instr_set_idx,
            offset: hereditary_ptr.offset,
        };
        lemma_flat_addrs_from_below(items[i].hereditary_jumps, in_ancestor, n);
        assert forall|j: int| 0 <= j < items.take(i).len() implies (#[trigger] items.take(i)[j]).within(n) by {
            assert(items.take(i)[j] == items[j]);
        }
        lemma_hereditary_addrs_below(items.take(i), n);
        lemma_addrs_below_concat(
            flat_addrs_from(items[i].hereditary_jumps, in_ancestor),
            hereditary_addrs(items.take(i)),
            n,
        );
    }
}

} // verus!
