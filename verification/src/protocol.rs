//! The two-step protocol of a start tag: what is matched before the tag's
//! attributes are known, when the attributes are asked for, and what is
//! matched once they have come.

use vstd::prelude::*;
use crate::attribute_matcher::Attr;
use crate::html::Namespace;
use crate::matching::{
    add_branch, bailed_out_at, complete_step, first_undecided, fresh_payloads,
    lemma_run_appends_reports, lemma_run_keeps_element, lemma_tried_extends, run_by_name,
    run_with_attrs, tried_by_name, CtxView, MatchInfo, Run,
};
use crate::program::{AddressRange, BranchView, Program};
use crate::schedule::{
    addrs_below, child_addrs, child_addrs_from, hereditary_addrs, hereditary_addrs_from,
    lemma_addrs_below_concat, lemma_addrs_from_below, lemma_range_addrs_below,
    lemma_schedule_below, schedule, HereditaryJumpPtr, JumpPtr,
};
use crate::stack::{
    lemma_push_keeps_wf, pushed, stack_directive, stack_wf, stack_within, ItemView, StackDirective,
};

verus! {

/// Where matching takes up again once the attributes are known.
#[allow(inconsistent_fields)]
#[derive(Clone, Copy, Debug, PartialEq, Eq, Structural)]
pub enum RestorePoint {
    /// Nothing has been tried yet: the element is in a foreign namespace and
    /// only the scanned tag tells whether it has content.
    Start,
    /// The entry point at `at_addr` waits for the attributes; `offset`
    /// entry points are behind.
    EntryPoints { at_addr: usize, offset: usize },
    /// The instruction at `at_addr`, in a set that the parent element has for
    /// its children, waits for the attributes.
    Jumps { at_addr: usize, ptr: JumpPtr },
    /// The instruction at `at_addr`, in a set that an ancestor has for its
    /// descendants, waits for the attributes.
    HereditaryJumps { at_addr: usize, ptr: HereditaryJumpPtr },
}

impl RestorePoint {
    /// The address of the instruction that waits for the attributes.
    pub open spec fn at_addr(&self) -> int {
        match self {
            RestorePoint::Start => 0,
            RestorePoint::EntryPoints { at_addr, .. } => *at_addr as int,
            RestorePoint::Jumps { at_addr, .. } => *at_addr as int,
            RestorePoint::HereditaryJumps { at_addr, .. } => *at_addr as int,
        }
    }
}

/// The addresses that are still to be tried after the instruction that
/// waits: the rest of the interrupted instruction set, then the sets after it
/// in the same phase, then the later phases from their beginning.
pub open spec fn pending_addrs<P>(
    entry_points: AddressRange,
    items: Seq<ItemView<P>>,
    restore_point: RestorePoint,
) -> Seq<int> {
    match restore_point {
        RestorePoint::Start => schedule(entry_points, items),
        RestorePoint::EntryPoints { offset, .. } => entry_points.addrs_from(offset as nat) + child_addrs(
            items,
        ) + hereditary_addrs(items),
        RestorePoint::Jumps { ptr, .. } => child_addrs_from(items, ptr) + hereditary_addrs(items),
        RestorePoint::HereditaryJumps { ptr, .. } => hereditary_addrs_from(items, ptr),
    }
}

/// The restore point names the place just behind the instruction that waits:
/// its offset is the address of that instruction, less the start of the
/// instruction set that it stands in, plus one.
pub open spec fn points_behind<P>(
    entry_points: AddressRange,
    items: Seq<ItemView<P>>,
    restore_point: RestorePoint,
) -> bool {
    match restore_point {
        RestorePoint::Start => true,
        RestorePoint::EntryPoints { at_addr, offset } => behind(entry_points, at_addr, offset),
        RestorePoint::Jumps { at_addr, ptr } => items.len() > 0 && behind_in(
            items.last().jumps,
            at_addr,
            ptr,
        ),
        RestorePoint::HereditaryJumps { at_addr, ptr } => ptr.stack_offset < items.len() && behind_in(
            items[items.len() - 1 - ptr.stack_offset].hereditary_jumps,
            at_addr,
            JumpPtr { instr_set_idx: ptr.instr_set_idx, offset: ptr.offset },
        ),
    }
}

/// `at_addr` is an address of `set`, and `offset` is the place just behind
/// it.
pub open spec fn behind(set: AddressRange, at_addr: usize, offset: usize) -> bool {
    set.start <= at_addr < set.end && offset == at_addr - set.start + 1
}

/// `ptr` names a set of `sets` and the place in it just behind `at_addr`.
pub open spec fn behind_in(sets: Seq<AddressRange>, at_addr: usize, ptr: JumpPtr) -> bool {
    ptr.instr_set_idx < sets.len() && behind(sets[ptr.instr_set_idx as int], at_addr, ptr.offset)
}

/// The state in which matching a start tag begins.
pub open spec fn init_run<P>(name: Seq<u8>, ns: Namespace, with_content: bool) -> Run<P> {
    Run {
        ctx: CtxView { item: ItemView::fresh(name), with_content, ns },
        reports: Seq::empty(),
    }
}

/// Whether the element has content: a void element of HTML has none, a
/// foreign element has unless its tag is self-closing, any other has.
pub open spec fn has_content(name: Seq<u8>, ns: Namespace, self_closing: bool) -> bool {
    match stack_directive(name, ns) {
        StackDirective::Push => true,
        StackDirective::PopImmediately => false,
        StackDirective::PushIfNotSelfClosing => !self_closing,
    }
}

/// The whole matching of a start tag in one pass, its attributes known from
/// the beginning.
pub open spec fn start_tag_run<P>(
    program: Program<P>,
    items: Seq<ItemView<P>>,
    name: Seq<u8>,
    ns: Namespace,
    attrs: Seq<Attr>,
    self_closing: bool,
) -> Run<P> {
    run_with_attrs(
        program,
        init_run(name, ns, has_content(name, ns, self_closing)),
        schedule(program.entry_points(), items),
        attrs,
    )
}

/// Whether the start tag cannot be matched without its attributes: it is the
/// tag of a foreign element, or some instruction that it is tried against
/// waits for them.
pub open spec fn needs_attributes<P>(
    program: Program<P>,
    items: Seq<ItemView<P>>,
    name: Seq<u8>,
    ns: Namespace,
) -> bool {
    let sched = schedule(program.entry_points(), items);
    stack_directive(name, ns) == StackDirective::PushIfNotSelfClosing || first_undecided(
        program,
        name,
        sched,
    ) < sched.len()
}

/// What is matched of a start tag before its attributes are known: nothing
/// for a foreign element, and for any other the instructions up to the first
/// that waits for the attributes.
pub open spec fn first_phase<P>(
    program: Program<P>,
    items: Seq<ItemView<P>>,
    name: Seq<u8>,
    ns: Namespace,
) -> Run<P> {
    let directive = stack_directive(name, ns);
    if directive == StackDirective::PushIfNotSelfClosing {
        init_run(name, ns, true)
    } else {
        let sched = schedule(program.entry_points(), items);
        run_by_name(
            program,
            init_run(name, ns, directive == StackDirective::Push),
            sched.take(first_undecided(program, name, sched)),
        )
    }
}

/// Matching by the tag name went from `before` to `after` and stopped at
/// `restore_point` to wait for the attributes: it got as far through the
/// schedule as it could, the instruction that waits is the first that does,
/// and what is pending is what the schedule holds behind it.
pub open spec fn stopped_at<P>(
    program: Program<P>,
    items: Seq<ItemView<P>>,
    before: Run<P>,
    after: Run<P>,
    restore_point: RestorePoint,
) -> bool {
    let sched = schedule(program.entry_points(), items);
    &&& tried_by_name(program, before, after, sched)
    &&& restore_point != RestorePoint::Start
    &&& bailed_out_at(
        program,
        before.ctx.item.local_name,
        sched,
        restore_point.at_addr() as usize,
        pending_addrs(program.entry_points(), items, restore_point),
    )
    &&& points_behind(program.entry_points(), items, restore_point)
}

/// `restore_point` is where the matching of the start tag `name` stopped to
/// wait for the attributes, or, for a foreign element, did not begin.
pub open spec fn awaits_at<P>(
    program: Program<P>,
    items: Seq<ItemView<P>>,
    name: Seq<u8>,
    ns: Namespace,
    restore_point: RestorePoint,
) -> bool {
    let directive = stack_directive(name, ns);
    if directive == StackDirective::PushIfNotSelfClosing {
        restore_point == RestorePoint::Start
    } else {
        stopped_at(
            program,
            items,
            init_run(name, ns, directive == StackDirective::Push),
            first_phase(program, items, name, ns),
            restore_point,
        )
    }
}

/// What is matched of a start tag once its attributes have come, from the
/// context `ctx` that the first phase left: the instruction that waited is
/// finished, then the pending instructions are tried. Where nothing had been
/// tried, the self-closing flag first settles whether the element has
/// content.
pub open spec fn resumed_run<P>(
    program: Program<P>,
    items: Seq<ItemView<P>>,
    ctx: CtxView<P>,
    restore_point: RestorePoint,
    attrs: Seq<Attr>,
    self_closing: bool,
) -> Run<P> {
    let pending = pending_addrs(program.entry_points(), items, restore_point);
    match restore_point {
        RestorePoint::Start => run_with_attrs(
            program,
            Run { ctx: CtxView { with_content: !self_closing, ..ctx }, reports: Seq::empty() },
            pending,
            attrs,
        ),
        _ => run_with_attrs(
            program,
            complete_step(program, Run { ctx, reports: Seq::empty() }, restore_point.at_addr(), attrs),
            pending,
            attrs,
        ),
    }
}

/// The stack after a start tag has been matched: an element with content
/// goes on it, any other leaves it as it was.
pub open spec fn stack_after<P>(items: Seq<ItemView<P>>, run: Run<P>) -> Seq<ItemView<P>> {
    if run.ctx.with_content {
        pushed(items, run.ctx.item)
    } else {
        items
    }
}

/// An item that may go on the stack of a program of `n` instructions: it
/// holds no payload twice, and every address in it is below `n`.
pub open spec fn item_fits<P>(item: ItemView<P>, n: nat) -> bool {
    item.matched_payload.no_duplicates() && item.within(n)
}

/// A request for the attributes can be served on a machine that runs
/// `program`: the item under construction fits, and the instruction that
/// waits is one of the program's.
pub open spec fn request_fits<P>(program: Program<P>, ctx: CtxView<P>, restore_point: RestorePoint) -> bool {
    &&& item_fits(ctx.item, program.len())
    &&& restore_point != RestorePoint::Start ==> 0 <= restore_point.at_addr() < program.len()
}

/// The new payloads of a branch are new indeed: with those seen before they
/// make a list without repetition.
pub proof fn lemma_fresh_payloads_distinct<P>(seen: Seq<P>, incoming: Seq<P>)
    requires
        seen.no_duplicates(),
    ensures
        (seen + fresh_payloads(seen, incoming)).no_duplicates(),
    decreases incoming.len(),
{
    if incoming.len() == 0 {
        assert(seen + fresh_payloads(seen, incoming) =~= seen);
    } else {
        lemma_fresh_payloads_distinct(seen, incoming.drop_last());
        let earlier = fresh_payloads(seen, incoming.drop_last());
        let p = incoming.last();
        if !(seen.contains(p) || earlier.contains(p)) {
            let all = seen + earlier.push(p);
            let most = seen + earlier;
            assert forall|i: int, j: int| 0 <= i < all.len() && 0 <= j < all.len() && i != j implies all[i]
                != all[j] by {
                if i < most.len() && j < most.len() {
                    assert(all[i] == most[i] && all[j] == most[j]);
                } else {
                    let o = if i < most.len() {
                        i
                    } else {
                        j
                    };
                    assert(all[o] == most[o]);
                    if o < seen.len() {
                        assert(seen[o] == most[o]);
                        assert(seen.contains(most[o]));
                    } else {
                        assert(earlier[o - seen.len()] == most[o]);
                        assert(earlier.contains(most[o]));
                    }
                }
            }
        }
    }
}

/// An item that fits still fits after a branch of the program has been
/// taken.
pub proof fn lemma_add_branch_keeps_fit<P>(run: Run<P>, branch: BranchView<P>, n: nat)
    requires
        item_fits(run.ctx.item, n),
        branch.within(n),
    ensures
        item_fits(add_branch(run, branch).ctx.item, n),
{
    lemma_fresh_payloads_distinct(run.ctx.item.matched_payload, branch.matched_payload);
}

/// An item that fits still fits after any run of the program.
pub proof fn lemma_run_keeps_fit<P>(program: Program<P>, run: Run<P>, addrs: Seq<int>, attrs: Seq<Attr>)
    requires
        program.wf(),
        addrs_below(addrs, program.len()),
        item_fits(run.ctx.item, program.len()),
    ensures
        item_fits(run_with_attrs(program, run, addrs, attrs).ctx.item, program.len()),
        item_fits(run_by_name(program, run, addrs).ctx.item, program.len()),
    decreases addrs.len(),
{
    if addrs.len() > 0 {
        assert forall|i: int| 0 <= i < addrs.drop_last().len() implies 0 <= #[trigger] addrs.drop_last()[i]
            < program.len() by {
            assert(addrs.drop_last()[i] == addrs[i]);
        }
        lemma_run_keeps_fit(program, run, addrs.drop_last(), attrs);
        let addr = addrs.last();
        assert(addr == addrs[addrs.len() - 1]);
        assert(program.branch(addr).within(program.len()));
        lemma_add_branch_keeps_fit(
            run_with_attrs(program, run, addrs.drop_last(), attrs),
            program.branch(addr),
            program.len(),
        );
        lemma_add_branch_keeps_fit(
            run_by_name(program, run, addrs.drop_last()),
            program.branch(addr),
            program.len(),
        );
    }
}

/// The reports made before a branch is taken stay as they are.
pub proof fn lemma_complete_step_appends_reports<P>(
    program: Program<P>,
    run: Run<P>,
    addr: int,
    attrs: Seq<Attr>,
)
    ensures
        ({
            let bare = Run { ctx: run.ctx, reports: Seq::<MatchInfo<P>>::empty() };
            &&& complete_step(program, run, addr, attrs).ctx == complete_step(program, bare, addr, attrs).ctx
            &&& complete_step(program, run, addr, attrs).reports == run.reports + complete_step(
                program,
                bare,
                addr,
                attrs,
            ).reports
        }),
{
    let bare = Run { ctx: run.ctx, reports: Seq::<MatchInfo<P>>::empty() };
    let branch = program.branch(addr);
    assert(add_branch(run, branch).reports =~= run.reports + add_branch(bare, branch).reports);
    assert(run.reports =~= run.reports + bare.reports);
}

/// Every pending address is the address of an instruction.
pub proof fn lemma_pending_addrs_below<P>(
    entry_points: AddressRange,
    items: Seq<ItemView<P>>,
    restore_point: RestorePoint,
    n: nat,
)
    requires
        entry_points.within(n),
        stack_within(items, n),
    ensures
        addrs_below(pending_addrs(entry_points, items, restore_point), n),
{
    lemma_schedule_below(entry_points, items, n);
    match restore_point {
        RestorePoint::Start => {},
        RestorePoint::EntryPoints { offset, .. } => {
            lemma_range_addrs_below(entry_points, offset as nat, n);
            lemma_addrs_below_concat(entry_points.addrs_from(offset as nat), child_addrs(items), n);
            lemma_addrs_below_concat(
                entry_points.addrs_from(offset as nat) + child_addrs(items),
                hereditary_addrs(items),
                n,
            );
        },
        RestorePoint::Jumps { ptr, .. } => {
            lemma_addrs_from_below(items, ptr, HereditaryJumpPtr { stack_offset: 0, instr_set_idx: 0, offset: 0 }, n);
            lemma_addrs_below_concat(child_addrs_from(items, ptr), hereditary_addrs(items), n);
        },
        RestorePoint::HereditaryJumps { ptr, .. } => {
            lemma_addrs_from_below(items, JumpPtr { instr_set_idx: 0, offset: 0 }, ptr, n);
        },
    }
}

/// A stack within a program stays within it when an item that fits is
/// pushed, and stays well-formed.
pub proof fn lemma_push_keeps_stack<P>(items: Seq<ItemView<P>>, item: ItemView<P>, n: nat)
    requires
        stack_wf(items),
        stack_within(items, n),
        item_fits(item, n),
    ensures
        stack_wf(pushed(items, item)),
        stack_within(pushed(items, item), n),
{
    lemma_push_keeps_wf(items, item);
    let next = pushed(items, item);
    assert forall|i: int| 0 <= i < next.len() implies (#[trigger] next[i]).within(n) by {
        if i < items.len() {
            assert(next[i] == items[i]);
        }
    }
}

/// Matching that stops at an entry point stops there in the schedule.
pub proof fn lemma_bailout_in_entry_points<P>(
    program: Program<P>,
    items: Seq<ItemView<P>>,
    before: Run<P>,
    after: Run<P>,
    at_addr: usize,
    offset: usize,
)
    requires
        tried_by_name(program, before, after, program.entry_points().addrs()),
        bailed_out_at(
            program,
            before.ctx.item.local_name,
            program.entry_points().addrs(),
            at_addr,
            program.entry_points().addrs_from(offset as nat),
        ),
        behind(program.entry_points(), at_addr, offset),
    ensures
        stopped_at(program, items, before, after, RestorePoint::EntryPoints { at_addr, offset }),
{
    let e = program.entry_points().addrs();
    let c = child_addrs(items);
    let h = hereditary_addrs(items);
    let none = Seq::<int>::empty();
    let rest = program.entry_points().addrs_from(offset as nat);
    lemma_tried_extends(program, before, before, after, none, e, c + h, at_addr, rest);
    assert(none + e + (c + h) =~= schedule(program.entry_points(), items));
    assert(rest + (c + h) =~= rest + c + h);
}

/// Matching that gets through the entry points and stops at an instruction
/// for children stops there in the schedule.
pub proof fn lemma_bailout_in_jumps<P>(
    program: Program<P>,
    items: Seq<ItemView<P>>,
    before: Run<P>,
    after_entry: Run<P>,
    after: Run<P>,
    at_addr: usize,
    ptr: JumpPtr,
)
    requires
        tried_by_name(program, before, after_entry, program.entry_points().addrs()),
        first_undecided(program, before.ctx.item.local_name, program.entry_points().addrs())
            == program.entry_points().addrs().len(),
        tried_by_name(program, after_entry, after, child_addrs(items)),
        bailed_out_at(
            program,
            after_entry.ctx.item.local_name,
            child_addrs(items),
            at_addr,
            child_addrs_from(items, ptr),
        ),
        items.len() > 0 && behind_in(items.last().jumps, at_addr, ptr),
    ensures
        stopped_at(program, items, before, after, RestorePoint::Jumps { at_addr, ptr }),
{
    let e = program.entry_points().addrs();
    let c = child_addrs(items);
    let h = hereditary_addrs(items);
    assert(e.take(e.len() as int) =~= e);
    lemma_run_keeps_element(program, before, e, Seq::empty());
    lemma_tried_extends(program, before, after_entry, after, e, c, h, at_addr, child_addrs_from(items, ptr));
}

/// Matching that gets through the entry points and the instructions for
/// children and stops at an instruction for descendants stops there in the
/// schedule.
pub proof fn lemma_bailout_in_hereditary_jumps<P>(
    program: Program<P>,
    items: Seq<ItemView<P>>,
    before: Run<P>,
    after_entry: Run<P>,
    after_jumps: Run<P>,
    after: Run<P>,
    at_addr: usize,
    ptr: HereditaryJumpPtr,
)
    requires
        tried_by_name(program, before, after_entry, program.entry_points().addrs()),
        first_undecided(program, before.ctx.item.local_name, program.entry_points().addrs())
            == program.entry_points().addrs().len(),
        tried_by_name(program, after_entry, after_jumps, child_addrs(items)),
        first_undecided(program, after_entry.ctx.item.local_name, child_addrs(items)) == child_addrs(
            items,
        ).len(),
        tried_by_name(program, after_jumps, after, hereditary_addrs(items)),
        bailed_out_at(
            program,
            after_jumps.ctx.item.local_name,
            hereditary_addrs(items),
            at_addr,
            hereditary_addrs_from(items, ptr),
        ),
        ptr.stack_offset < items.len() && behind_in(
            items[items.len() - 1 - ptr.stack_offset].hereditary_jumps,
            at_addr,
            JumpPtr { instr_set_idx: ptr.instr_set_idx, offset: ptr.offset },
        ),
    ensures
        stopped_at(program, items, before, after, RestorePoint::HereditaryJumps { at_addr, ptr }),
{
    let e = program.entry_points().addrs();
    let c = child_addrs(items);
    let h = hereditary_addrs(items);
    let none = Seq::<int>::empty();
    let rest = hereditary_addrs_from(items, ptr);
    assert(e.take(e.len() as int) =~= e);
    assert(c.take(c.len() as int) =~= c);
    lemma_run_keeps_element(program, before, e, Seq::empty());
    lemma_tried_extends(program, before, after_entry, after_jumps, e, c, none, 0, none);
    lemma_run_keeps_element(program, before, e + c, Seq::empty());
    lemma_tried_extends(program, before, after_jumps, after, e + c, h, none, at_addr, rest);
    assert(e + c + h + none =~= schedule(program.entry_points(), items));
    assert(rest + none =~= rest);
}

/// Matching that gets through all three phases has got through the
/// schedule.
pub proof fn lemma_no_bailout<P>(
    program: Program<P>,
    items: Seq<ItemView<P>>,
    before: Run<P>,
    after_entry: Run<P>,
    after_jumps: Run<P>,
    after: Run<P>,
)
    requires
        tried_by_name(program, before, after_entry, program.entry_points().addrs()),
        first_undecided(program, before.ctx.item.local_name, program.entry_points().addrs())
            == program.entry_points().addrs().len(),
        tried_by_name(program, after_entry, after_jumps, child_addrs(items)),
        first_undecided(program, after_entry.ctx.item.local_name, child_addrs(items)) == child_addrs(
            items,
        ).len(),
        tried_by_name(program, after_jumps, after, hereditary_addrs(items)),
        first_undecided(program, after_jumps.ctx.item.local_name, hereditary_addrs(items))
            == hereditary_addrs(items).len(),
    ensures
        tried_by_name(program, before, after, schedule(program.entry_points(), items)),
        first_undecided(
            program,
            before.ctx.item.local_name,
            schedule(program.entry_points(), items),
        ) == schedule(program.entry_points(), items).len(),
        after == run_by_name(program, before, schedule(program.entry_points(), items)),
{
    let e = program.entry_points().addrs();
    let c = child_addrs(items);
    let h = hereditary_addrs(items);
    let none = Seq::<int>::empty();
    let sched = schedule(program.entry_points(), items);
    assert(e.take(e.len() as int) =~= e);
    assert(c.take(c.len() as int) =~= c);
    assert(h.take(h.len() as int) =~= h);
    lemma_run_keeps_element(program, before, e, Seq::empty());
    lemma_tried_extends(program, before, after_entry, after_jumps, e, c, none, 0, none);
    lemma_run_keeps_element(program, before, e + c, Seq::empty());
    lemma_tried_extends(program, before, after_jumps, after, e + c, h, none, 0, none);
    assert(sched.take(sched.len() as int) =~= sched);
}

/// An item that fits still fits where matching by the tag name stops.
pub proof fn lemma_first_phase_keeps_fit<P>(
    program: Program<P>,
    items: Seq<ItemView<P>>,
    before: Run<P>,
    after: Run<P>,
)
    requires
        program.wf(),
        stack_within(items, program.len()),
        item_fits(before.ctx.item, program.len()),
        tried_by_name(program, before, after, schedule(program.entry_points(), items)),
    ensures
        item_fits(after.ctx.item, program.len()),
        first_undecided(program, before.ctx.item.local_name, schedule(program.entry_points(), items))
            < schedule(program.entry_points(), items).len() ==> 0 <= schedule(
            program.entry_points(),
            items,
        )[first_undecided(
            program,
            before.ctx.item.local_name,
            schedule(program.entry_points(), items),
        )] < program.len(),
{
    let sched = schedule(program.entry_points(), items);
    let k = first_undecided(program, before.ctx.item.local_name, sched);
    lemma_schedule_below(program.entry_points(), items, program.len());
    crate::matching::lemma_first_undecided(program, before.ctx.item.local_name, sched);
    assert forall|i: int| 0 <= i < sched.take(k).len() implies 0 <= #[trigger] sched.take(k)[i]
        < program.len() by {
        assert(sched.take(k)[i] == sched[i]);
    }
    lemma_run_keeps_fit(program, before, sched.take(k), Seq::empty());
}

/// The state in which matching is taken up again: the context that the first
/// phase left, with the self-closing flag taken in where nothing had been
/// tried, and with the instruction that waited finished where one had.
pub open spec fn resumption_start<P>(
    program: Program<P>,
    run: Run<P>,
    restore_point: RestorePoint,
    attrs: Seq<Attr>,
    self_closing: bool,
) -> Run<P> {
    match restore_point {
        RestorePoint::Start => Run {
            ctx: CtxView { with_content: !self_closing, ..run.ctx },
            reports: run.reports,
        },
        _ => complete_step(program, run, restore_point.at_addr(), attrs),
    }
}

/// Taking matching up again after some reports have been made leaves those
/// reports as they are and adds what `resumed_run` reports; the context it
/// ends in is that of `resumed_run`, and its item fits where the request
/// did.
pub proof fn lemma_resumed_run<P>(
    program: Program<P>,
    items: Seq<ItemView<P>>,
    run: Run<P>,
    restore_point: RestorePoint,
    attrs: Seq<Attr>,
    self_closing: bool,
)
    ensures
        ({
            let resumed = resumed_run(program, items, run.ctx, restore_point, attrs, self_closing);
            let after = run_with_attrs(
                program,
                resumption_start(program, run, restore_point, attrs, self_closing),
                pending_addrs(program.entry_points(), items, restore_point),
                attrs,
            );
            &&& after.ctx == resumed.ctx
            &&& after.reports == run.reports + resumed.reports
            &&& program.wf() && stack_within(items, program.len()) && request_fits(
                program,
                run.ctx,
                restore_point,
            ) ==> item_fits(resumed.ctx.item, program.len())
        }),
{
    let bare = Run { ctx: run.ctx, reports: Seq::<MatchInfo<P>>::empty() };
    let pending = pending_addrs(program.entry_points(), items, restore_point);
    let full_start = resumption_start(program, run, restore_point, attrs, self_closing);
    let bare_start = resumption_start(program, bare, restore_point, attrs, self_closing);
    lemma_complete_step_appends_reports(program, run, restore_point.at_addr(), attrs);
    assert(full_start.ctx == bare_start.ctx);
    assert(full_start.reports =~= run.reports + bare_start.reports);
    lemma_run_appends_reports(program, full_start, pending, attrs);
    lemma_run_appends_reports(program, bare_start, pending, attrs);
    let tail = run_with_attrs(
        program,
        Run { ctx: bare_start.ctx, reports: Seq::<MatchInfo<P>>::empty() },
        pending,
        attrs,
    );
    assert(run.reports + bare_start.reports + tail.reports =~= run.reports + (bare_start.reports
        + tail.reports));
    if program.wf() && stack_within(items, program.len()) && request_fits(program, run.ctx, restore_point) {
        lemma_pending_addrs_below(program.entry_points(), items, restore_point, program.len());
        if restore_point != RestorePoint::Start {
            assert(program.branch(restore_point.at_addr()).within(program.len()));
            lemma_add_branch_keeps_fit(bare, program.branch(restore_point.at_addr()), program.len());
        }
        lemma_run_keeps_fit(program, bare_start, pending, attrs);
    }
}

} // verus!
