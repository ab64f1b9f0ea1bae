//! What holds of the machine on every program, every stack and every
//! document.

use vstd::prelude::*;
use crate::attribute_matcher::Attr;
use crate::html::Namespace;
use crate::matching::{
    add_branch, bailed_out_at, complete_step, first_undecided, lemma_decided_run_agrees,
    lemma_first_undecided, lemma_first_undecided_is, lemma_run_keeps_element,
    lemma_run_with_attrs_concat, reports_of, run_by_name, run_with_attrs, undecided, Run,
};
use crate::program::{BranchView, Program};
use crate::protocol::{
    awaits_at, first_phase, has_content, init_run, lemma_fresh_payloads_distinct,
    lemma_resumed_run, needs_attributes, pending_addrs, resumed_run, resumption_start,
    stack_after, start_tag_run, stopped_at, RestorePoint,
};
use crate::schedule::schedule;
use crate::stack::{
    has_hereditary_jumps_below, innermost_named, lemma_innermost_named, lemma_push_keeps_wf,
    lemma_take_keeps_wf, popped_up_to, pushed, stack_directive, stack_wf, unmatched_by,
    unwound_payloads, ItemView, StackDirective,
};

verus! {

/// The reports of a run are those of the payloads that its item has
/// recorded, in the same order, and the item has recorded no payload twice.
pub open spec fn reports_mirror_payloads<P>(run: Run<P>) -> bool {
    &&& run.reports == reports_of(run.ctx.item.matched_payload, run.ctx.with_content)
    &&& run.ctx.item.matched_payload.no_duplicates()
}

/// Taking a branch keeps the reports in step with the recorded payloads.
pub proof fn lemma_add_branch_mirrors<P>(run: Run<P>, branch: BranchView<P>)
    requires
        reports_mirror_payloads(run),
    ensures
        reports_mirror_payloads(add_branch(run, branch)),
{
    lemma_fresh_payloads_distinct(run.ctx.item.matched_payload, branch.matched_payload);
    let after = add_branch(run, branch);
    assert(after.reports =~= reports_of(after.ctx.item.matched_payload, after.ctx.with_content));
}

/// Any run keeps the reports in step with the recorded payloads.
pub proof fn lemma_run_mirrors<P>(program: Program<P>, run: Run<P>, addrs: Seq<int>, attrs: Seq<Attr>)
    requires
        reports_mirror_payloads(run),
    ensures
        reports_mirror_payloads(run_with_attrs(program, run, addrs, attrs)),
        reports_mirror_payloads(run_by_name(program, run, addrs)),
    decreases addrs.len(),
{
    if addrs.len() > 0 {
        lemma_run_mirrors(program, run, addrs.drop_last(), attrs);
        lemma_add_branch_mirrors(
            run_with_attrs(program, run, addrs.drop_last(), attrs),
            program.branch(addrs.last()),
        );
        lemma_add_branch_mirrors(
            run_by_name(program, run, addrs.drop_last()),
            program.branch(addrs.last()),
        );
    }
}

/// No element reports the same payload twice: the reports of one start tag
/// announce pairwise different payloads. They are the payloads that the
/// element's stack item records, in the order of the reports.
pub proof fn lemma_no_payload_reported_twice<P>(
    program: Program<P>,
    items: Seq<ItemView<P>>,
    name: Seq<u8>,
    ns: Namespace,
    attrs: Seq<Attr>,
    self_closing: bool,
)
    ensures
        ({
            let run = start_tag_run(program, items, name, ns, attrs, self_closing);
            &&& reports_mirror_payloads(run)
            &&& forall|i: int, j: int|
                0 <= i < j < run.reports.len() ==> run.reports[i].payload != run.reports[j].payload
        }),
{
    let init = init_run::<P>(name, ns, has_content(name, ns, self_closing));
    assert(init.reports =~= reports_of(init.ctx.item.matched_payload, init.ctx.with_content));
    lemma_run_mirrors(program, init, schedule(program.entry_points(), items), attrs);
    let run = start_tag_run(program, items, name, ns, attrs, self_closing);
    assert forall|i: int, j: int| 0 <= i < j < run.reports.len() implies run.reports[i].payload
        != run.reports[j].payload by {
        assert(run.reports[i].payload == run.ctx.item.matched_payload[i]);
        assert(run.reports[j].payload == run.ctx.item.matched_payload[j]);
    }
}

/// Every report of a start tag says whether the element has content, and an
/// element without content, void or self-closing, does not go on the stack,
/// while an element with content does.
pub proof fn lemma_reports_tell_content<P>(
    program: Program<P>,
    items: Seq<ItemView<P>>,
    name: Seq<u8>,
    ns: Namespace,
    attrs: Seq<Attr>,
    self_closing: bool,
)
    ensures
        ({
            let run = start_tag_run(program, items, name, ns, attrs, self_closing);
            let with_content = has_content(name, ns, self_closing);
            &&& forall|i: int| 0 <= i < run.reports.len() ==> (#[trigger] run.reports[i]).with_content == with_content
            &&& !with_content ==> stack_after(items, run) == items
            &&& with_content ==> stack_after(items, run) == pushed(items, run.ctx.item)
        }),
{
    lemma_no_payload_reported_twice(program, items, name, ns, attrs, self_closing);
    lemma_run_keeps_element(
        program,
        init_run::<P>(name, ns, has_content(name, ns, self_closing)),
        schedule(program.entry_points(), items),
        attrs,
    );
}

/// Matching a start tag in two steps, before and after its attributes have
/// come, reports what matching it in one pass with the attributes known
/// reports, in the same order, and ends in the same context.
pub proof fn lemma_resume_is_single_pass<P>(
    program: Program<P>,
    items: Seq<ItemView<P>>,
    name: Seq<u8>,
    ns: Namespace,
    restore_point: RestorePoint,
    attrs: Seq<Attr>,
    self_closing: bool,
)
    requires
        awaits_at(program, items, name, ns, restore_point),
    ensures
        ({
            let first = first_phase(program, items, name, ns);
            let rest = resumed_run(program, items, first.ctx, restore_point, attrs, self_closing);
            let whole = start_tag_run(program, items, name, ns, attrs, self_closing);
            &&& rest.ctx == whole.ctx
            &&& first.reports + rest.reports == whole.reports
        }),
{
    let first = first_phase(program, items, name, ns);
    let rest = resumed_run(program, items, first.ctx, restore_point, attrs, self_closing);
    let whole = start_tag_run(program, items, name, ns, attrs, self_closing);
    let sched = schedule(program.entry_points(), items);
    let directive = stack_directive(name, ns);
    if directive == StackDirective::PushIfNotSelfClosing {
        assert(restore_point == RestorePoint::Start);
        assert(first.reports + rest.reports =~= rest.reports);
    } else {
        let init = init_run::<P>(name, ns, directive == StackDirective::Push);
        let k = first_undecided(program, name, sched);
        let pending = pending_addrs(program.entry_points(), items, restore_point);
        assert(stopped_at(program, items, init, first, restore_point));
        assert(bailed_out_at(program, name, sched, restore_point.at_addr() as usize, pending));
        lemma_first_undecided(program, name, sched);
        assert(0 <= k < sched.len());
        let head = sched.take(k);
        let at = sched[k];
        assert(at == restore_point.at_addr());
        assert(init == init_run::<P>(name, ns, has_content(name, ns, self_closing)));
        lemma_first_undecided(program, name, sched);
        assert forall|j: int| 0 <= j < k implies !undecided(program, name, #[trigger] head[j]) by {
            assert(head[j] == sched[j]);
        }
        lemma_first_undecided_is(program, name, head, k);
        lemma_decided_run_agrees(program, init, head, attrs);
        lemma_run_keeps_element(program, init, head, attrs);
        assert(sched =~= head + seq![at] + pending);
        lemma_run_with_attrs_concat(program, init, head + seq![at], pending, attrs);
        lemma_run_with_attrs_concat(program, init, head, seq![at], attrs);
        assert(seq![at].drop_last() =~= Seq::<int>::empty());
        assert(seq![at].last() == at);
        assert(first == run_with_attrs(program, init, head, attrs));
        assert(undecided(program, name, at));
        assert(run_with_attrs(program, first, Seq::<int>::empty(), attrs) == first);
        assert(run_with_attrs(program, first, seq![at], attrs) == complete_step(program, first, at, attrs));
        lemma_resumed_run(program, items, first, restore_point, attrs, self_closing);
        assert(whole == run_with_attrs(
            program,
            resumption_start(program, first, restore_point, attrs, self_closing),
            pending,
            attrs,
        ));
    }
}

/// Where a start tag is matched without a request for its attributes, what
/// is reported is what matching it with the attributes known reports,
/// whatever the attributes are.
pub proof fn lemma_no_request_is_single_pass<P>(
    program: Program<P>,
    items: Seq<ItemView<P>>,
    name: Seq<u8>,
    ns: Namespace,
    attrs: Seq<Attr>,
    self_closing: bool,
)
    requires
        !needs_attributes(program, items, name, ns),
    ensures
        first_phase(program, items, name, ns) == start_tag_run(
            program,
            items,
            name,
            ns,
            attrs,
            self_closing,
        ),
{
    let sched = schedule(program.entry_points(), items);
    let directive = stack_directive(name, ns);
    let init = init_run::<P>(name, ns, directive == StackDirective::Push);
    lemma_first_undecided(program, name, sched);
    assert(sched.take(sched.len() as int) =~= sched);
    lemma_decided_run_agrees(program, init, sched, attrs);
}

/// The payloads that an end tag hands over are those of each closed
/// element, one element after the other: for the element at index `j` they
/// stand, whole and in the order of their reports, behind those of the
/// elements above it and before those of the elements below it.
pub proof fn lemma_unwound_payloads_split<P>(items: Seq<ItemView<P>>, from: int, j: int)
    requires
        0 <= from <= j < items.len(),
    ensures
        unwound_payloads(items, from) == unwound_payloads(items, j + 1) + items[j].matched_payload
            + unwound_payloads(items.take(j), from),
    decreases items.len(),
{
    if j == items.len() - 1 {
        assert(unwound_payloads(items, j + 1) =~= Seq::<P>::empty());
        assert(items.take(j) =~= items.drop_last());
        assert(unwound_payloads(items, j + 1) + items[j].matched_payload =~= items[j].matched_payload);
    } else {
        lemma_unwound_payloads_split(items.drop_last(), from, j);
        assert(items.drop_last().take(j) =~= items.take(j));
        assert(items.drop_last()[j] == items[j]);
        assert(items.last().matched_payload + (unwound_payloads(items.drop_last(), j + 1) + items[j].matched_payload
            + unwound_payloads(items.take(j), from)) =~= (items.last().matched_payload + unwound_payloads(
            items.drop_last(),
            j + 1,
        )) + items[j].matched_payload + unwound_payloads(items.take(j), from));
    }
}

/// Every payload that was reported for an element with content is handed
/// over exactly once when the element is closed: the end tag of an element
/// on top of the stack takes that element off, leaves the stack as it was
/// before the start tag, and hands over the payloads that the start tag
/// reported, each once and in the order of the reports.
pub proof fn lemma_end_tag_unmatches_reports<P>(
    program: Program<P>,
    items: Seq<ItemView<P>>,
    name: Seq<u8>,
    ns: Namespace,
    attrs: Seq<Attr>,
    self_closing: bool,
)
    requires
        has_content(name, ns, self_closing),
    ensures
        ({
            let run = start_tag_run(program, items, name, ns, attrs, self_closing);
            let opened = stack_after(items, run);
            &&& popped_up_to(opened, name) == items
            &&& unmatched_by(opened, name).no_duplicates()
            &&& reports_of(unmatched_by(opened, name), true) == run.reports
        }),
{
    let run = start_tag_run(program, items, name, ns, attrs, self_closing);
    let opened = stack_after(items, run);
    lemma_no_payload_reported_twice(program, items, name, ns, attrs, self_closing);
    lemma_reports_tell_content(program, items, name, ns, attrs, self_closing);
    lemma_run_keeps_element(
        program,
        init_run::<P>(name, ns, true),
        schedule(program.entry_points(), items),
        attrs,
    );
    assert(opened.last().local_name == name);
    assert(innermost_named(opened, name) == Some(items.len() as int));
    assert(opened.take(items.len() as int) =~= items);
    assert(opened.drop_last() =~= items);
    assert(unwound_payloads(items, items.len() as int) =~= Seq::<P>::empty());
    assert(unmatched_by(opened, name) =~= run.ctx.item.matched_payload);
}

/// On every stack that the machine reaches, the flag of each item says
/// whether some item below it has instruction sets for its descendants, and
/// no item holds a payload twice: an empty stack is so, and a start tag and
/// an end tag leave a stack so.
pub proof fn lemma_flags_stay_right<P>(
    program: Program<P>,
    items: Seq<ItemView<P>>,
    name: Seq<u8>,
    ns: Namespace,
    attrs: Seq<Attr>,
    self_closing: bool,
)
    requires
        stack_wf(items),
    ensures
        stack_wf(Seq::<ItemView<P>>::empty()),
        stack_wf(stack_after(items, start_tag_run(program, items, name, ns, attrs, self_closing))),
        stack_wf(popped_up_to(items, name)),
        forall|i: int|
            0 <= i < items.len() ==> (#[trigger] items[i]).has_ancestor_with_hereditary_jumps == exists|j: int|
                0 <= j < i && (#[trigger] items[j]).hereditary_jumps.len() > 0,
{
    let run = start_tag_run(program, items, name, ns, attrs, self_closing);
    lemma_no_payload_reported_twice(program, items, name, ns, attrs, self_closing);
    lemma_push_keeps_wf(items, run.ctx.item);
    lemma_innermost_named(items, name);
    if let Some(i) = innermost_named(items, name) {
        lemma_take_keeps_wf(items, i);
    }
    assert forall|i: int| 0 <= i < items.len() implies (#[trigger] items[i]).has_ancestor_with_hereditary_jumps
        == exists|j: int| 0 <= j < i && (#[trigger] items[j]).hereditary_jumps.len() > 0 by {
        assert(items[i].has_ancestor_with_hereditary_jumps == has_hereditary_jumps_below(items, i));
        if has_hereditary_jumps_below(items, i) {
            let j = choose|j: int|
                0 <= j < i && j < items.len() && (#[trigger] items[j]).hereditary_jumps.len() > 0;
            assert(0 <= j < i && items[j].hereditary_jumps.len() > 0);
        }
        if exists|j: int| 0 <= j < i && (#[trigger] items[j]).hereditary_jumps.len() > 0 {
            let j = choose|j: int| 0 <= j < i && (#[trigger] items[j]).hereditary_jumps.len() > 0;
            assert(0 <= j < i && j < items.len() && items[j].hereditary_jumps.len() > 0);
        }
    }
}

/// An element of a well-formed document, with its children.
pub struct Element {
    pub name: Seq<u8>,
    pub ns: Namespace,
    pub attrs: Seq<Attr>,
    pub self_closing: bool,
    /// The elements inside this one, in document order. An element without
    /// content has none.
    pub children: Seq<Element>,
}

/// The stack after an element of a well-formed document has gone by: its
/// start tag, and, if it has content, its children and its end tag.
pub open spec fn stack_after_element<P>(
    program: Program<P>,
    items: Seq<ItemView<P>>,
    element: Element,
) -> Seq<ItemView<P>>
    decreases element,
{
    let run = start_tag_run(
        program,
        items,
        element.name,
        element.ns,
        element.attrs,
        element.self_closing,
    );
    if has_content(element.name, element.ns, element.self_closing) {
        popped_up_to(
            stack_after_elements(program, stack_after(items, run), element.children),
            element.name,
        )
    } else {
        stack_after(items, run)
    }
}

/// The stack after a sequence of elements of a well-formed document has gone
/// by.
pub open spec fn stack_after_elements<P>(
    program: Program<P>,
    items: Seq<ItemView<P>>,
    elements: Seq<Element>,
) -> Seq<ItemView<P>>
    decreases elements,
{
    if elements.len() == 0 {
        items
    } else {
        stack_after_element(
            program,
            stack_after_elements(program, items, elements.drop_last()),
            elements.last(),
        )
    }
}

/// An element of a well-formed document leaves the stack as it found it.
pub proof fn lemma_element_restores_stack<P>(program: Program<P>, items: Seq<ItemView<P>>, element: Element)
    ensures
        stack_after_element(program, items, element) == items,
    decreases element,
{
    lemma_reports_tell_content(
        program,
        items,
        element.name,
        element.ns,
        element.attrs,
        element.self_closing,
    );
    if has_content(element.name, element.ns, element.self_closing) {
        let run = start_tag_run(
            program,
            items,
            element.name,
            element.ns,
            element.attrs,
            element.self_closing,
        );
        lemma_document_restores_stack(program, stack_after(items, run), element.children);
        lemma_end_tag_unmatches_reports(
            program,
            items,
            element.name,
            element.ns,
            element.attrs,
            element.self_closing,
        );
    }
}

/// A well-formed document leaves the stack as it found it: a machine that
/// starts with an empty stack ends with an empty stack.
pub proof fn lemma_document_restores_stack<P>(
    program: Program<P>,
    items: Seq<ItemView<P>>,
    elements: Seq<Element>,
)
    ensures
        stack_after_elements(program, items, elements) == items,
    decreases elements,
{
    if elements.len() > 0 {
        lemma_document_restores_stack(program, items, elements.drop_last());
        lemma_element_restores_stack(program, items, elements.last());
    }
}

} // verus!
