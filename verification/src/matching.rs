//! What matching one start tag means, as mathematics: the state that is
//! threaded through the instructions, the effect of one instruction, and the
//! effect of a sequence of them, with and without the tag's attributes.

use vstd::prelude::*;
use crate::attribute_matcher::Attr;
use crate::html::Namespace;
use crate::program::{BranchView, Program};
use crate::stack::ItemView;

verus! {

/// One report to the consumer: the selector with this payload matches the
/// current element.
#[derive(Debug, PartialEq, Eq)]
pub struct MatchInfo<P> {
    pub payload: P,
    /// Whether the element has content, that is, whether it is neither void
    /// nor self-closing.
    pub with_content: bool,
}

/// An [`crate::vm::ExecutionCtx`] as a mathematical value.
pub struct CtxView<P> {
    pub item: ItemView<P>,
    pub with_content: bool,
    pub ns: Namespace,
}

/// The state of matching one start tag: the context, and the reports made so
/// far.
pub struct Run<P> {
    pub ctx: CtxView<P>,
    pub reports: Seq<MatchInfo<P>>,
}

/// The reports that announce `payloads`, one for each, in order.
pub open spec fn reports_of<P>(payloads: Seq<P>, with_content: bool) -> Seq<MatchInfo<P>> {
    Seq::new(payloads.len(), |i: int| MatchInfo { payload: payloads[i], with_content })
}

/// Those of `incoming` that are new: not among `seen`, and not earlier in
/// `incoming`. Their order is that of `incoming`.
pub open spec fn fresh_payloads<P>(seen: Seq<P>, incoming: Seq<P>) -> Seq<P>
    decreases incoming.len(),
{
    if incoming.len() == 0 {
        Seq::empty()
    } else {
        let earlier = fresh_payloads(seen, incoming.drop_last());
        let p = incoming.last();
        if seen.contains(p) || earlier.contains(p) {
            earlier
        } else {
            earlier.push(p)
        }
    }
}

/// The state after a branch has been taken: each new payload is reported and
/// recorded, and an element with content takes over the branch's jump tables.
pub open spec fn add_branch<P>(run: Run<P>, branch: BranchView<P>) -> Run<P> {
    let item = run.ctx.item;
    let fresh = fresh_payloads(item.matched_payload, branch.matched_payload);
    let with_content = run.ctx.with_content;
    Run {
        ctx: CtxView {
            item: ItemView {
                matched_payload: item.matched_payload + fresh,
                jumps: if with_content && branch.jumps is Some {
                    item.jumps.push(branch.jumps->0)
                } else {
                    item.jumps
                },
                hereditary_jumps: if with_content && branch.hereditary_jumps is Some {
                    item.hereditary_jumps.push(branch.hereditary_jumps->0)
                } else {
                    item.hereditary_jumps
                },
                ..item
            },
            ..run.ctx
        },
        reports: run.reports + reports_of(fresh, with_content),
    }
}

/// The state after the instruction at `addr` has been tried on the element,
/// its attributes known.
pub open spec fn step_with_attrs<P>(program: Program<P>, run: Run<P>, addr: int, attrs: Seq<Attr>) -> Run<P> {
    if program.instructions()[addr].matches(run.ctx.item.local_name, attrs) {
        add_branch(run, program.branch(addr))
    } else {
        run
    }
}

/// The state after the instructions at `addrs` have been tried in order, the
/// element's attributes known.
pub open spec fn run_with_attrs<P>(
    program: Program<P>,
    run: Run<P>,
    addrs: Seq<int>,
    attrs: Seq<Attr>,
) -> Run<P>
    decreases addrs.len(),
{
    if addrs.len() == 0 {
        run
    } else {
        step_with_attrs(
            program,
            run_with_attrs(program, run, addrs.drop_last(), attrs),
            addrs.last(),
            attrs,
        )
    }
}

/// The state after the attribute predicates of the instruction at `addr`
/// have been tried; its tag-name predicates are taken to hold.
pub open spec fn complete_step<P>(program: Program<P>, run: Run<P>, addr: int, attrs: Seq<Attr>) -> Run<P> {
    if program.instructions()[addr].attrs_match(attrs) {
        add_branch(run, program.branch(addr))
    } else {
        run
    }
}

/// The instruction at `addr` cannot be decided for an element called `name`
/// until the attributes are known.
pub open spec fn undecided<P>(program: Program<P>, name: Seq<u8>, addr: int) -> bool {
    program.instructions()[addr].name_matches(name) && program.instructions()[addr].needs_attrs()
}

/// The state after the instruction at `addr` has been tried on the element
/// by its tag name alone. This is for instructions that are not `undecided`.
pub open spec fn step_by_name<P>(program: Program<P>, run: Run<P>, addr: int) -> Run<P> {
    if program.instructions()[addr].name_matches(run.ctx.item.local_name) {
        add_branch(run, program.branch(addr))
    } else {
        run
    }
}

/// The state after the instructions at `addrs` have been tried in order by
/// the tag name alone.
pub open spec fn run_by_name<P>(program: Program<P>, run: Run<P>, addrs: Seq<int>) -> Run<P>
    decreases addrs.len(),
{
    if addrs.len() == 0 {
        run
    } else {
        step_by_name(program, run_by_name(program, run, addrs.drop_last()), addrs.last())
    }
}

/// The index in `addrs` of the first instruction that is `undecided` for
/// `name`, or the length of `addrs` where there is none.
pub open spec fn first_undecided<P>(program: Program<P>, name: Seq<u8>, addrs: Seq<int>) -> int
    decreases addrs.len(),
{
    if addrs.len() == 0 {
        0
    } else {
        let k = first_undecided(program, name, addrs.drop_last());
        if k < addrs.len() - 1 {
            k
        } else if undecided(program, name, addrs.last()) {
            addrs.len() - 1
        } else {
            addrs.len() as int
        }
    }
}

/// `first_undecided` is the least index of an undecided instruction.
pub proof fn lemma_first_undecided<P>(program: Program<P>, name: Seq<u8>, addrs: Seq<int>)
    ensures
        0 <= first_undecided(program, name, addrs) <= addrs.len(),
        forall|j: int|
            0 <= j < first_undecided(program, name, addrs) ==> !undecided(
                program,
                name,
                #[trigger] addrs[j],
            ),
        first_undecided(program, name, addrs) < addrs.len() ==> undecided(
            program,
            name,
            addrs[first_undecided(program, name, addrs)],
        ),
    decreases addrs.len(),
{
    if addrs.len() > 0 {
        lemma_first_undecided(program, name, addrs.drop_last());
        let k = first_undecided(program, name, addrs);
        assert forall|j: int| 0 <= j < k implies !undecided(program, name, #[trigger] addrs[j]) by {
            if j < addrs.len() - 1 {
                assert(addrs[j] == addrs.drop_last()[j]);
            }
        }
        if k < addrs.len() - 1 {
            assert(addrs[k] == addrs.drop_last()[k]);
        }
    }
}

/// An index is `first_undecided` if every instruction before it is decided
/// and the one at it, if there is one, is not.
pub proof fn lemma_first_undecided_is<P>(program: Program<P>, name: Seq<u8>, addrs: Seq<int>, k: int)
    requires
        0 <= k <= addrs.len(),
        forall|j: int| 0 <= j < k ==> !undecided(program, name, #[trigger] addrs[j]),
        k < addrs.len() ==> undecided(program, name, addrs[k]),
    ensures
        first_undecided(program, name, addrs) == k,
{
    lemma_first_undecided(program, name, addrs);
    let f = first_undecided(program, name, addrs);
    if f < k {
        assert(!undecided(program, name, addrs[f]));
    } else if k < f {
        assert(!undecided(program, name, addrs[k]));
    }
}

/// In a sequence of two parts the first undecided instruction is that of the
/// first part, or else that of the second.
pub proof fn lemma_first_undecided_concat<P>(program: Program<P>, name: Seq<u8>, a: Seq<int>, b: Seq<int>)
    ensures
        first_undecided(program, name, a + b) == if first_undecided(program, name, a) < a.len() {
            first_undecided(program, name, a)
        } else {
            a.len() + first_undecided(program, name, b)
        },
{
    lemma_first_undecided(program, name, a);
    lemma_first_undecided(program, name, b);
    let fa = first_undecided(program, name, a);
    let fb = first_undecided(program, name, b);
    let k = if fa < a.len() {
        fa
    } else {
        a.len() + fb
    };
    let whole = a + b;
    assert forall|j: int| 0 <= j < k implies !undecided(program, name, #[trigger] whole[j]) by {
        if j < a.len() {
            assert(whole[j] == a[j]);
        } else {
            assert(whole[j] == b[j - a.len()]);
        }
    }
    if k < whole.len() {
        if fa < a.len() {
            assert(whole[k] == a[k]);
        } else {
            assert(whole[k] == b[k - a.len()]);
        }
    }
    lemma_first_undecided_is(program, name, whole, k);
}

/// Running two sequences one after the other is running their concatenation.
pub proof fn lemma_run_with_attrs_concat<P>(
    program: Program<P>,
    run: Run<P>,
    a: Seq<int>,
    b: Seq<int>,
    attrs: Seq<Attr>,
)
    ensures
        run_with_attrs(program, run, a + b, attrs) == run_with_attrs(
            program,
            run_with_attrs(program, run, a, attrs),
            b,
            attrs,
        ),
    decreases b.len(),
{
    if b.len() == 0 {
        assert(a + b =~= a);
    } else {
        assert((a + b).drop_last() =~= a + b.drop_last());
        assert((a + b).last() == b.last());
        lemma_run_with_attrs_concat(program, run, a, b.drop_last(), attrs);
    }
}

/// Running two sequences one after the other is running their concatenation.
pub proof fn lemma_run_by_name_concat<P>(program: Program<P>, run: Run<P>, a: Seq<int>, b: Seq<int>)
    ensures
        run_by_name(program, run, a + b) == run_by_name(program, run_by_name(program, run, a), b),
    decreases b.len(),
{
    if b.len() == 0 {
        assert(a + b =~= a);
    } else {
        assert((a + b).drop_last() =~= a + b.drop_last());
        assert((a + b).last() == b.last());
        lemma_run_by_name_concat(program, run, a, b.drop_last());
    }
}

/// A run changes neither the element's name, nor whether it has content, nor
/// its namespace, nor its flag.
pub proof fn lemma_run_keeps_element<P>(program: Program<P>, run: Run<P>, addrs: Seq<int>, attrs: Seq<Attr>)
    ensures
        ({
            let after = run_with_attrs(program, run, addrs, attrs);
            &&& after.ctx.item.local_name == run.ctx.item.local_name
            &&& after.ctx.with_content == run.ctx.with_content
            &&& after.ctx.ns == run.ctx.ns
            &&& after.ctx.item.has_ancestor_with_hereditary_jumps
                == run.ctx.item.has_ancestor_with_hereditary_jumps
        }),
        ({
            let after = run_by_name(program, run, addrs);
            &&& after.ctx.item.local_name == run.ctx.item.local_name
            &&& after.ctx.with_content == run.ctx.with_content
            &&& after.ctx.ns == run.ctx.ns
            &&& after.ctx.item.has_ancestor_with_hereditary_jumps
                == run.ctx.item.has_ancestor_with_hereditary_jumps
        }),
    decreases addrs.len(),
{
    if addrs.len() > 0 {
        lemma_run_keeps_element(program, run, addrs.drop_last(), attrs);
    }
}

/// Where no instruction of a sequence waits for the attributes, the run by
/// name is the run with attributes, whatever the attributes are.
pub proof fn lemma_decided_run_agrees<P>(program: Program<P>, run: Run<P>, addrs: Seq<int>, attrs: Seq<Attr>)
    requires
        first_undecided(program, run.ctx.item.local_name, addrs) == addrs.len(),
    ensures
        run_by_name(program, run, addrs) == run_with_attrs(program, run, addrs, attrs),
    decreases addrs.len(),
{
    if addrs.len() > 0 {
        let name = run.ctx.item.local_name;
        lemma_first_undecided(program, name, addrs.drop_last());
        lemma_decided_run_agrees(program, run, addrs.drop_last(), attrs);
        lemma_run_keeps_element(program, run, addrs.drop_last(), attrs);
        let instr = program.instructions()[addrs.last()];
        assert(!undecided(program, name, addrs.last()));
        if instr.name_matches(name) {
            assert(instr.attrs_match(attrs));
        }
    }
}

/// The reports made before a run stay as they are, and the run adds to them
/// what it would add to none.
pub proof fn lemma_run_appends_reports<P>(program: Program<P>, run: Run<P>, addrs: Seq<int>, attrs: Seq<Attr>)
    ensures
        ({
            let bare = Run { ctx: run.ctx, reports: Seq::empty() };
            &&& run_with_attrs(program, run, addrs, attrs).ctx == run_with_attrs(program, bare, addrs, attrs).ctx
            &&& run_with_attrs(program, run, addrs, attrs).reports == run.reports + run_with_attrs(
                program,
                bare,
                addrs,
                attrs,
            ).reports
            &&& run_by_name(program, run, addrs).ctx == run_by_name(program, bare, addrs).ctx
            &&& run_by_name(program, run, addrs).reports == run.reports + run_by_name(
                program,
                bare,
                addrs,
            ).reports
        }),
    decreases addrs.len(),
{
    let bare = Run { ctx: run.ctx, reports: Seq::<MatchInfo<P>>::empty() };
    if addrs.len() == 0 {
        assert(run.reports =~= run.reports + bare.reports);
    } else {
        lemma_run_appends_reports(program, run, addrs.drop_last(), attrs);
        let a = run_with_attrs(program, run, addrs.drop_last(), attrs);
        let b = run_with_attrs(program, bare, addrs.drop_last(), attrs);
        let branch = program.branch(addrs.last());
        assert(add_branch(a, branch).reports =~= run.reports + add_branch(b, branch).reports);
        let c = run_by_name(program, run, addrs.drop_last());
        let d = run_by_name(program, bare, addrs.drop_last());
        assert(add_branch(c, branch).reports =~= run.reports + add_branch(d, branch).reports);
    }
}

/// Matching by the tag name got as far through `addrs` as it could: up to the
/// first instruction that waits for the attributes.
pub open spec fn tried_by_name<P>(program: Program<P>, before: Run<P>, after: Run<P>, addrs: Seq<int>) -> bool {
    after == run_by_name(
        program,
        before,
        addrs.take(first_undecided(program, before.ctx.item.local_name, addrs)),
    )
}

/// Some instruction of `addrs` waits for the attributes; the first that does
/// is the one at `at_addr`, and `rest` are the addresses after it.
pub open spec fn bailed_out_at<P>(
    program: Program<P>,
    name: Seq<u8>,
    addrs: Seq<int>,
    at_addr: usize,
    rest: Seq<int>,
) -> bool {
    let k = first_undecided(program, name, addrs);
    &&& k < addrs.len()
    &&& addrs[k] == at_addr
    &&& rest == addrs.skip(k + 1)
}

/// Matching that had got through `pre` and then as far through `seg` as it
/// could has got as far as it could through `pre`, `seg` and whatever comes
/// after them; and where it stopped in `seg`, it stopped at the same
/// instruction of the whole, with the rest of `seg` and all of `post` ahead.
pub proof fn lemma_tried_extends<P>(
    program: Program<P>,
    start: Run<P>,
    mid: Run<P>,
    end: Run<P>,
    pre: Seq<int>,
    seg: Seq<int>,
    post: Seq<int>,
    at_addr: usize,
    rest: Seq<int>,
)
    requires
        first_undecided(program, start.ctx.item.local_name, pre) == pre.len(),
        mid == run_by_name(program, start, pre),
        tried_by_name(program, mid, end, seg),
    ensures
        first_undecided(program, start.ctx.item.local_name, seg) == seg.len() ==> first_undecided(
            program,
            start.ctx.item.local_name,
            pre + seg,
        ) == (pre + seg).len() && end == run_by_name(program, start, pre + seg),
        bailed_out_at(program, start.ctx.item.local_name, seg, at_addr, rest) ==> bailed_out_at(
            program,
            start.ctx.item.local_name,
            pre + seg + post,
            at_addr,
            rest + post,
        ) && tried_by_name(program, start, end, pre + seg + post),
{
    let name = start.ctx.item.local_name;
    let k = first_undecided(program, name, seg);
    let whole = pre + seg + post;
    lemma_run_keeps_element(program, start, pre, Seq::empty());
    lemma_first_undecided(program, name, seg);
    lemma_first_undecided_concat(program, name, pre, seg);
    lemma_first_undecided_concat(program, name, pre + seg, post);
    lemma_run_by_name_concat(program, start, pre, seg.take(k));
    if k == seg.len() {
        assert(seg.take(k) =~= seg);
    } else {
        assert(whole.take(pre.len() + k) =~= pre + seg.take(k));
        assert(whole[pre.len() + k] == seg[k]);
        assert(whole.skip(pre.len() + k + 1) =~= seg.skip(k + 1) + post);
    }
}

} // verus!
