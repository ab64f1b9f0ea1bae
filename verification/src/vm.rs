//! The virtual machine: it owns a program and the stack of open elements,
//! matches each start tag against the program, and unwinds the stack at each
//! end tag.

use vstd::prelude::*;
use vstd::laws_eq::obeys_concrete_eq;
use encoding_rs::Encoding;
use crate::ast::Ast;
use crate::compiler::{compiles_to, Compiler};
use crate::error::SelectorError;
use crate::attribute_matcher::{attrs_of, spans_within, AttributeMatcher, AuxStartTagInfo};
use crate::html::{LocalName, Namespace};
use crate::matching::{
    add_branch, bailed_out_at, complete_step, first_undecided, fresh_payloads,
    lemma_first_undecided_is, lemma_run_with_attrs_concat, lemma_tried_extends, reports_of,
    run_by_name, run_with_attrs, tried_by_name, undecided, CtxView, MatchInfo, Run,
};
use crate::program::{AddressRange, ExecutionBranch, Program, TryExecResult};
use crate::protocol::{
    awaits_at, behind, behind_in, first_phase, item_fits, lemma_bailout_in_entry_points,
    lemma_bailout_in_hereditary_jumps, lemma_bailout_in_jumps, lemma_first_phase_keeps_fit,
    lemma_no_bailout, lemma_push_keeps_stack, lemma_resumed_run, needs_attributes, request_fits,
    resumed_run, stack_after, stopped_at, RestorePoint,
};
use crate::schedule::{
    child_addrs, child_addrs_from, flat_addrs, flat_addrs_from, hereditary_addrs,
    hereditary_addrs_from, lemma_flag_down_ends_walk, lemma_flat_addrs_from_start,
    lemma_flat_addrs_split, lemma_hereditary_addrs_from_start, schedule, HereditaryJumpPtr,
    JumpPtr,
};
use crate::stack::{
    innermost_named, lemma_innermost_named, lemma_take_keeps_wf, popped_up_to, pushed, stack_wf,
    stack_within, unmatched_by, ItemView, Stack, StackDirective, StackItem,
};

verus! {

/// What is known of the element whose start tag is being matched.
#[derive(Debug)]
pub struct ExecutionCtx<'i, P> {
    /// The stack item that the element will have if it goes on the stack.
    pub stack_item: StackItem<'i, P>,
    /// Whether the element has content.
    pub with_content: bool,
    pub ns: Namespace,
}

impl<'i, P> View for ExecutionCtx<'i, P> {
    type V = CtxView<P>;

    open spec fn view(&self) -> CtxView<P> {
        CtxView { item: self.stack_item@, with_content: self.with_content, ns: self.ns }
    }
}

/// The state of matching: a context, and the reports made so far.
pub open spec fn state<P>(ctx: ExecutionCtx<'_, P>, matches: Vec<MatchInfo<P>>) -> Run<P> {
    Run { ctx: ctx@, reports: matches@ }
}

/// Whether `p` is among `payloads`.
pub fn contains_payload<P: Copy + PartialEq>(payloads: &Vec<P>, p: P) -> (r: bool)
    requires
        obeys_concrete_eq::<P>(),
    ensures
        r == payloads@.contains(p),
{
    let mut i: usize = 0;
    while i < payloads.len()
        invariant
            i <= payloads.len(),
            obeys_concrete_eq::<P>(),
            forall|j: int| 0 <= j < i ==> payloads@[j] != p,
        decreases payloads.len() - i,
    {
        proof {
            reveal(obeys_concrete_eq);
        }
        if payloads[i] == p {
            return true;
        }
        i += 1;
    }
    false
}

/// Whether no payload occurs twice in `payloads`.
pub fn payloads_distinct<P: Copy + PartialEq>(payloads: &Vec<P>) -> (r: bool)
    requires
        obeys_concrete_eq::<P>(),
    ensures
        r == payloads@.no_duplicates(),
{
    let mut i: usize = 0;
    while i < payloads.len()
        invariant
            obeys_concrete_eq::<P>(),
            i <= payloads.len(),
            forall|a: int, b: int| 0 <= a < i && 0 <= b < i && a != b ==> payloads@[a] != payloads@[b],
        decreases payloads.len() - i,
    {
        let mut j: usize = 0;
        while j < i
            invariant
                obeys_concrete_eq::<P>(),
                j <= i < payloads.len(),
                forall|b: int| 0 <= b < j ==> payloads@[b] != payloads@[i as int],
            decreases i - j,
        {
            proof {
                reveal(obeys_concrete_eq);
            }
            if payloads[j] == payloads[i] {
                return false;
            }
            j += 1;
        }
        i += 1;
    }
    true
}

/// Whether every range of `sets` lies within a program of `n` instructions.
pub fn ranges_within(sets: &Vec<AddressRange>, n: usize) -> (r: bool)
    ensures
        r == forall|i: int| 0 <= i < sets@.len() ==> (#[trigger] sets@[i]).within(n as nat),
{
    let mut i: usize = 0;
    while i < sets.len()
        invariant
            i <= sets.len(),
            forall|j: int| 0 <= j < i ==> (#[trigger] sets@[j]).within(n as nat),
        decreases sets.len() - i,
    {
        if !(sets[i].start <= sets[i].end && sets[i].end <= n) {
            return false;
        }
        i += 1;
    }
    true
}

impl<'i, P: Copy + PartialEq> ExecutionCtx<'i, P> {
    /// The context of an element for which nothing has been reported yet. The
    /// element is taken to have content until it is known otherwise.
    pub fn new(local_name: LocalName<'i>, ns: Namespace) -> (ctx: Self)
        ensures
            ctx@ == (CtxView { item: ItemView::<P>::fresh(local_name@), with_content: true, ns }),
    {
        ExecutionCtx { stack_item: StackItem::new(local_name), with_content: true, ns }
    }

    /// Takes the branch of an instruction that matched: each payload of the
    /// branch that the element has not reported yet is appended to `matches`
    /// and recorded, and an element with content takes over the branch's
    /// jump tables.
    pub fn add_execution_branch(&mut self, branch: &ExecutionBranch<P>, matches: &mut Vec<MatchInfo<P>>)
        requires
            obeys_concrete_eq::<P>(),
        ensures
            state(*final(self), *final(matches)) == add_branch(state(*old(self), *old(matches)), branch@),
    {
        let ghost seen = self.stack_item.matched_payload@;
        let ghost incoming = branch.matched_payload@;
        let mut k: usize = 0;
        assert(incoming.take(0) =~= Seq::<P>::empty());
        while k < branch.matched_payload.len()
            invariant
                obeys_concrete_eq::<P>(),
                k <= incoming.len(),
                incoming == branch.matched_payload@,
                self.with_content == old(self).with_content,
                self.ns == old(self).ns,
                self.stack_item.local_name == old(self).stack_item.local_name,
                self.stack_item.jumps == old(self).stack_item.jumps,
                self.stack_item.hereditary_jumps == old(self).stack_item.hereditary_jumps,
                self.stack_item.has_ancestor_with_hereditary_jumps
                    == old(self).stack_item.has_ancestor_with_hereditary_jumps,
                self.stack_item.matched_payload@ == seen + fresh_payloads(seen, incoming.take(k as int)),
                matches@ == old(matches)@ + reports_of(
                    fresh_payloads(seen, incoming.take(k as int)),
                    self.with_content,
                ),
            decreases incoming.len() - k,
        {
            let payload = branch.matched_payload[k];
            let ghost earlier = fresh_payloads(seen, incoming.take(k as int));
            proof {
                assert(incoming.take(k + 1).drop_last() =~= incoming.take(k as int));
                assert(incoming.take(k + 1).last() == payload);
                if (seen + earlier).contains(payload) {
                    let j = choose|j: int| 0 <= j < (seen + earlier).len() && (seen + earlier)[j] == payload;
                    if j < seen.len() {
                        assert(seen[j] == payload);
                    } else {
                        assert(earlier[j - seen.len()] == payload);
                    }
                }
                if seen.contains(payload) {
                    let j = choose|j: int| 0 <= j < seen.len() && seen[j] == payload;
                    assert((seen + earlier)[j] == payload);
                }
                if earlier.contains(payload) {
                    let j = choose|j: int| 0 <= j < earlier.len() && earlier[j] == payload;
                    assert((seen + earlier)[seen.len() + j] == payload);
                }
            }
            if !contains_payload(&self.stack_item.matched_payload, payload) {
                matches.push(MatchInfo { payload, with_content: self.with_content });
                self.stack_item.matched_payload.push(payload);
                proof {
                    let next = fresh_payloads(seen, incoming.take(k + 1));
                    assert(next == earlier.push(payload));
                    assert(self.stack_item.matched_payload@ =~= seen + next);
                    assert(matches@ =~= old(matches)@ + reports_of(next, self.with_content));
                }
            }
            k += 1;
        }
        assert(incoming.take(k as int) =~= incoming);
        if self.with_content {
            if let Some(jumps) = branch.jumps {
                self.stack_item.jumps.push(jumps);
            }
            if let Some(hereditary_jumps) = branch.hereditary_jumps {
                self.stack_item.hereditary_jumps.push(hereditary_jumps);
            }
        }
    }

    /// The same context, with a name that owns its bytes.
    pub fn into_owned(self) -> (ctx: ExecutionCtx<'static, P>)
        ensures
            ctx@ == self@,
    {
        ExecutionCtx {
            stack_item: self.stack_item.into_owned(),
            with_content: self.with_content,
            ns: self.ns,
        }
    }
}

/// An instruction that could not be decided without the attributes, and the
/// place at which matching takes up again once it has been decided.
#[derive(Debug)]
pub struct Bailout<T> {
    pub at_addr: usize,
    pub restore_point: T,
}

/// The virtual machine that matches selectors against a stream of start and
/// end tags.
#[derive(Debug)]
pub struct SelectorMatchingVm<P> {
    program: Program<P>,
    stack: Stack<P>,
}

impl<P: Copy + PartialEq> SelectorMatchingVm<P> {
    /// The program that the machine runs.
    pub closed spec fn program(&self) -> Program<P> {
        self.program
    }

    /// The stack of open elements, outermost first.
    pub closed spec fn stack(&self) -> Seq<ItemView<P>> {
        self.stack@
    }

    /// What holds of the machine between any two calls: the program and the
    /// stack are well-formed, and every address on the stack is the address
    /// of an instruction.
    pub open spec fn wf(&self) -> bool {
        &&& self.program().wf()
        &&& stack_wf(self.stack())
        &&& stack_within(self.stack(), self.program().len())
    }

    /// A machine for the selectors of `ast` and documents in `encoding`,
    /// with no element open. The selectors are compiled to the program that
    /// the machine runs; where they cannot be, the compiler's error is handed
    /// on.
    pub fn new(ast: Ast<P>, encoding: &'static Encoding) -> (r: Result<Self, SelectorError>)
        ensures
            match r {
                Ok(vm) => vm.wf() && vm.stack() == Seq::<ItemView<P>>::empty() && compiles_to(
                    *encoding,
                    ast.selectors@,
                    Ok(vm.program()),
                ),
                Err(e) => compiles_to(*encoding, ast.selectors@, Err(e)),
            },
    {
        match Compiler::new(encoding).compile(ast) {
            Ok(program) => Ok(Self::with_program(program)),
            Err(e) => Err(e),
        }
    }

    /// A machine that runs `program`, with no element open.
    pub fn with_program(program: Program<P>) -> (vm: Self)
        requires
            program.wf(),
        ensures
            vm.wf(),
            vm.program() == program,
            vm.stack() == Seq::<ItemView<P>>::empty(),
    {
        SelectorMatchingVm { program, stack: Stack::new() }
    }

    /// The program that the machine runs.
    pub fn compiled_program(&self) -> (program: &Program<P>)
        ensures
            *program == self.program(),
    {
        &self.program
    }

    /// The stack of open elements.
    pub fn open_elements(&self) -> (stack: &Stack<P>)
        ensures
            stack@ == self.stack(),
    {
        &self.stack
    }

    /// Matches a start tag against the program, as far as that can be done
    /// without the tag's attributes, and appends a report to `matches` for
    /// each selector that is found to match.
    ///
    /// Where the attributes are not needed the result is `Ok`: the tag has
    /// been matched whole, and its element has gone on the stack if it has
    /// content. Where they are needed (the element is in a foreign namespace,
    /// or an instruction has predicates on attributes and the tag name fits
    /// it) the result is a request for them, the stack is as it was, and
    /// matching goes on when the request is served.
    pub fn exec_for_start_tag(
        &mut self,
        local_name: LocalName<'_>,
        ns: Namespace,
        matches: &mut Vec<MatchInfo<P>>,
    ) -> (r: Result<(), AuxStartTagInfoRequest<P>>)
        requires
            obeys_concrete_eq::<P>(),
            old(self).wf(),
        ensures
            final(self).wf(),
            final(self).program() == old(self).program(),
            final(matches)@ == old(matches)@ + first_phase(
                old(self).program(),
                old(self).stack(),
                local_name@,
                ns,
            ).reports,
            r is Err <==> needs_attributes(old(self).program(), old(self).stack(), local_name@, ns),
            match r {
                Ok(()) => final(self).stack() == stack_after(
                    old(self).stack(),
                    first_phase(old(self).program(), old(self).stack(), local_name@, ns),
                ),
                Err(req) => {
                    &&& final(self).stack() == old(self).stack()
                    &&& req.ctx() == first_phase(
                        old(self).program(),
                        old(self).stack(),
                        local_name@,
                        ns,
                    ).ctx
                    &&& awaits_at(
                        old(self).program(),
                        old(self).stack(),
                        local_name@,
                        ns,
                        req.restore_point(),
                    )
                    &&& request_fits(old(self).program(), req.ctx(), req.restore_point())
                },
            },
    {
        let mut ctx = ExecutionCtx::new(local_name, ns);
        let stack_directive = self.stack.get_stack_directive(&ctx.stack_item, ns);
        match stack_directive {
            StackDirective::PopImmediately => {
                ctx.with_content = false;
            },
            StackDirective::PushIfNotSelfClosing => {
                assert(matches@ =~= matches@ + Seq::<MatchInfo<P>>::empty());
                return Self::aux_info_request(ctx.into_owned(), RestorePoint::Start);
            },
            StackDirective::Push => {},
        }
        proof {
            let program = self.program();
            let items = self.stack();
            let sched = schedule(program.entry_points(), items);
            let k = first_undecided(program, local_name@, sched);
            crate::matching::lemma_run_appends_reports(
                program,
                state(ctx, *matches),
                sched.take(k),
                Seq::empty(),
            );
            crate::matching::lemma_first_undecided(program, local_name@, sched);
            assert(sched.take(sched.len() as int) =~= sched);
        }
        self.exec_without_attrs(ctx, matches)
    }

    /// Handles an end tag: the innermost open element called `local_name`
    /// is closed, and with it every element opened after it. Each payload
    /// that was reported for one of them is appended to `unmatched`,
    /// innermost element first. An end tag that no open element answers to
    /// changes nothing.
    pub fn exec_for_end_tag(&mut self, local_name: LocalName<'_>, unmatched: &mut Vec<P>)
        requires
            old(self).wf(),
        ensures
            final(self).wf(),
            final(self).program() == old(self).program(),
            final(self).stack() == popped_up_to(old(self).stack(), local_name@),
            final(unmatched)@ == old(unmatched)@ + unmatched_by(old(self).stack(), local_name@),
    {
        proof {
            let items = self.stack();
            lemma_innermost_named(items, local_name@);
            if let Some(i) = innermost_named(items, local_name@) {
                lemma_take_keeps_wf(items, i);
                assert forall|j: int| 0 <= j < items.take(i).len() implies (#[trigger] items.take(i)[j]).within(
                    self.program().len(),
                ) by {
                    assert(items.take(i)[j] == items[j]);
                }
            }
        }
        self.stack.pop_up_to(&local_name, unmatched);
    }

    /// Whether `request` can be served on this machine.
    pub fn can_serve(&self, request: &AuxStartTagInfoRequest<P>) -> (r: bool)
        requires
            obeys_concrete_eq::<P>(),
        ensures
            r == request_fits(self.program(), request.ctx(), request.restore_point()),
    {
        let n = self.program.instruction_count();
        let item = &request.ctx.stack_item;
        let addr_fits = match request.restore_point {
            RestorePoint::Start => true,
            RestorePoint::EntryPoints { at_addr, .. } => at_addr < n,
            RestorePoint::Jumps { at_addr, .. } => at_addr < n,
            RestorePoint::HereditaryJumps { at_addr, .. } => at_addr < n,
        };
        let distinct = payloads_distinct(&item.matched_payload);
        let jumps_fit = ranges_within(&item.jumps, n);
        let hereditary_jumps_fit = ranges_within(&item.hereditary_jumps, n);
        proof {
            let view = request.ctx().item;
            assert(view.jumps == item.jumps@);
            assert(view.hereditary_jumps == item.hereditary_jumps@);
            assert(view.matched_payload == item.matched_payload@);
            assert(view.within(n as nat) == (jumps_fit && hereditary_jumps_fit));
            assert(addr_fits == (request.restore_point() != RestorePoint::Start ==> 0
                <= request.restore_point().at_addr() < n));
        }
        addr_fits && distinct && jumps_fit && hereditary_jumps_fit
    }

    /// Tries the attribute predicates of the instruction at `addr`, whose
    /// tag-name predicates are known to hold.
    fn complete_instr_execution_with_attrs(
        &self,
        addr: usize,
        attr_matcher: &AttributeMatcher<'_>,
        ctx: &mut ExecutionCtx<'_, P>,
        matches: &mut Vec<MatchInfo<P>>,
    )
        requires
            obeys_concrete_eq::<P>(),
            addr < self.program().len(),
        ensures
            state(*final(ctx), *final(matches)) == complete_step(
                self.program(),
                state(*old(ctx), *old(matches)),
                addr as int,
                attr_matcher@,
            ),
    {
        if let Some(branch) = self.program.instruction(addr).complete_execution_with_attrs(attr_matcher) {
            ctx.add_execution_branch(branch, matches);
        }
    }

    /// Tries the instructions of `addr_range` in order by the tag name alone,
    /// and stops at the first that waits for the attributes.
    fn try_exec_instr_set_without_attrs(
        &self,
        addr_range: AddressRange,
        ctx: &mut ExecutionCtx<'_, P>,
        matches: &mut Vec<MatchInfo<P>>,
    ) -> (r: Result<(), Bailout<usize>>)
        requires
            obeys_concrete_eq::<P>(),
            addr_range.within(self.program().len()),
        ensures
            tried_by_name(
                self.program(),
                state(*old(ctx), *old(matches)),
                state(*final(ctx), *final(matches)),
                addr_range.addrs(),
            ),
            match r {
                Ok(()) => first_undecided(self.program(), old(ctx)@.item.local_name, addr_range.addrs())
                    == addr_range.addrs().len(),
                Err(b) => bailed_out_at(
                    self.program(),
                    old(ctx)@.item.local_name,
                    addr_range.addrs(),
                    b.at_addr,
                    addr_range.addrs_from(b.restore_point as nat),
                ) && behind(addr_range, b.at_addr, b.restore_point),
            },
    {
        let start = addr_range.start;
        let ghost addrs = addr_range.addrs();
        let ghost name = ctx@.item.local_name;
        let ghost before = state(*ctx, *matches);
        let mut addr: usize = start;
        assert(addrs.take(0) =~= Seq::<int>::empty());
        while addr < addr_range.end
            invariant
                obeys_concrete_eq::<P>(),
                addr_range.within(self.program().len()),
                start == addr_range.start,
                addrs == addr_range.addrs(),
                start <= addr <= addr_range.end,
                before == state(*old(ctx), *old(matches)),
                name == before.ctx.item.local_name,
                ctx@.item.local_name == name,
                forall|j: int| 0 <= j < addr - start ==> !undecided(self.program(), name, #[trigger] addrs[j]),
                state(*ctx, *matches) == run_by_name(self.program(), before, addrs.take(addr - start)),
            decreases addr_range.end - addr,
        {
            let instr = self.program.instruction(addr);
            proof {
                assert(addrs.take(addr - start + 1).drop_last() =~= addrs.take(addr - start));
                assert(addrs.take(addr - start + 1).last() == addr);
                crate::matching::lemma_run_keeps_element(
                    self.program(),
                    before,
                    addrs.take(addr - start),
                    Seq::empty(),
                );
            }
            match instr.try_exec_without_attrs(&ctx.stack_item.local_name) {
                TryExecResult::Branch(branch) => {
                    ctx.add_execution_branch(branch, matches);
                },
                TryExecResult::Fail => {},
                TryExecResult::AttributesRequired => {
                    proof {
                        assert(addrs[addr - start] == addr);
                        assert(undecided(self.program(), name, addr as int));
                        lemma_first_undecided_is(self.program(), name, addrs, addr - start);
                        crate::schedule::lemma_range_split(addr_range, (addr - start) as nat);
                    }
                    return Err(Bailout { at_addr: addr, restore_point: addr - start + 1 });
                },
            }
            addr += 1;
        }
        proof {
            lemma_first_undecided_is(self.program(), name, addrs, addrs.len() as int);
            assert(addrs.take(addrs.len() as int) =~= addrs);
        }
        Ok(())
    }

    /// Tries the instructions of `addr_range` from its `offset`-th on, in
    /// order, with the attributes known.
    fn exec_instr_set_with_attrs(
        &self,
        addr_range: &AddressRange,
        attr_matcher: &AttributeMatcher<'_>,
        ctx: &mut ExecutionCtx<'_, P>,
        offset: usize,
        matches: &mut Vec<MatchInfo<P>>,
    )
        requires
            obeys_concrete_eq::<P>(),
            addr_range.within(self.program().len()),
        ensures
            state(*final(ctx), *final(matches)) == run_with_attrs(
                self.program(),
                state(*old(ctx), *old(matches)),
                addr_range.addrs_from(offset as nat),
                attr_matcher@,
            ),
    {
        if offset > addr_range.end - addr_range.start {
            return ;
        }
        let first = addr_range.start + offset;
        let ghost addrs = addr_range.addrs_from(offset as nat);
        let ghost before = state(*ctx, *matches);
        let ghost name = ctx@.item.local_name;
        let mut addr: usize = first;
        assert(addrs.take(0) =~= Seq::<int>::empty());
        while addr < addr_range.end
            invariant
                obeys_concrete_eq::<P>(),
                addr_range.within(self.program().len()),
                first == addr_range.start + offset,
                addrs == addr_range.addrs_from(offset as nat),
                first <= addr <= addr_range.end,
                ctx@.item.local_name == name,
                state(*ctx, *matches) == run_with_attrs(
                    self.program(),
                    before,
                    addrs.take(addr - first),
                    attr_matcher@,
                ),
            decreases addr_range.end - addr,
        {
            let instr = self.program.instruction(addr);
            proof {
                assert(addrs.take(addr - first + 1).drop_last() =~= addrs.take(addr - first));
                assert(addrs.take(addr - first + 1).last() == addr);
            }
            if let Some(branch) = instr.exec(&ctx.stack_item.local_name, attr_matcher) {
                ctx.add_execution_branch(branch, matches);
            }
            addr += 1;
        }
        assert(addrs.take(addrs.len() as int) =~= addrs);
    }

    /// Tries the instruction sets `sets` in order by the tag name alone, and
    /// stops at the first instruction that waits for the attributes.
    fn try_exec_instr_sets_without_attrs(
        &self,
        sets: &Vec<AddressRange>,
        ctx: &mut ExecutionCtx<'_, P>,
        matches: &mut Vec<MatchInfo<P>>,
    ) -> (r: Result<(), Bailout<JumpPtr>>)
        requires
            obeys_concrete_eq::<P>(),
            forall|i: int| 0 <= i < sets@.len() ==> (#[trigger] sets@[i]).within(self.program().len()),
        ensures
            tried_by_name(
                self.program(),
                state(*old(ctx), *old(matches)),
                state(*final(ctx), *final(matches)),
                flat_addrs(sets@),
            ),
            match r {
                Ok(()) => first_undecided(self.program(), old(ctx)@.item.local_name, flat_addrs(sets@))
                    == flat_addrs(sets@).len(),
                Err(b) => bailed_out_at(
                    self.program(),
                    old(ctx)@.item.local_name,
                    flat_addrs(sets@),
                    b.at_addr,
                    flat_addrs_from(sets@, b.restore_point),
                ) && behind_in(sets@, b.at_addr, b.restore_point),
            },
    {
        let ghost before = state(*ctx, *matches);
        let ghost name = ctx@.item.local_name;
        let mut i: usize = 0;
        assert(sets@.take(0) =~= Seq::<AddressRange>::empty());
        while i < sets.len()
            invariant
                obeys_concrete_eq::<P>(),
                forall|j: int| 0 <= j < sets@.len() ==> (#[trigger] sets@[j]).within(self.program().len()),
                i <= sets@.len(),
                before == state(*old(ctx), *old(matches)),
                name == before.ctx.item.local_name,
                first_undecided(self.program(), name, flat_addrs(sets@.take(i as int))) == flat_addrs(
                    sets@.take(i as int),
                ).len(),
                state(*ctx, *matches) == run_by_name(
                    self.program(),
                    before,
                    flat_addrs(sets@.take(i as int)),
                ),
            decreases sets@.len() - i,
        {
            let ghost mid = state(*ctx, *matches);
            let ghost pre = flat_addrs(sets@.take(i as int));
            let ghost seg = sets@[i as int].addrs();
            let ghost post = flat_addrs(sets@.skip(i + 1));
            proof {
                lemma_flat_addrs_split(sets@, i as int);
                crate::matching::lemma_run_keeps_element(self.program(), before, pre, Seq::empty());
            }
            match self.try_exec_instr_set_without_attrs(sets[i], ctx, matches) {
                Err(b) => {
                    proof {
                        lemma_tried_extends(
                            self.program(),
                            before,
                            mid,
                            state(*ctx, *matches),
                            pre,
                            seg,
                            post,
                            b.at_addr,
                            sets@[i as int].addrs_from(b.restore_point as nat),
                        );
                    }
                    return Err(
                        Bailout {
                            at_addr: b.at_addr,
                            restore_point: JumpPtr { instr_set_idx: i, offset: b.restore_point },
                        },
                    );
                },
                Ok(()) => {
                    proof {
                        lemma_tried_extends(
                            self.program(),
                            before,
                            mid,
                            state(*ctx, *matches),
                            pre,
                            seg,
                            post,
                            0,
                            Seq::empty(),
                        );
                    }
                },
            }
            i += 1;
        }
        proof {
            assert(sets@.take(i as int) =~= sets@);
            let addrs = flat_addrs(sets@);
            assert(addrs.take(addrs.len() as int) =~= addrs);
        }
        Ok(())
    }

    /// Tries the instruction sets `sets` from the place `ptr` on, with the
    /// attributes known.
    fn exec_instr_sets_with_attrs(
        &self,
        sets: &Vec<AddressRange>,
        attr_matcher: &AttributeMatcher<'_>,
        ctx: &mut ExecutionCtx<'_, P>,
        ptr: JumpPtr,
        matches: &mut Vec<MatchInfo<P>>,
    )
        requires
            obeys_concrete_eq::<P>(),
            forall|i: int| 0 <= i < sets@.len() ==> (#[trigger] sets@[i]).within(self.program().len()),
        ensures
            state(*final(ctx), *final(matches)) == run_with_attrs(
                self.program(),
                state(*old(ctx), *old(matches)),
                flat_addrs_from(sets@, ptr),
                attr_matcher@,
            ),
    {
        if ptr.instr_set_idx >= sets.len() {
            return ;
        }
        let ghost before = state(*ctx, *matches);
        let ghost first = sets@[ptr.instr_set_idx as int].addrs_from(ptr.offset as nat);
        self.exec_instr_set_with_attrs(&sets[ptr.instr_set_idx], attr_matcher, ctx, ptr.offset, matches);
        let mut i: usize = ptr.instr_set_idx + 1;
        proof {
            assert(sets@.subrange(ptr.instr_set_idx + 1, i as int) =~= Seq::<AddressRange>::empty());
            assert(first + flat_addrs(sets@.subrange(ptr.instr_set_idx + 1, i as int)) =~= first);
        }
        while i < sets.len()
            invariant
                obeys_concrete_eq::<P>(),
                forall|j: int| 0 <= j < sets@.len() ==> (#[trigger] sets@[j]).within(self.program().len()),
                ptr.instr_set_idx < i <= sets@.len(),
                state(*ctx, *matches) == run_with_attrs(
                    self.program(),
                    before,
                    first + flat_addrs(sets@.subrange(ptr.instr_set_idx + 1, i as int)),
                    attr_matcher@,
                ),
            decreases sets@.len() - i,
        {
            proof {
                let sofar = sets@.subrange(ptr.instr_set_idx + 1, i as int);
                let next = sets@.subrange(ptr.instr_set_idx + 1, i + 1);
                assert(next.drop_last() =~= sofar);
                assert(next.last() == sets@[i as int]);
                lemma_run_with_attrs_concat(
                    self.program(),
                    before,
                    first + flat_addrs(sofar),
                    sets@[i as int].addrs(),
                    attr_matcher@,
                );
                assert((first + flat_addrs(sofar)) + sets@[i as int].addrs() =~= first + flat_addrs(next));
            }
            self.exec_instr_set_with_attrs(&sets[i], attr_matcher, ctx, 0, matches);
            i += 1;
        }
        assert(sets@.subrange(ptr.instr_set_idx + 1, i as int) =~= sets@.skip(ptr.instr_set_idx + 1));
    }

    /// Tries the instruction sets that the innermost open element has for
    /// its children, by the tag name alone.
    fn try_exec_jumps_without_attrs(
        &self,
        ctx: &mut ExecutionCtx<'_, P>,
        matches: &mut Vec<MatchInfo<P>>,
    ) -> (r: Result<(), Bailout<JumpPtr>>)
        requires
            obeys_concrete_eq::<P>(),
            self.wf(),
        ensures
            tried_by_name(
                self.program(),
                state(*old(ctx), *old(matches)),
                state(*final(ctx), *final(matches)),
                child_addrs(self.stack()),
            ),
            match r {
                Ok(()) => first_undecided(
                    self.program(),
                    old(ctx)@.item.local_name,
                    child_addrs(self.stack()),
                ) == child_addrs(self.stack()).len(),
                Err(b) => bailed_out_at(
                    self.program(),
                    old(ctx)@.item.local_name,
                    child_addrs(self.stack()),
                    b.at_addr,
                    child_addrs_from(self.stack(), b.restore_point),
                ) && self.stack().len() > 0 && behind_in(
                    self.stack().last().jumps,
                    b.at_addr,
                    b.restore_point,
                ),
            },
    {
        let n = self.stack.len();
        if n == 0 {
            assert(child_addrs(self.stack()).take(0) =~= Seq::<int>::empty());
            return Ok(());
        }
        let parent = self.stack.item(n - 1);
        assert(self.stack()[n - 1].within(self.program().len()));
        assert(parent.jumps@ == self.stack().last().jumps);
        self.try_exec_instr_sets_without_attrs(&parent.jumps, ctx, matches)
    }

    /// Tries the instruction sets that the innermost open element has for
    /// its children, from the place `ptr` on, with the attributes known.
    fn exec_jumps_with_attrs(
        &self,
        attr_matcher: &AttributeMatcher<'_>,
        ctx: &mut ExecutionCtx<'_, P>,
        ptr: JumpPtr,
        matches: &mut Vec<MatchInfo<P>>,
    )
        requires
            obeys_concrete_eq::<P>(),
            self.wf(),
        ensures
            state(*final(ctx), *final(matches)) == run_with_attrs(
                self.program(),
                state(*old(ctx), *old(matches)),
                child_addrs_from(self.stack(), ptr),
                attr_matcher@,
            ),
    {
        let n = self.stack.len();
        if n > 0 {
            let parent = self.stack.item(n - 1);
            assert(self.stack()[n - 1].within(self.program().len()));
            self.exec_instr_sets_with_attrs(&parent.jumps, attr_matcher, ctx, ptr, matches);
        }
    }

    /// Tries the instruction sets that the open elements have for their
    /// descendants, innermost element first, by the tag name alone. The walk
    /// ends at the first element whose flag says that no element further out
    /// has such sets.
    fn try_exec_hereditary_jumps_without_attrs(
        &self,
        ctx: &mut ExecutionCtx<'_, P>,
        matches: &mut Vec<MatchInfo<P>>,
    ) -> (r: Result<(), Bailout<HereditaryJumpPtr>>)
        requires
            obeys_concrete_eq::<P>(),
            self.wf(),
        ensures
            tried_by_name(
                self.program(),
                state(*old(ctx), *old(matches)),
                state(*final(ctx), *final(matches)),
                hereditary_addrs(self.stack()),
            ),
            match r {
                Ok(()) => first_undecided(
                    self.program(),
                    old(ctx)@.item.local_name,
                    hereditary_addrs(self.stack()),
                ) == hereditary_addrs(self.stack()).len(),
                Err(b) => bailed_out_at(
                    self.program(),
                    old(ctx)@.item.local_name,
                    hereditary_addrs(self.stack()),
                    b.at_addr,
                    hereditary_addrs_from(self.stack(), b.restore_point),
                ) && b.restore_point.stack_offset < self.stack().len() && behind_in(
                    self.stack()[self.stack().len() - 1
                        - b.restore_point.stack_offset].hereditary_jumps,
                    b.at_addr,
                    JumpPtr {
                        instr_set_idx: b.restore_point.instr_set_idx,
                        offset: b.restore_point.offset,
                    },
                ),
            },
    {
        let ghost before = state(*ctx, *matches);
        let ghost name = ctx@.item.local_name;
        let ghost items = self.stack();
        let ghost mut done: Seq<int> = Seq::empty();
        let n = self.stack.len();
        let mut a: usize = n;
        let mut more: bool = true;
        proof {
            assert(items.take(a as int) =~= items);
            assert(done + hereditary_addrs(items) =~= hereditary_addrs(items));
        }
        while a > 0 && more
            invariant
                obeys_concrete_eq::<P>(),
                self.wf(),
                items == self.stack(),
                n == items.len(),
                a <= n,
                before == state(*old(ctx), *old(matches)),
                name == before.ctx.item.local_name,
                done + hereditary_addrs(items.take(a as int)) == hereditary_addrs(items),
                !more ==> hereditary_addrs(items.take(a as int)) == Seq::<int>::empty(),
                first_undecided(self.program(), name, done) == done.len(),
                state(*ctx, *matches) == run_by_name(self.program(), before, done),
            decreases a,
        {
            a -= 1;
            let ancestor = self.stack.item(a);
            let ghost mid = state(*ctx, *matches);
            let ghost seg = flat_addrs(items[a as int].hereditary_jumps);
            let ghost post = hereditary_addrs(items.take(a as int));
            proof {
                assert(items[a as int].within(self.program().len()));
                assert(items.take(a + 1).drop_last() =~= items.take(a as int));
                assert(items.take(a + 1).last() == items[a as int]);
                assert(done + (seg + post) =~= done + seg + post);
                crate::matching::lemma_run_keeps_element(self.program(), before, done, Seq::empty());
            }
            match self.try_exec_instr_sets_without_attrs(&ancestor.hereditary_jumps, ctx, matches) {
                Err(b) => {
                    proof {
                        lemma_tried_extends(
                            self.program(),
                            before,
                            mid,
                            state(*ctx, *matches),
                            done,
                            seg,
                            post,
                            b.at_addr,
                            flat_addrs_from(items[a as int].hereditary_jumps, b.restore_point),
                        );
                    }
                    return Err(
                        Bailout {
                            at_addr: b.at_addr,
                            restore_point: HereditaryJumpPtr {
                                stack_offset: n - 1 - a,
                                instr_set_idx: b.restore_point.instr_set_idx,
                                offset: b.restore_point.offset,
                            },
                        },
                    );
                },
                Ok(()) => {
                    proof {
                        lemma_tried_extends(
                            self.program(),
                            before,
                            mid,
                            state(*ctx, *matches),
                            done,
                            seg,
                            post,
                            0,
                            Seq::empty(),
                        );
                        done = done + seg;
                    }
                },
            }
            if !ancestor.has_ancestor_with_hereditary_jumps {
                more = false;
                proof {
                    lemma_flag_down_ends_walk(items, a as int);
                }
            }
        }
        proof {
            assert(items.take(0) =~= Seq::<ItemView<P>>::empty());
            assert(done + Seq::<int>::empty() =~= done);
            assert(done.take(done.len() as int) =~= done);
        }
        Ok(())
    }

    /// Tries the instruction sets that the open elements have for their
    /// descendants, from the place `ptr` on and outward, with the attributes
    /// known.
    fn exec_hereditary_jumps_with_attrs(
        &self,
        attr_matcher: &AttributeMatcher<'_>,
        ctx: &mut ExecutionCtx<'_, P>,
        ptr: HereditaryJumpPtr,
        matches: &mut Vec<MatchInfo<P>>,
    )
        requires
            obeys_concrete_eq::<P>(),
            self.wf(),
        ensures
            state(*final(ctx), *final(matches)) == run_with_attrs(
                self.program(),
                state(*old(ctx), *old(matches)),
                hereditary_addrs_from(self.stack(), ptr),
                attr_matcher@,
            ),
    {
        let n = self.stack.len();
        if ptr.stack_offset >= n {
            return ;
        }
        let ghost before = state(*ctx, *matches);
        let ghost items = self.stack();
        let ghost target = run_with_attrs(
            self.program(),
            before,
            hereditary_addrs_from(items, ptr),
            attr_matcher@,
        );
        let mut a: usize = n - 1 - ptr.stack_offset;
        let ptr_ancestor = self.stack.item(a);
        let in_ancestor = JumpPtr { instr_set_idx: ptr.instr_set_idx, offset: ptr.offset };
        proof {
            assert(items[a as int].within(self.program().len()));
            lemma_run_with_attrs_concat(
                self.program(),
                before,
                flat_addrs_from(items[a as int].hereditary_jumps, in_ancestor),
                hereditary_addrs(items.take(a as int)),
                attr_matcher@,
            );
        }
        self.exec_instr_sets_with_attrs(
            &ptr_ancestor.hereditary_jumps,
            attr_matcher,
            ctx,
            in_ancestor,
            matches,
        );
        let mut more: bool = ptr_ancestor.has_ancestor_with_hereditary_jumps;
        proof {
            if !more {
                lemma_flag_down_ends_walk(items, a as int);
            }
        }
        while a > 0 && more
            invariant
                obeys_concrete_eq::<P>(),
                self.wf(),
                items == self.stack(),
                n == items.len(),
                a < n,
                !more ==> hereditary_addrs(items.take(a as int)) == Seq::<int>::empty(),
                run_with_attrs(
                    self.program(),
                    state(*ctx, *matches),
                    hereditary_addrs(items.take(a as int)),
                    attr_matcher@,
                ) == target,
            decreases a,
        {
            a -= 1;
            let ancestor = self.stack.item(a);
            proof {
                assert(items[a as int].within(self.program().len()));
                assert(items.take(a + 1).drop_last() =~= items.take(a as int));
                assert(items.take(a + 1).last() == items[a as int]);
                lemma_flat_addrs_from_start(items[a as int].hereditary_jumps);
                lemma_run_with_attrs_concat(
                    self.program(),
                    state(*ctx, *matches),
                    flat_addrs(items[a as int].hereditary_jumps),
                    hereditary_addrs(items.take(a as int)),
                    attr_matcher@,
                );
            }
            self.exec_instr_sets_with_attrs(
                &ancestor.hereditary_jumps,
                attr_matcher,
                ctx,
                JumpPtr::default(),
                matches,
            );
            if !ancestor.has_ancestor_with_hereditary_jumps {
                more = false;
                proof {
                    lemma_flag_down_ends_walk(items, a as int);
                }
            }
        }
        proof {
            assert(items.take(0) =~= Seq::<ItemView<P>>::empty());
        }
    }

    /// Takes matching up again behind an entry point that waited: the rest
    /// of the entry points, then the parent's instruction sets for children,
    /// then the ancestors' instruction sets for descendants.
    fn recover_after_bailout_in_entry_points(
        &self,
        ctx: &mut ExecutionCtx<'static, P>,
        attr_matcher: &AttributeMatcher<'_>,
        restore_point: usize,
        matches: &mut Vec<MatchInfo<P>>,
    )
        requires
            obeys_concrete_eq::<P>(),
            self.wf(),
        ensures
            state(*final(ctx), *final(matches)) == run_with_attrs(
                self.program(),
                state(*old(ctx), *old(matches)),
                self.program().entry_points().addrs_from(restore_point as nat) + child_addrs(
                    self.stack(),
                ) + hereditary_addrs(self.stack()),
                attr_matcher@,
            ),
    {
        let ghost before = state(*ctx, *matches);
        let ghost e = self.program().entry_points().addrs_from(restore_point as nat);
        let ghost c = child_addrs(self.stack());
        let ghost h = hereditary_addrs(self.stack());
        let entry_points = self.program.entry_point_range();
        self.exec_instr_set_with_attrs(&entry_points, attr_matcher, ctx, restore_point, matches);
        self.exec_jumps_with_attrs(attr_matcher, ctx, JumpPtr::default(), matches);
        self.exec_hereditary_jumps_with_attrs(attr_matcher, ctx, HereditaryJumpPtr::default(), matches);
        proof {
            if self.stack().len() > 0 {
                lemma_flat_addrs_from_start(self.stack().last().jumps);
            }
            lemma_hereditary_addrs_from_start(self.stack());
            lemma_run_with_attrs_concat(self.program(), before, e, c, attr_matcher@);
            lemma_run_with_attrs_concat(self.program(), before, e + c, h, attr_matcher@);
        }
    }

    /// Takes matching up again behind an instruction for children that
    /// waited: the rest of the parent's instruction sets for children, then
    /// the ancestors' instruction sets for descendants.
    fn recover_after_bailout_in_jumps(
        &self,
        ctx: &mut ExecutionCtx<'static, P>,
        attr_matcher: &AttributeMatcher<'_>,
        restore_point: JumpPtr,
        matches: &mut Vec<MatchInfo<P>>,
    )
        requires
            obeys_concrete_eq::<P>(),
            self.wf(),
        ensures
            state(*final(ctx), *final(matches)) == run_with_attrs(
                self.program(),
                state(*old(ctx), *old(matches)),
                child_addrs_from(self.stack(), restore_point) + hereditary_addrs(self.stack()),
                attr_matcher@,
            ),
    {
        let ghost before = state(*ctx, *matches);
        self.exec_jumps_with_attrs(attr_matcher, ctx, restore_point, matches);
        self.exec_hereditary_jumps_with_attrs(attr_matcher, ctx, HereditaryJumpPtr::default(), matches);
        proof {
            lemma_hereditary_addrs_from_start(self.stack());
            lemma_run_with_attrs_concat(
                self.program(),
                before,
                child_addrs_from(self.stack(), restore_point),
                hereditary_addrs(self.stack()),
                attr_matcher@,
            );
        }
    }

    /// Takes matching up again behind an instruction for descendants that
    /// waited: the rest of that ancestor's instruction sets, then those of
    /// the ancestors further out.
    fn recover_after_bailout_in_hereditary_jumps(
        &self,
        ctx: &mut ExecutionCtx<'static, P>,
        attr_matcher: &AttributeMatcher<'_>,
        restore_point: HereditaryJumpPtr,
        matches: &mut Vec<MatchInfo<P>>,
    )
        requires
            obeys_concrete_eq::<P>(),
            self.wf(),
        ensures
            state(*final(ctx), *final(matches)) == run_with_attrs(
                self.program(),
                state(*old(ctx), *old(matches)),
                hereditary_addrs_from(self.stack(), restore_point),
                attr_matcher@,
            ),
    {
        self.exec_hereditary_jumps_with_attrs(attr_matcher, ctx, restore_point, matches);
    }

    /// Puts the element of `ctx` on the stack if it has content.
    fn push_if_with_content(&mut self, ctx: ExecutionCtx<'_, P>)
        requires
            old(self).wf(),
            item_fits(ctx@.item, old(self).program().len()),
        ensures
            final(self).wf(),
            final(self).program() == old(self).program(),
            final(self).stack() == if ctx@.with_content {
                pushed(old(self).stack(), ctx@.item)
            } else {
                old(self).stack()
            },
    {
        if ctx.with_content {
            proof {
                lemma_push_keeps_stack(self.stack(), ctx@.item, self.program().len());
            }
            self.stack.push_item(ctx.stack_item.into_owned());
        }
    }

    /// Asks for the attributes: matching goes on from `restore_point` when
    /// they have come.
    fn aux_info_request(ctx: ExecutionCtx<'static, P>, restore_point: RestorePoint) -> (r: Result<
        (),
        AuxStartTagInfoRequest<P>,
    >)
        ensures
            r matches Err(req) && req.ctx() == ctx@ && req.restore_point() == restore_point,
    {
        Err(AuxStartTagInfoRequest { ctx, restore_point })
    }

    /// Breaks matching off at an instruction that waits for the attributes.
    fn bailout(ctx: ExecutionCtx<'_, P>, restore_point: RestorePoint) -> (r: Result<
        (),
        AuxStartTagInfoRequest<P>,
    >)
        ensures
            r matches Err(req) && req.ctx() == ctx@ && req.restore_point() == restore_point,
    {
        Self::aux_info_request(ctx.into_owned(), restore_point)
    }

    /// Tries the whole schedule by the tag name alone: the entry points, then
    /// the parent's instruction sets for children, then the ancestors'
    /// instruction sets for descendants. Stops at the first instruction that
    /// waits for the attributes, and says where matching takes up again.
    fn try_exec_without_attrs(&self, ctx: &mut ExecutionCtx<'_, P>, matches: &mut Vec<MatchInfo<P>>) -> (r:
        Result<(), RestorePoint>)
        requires
            obeys_concrete_eq::<P>(),
            self.wf(),
        ensures
            match r {
                Ok(()) => state(*final(ctx), *final(matches)) == run_by_name(
                    self.program(),
                    state(*old(ctx), *old(matches)),
                    schedule(self.program().entry_points(), self.stack()),
                ) && first_undecided(
                    self.program(),
                    old(ctx)@.item.local_name,
                    schedule(self.program().entry_points(), self.stack()),
                ) == schedule(self.program().entry_points(), self.stack()).len(),
                Err(restore_point) => stopped_at(
                    self.program(),
                    self.stack(),
                    state(*old(ctx), *old(matches)),
                    state(*final(ctx), *final(matches)),
                    restore_point,
                ),
            },
    {
        let ghost before = state(*ctx, *matches);
        let entry_points = self.program.entry_point_range();
        if let Err(b) = self.try_exec_instr_set_without_attrs(entry_points, ctx, matches) {
            proof {
                lemma_bailout_in_entry_points(
                    self.program(),
                    self.stack(),
                    before,
                    state(*ctx, *matches),
                    b.at_addr,
                    b.restore_point,
                );
            }
            return Err(RestorePoint::EntryPoints { at_addr: b.at_addr, offset: b.restore_point });
        }
        let ghost after_entry = state(*ctx, *matches);
        if let Err(b) = self.try_exec_jumps_without_attrs(ctx, matches) {
            proof {
                lemma_bailout_in_jumps(
                    self.program(),
                    self.stack(),
                    before,
                    after_entry,
                    state(*ctx, *matches),
                    b.at_addr,
                    b.restore_point,
                );
            }
            return Err(RestorePoint::Jumps { at_addr: b.at_addr, ptr: b.restore_point });
        }
        let ghost after_jumps = state(*ctx, *matches);
        if let Err(b) = self.try_exec_hereditary_jumps_without_attrs(ctx, matches) {
            proof {
                lemma_bailout_in_hereditary_jumps(
                    self.program(),
                    self.stack(),
                    before,
                    after_entry,
                    after_jumps,
                    state(*ctx, *matches),
                    b.at_addr,
                    b.restore_point,
                );
            }
            return Err(RestorePoint::HereditaryJumps { at_addr: b.at_addr, ptr: b.restore_point });
        }
        proof {
            lemma_no_bailout(
                self.program(),
                self.stack(),
                before,
                after_entry,
                after_jumps,
                state(*ctx, *matches),
            );
        }
        Ok(())
    }

    /// Matches the element of `ctx` by its tag name alone. At the first
    /// instruction that waits for the attributes matching breaks off with a
    /// request for them; otherwise the element goes on the stack if it has
    /// content.
    fn exec_without_attrs(&mut self, ctx: ExecutionCtx<'_, P>, matches: &mut Vec<MatchInfo<P>>) -> (r:
        Result<(), AuxStartTagInfoRequest<P>>)
        requires
            obeys_concrete_eq::<P>(),
            old(self).wf(),
            item_fits(ctx@.item, old(self).program().len()),
        ensures
            final(self).wf(),
            final(self).program() == old(self).program(),
            match r {
                Ok(()) => state(ctx, *final(matches)).reports == run_by_name(
                    old(self).program(),
                    state(ctx, *old(matches)),
                    schedule(old(self).program().entry_points(), old(self).stack()),
                ).reports && first_undecided(
                    old(self).program(),
                    ctx@.item.local_name,
                    schedule(old(self).program().entry_points(), old(self).stack()),
                ) == schedule(old(self).program().entry_points(), old(self).stack()).len()
                    && final(self).stack() == stack_after(
                    old(self).stack(),
                    run_by_name(
                        old(self).program(),
                        state(ctx, *old(matches)),
                        schedule(old(self).program().entry_points(), old(self).stack()),
                    ),
                ),
                Err(req) => final(self).stack() == old(self).stack() && request_fits(
                    old(self).program(),
                    req.ctx(),
                    req.restore_point(),
                ) && stopped_at(
                    old(self).program(),
                    old(self).stack(),
                    state(ctx, *old(matches)),
                    Run { ctx: req.ctx(), reports: final(matches)@ },
                    req.restore_point(),
                ),
            },
    {
        let mut ctx = ctx;
        let ghost before = state(ctx, *matches);
        let r = self.try_exec_without_attrs(&mut ctx, matches);
        proof {
            let sched = schedule(self.program().entry_points(), self.stack());
            if r is Ok {
                assert(sched.take(sched.len() as int) =~= sched);
            }
            lemma_first_phase_keeps_fit(self.program(), self.stack(), before, state(ctx, *matches));
        }
        match r {
            Err(restore_point) => Self::bailout(ctx, restore_point),
            Ok(()) => {
                self.push_if_with_content(ctx);
                Ok(())
            },
        }
    }
}

/// A request for the attributes of the start tag that is being matched.
/// Matching was broken off, or not begun, because it cannot go on without
/// them; it is taken up again by [`AuxStartTagInfoRequest::serve`], which
/// uses the request up.
#[derive(Debug)]
pub struct AuxStartTagInfoRequest<P> {
    ctx: ExecutionCtx<'static, P>,
    restore_point: RestorePoint,
}

impl<P: Copy + PartialEq> AuxStartTagInfoRequest<P> {
    /// The context in which matching was broken off.
    pub closed spec fn ctx(&self) -> CtxView<P> {
        self.ctx@
    }

    /// The place at which matching takes up again.
    pub closed spec fn restore_point(&self) -> RestorePoint {
        self.restore_point
    }

    /// The place at which matching takes up again.
    pub fn resumes_at(&self) -> (restore_point: RestorePoint)
        ensures
            restore_point == self.restore_point(),
    {
        self.restore_point
    }

    /// Serves the request with what the tokenizer knows of the scanned start
    /// tag, on the machine that made the request and in the state in which
    /// it made it. Matching is finished: the instruction that waited for the
    /// attributes is decided, the instructions behind it are tried with the
    /// attributes known, a report is appended to `matches` for each
    /// selector that is found to match, and the element goes on the stack if
    /// it has content. For a foreign element the self-closing flag first
    /// settles whether it has.
    pub fn serve(
        self,
        vm: &mut SelectorMatchingVm<P>,
        aux_info: AuxStartTagInfo<'_>,
        matches: &mut Vec<MatchInfo<P>>,
    )
        requires
            obeys_concrete_eq::<P>(),
            old(vm).wf(),
            request_fits(old(vm).program(), self.ctx(), self.restore_point()),
            spans_within(aux_info.input@, aux_info.attr_buffer@),
        ensures
            final(vm).wf(),
            final(vm).program() == old(vm).program(),
            final(matches)@ == old(matches)@ + resumed_run(
                old(vm).program(),
                old(vm).stack(),
                self.ctx(),
                self.restore_point(),
                attrs_of(aux_info.input@, aux_info.attr_buffer@),
                aux_info.self_closing,
            ).reports,
            final(vm).stack() == stack_after(
                old(vm).stack(),
                resumed_run(
                    old(vm).program(),
                    old(vm).stack(),
                    self.ctx(),
                    self.restore_point(),
                    attrs_of(aux_info.input@, aux_info.attr_buffer@),
                    aux_info.self_closing,
                ),
            ),
    {
        let mut ctx = self.ctx;
        let restore_point = self.restore_point;
        let attr_matcher = AttributeMatcher::new(aux_info.input, aux_info.attr_buffer);
        proof {
            lemma_resumed_run(
                vm.program(),
                vm.stack(),
                state(ctx, *matches),
                restore_point,
                attr_matcher@,
                aux_info.self_closing,
            );
        }
        match restore_point {
            RestorePoint::Start => {
                ctx.with_content = !aux_info.self_closing;
                vm.recover_after_bailout_in_entry_points(&mut ctx, &attr_matcher, 0, matches);
            },
            RestorePoint::EntryPoints { at_addr, offset } => {
                vm.complete_instr_execution_with_attrs(at_addr, &attr_matcher, &mut ctx, matches);
                vm.recover_after_bailout_in_entry_points(&mut ctx, &attr_matcher, offset, matches);
            },
            RestorePoint::Jumps { at_addr, ptr } => {
                vm.complete_instr_execution_with_attrs(at_addr, &attr_matcher, &mut ctx, matches);
                vm.recover_after_bailout_in_jumps(&mut ctx, &attr_matcher, ptr, matches);
            },
            RestorePoint::HereditaryJumps { at_addr, ptr } => {
                vm.complete_instr_execution_with_attrs(at_addr, &attr_matcher, &mut ctx, matches);
                vm.recover_after_bailout_in_hereditary_jumps(&mut ctx, &attr_matcher, ptr, matches);
            },
        }
        vm.push_if_with_content(ctx);
    }
}

} // verus!
