//! The stack of open elements: one item for each element whose start tag has
//! been seen and whose end tag has not, outermost first.

use vstd::prelude::*;
use crate::html::{is_void_element, is_void_name, LocalName, Namespace};
use crate::program::AddressRange;

verus! {

/// What becomes of an element once its start tag has been matched.
#[derive(Clone, Copy, Debug, PartialEq, Eq, Structural)]
pub enum StackDirective {
    /// The element has content: it goes on the stack.
    Push,
    /// The element goes on the stack unless its start tag is self-closing,
    /// which only the fully scanned tag tells.
    PushIfNotSelfClosing,
    /// The element has no content: it never goes on the stack.
    PopImmediately,
}

/// The directive for an element called `name` in namespace `ns`. In HTML a
/// void element is left off the stack and every other element goes on it; in
/// a foreign namespace the self-closing flag decides, whatever the name.
pub open spec fn stack_directive(name: Seq<u8>, ns: Namespace) -> StackDirective {
    if ns == Namespace::Html {
        if is_void_name(name) {
            StackDirective::PopImmediately
        } else {
            StackDirective::Push
        }
    } else {
        StackDirective::PushIfNotSelfClosing
    }
}

/// What the engine keeps of one open element.
#[derive(Debug)]
pub struct StackItem<'i, P> {
    pub local_name: LocalName<'i>,
    /// The payloads already reported for the element, in the order of their
    /// reports.
    pub matched_payload: Vec<P>,
    /// Instruction sets to try on each child of the element.
    pub jumps: Vec<AddressRange>,
    /// Instruction sets to try on each descendant of the element.
    pub hereditary_jumps: Vec<AddressRange>,
    /// Whether an element further out has instruction sets for its
    /// descendants.
    pub has_ancestor_with_hereditary_jumps: bool,
}

/// A [`StackItem`] as a mathematical value.
pub struct ItemView<P> {
    pub local_name: Seq<u8>,
    pub matched_payload: Seq<P>,
    pub jumps: Seq<AddressRange>,
    pub hereditary_jumps: Seq<AddressRange>,
    pub has_ancestor_with_hereditary_jumps: bool,
}

impl<'i, P> View for StackItem<'i, P> {
    type V = ItemView<P>;

    open spec fn view(&self) -> ItemView<P> {
        ItemView {
            local_name: self.local_name@,
            matched_payload: self.matched_payload@,
            jumps: self.jumps@,
            hereditary_jumps: self.hereditary_jumps@,
            has_ancestor_with_hereditary_jumps: self.has_ancestor_with_hereditary_jumps,
        }
    }
}

impl<P> ItemView<P> {
    /// The item of an element for which nothing has been reported yet.
    pub open spec fn fresh(local_name: Seq<u8>) -> ItemView<P> {
        ItemView {
            local_name,
            matched_payload: Seq::empty(),
            jumps: Seq::empty(),
            hereditary_jumps: Seq::empty(),
            has_ancestor_with_hereditary_jumps: false,
        }
    }

    /// Every address in the item's instruction sets is below `n`.
    pub open spec fn within(&self, n: nat) -> bool {
        &&& forall|i: int| 0 <= i < self.jumps.len() ==> (#[trigger] self.jumps[i]).within(n)
        &&& forall|i: int|
            0 <= i < self.hereditary_jumps.len() ==> (#[trigger] self.hereditary_jumps[i]).within(n)
    }
}

impl<'i, P> StackItem<'i, P> {
    /// The item of an element for which nothing has been reported yet.
    pub fn new(local_name: LocalName<'i>) -> (item: Self)
        ensures
            item@ == ItemView::<P>::fresh(local_name@),
    {
        StackItem {
            local_name,
            matched_payload: Vec::new(),
            jumps: Vec::new(),
            hereditary_jumps: Vec::new(),
            has_ancestor_with_hereditary_jumps: false,
        }
    }

    /// The same item, with a name that owns its bytes.
    pub fn into_owned(self) -> (item: StackItem<'static, P>)
        ensures
            item@ == self@,
    {
        StackItem {
            local_name: self.local_name.into_owned(),
            matched_payload: self.matched_payload,
            jumps: self.jumps,
            hereditary_jumps: self.hereditary_jumps,
            has_ancestor_with_hereditary_jumps: self.has_ancestor_with_hereditary_jumps,
        }
    }
}

/// Some item below index `i` has instruction sets for its descendants.
pub open spec fn has_hereditary_jumps_below<P>(items: Seq<ItemView<P>>, i: int) -> bool {
    exists|j: int| 0 <= j < i && j < items.len() && (#[trigger] items[j]).hereditary_jumps.len() > 0
}

/// What holds of every stack: each item's flag says whether an item below it
/// has instruction sets for its descendants, and no item holds a payload twice.
pub open spec fn stack_wf<P>(items: Seq<ItemView<P>>) -> bool {
    &&& forall|i: int|
        0 <= i < items.len() ==> (#[trigger] items[i]).has_ancestor_with_hereditary_jumps
            == has_hereditary_jumps_below(items, i)
    &&& forall|i: int| 0 <= i < items.len() ==> (#[trigger] items[i]).matched_payload.no_duplicates()
}

/// Every address in the instruction sets of the stack is below `n`.
pub open spec fn stack_within<P>(items: Seq<ItemView<P>>, n: nat) -> bool {
    forall|i: int| 0 <= i < items.len() ==> (#[trigger] items[i]).within(n)
}

/// The stack after `item` has been pushed: the item on top, with its flag set
/// from the item below it.
pub open spec fn pushed<P>(items: Seq<ItemView<P>>, item: ItemView<P>) -> Seq<ItemView<P>> {
    items.push(
        ItemView {
            has_ancestor_with_hereditary_jumps: items.len() > 0 && (
            items.last().has_ancestor_with_hereditary_jumps || items.last().hereditary_jumps.len()
                > 0),
            ..item
        },
    )
}

/// The index of the innermost item called `name`, if there is one.
pub open spec fn innermost_named<P>(items: Seq<ItemView<P>>, name: Seq<u8>) -> Option<int>
    decreases items.len(),
{
    if items.len() == 0 {
        None
    } else if items.last().local_name == name {
        Some(items.len() - 1)
    } else {
        innermost_named(items.drop_last(), name)
    }
}

/// The payloads of the items from the top of the stack down to index `from`,
/// innermost item first, each item's payloads in the order of their reports.
pub open spec fn unwound_payloads<P>(items: Seq<ItemView<P>>, from: int) -> Seq<P>
    decreases items.len(),
{
    if items.len() <= from || items.len() == 0 {
        Seq::empty()
    } else {
        items.last().matched_payload + unwound_payloads(items.drop_last(), from)
    }
}

/// The stack after the end tag `name`: cut below the innermost item of that
/// name, or as it was where no item has that name.
pub open spec fn popped_up_to<P>(items: Seq<ItemView<P>>, name: Seq<u8>) -> Seq<ItemView<P>> {
    match innermost_named(items, name) {
        Some(i) => items.take(i),
        None => items,
    }
}

/// The payloads that the end tag `name` takes out of scope, in the order in
/// which they are handed over.
pub open spec fn unmatched_by<P>(items: Seq<ItemView<P>>, name: Seq<u8>) -> Seq<P> {
    match innermost_named(items, name) {
        Some(i) => unwound_payloads(items, i),
        None => Seq::empty(),
    }
}

/// Where an item called `name` is on the stack, `innermost_named` finds the
/// last of them.
pub proof fn lemma_innermost_named<P>(items: Seq<ItemView<P>>, name: Seq<u8>)
    ensures
        match innermost_named(items, name) {
            Some(i) => 0 <= i < items.len() && items[i].local_name == name && forall|j: int|
                i < j < items.len() ==> (#[trigger] items[j]).local_name != name,
            None => forall|j: int| 0 <= j < items.len() ==> (#[trigger] items[j]).local_name != name,
        },
    decreases items.len(),
{
    if items.len() > 0 && items.last().local_name != name {
        lemma_innermost_named(items.drop_last(), name);
        match innermost_named(items, name) {
            Some(i) => {
                assert forall|j: int| i < j < items.len() implies (#[trigger] items[j]).local_name
                    != name by {
                    if j < items.len() - 1 {
                        assert(items.drop_last()[j].local_name != name);
                    }
                }
            },
            None => {
                assert forall|j: int| 0 <= j < items.len() implies (#[trigger] items[j]).local_name
                    != name by {
                    if j < items.len() - 1 {
                        assert(items.drop_last()[j].local_name != name);
                    }
                }
            },
        }
    }
}

/// A well-formed stack stays so when its top is cut off.
pub proof fn lemma_take_keeps_wf<P>(items: Seq<ItemView<P>>, n: int)
    requires
        stack_wf(items),
        0 <= n <= items.len(),
    ensures
        stack_wf(items.take(n)),
{
    let cut = items.take(n);
    assert forall|i: int| 0 <= i < cut.len() implies (#[trigger] cut[i]).has_ancestor_with_hereditary_jumps
        == has_hereditary_jumps_below(cut, i) by {
        assert(cut[i] == items[i]);
        if has_hereditary_jumps_below(items, i) {
            let j = choose|j: int|
                0 <= j < i && j < items.len() && (#[trigger] items[j]).hereditary_jumps.len() > 0;
            assert(cut[j] == items[j]);
        }
        if has_hereditary_jumps_below(cut, i) {
            let j = choose|j: int|
                0 <= j < i && j < cut.len() && (#[trigger] cut[j]).hereditary_jumps.len() > 0;
            assert(cut[j] == items[j]);
        }
    }
    assert forall|i: int| 0 <= i < cut.len() implies (#[trigger] cut[i]).matched_payload.no_duplicates() by {
        assert(cut[i] == items[i]);
    }
}

/// A well-formed stack stays so when an item without repeated payloads is
/// pushed.
pub proof fn lemma_push_keeps_wf<P>(items: Seq<ItemView<P>>, item: ItemView<P>)
    requires
        stack_wf(items),
        item.matched_payload.no_duplicates(),
    ensures
        stack_wf(pushed(items, item)),
{
    let next = pushed(items, item);
    let n = items.len() as int;
    assert forall|i: int| 0 <= i < next.len() implies (#[trigger] next[i]).has_ancestor_with_hereditary_jumps
        == has_hereditary_jumps_below(next, i) by {
        if i < n {
            assert(next[i] == items[i]);
            if has_hereditary_jumps_below(items, i) {
                let j = choose|j: int|
                    0 <= j < i && j < items.len() && (#[trigger] items[j]).hereditary_jumps.len() > 0;
                assert(next[j] == items[j]);
            }
            if has_hereditary_jumps_below(next, i) {
                let j = choose|j: int|
                    0 <= j < i && j < next.len() && (#[trigger] next[j]).hereditary_jumps.len() > 0;
                assert(next[j] == items[j]);
            }
        } else if n > 0 {
            let top = items[n - 1];
            assert(top == items.last());
            if has_hereditary_jumps_below(next, n) {
                let j = choose|j: int|
                    0 <= j < n && j < next.len() && (#[trigger] next[j]).hereditary_jumps.len() > 0;
                assert(next[j] == items[j]);
                if j < n - 1 {
                    assert(has_hereditary_jumps_below(items, n - 1));
                }
            }
            if top.has_ancestor_with_hereditary_jumps {
                assert(has_hereditary_jumps_below(items, n - 1));
                let j = choose|j: int|
                    0 <= j < n - 1 && j < items.len() && (#[trigger] items[j]).hereditary_jumps.len()
                        > 0;
                assert(next[j] == items[j]);
            }
            if top.hereditary_jumps.len() > 0 {
                assert(next[n - 1] == items[n - 1]);
            }
        }
    }
    assert forall|i: int| 0 <= i < next.len() implies (#[trigger] next[i]).matched_payload.no_duplicates() by {
        if i < n {
            assert(next[i] == items[i]);
        }
    }
}

/// The open-element stack.
#[derive(Debug)]
pub struct Stack<P> {
    items: Vec<StackItem<'static, P>>,
}

impl<P> View for Stack<P> {
    type V = Seq<ItemView<P>>;

    closed spec fn view(&self) -> Seq<ItemView<P>> {
        self.items@.map_values(|item: StackItem<'static, P>| item@)
    }
}

impl<P: Copy> Default for Stack<P> {
    /// An empty stack.
    fn default() -> (stack: Self)
        ensures
            stack@ == Seq::<ItemView<P>>::empty(),
    {
        Stack::new()
    }
}

impl<P: Copy> Stack<P> {
    /// An empty stack.
    pub fn new() -> (stack: Self)
        ensures
            stack@ == Seq::<ItemView<P>>::empty(),
            stack_wf(stack@),
    {
        let stack = Stack { items: Vec::new() };
        assert(stack@ =~= Seq::<ItemView<P>>::empty());
        stack
    }

    /// The number of open elements.
    pub fn len(&self) -> (n: usize)
        ensures
            n == self@.len(),
    {
        self.items.len()
    }

    /// The item at index `i`, counted from the outermost element.
    pub fn item(&self, i: usize) -> (item: &StackItem<'static, P>)
        requires
            i < self@.len(),
        ensures
            item@ == self@[i as int],
    {
        &self.items[i]
    }

    /// The items, outermost first and innermost last.
    pub fn items(&self) -> (items: &Vec<StackItem<'static, P>>)
        ensures
            items@.len() == self@.len(),
            forall|i: int| 0 <= i < items@.len() ==> (#[trigger] items@[i])@ == self@[i],
    {
        &self.items
    }

    /// What becomes of the element that `item` stands for, in namespace `ns`.
    pub fn get_stack_directive(&self, item: &StackItem<'_, P>, ns: Namespace) -> (d: StackDirective)
        ensures
            d == stack_directive(item@.local_name, ns),
    {
        if ns == Namespace::Html {
            if is_void_element(&item.local_name) {
                StackDirective::PopImmediately
            } else {
                StackDirective::Push
            }
        } else {
            StackDirective::PushIfNotSelfClosing
        }
    }

    /// Puts `item` on top of the stack and sets its flag from the item below
    /// it.
    pub fn push_item(&mut self, item: StackItem<'static, P>)
        ensures
            final(self)@ == pushed(old(self)@, item@),
            stack_wf(old(self)@) && item@.matched_payload.no_duplicates() ==> stack_wf(final(self)@),
    {
        proof {
            if stack_wf(self@) && item@.matched_payload.no_duplicates() {
                lemma_push_keeps_wf(self@, item@);
            }
        }
        let mut item = item;
        let n = self.items.len();
        item.has_ancestor_with_hereditary_jumps = n > 0 && (self.items[n
            - 1].has_ancestor_with_hereditary_jumps || self.items[n - 1].hereditary_jumps.len() > 0);
        self.items.push(item);
        assert(self@ =~= pushed(old(self)@, item@));
    }

    /// Handles the end tag `local_name`: takes the innermost item of that name
    /// and every item above it off the stack, innermost first, and hands each
    /// payload of each of them to `unmatched`. Where no item has that name the
    /// end tag is a stray one and nothing changes.
    pub fn pop_up_to(&mut self, local_name: &LocalName<'_>, unmatched: &mut Vec<P>)
        ensures
            final(self)@ == popped_up_to(old(self)@, local_name@),
            final(unmatched)@ == old(unmatched)@ + unmatched_by(old(self)@, local_name@),
            stack_wf(old(self)@) ==> stack_wf(final(self)@),
    {
        let ghost before = self@;
        proof {
            lemma_innermost_named(before, local_name@);
            if stack_wf(before) {
                if let Some(i) = innermost_named(before, local_name@) {
                    lemma_take_keeps_wf(before, i);
                }
            }
        }
        let mut i: usize = self.items.len();
        let mut found: bool = false;
        assert(before.take(i as int) =~= before);
        while i > 0 && !found
            invariant
                i <= self.items.len(),
                self@ == before,
                !found ==> innermost_named(before, local_name@) == innermost_named(
                    before.take(i as int),
                    local_name@,
                ),
                found ==> i < self.items.len() && innermost_named(before, local_name@) == Some(
                    i as int,
                ),
            decreases i + if found { 0int } else { 1int },
        {
            if self.items[i - 1].local_name.same_as(local_name) {
                found = true;
                i -= 1;
                assert(before.take(i + 1).last().local_name == local_name@);
            } else {
                assert(before.take(i as int).last().local_name != local_name@);
                assert(before.take(i as int).drop_last() =~= before.take(i - 1));
                i -= 1;
            }
        }
        if !found {
            assert(before.take(0).len() == 0);
            assert(unmatched@ =~= old(unmatched)@ + Seq::<P>::empty());
            return ;
        }
        while self.items.len() > i
            invariant
                i <= self.items.len() <= before.len(),
                self@ == before.take(self.items.len() as int),
                unmatched@ + unwound_payloads(self@, i as int) == old(unmatched)@
                    + unwound_payloads(before, i as int),
            decreases self.items.len(),
        {
            let ghost cur = self@;
            let ghost reported = unmatched@;
            let item = self.items.pop().unwrap();
            assert(self@ =~= cur.drop_last());
            assert(item@ == cur.last());
            let mut k: usize = 0;
            while k < item.matched_payload.len()
                invariant
                    k <= item.matched_payload.len(),
                    unmatched@ == reported + item.matched_payload@.take(k as int),
                decreases item.matched_payload.len() - k,
            {
                unmatched.push(item.matched_payload[k]);
                k += 1;
                assert(item.matched_payload@.take(k as int) =~= item.matched_payload@.take(k - 1).push(
                    item.matched_payload@[k - 1],
                ));
            }
            assert(item.matched_payload@.take(k as int) =~= item.matched_payload@);
            assert(unmatched@ + unwound_payloads(self@, i as int) =~= reported + unwound_payloads(
                cur,
                i as int,
            ));
            assert(self@ =~= before.take(self.items.len() as int));
        }
        assert(unwound_payloads(self@, i as int) =~= Seq::<P>::empty());
        assert(unmatched@ =~= unmatched@ + Seq::<P>::empty());
    }
}

} // verus!
