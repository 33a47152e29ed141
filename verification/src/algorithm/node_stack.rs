//! The stack of a search: numbers of nodes, kept without allocation while
//! they are few.

use smallvec::SmallVec;
use vstd::prelude::*;

verus! {

/// A vector of the crate `smallvec` that keeps up to 24 numbers without
/// allocation.
#[verifier::external_body]
pub struct InlineStack {
    items: SmallVec<[usize; 24]>,
}

/// The length up to which an item can be added to an inline stack.
pub const INLINE_LIMIT: usize = 1073741824;

/// The numbers that a vector holds, from the first to the last.
pub uninterp spec fn inline_items(stack: InlineStack) -> Seq<usize>;

/// An empty vector.
///
/// Calls `SmallVec::new` of `smallvec`, which makes a vector with no items.
#[verifier::external_body]
fn inline_new() -> (stack: InlineStack)
    ensures
        inline_items(stack) == Seq::<usize>::empty(),
{
    InlineStack { items: SmallVec::new() }
}

/// The number of items of `stack`.
///
/// Calls `SmallVec::len` of `smallvec`, which returns the number of items.
#[verifier::external_body]
fn inline_len(stack: &InlineStack) -> (r: usize)
    ensures
        r == inline_items(*stack).len(),
{
    stack.items.len()
}

/// Puts `item` at the end of `stack`.
///
/// Calls `SmallVec::push` of `smallvec`, which appends the item. It grows
/// the vector to the next power of two where it is full, and panics where
/// that is beyond the machine's numbers: the contract keeps far below.
#[verifier::external_body]
fn inline_push(stack: &mut InlineStack, item: usize)
    requires
        inline_items(*old(stack)).len() < INLINE_LIMIT,
    ensures
        inline_items(*final(stack)) == inline_items(*old(stack)).push(item),
{
    stack.items.push(item)
}

/// Takes the last item off `stack`.
///
/// Calls `SmallVec::pop` of `smallvec`, which removes and returns the last
/// item, and returns `None` for an empty vector.
#[verifier::external_body]
fn inline_pop(stack: &mut InlineStack) -> (r: Option<usize>)
    ensures
        r is None <==> inline_items(*old(stack)).len() == 0,
        r is None ==> inline_items(*final(stack)) == inline_items(*old(stack)),
        r is Some ==> r->0 == inline_items(*old(stack)).last() && inline_items(*final(stack))
            == inline_items(*old(stack)).drop_last(),
{
    stack.items.pop()
}

/// A stack of numbers.
///
/// The numbers are kept in a vector that does not allocate while they are
/// few. Past a length that searches do not reach, they go to an ordinary
/// vector.
pub struct NodeStack {
    inline: InlineStack,
    spill: Vec<usize>,
}

impl NodeStack {
    /// The numbers on the stack, the last of them on top.
    pub closed spec fn items(&self) -> Seq<usize> {
        inline_items(self.inline) + self.spill@
    }

    /// An empty stack.
    pub fn new() -> (r: Self)
        ensures
            r.items() == Seq::<usize>::empty(),
    {
        let r = NodeStack { inline: inline_new(), spill: Vec::new() };
        assert(r.items() =~= Seq::<usize>::empty());
        r
    }

    /// Puts `item` on top of the stack.
    pub fn push(&mut self, item: usize)
        ensures
            final(self).items() == old(self).items().push(item),
    {
        if self.spill.len() == 0 && inline_len(&self.inline) < INLINE_LIMIT {
            inline_push(&mut self.inline, item);
            assert(self.items() =~= old(self).items().push(item));
        } else {
            self.spill.push(item);
            assert(self.items() =~= old(self).items().push(item));
        }
    }

    /// Takes the number on top off the stack; `None` where the stack is
    /// empty.
    pub fn pop(&mut self) -> (r: Option<usize>)
        ensures
            r is None <==> old(self).items().len() == 0,
            r is None ==> final(self).items() == old(self).items(),
            r is Some ==> r->0 == old(self).items().last() && final(self).items() == old(
                self,
            ).items().drop_last(),
    {
        if self.spill.len() > 0 {
            let r = self.spill.pop();
            assert(self.items() =~= old(self).items().drop_last());
            r
        } else {
            let r = inline_pop(&mut self.inline);
            assert(old(self).items() =~= inline_items(old(self).inline));
            assert(self.items() =~= inline_items(self.inline));
            r
        }
    }
}

} // verus!
