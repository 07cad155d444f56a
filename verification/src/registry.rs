//! The free-slot registry: a last-in, first-out store of the addresses of
//! vacant slots, kept in crossbeam's lock-free Treiber stack.

use crossbeam::sync::TreiberStack;
use vstd::prelude::*;

verus! {

/// crossbeam's `TreiberStack`, a lock-free stack. The verifier sees nothing
/// inside it; `stack_items` names what it holds.
#[verifier::external_type_specification]
#[verifier::external_body]
#[verifier::reject_recursive_types(T)]
pub struct ExTreiberStack<T>(TreiberStack<T>);

/// The addresses that a stack holds, oldest first: the last one is on top.
pub uninterp spec fn stack_items(stack: TreiberStack<usize>) -> Seq<usize>;

/// `TreiberStack::new`: the stack it returns holds nothing.
#[verifier::external_body]
fn stack_new() -> (stack: TreiberStack<usize>)
    ensures
        stack_items(stack) == Seq::<usize>::empty(),
{
    TreiberStack::new()
}

/// `TreiberStack::push`: the address is put on top of what the stack held.
/// The exclusive borrow rules out any other thread touching the stack
/// during the call.
#[verifier::external_body]
fn stack_push(stack: &mut TreiberStack<usize>, addr: usize)
    ensures
        stack_items(*final(stack)) == stack_items(*old(stack)).push(addr),
{
    stack.push(addr)
}

/// `TreiberStack::try_pop`: on an empty stack it returns `None` and leaves
/// the stack as it was; otherwise it removes the top address and returns it.
/// The exclusive borrow rules out any other thread touching the stack
/// during the call, so an empty answer means that the stack is empty.
#[verifier::external_body]
fn stack_try_pop(stack: &mut TreiberStack<usize>) -> (top: Option<usize>)
    ensures
        stack_items(*old(stack)).len() == 0 ==> top.is_none() && stack_items(*final(stack))
            == stack_items(*old(stack)),
        stack_items(*old(stack)).len() > 0 ==> top == Some(stack_items(*old(stack)).last())
            && stack_items(*final(stack)) == stack_items(*old(stack)).drop_last(),
{
    stack.try_pop()
}

/// A last-in, first-out registry of vacant slot addresses.
pub struct Registry {
    stack: TreiberStack<usize>,
}

impl View for Registry {
    type V = Seq<usize>;

    /// The registered addresses, oldest first.
    closed spec fn view(&self) -> Seq<usize> {
        stack_items(self.stack)
    }
}

impl Registry {
    /// An empty registry.
    pub fn new() -> (registry: Self)
        ensures
            registry@ == Seq::<usize>::empty(),
    {
        Registry { stack: stack_new() }
    }

    /// Registers `addr` as the most recently vacated slot.
    pub fn push(&mut self, addr: usize)
        ensures
            final(self)@ == old(self)@.push(addr),
    {
        stack_push(&mut self.stack, addr)
    }

    /// Takes the most recently registered address, if there is one.
    pub fn try_pop(&mut self) -> (top: Option<usize>)
        ensures
            old(self)@.len() == 0 ==> top.is_none() && final(self)@ == old(self)@,
            old(self)@.len() > 0 ==> top == Some(old(self)@.last()) && final(self)@ == old(self)@.drop_last(),
    {
        stack_try_pop(&mut self.stack)
    }
}

} // verus!
