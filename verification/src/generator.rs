use vstd::prelude::*;

verus! {

/// Source of the boolean outcomes that decide how many forward references a
/// newly inserted node receives. Implementations choose the bias of the coin;
/// the list imposes no statistical contract and consumes exactly one outcome
/// per level-growth decision, so nothing can be promised about the value that
/// comes back.
pub trait Generator<T> {
    fn gen(&mut self) -> T;
}

} // verus!
