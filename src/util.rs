use vstd::prelude::*;

verus! {

/// Whether some element of a vector satisfies a predicate.
pub trait VecExt<T> {
    fn includes<P: Fn(&T) -> bool>(&self, predicate: P) -> (r: bool)
        requires
            forall|i: int| 0 <= i < self.spec_elements().len() ==> predicate.requires((&self.spec_elements()[i],)),
        ensures
            r ==> exists|i: int|
                0 <= i < self.spec_elements().len() && predicate.ensures((&self.spec_elements()[i],), true),
            !r ==> forall|i: int|
                0 <= i < self.spec_elements().len() ==> predicate.ensures((&self.spec_elements()[i],), false),
    ;

    spec fn spec_elements(&self) -> Seq<T>;
}

impl<T> VecExt<T> for Vec<T> {
    open spec fn spec_elements(&self) -> Seq<T> {
        self@
    }

    fn includes<P: Fn(&T) -> bool>(&self, predicate: P) -> (r: bool) {
        assert(self.spec_elements() == self@);
        let mut i: usize = 0;
        while i < self.len()
            invariant
                i <= self@.len(),
                forall|j: int| 0 <= j < self@.len() ==> predicate.requires((&self@[j],)),
                forall|j: int| 0 <= j < i ==> predicate.ensures((&self@[j],), false),
            decreases self@.len() - i,
        {
            let found = predicate(&self[i]);
            if found {
                assert(predicate.ensures((&self@[i as int],), true));
                assert(predicate.ensures((&self.spec_elements()[i as int],), true));
                return true;
            }
            i = i + 1;
        }
        false
    }
}

/// Chooses between two values by a boolean.
pub trait BoolExt {
    fn map<T>(&self, trueness: T, falseness: T) -> (r: T)
        ensures
            r == if self.spec_value() {
                trueness
            } else {
                falseness
            },
    ;

    spec fn spec_value(&self) -> bool;
}

impl BoolExt for bool {
    open spec fn spec_value(&self) -> bool {
        *self
    }

    fn map<T>(&self, trueness: T, falseness: T) -> (r: T) {
        if *self {
            trueness
        } else {
            falseness
        }
    }
}

/// The size of an array value: fixed, or growing.
#[derive(PartialEq, Eq, Debug, Clone, Copy, Structural)]
pub enum ArraySize {
    Fixed(usize),
    Dynamic,
}

/// Indentation of a printed tree, one step per nesting level.
pub struct AstPrintContext {
    pub indent: usize,
}

impl AstPrintContext {
    pub fn new() -> (r: Self)
        ensures
            r.indent == 0,
    {
        AstPrintContext { indent: 0 }
    }

    pub fn increment(&mut self)
        requires
            old(self).indent < usize::MAX,
        ensures
            final(self).indent == old(self).indent + 1,
    {
        self.indent = self.indent + 1;
    }

    pub fn decrement(&mut self)
        requires
            old(self).indent > 0,
        ensures
            final(self).indent == old(self).indent - 1,
    {
        self.indent = self.indent - 1;
    }

    pub fn indent(&self) -> (r: usize)
        ensures
            r == self.indent,
    {
        self.indent
    }
}

} // verus!
