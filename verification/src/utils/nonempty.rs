//! Vectors with at least one element.

use vstd::prelude::*;

verus! {

/// A vector with at least one element.
#[derive(Debug, PartialEq, Eq, Hash, PartialOrd, Ord)]
pub struct NonEmpty<T> {
    items: Vec<T>,
}

impl<T> View for NonEmpty<T> {
    type V = Seq<T>;

    closed spec fn view(&self) -> Seq<T> {
        self.items@
    }
}

impl<T> NonEmpty<T> {
    #[verifier::type_invariant]
    spec fn inv(self) -> bool {
        self.items.len() > 0
    }

    /// The same elements, or the empty vector back.
    pub fn new(items: Vec<T>) -> (r: Result<Self, Vec<T>>)
        ensures
            r is Ok <==> items.len() > 0,
            r matches Ok(nonempty) ==> nonempty@ == items@,
            r matches Err(empty) ==> empty@ == items@,
    {
        if items.len() == 0 {
            Err(items)
        } else {
            Ok(NonEmpty { items })
        }
    }

    /// One element.
    pub fn of_one(item: T) -> (r: Self)
        ensures
            r@ == seq![item],
    {
        let mut items: Vec<T> = Vec::new();
        items.push(item);
        NonEmpty { items }
    }

    /// The first element.
    pub fn first(&self) -> (r: &T)
        ensures
            self@.len() > 0,
            *r == self@[0],
    {
        proof {
            use_type_invariant(self);
        }
        &self.items[0]
    }

    /// The number of elements.
    pub fn len(&self) -> (r: usize)
        ensures
            r == self@.len(),
            r > 0,
    {
        proof {
            use_type_invariant(self);
        }
        self.items.len()
    }

    /// The elements.
    pub fn as_vec(&self) -> (r: &Vec<T>)
        ensures
            r@ == self@,
            r.len() > 0,
    {
        proof {
            use_type_invariant(self);
        }
        &self.items
    }

    /// The elements.
    pub fn into_vec(self) -> (r: Vec<T>)
        ensures
            r@ == self@,
            r.len() > 0,
    {
        proof {
            use_type_invariant(&self);
        }
        self.items
    }
}

} // verus!
