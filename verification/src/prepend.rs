//! Results that are built from the front: what was read so far, put before
//! the result of reading the rest.

use vstd::prelude::*;

verus! {

/// `first` put in front of the items of a result; an error stays as it is.
pub open spec fn prepend<T, E>(first: Seq<T>, rest: Result<Seq<T>, E>) -> Result<Seq<T>, E> {
    match rest {
        Ok(items) => Ok(first + items),
        Err(error) => Err(error),
    }
}

/// Putting nothing in front changes nothing.
pub proof fn lemma_prepend_nothing<T, E>(rest: Result<Seq<T>, E>)
    ensures
        prepend(Seq::empty(), rest) == rest,
{
    if let Ok(items) = rest {
        assert(Seq::<T>::empty() + items == items);
    }
}

/// Putting `second` and then `first` in front is putting `first + second` in
/// front.
pub proof fn lemma_prepend_twice<T, E>(first: Seq<T>, second: Seq<T>, rest: Result<Seq<T>, E>)
    ensures
        prepend(first, prepend(second, rest)) == prepend(first + second, rest),
{
    if let Ok(items) = rest {
        assert(first + (second + items) == (first + second) + items);
    }
}

} // verus!
