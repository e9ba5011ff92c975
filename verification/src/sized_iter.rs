//! Provider of [`SizedIter`].
//!
//! A forward cursor over a buffered sequence. The underlying elements are
//! taken one at a time, in order, and the number of elements still to come
//! is always known, which the single-pass grouping walk relies on.

use vstd::prelude::*;

verus! {

/// Forward cursor with a known remaining length.
///
/// The buffer holds the remaining elements in reverse, so taking the next
/// element is a pop from the back.
pub struct SizedIter<T> {
    rest: Vec<T>,
}

impl<T> SizedIter<T> {
    /// The elements still to be handed out, in order.
    pub closed spec fn remaining(self) -> Seq<T> {
        self.rest@.reverse()
    }

    /// Create an instance that will hand out the elements of `items` in order.
    pub fn new(items: Vec<T>) -> (it: Self)
        ensures
            it.remaining() == items@,
    {
        let ghost all = items@;
        let mut src = items;
        let mut rest: Vec<T> = Vec::new();
        while src.len() > 0
            invariant
                src@ == all.subrange(0, src@.len() as int),
                src@.len() + rest@.len() == all.len(),
                forall|i: int|
                    0 <= i < rest@.len() ==> rest@[i] == all[all.len() - 1 - i],
            decreases src@.len(),
        {
            let ghost prev = src@;
            let x = match src.pop() {
                Some(x) => x,
                None => {
                    proof {
                        assert(false);
                    }
                    unreached()
                },
            };
            rest.push(x);
            proof {
                assert(src@ =~= all.subrange(0, src@.len() as int));
            }
        }
        proof {
            assert(rest@.reverse() =~= all);
        }
        SizedIter { rest }
    }

    /// Take the next element, if one is left.
    pub fn next(&mut self) -> (x: Option<T>)
        ensures
            old(self).remaining().len() == 0 ==> x is None
                && final(self).remaining() == old(self).remaining(),
            old(self).remaining().len() > 0 ==> x == Some(old(self).remaining()[0])
                && final(self).remaining() == old(self).remaining().drop_first(),
    {
        let x = self.rest.pop();
        proof {
            if old(self).remaining().len() > 0 {
                assert(final(self).remaining() =~= old(self).remaining().drop_first());
            }
        }
        x
    }

    /// Lower and upper bound on the number of elements still to come;
    /// both are exact here.
    pub fn size_hint(&self) -> (h: (usize, Option<usize>))
        ensures
            h.0 == self.remaining().len(),
            h.1 == Some(h.0),
    {
        (self.rest.len(), Some(self.rest.len()))
    }
}

} // verus!
