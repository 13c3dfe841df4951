use crate::laws::{
    lemma_all_succeed_values, lemma_bisect_len, lemma_bisect_step, lemma_first_failure_is_unique,
};
use crate::model::{
    all_succeed, fail_fast, fail_fast_view, failures, first_failure, is_first_failure, successes,
};
use std::fmt::Debug;
use vstd::prelude::*;

verus! {

/// Reduces a list of outcomes to one outcome, stopping at the first failure.
pub trait VecFoldResult<'a, T, E>: View<V = Seq<Result<T, E>>> where T: Debug, E: Debug + 'a {
    /// References to all the success values, in order, when no outcome is a
    /// failure; otherwise a reference to the leftmost failure value.
    fn foldr(&self) -> (r: Result<Vec<&T>, &E>)
        ensures
            fail_fast_view(r) == fail_fast(self@),
    ;
}

impl<'a, T, E> VecFoldResult<'a, T, E> for Vec<Result<T, E>> where T: Debug, E: Debug + 'a {
    /// Walks the vector from the left and returns at the first failure,
    /// without reading what follows it.
    fn foldr(&self) -> (r: Result<Vec<&T>, &E>)
        ensures
            r is Ok <==> all_succeed(self@),
            r matches Ok(v) ==> v@.len() == self@.len() && forall|i: int|
                0 <= i < self@.len() ==> *(#[trigger] v@[i]) == self@[i]->Ok_0,
            r matches Err(e) ==> is_first_failure(self@, first_failure(self@)) && *e
                == self@[first_failure(self@)]->Err_0,
    {
        let mut buf: Vec<&T> = Vec::new();
        for outcome in it: self
            invariant
                it.seq().unref() == self@,
                buf@.unref() == successes(self@.take(it.index() as int)),
                forall|j: int| 0 <= j < it.index() ==> (#[trigger] self@[j]) is Ok,
        {
            proof {
                lemma_bisect_step(self@, it.index() as int);
            }
            match outcome {
                Err(err) => {
                    proof {
                        lemma_first_failure_is_unique(self@, it.index() as int);
                    }
                    return Err(err);
                },
                Ok(t) => {
                    buf.push(t);
                },
            }
        }
        proof {
            assert(self@.take(self@.len() as int) == self@);
            lemma_all_succeed_values(self@);
        }
        Ok(buf)
    }
}

/// Reduces a list of outcomes to its successes and its failures.
pub trait VecFoldResultBisect<T, E>: View<V = Seq<Result<T, E>>> where T: Debug, E: Debug {
    /// References to all the success values on the left and to all the
    /// failure values on the right, each side in the list's order.
    fn foldr_bisect(&self) -> (r: (Vec<&T>, Vec<&E>))
        ensures
            r.0@.unref() == successes(self@),
            r.1@.unref() == failures(self@),
    ;
}

impl<T, E> VecFoldResultBisect<T, E> for Vec<Result<T, E>> where T: Debug, E: Debug {
    /// Walks the whole vector once, from the left.
    fn foldr_bisect(&self) -> (r: (Vec<&T>, Vec<&E>))
        ensures
            r.0@.len() + r.1@.len() == self@.len(),
    {
        let mut res: Vec<&T> = Vec::new();
        let mut err: Vec<&E> = Vec::new();
        for outcome in it: self
            invariant
                it.seq().unref() == self@,
                res@.unref() == successes(self@.take(it.index() as int)),
                err@.unref() == failures(self@.take(it.index() as int)),
        {
            proof {
                lemma_bisect_step(self@, it.index() as int);
            }
            match outcome {
                Ok(t) => res.push(t),
                Err(e) => err.push(e),
            }
        }
        proof {
            assert(self@.take(self@.len() as int) == self@);
            lemma_bisect_len(self@);
        }
        (res, err)
    }
}

} // verus!
