use vstd::prelude::*;

verus! {

/// Every outcome in `s` is a success.
pub open spec fn all_succeed<T, E>(s: Seq<Result<T, E>>) -> bool {
    forall|i: int| 0 <= i < s.len() ==> (#[trigger] s[i]) is Ok
}

/// `k` is the position of the leftmost failure in `s`.
pub open spec fn is_first_failure<T, E>(s: Seq<Result<T, E>>, k: int) -> bool {
    &&& 0 <= k < s.len()
    &&& s[k] is Err
    &&& forall|j: int| 0 <= j < k ==> (#[trigger] s[j]) is Ok
}

/// The position of the leftmost failure in `s`. It is only meaningful when
/// `s` holds a failure.
pub open spec fn first_failure<T, E>(s: Seq<Result<T, E>>) -> int {
    choose|k: int| is_first_failure(s, k)
}

/// The success values of `s`, in the order in which they occur in `s`.
pub open spec fn successes<T, E>(s: Seq<Result<T, E>>) -> Seq<T> {
    s.filter(|o: Result<T, E>| o is Ok).map_values(|o: Result<T, E>| o->Ok_0)
}

/// The failure values of `s`, in the order in which they occur in `s`.
pub open spec fn failures<T, E>(s: Seq<Result<T, E>>) -> Seq<E> {
    s.filter(|o: Result<T, E>| o is Err).map_values(|o: Result<T, E>| o->Err_0)
}

/// The fail-fast reduction of `s`: all the success values when nothing
/// failed, the leftmost failure value otherwise.
pub open spec fn fail_fast<T, E>(s: Seq<Result<T, E>>) -> Result<Seq<T>, E> {
    if all_succeed(s) {
        Ok(successes(s))
    } else {
        Err(s[first_failure(s)]->Err_0)
    }
}

/// What a fail-fast result stands for: the values behind its references.
pub open spec fn fail_fast_view<T, E>(r: Result<Vec<&T>, &E>) -> Result<Seq<T>, E> {
    match r {
        Ok(v) => Ok(v@.unref()),
        Err(e) => Err(*e),
    }
}

} // verus!
