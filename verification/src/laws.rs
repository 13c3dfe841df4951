use crate::model::{
    all_succeed, fail_fast, fail_fast_view, failures, first_failure, is_first_failure, successes,
};
use vstd::prelude::*;

verus! {

/// The empty sequence has neither successes nor failures, and its fail-fast
/// reduction succeeds with nothing.
pub proof fn lemma_bisect_empty<T, E>()
    ensures
        successes(Seq::<Result<T, E>>::empty()) == Seq::<T>::empty(),
        failures(Seq::<Result<T, E>>::empty()) == Seq::<E>::empty(),
        fail_fast(Seq::<Result<T, E>>::empty()) == Ok::<Seq<T>, E>(Seq::empty()),
{
    let s = Seq::<Result<T, E>>::empty();
    s.lemma_filter_len(|o: Result<T, E>| o is Ok);
    s.lemma_filter_len(|o: Result<T, E>| o is Err);
    assert(successes(s) =~= Seq::<T>::empty());
}

/// Appending a success appends its value to the successes and leaves the
/// failures alone; appending a failure does the opposite.
pub proof fn lemma_bisect_push<T, E>(s: Seq<Result<T, E>>, o: Result<T, E>)
    ensures
        o matches Ok(t) ==> successes(s.push(o)) == successes(s).push(t) && failures(s.push(o))
            == failures(s),
        o matches Err(e) ==> successes(s.push(o)) == successes(s) && failures(s.push(o))
            == failures(s).push(e),
{
    s.lemma_filter_push(o, |o: Result<T, E>| o is Ok);
    s.lemma_filter_push(o, |o: Result<T, E>| o is Err);
}

/// Reading one more outcome of `s` extends the reduction of the prefix read
/// so far by that outcome's value, on the side to which it belongs.
pub proof fn lemma_bisect_step<T, E>(s: Seq<Result<T, E>>, i: int)
    requires
        0 <= i < s.len(),
    ensures
        s[i] matches Ok(t) ==> successes(s.take(i + 1)) == successes(s.take(i)).push(t)
            && failures(s.take(i + 1)) == failures(s.take(i)),
        s[i] matches Err(e) ==> successes(s.take(i + 1)) == successes(s.take(i))
            && failures(s.take(i + 1)) == failures(s.take(i)).push(e),
{
    assert(s.take(i + 1) == s.take(i).push(s[i]));
    lemma_bisect_push(s.take(i), s[i]);
}

/// A sequence has at most one leftmost failure, and with one it does not
/// succeed throughout: the fail-fast reduction is then that failure's value.
pub proof fn lemma_first_failure_is_unique<T, E>(s: Seq<Result<T, E>>, k: int)
    requires
        is_first_failure(s, k),
    ensures
        !all_succeed(s),
        first_failure(s) == k,
        fail_fast(s) == Err::<Seq<T>, E>(s[k]->Err_0),
{
}

/// At or before any failure of `s` stands the leftmost failure of `s`.
proof fn lemma_leftmost_failure_upto<T, E>(s: Seq<Result<T, E>>, i: int) -> (k: int)
    requires
        0 <= i < s.len(),
        s[i] is Err,
    ensures
        k <= i,
        is_first_failure(s, k),
    decreases i,
{
    if forall|j: int| 0 <= j < i ==> (#[trigger] s[j]) is Ok {
        i
    } else {
        let j = choose|j: int| 0 <= j < i && !((#[trigger] s[j]) is Ok);
        lemma_leftmost_failure_upto(s, j)
    }
}

/// A sequence that does not succeed throughout has a leftmost failure, and
/// `first_failure` is its position.
pub proof fn lemma_first_failure_exists<T, E>(s: Seq<Result<T, E>>)
    requires
        !all_succeed(s),
    ensures
        is_first_failure(s, first_failure(s)),
{
    let i = choose|i: int| 0 <= i < s.len() && !((#[trigger] s[i]) is Ok);
    lemma_leftmost_failure_upto(s, i);
}

/// Each outcome is counted once: among the successes or among the failures.
pub proof fn lemma_bisect_len<T, E>(s: Seq<Result<T, E>>)
    ensures
        successes(s).len() + failures(s).len() == s.len(),
    decreases s.len(),
{
    if s.len() == 0 {
        lemma_bisect_empty::<T, E>();
    } else {
        lemma_bisect_len(s.drop_last());
        lemma_bisect_push(s.drop_last(), s.last());
        assert(s.drop_last().push(s.last()) == s);
    }
}

/// The reduction of a prefix of `s` is a prefix of the reduction of `s`, on
/// both sides.
pub proof fn lemma_bisect_prefix<T, E>(s: Seq<Result<T, E>>, i: int)
    requires
        0 <= i <= s.len(),
    ensures
        successes(s.take(i)).is_prefix_of(successes(s)),
        failures(s.take(i)).is_prefix_of(failures(s)),
    decreases s.len() - i,
{
    if i == s.len() {
        assert(s.take(i) == s);
    } else {
        lemma_bisect_step(s, i);
        lemma_bisect_prefix(s, i + 1);
    }
}

/// Where a success stands in the output: the value of a success at
/// position `i` of `s` is the element of `successes(s)` whose position is
/// the number of successes to the left of `i`.
pub proof fn lemma_success_position<T, E>(s: Seq<Result<T, E>>, i: int)
    requires
        0 <= i < s.len(),
        s[i] is Ok,
    ensures
        successes(s.take(i)).len() < successes(s).len(),
        successes(s)[successes(s.take(i)).len() as int] == s[i]->Ok_0,
{
    lemma_bisect_step(s, i);
    lemma_bisect_prefix(s, i + 1);
    let p = successes(s.take(i)).len() as int;
    assert(successes(s.take(i + 1))[p] == successes(s).subrange(0, p + 1)[p]);
}

/// Where a failure stands in the output: the value of a failure at
/// position `i` of `s` is the element of `failures(s)` whose position is
/// the number of failures to the left of `i`.
pub proof fn lemma_failure_position<T, E>(s: Seq<Result<T, E>>, i: int)
    requires
        0 <= i < s.len(),
        s[i] is Err,
    ensures
        failures(s.take(i)).len() < failures(s).len(),
        failures(s)[failures(s.take(i)).len() as int] == s[i]->Err_0,
{
    lemma_bisect_step(s, i);
    lemma_bisect_prefix(s, i + 1);
    let p = failures(s.take(i)).len() as int;
    assert(failures(s.take(i + 1))[p] == failures(s).subrange(0, p + 1)[p]);
}

/// The outputs keep the input's order: of two outcomes of `s`, the one
/// further right has at least as many successes, and as many failures, to
/// its left; strictly more of the kind of the one further left.
pub proof fn lemma_bisect_keeps_order<T, E>(s: Seq<Result<T, E>>, i: int, j: int)
    requires
        0 <= i < j < s.len(),
    ensures
        successes(s.take(i)).len() <= successes(s.take(j)).len(),
        failures(s.take(i)).len() <= failures(s.take(j)).len(),
        s[i] is Ok ==> successes(s.take(i)).len() < successes(s.take(j)).len(),
        s[i] is Err ==> failures(s.take(i)).len() < failures(s.take(j)).len(),
{
    let t = s.take(j);
    assert(t.take(i) == s.take(i));
    lemma_bisect_step(t, i);
    lemma_bisect_prefix(t, i + 1);
}

/// Nothing is made up: each element of `successes(s)` is the value of a
/// success of `s`, which stands where `lemma_success_position` says.
pub proof fn lemma_success_origin<T, E>(s: Seq<Result<T, E>>, p: int) -> (i: int)
    requires
        0 <= p < successes(s).len(),
    ensures
        0 <= i < s.len(),
        s[i] is Ok,
        successes(s.take(i)).len() == p,
        successes(s)[p] == s[i]->Ok_0,
    decreases s.len(),
{
    if s.len() == 0 {
        lemma_bisect_empty::<T, E>();
        0
    } else {
        let n = s.len() - 1;
        lemma_bisect_step(s, n);
        assert(s.take(n + 1) == s);
        if s[n] is Ok && successes(s.take(n)).len() == p {
            n
        } else {
            let i = lemma_success_origin(s.take(n), p);
            assert(s.take(n).take(i) == s.take(i));
            i
        }
    }
}

/// Nothing is made up: each element of `failures(s)` is the value of a
/// failure of `s`, which stands where `lemma_failure_position` says.
pub proof fn lemma_failure_origin<T, E>(s: Seq<Result<T, E>>, p: int) -> (i: int)
    requires
        0 <= p < failures(s).len(),
    ensures
        0 <= i < s.len(),
        s[i] is Err,
        failures(s.take(i)).len() == p,
        failures(s)[p] == s[i]->Err_0,
    decreases s.len(),
{
    if s.len() == 0 {
        lemma_bisect_empty::<T, E>();
        0
    } else {
        let n = s.len() - 1;
        lemma_bisect_step(s, n);
        assert(s.take(n + 1) == s);
        if s[n] is Err && failures(s.take(n)).len() == p {
            n
        } else {
            let i = lemma_failure_origin(s.take(n), p);
            assert(s.take(n).take(i) == s.take(i));
            i
        }
    }
}

/// With no failure in `s`, the successes are the values of `s` element by
/// element, and there are no failures.
pub proof fn lemma_all_succeed_values<T, E>(s: Seq<Result<T, E>>)
    requires
        all_succeed(s),
    ensures
        fail_fast(s) == Ok::<Seq<T>, E>(successes(s)),
        successes(s).len() == s.len(),
        forall|i: int| 0 <= i < s.len() ==> successes(s)[i] == (#[trigger] s[i])->Ok_0,
        failures(s).len() == 0,
    decreases s.len(),
{
    if s.len() == 0 {
        lemma_bisect_empty::<T, E>();
    } else {
        let n = s.len() - 1;
        lemma_all_succeed_values(s.take(n));
        lemma_bisect_step(s, n);
        assert(s.take(n + 1) == s);
    }
}

/// The two reductions agree: the fail-fast reduction succeeds exactly when
/// the bisecting one finds no failure, then with the same successes, and it
/// fails with the first of the failures that the bisecting one finds.
pub proof fn lemma_fail_fast_agrees_with_bisect<T, E>(s: Seq<Result<T, E>>)
    ensures
        fail_fast(s) is Ok <==> failures(s).len() == 0,
        fail_fast(s) is Ok ==> fail_fast(s)->Ok_0 == successes(s),
        fail_fast(s) is Err ==> fail_fast(s)->Err_0 == failures(s)[0],
{
    if all_succeed(s) {
        lemma_all_succeed_values(s);
    } else {
        lemma_first_failure_exists(s);
        let k = first_failure(s);
        lemma_all_succeed_values(s.take(k));
        lemma_failure_position(s, k);
    }
}

/// Nothing to the right of the leftmost failure matters: two sequences that
/// agree up to and including the leftmost failure of one of them have the
/// same fail-fast reduction.
pub proof fn lemma_fail_fast_stops_at_first_failure<T, E>(
    s: Seq<Result<T, E>>,
    t: Seq<Result<T, E>>,
    k: int,
)
    requires
        is_first_failure(s, k),
        k < t.len(),
        t.take(k + 1) == s.take(k + 1),
    ensures
        fail_fast(t) == fail_fast(s),
{
    assert forall|j: int| 0 <= j <= k implies t[j] == s[j] by {
        assert(s.take(k + 1)[j] == s[j]);
    }
    lemma_first_failure_is_unique(s, k);
    lemma_first_failure_is_unique(t, k);
}

/// The fail-fast fold is a function of the list: two results for one list
/// stand for the same values.
pub proof fn lemma_foldr_is_repeatable<T, E>(
    s: Seq<Result<T, E>>,
    first: Result<Vec<&T>, &E>,
    second: Result<Vec<&T>, &E>,
)
    requires
        fail_fast_view(first) == fail_fast(s),
        fail_fast_view(second) == fail_fast(s),
    ensures
        first is Ok <==> second is Ok,
        first is Ok ==> first->Ok_0@.unref() == second->Ok_0@.unref(),
        first is Err ==> *first->Err_0 == *second->Err_0,
{
}

/// The bisecting fold is a function of the list: two results for one list
/// stand for the same values.
pub proof fn lemma_foldr_bisect_is_repeatable<T, E>(
    s: Seq<Result<T, E>>,
    first: (Vec<&T>, Vec<&E>),
    second: (Vec<&T>, Vec<&E>),
)
    requires
        first.0@.unref() == successes(s),
        first.1@.unref() == failures(s),
        second.0@.unref() == successes(s),
        second.1@.unref() == failures(s),
    ensures
        first.0@.unref() == second.0@.unref(),
        first.1@.unref() == second.1@.unref(),
{
}

} // verus!
