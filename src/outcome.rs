//! The mathematical model of a sequence of outcomes: which payloads survive,
//! which failures are discarded, and where the next success stands.
use vstd::prelude::*;

use crate::level::Level;

verus! {

/// The success payloads of `s`, in the order in which they stand in `s`.
pub open spec fn successes<T, E>(s: Seq<Result<T, E>>) -> Seq<T>
    decreases s.len(),
{
    if s.len() == 0 {
        Seq::empty()
    } else {
        let front = successes(s.drop_last());
        match s.last() {
            Ok(v) => front.push(v),
            Err(_) => front,
        }
    }
}

/// The failures of `s`, in the order in which they stand in `s`.
pub open spec fn failures<T, E>(s: Seq<Result<T, E>>) -> Seq<E>
    decreases s.len(),
{
    if s.len() == 0 {
        Seq::empty()
    } else {
        let front = failures(s.drop_last());
        match s.last() {
            Ok(_) => front,
            Err(e) => front.push(e),
        }
    }
}

/// How many failures stand at the front of `s`, before its first success.
pub open spec fn leading_failures<T, E>(s: Seq<Result<T, E>>) -> nat
    decreases s.len(),
{
    if s.len() == 0 {
        0
    } else if s[0] is Ok {
        0
    } else {
        1 + leading_failures(s.drop_first())
    }
}

/// The report calls owed for the failures of `s`: one per failure, in
/// order, each tagged with `level`; none when no level is set.
pub open spec fn reports_for<T, E>(s: Seq<Result<T, E>>, level: Option<Level>) -> Seq<(E, Level)> {
    match level {
        Some(l) => failures(s).map_values(|e: E| (e, l)),
        None => Seq::empty(),
    }
}

/// Every outcome of `s` is a failure.
pub open spec fn all_failures<T, E>(s: Seq<Result<T, E>>) -> bool {
    forall|i: int| 0 <= i < s.len() ==> (#[trigger] s[i]) is Err
}

/// Every outcome of `s` is a success.
pub open spec fn all_successes<T, E>(s: Seq<Result<T, E>>) -> bool {
    forall|i: int| 0 <= i < s.len() ==> (#[trigger] s[i]) is Ok
}

/// The payloads of `s`, all of whose outcomes are successes.
pub open spec fn payloads<T, E>(s: Seq<Result<T, E>>) -> Seq<T> {
    s.map_values(|r: Result<T, E>| r->Ok_0)
}

/// Successes and failures of a concatenation are those of its parts, in order.
pub proof fn lemma_concat<T, E>(a: Seq<Result<T, E>>, b: Seq<Result<T, E>>)
    ensures
        successes(a + b) == successes(a) + successes(b),
        failures(a + b) == failures(a) + failures(b),
    decreases b.len(),
{
    if b.len() == 0 {
        assert(a + b =~= a);
        assert(successes(a) + successes(b) =~= successes(a));
        assert(failures(a) + failures(b) =~= failures(a));
    } else {
        lemma_concat(a, b.drop_last());
        assert((a + b).drop_last() =~= a + b.drop_last());
        assert((a + b).last() == b.last());
        match b.last() {
            Ok(v) => {
                assert(successes(a) + successes(b.drop_last()).push(v) =~= (successes(a)
                    + successes(b.drop_last())).push(v));
                assert(failures(a + b) == failures(a) + failures(b));
            },
            Err(e) => {
                assert(failures(a) + failures(b.drop_last()).push(e) =~= (failures(a) + failures(
                    b.drop_last(),
                )).push(e));
                assert(successes(a + b) == successes(a) + successes(b));
            },
        }
    }
}

/// The reports owed for a concatenation are those of its parts, in order.
pub proof fn lemma_reports_concat<T, E>(
    a: Seq<Result<T, E>>,
    b: Seq<Result<T, E>>,
    level: Option<Level>,
)
    ensures
        reports_for(a + b, level) == reports_for(a, level) + reports_for(b, level),
{
    lemma_concat(a, b);
    if let Some(l) = level {
        let f = |e: E| (e, l);
        assert(failures(a + b).map_values(f) =~= failures(a).map_values(f) + failures(
            b,
        ).map_values(f));
    } else {
        assert(Seq::<(E, Level)>::empty() + Seq::empty() =~= Seq::empty());
    }
}

/// A run of failures has no successes, one failure for each outcome, and
/// owes one report per outcome when a level is set, none otherwise.
pub proof fn lemma_only_failures<T, E>(s: Seq<Result<T, E>>, level: Option<Level>)
    requires
        all_failures(s),
    ensures
        successes(s) == Seq::<T>::empty(),
        failures(s).len() == s.len(),
        reports_for(s, level).len() == if level is Some {
            s.len()
        } else {
            0
        },
    decreases s.len(),
{
    if s.len() > 0 {
        assert(all_failures(s.drop_last()));
        lemma_only_failures(s.drop_last(), level);
        assert(s.last() == s[s.len() - 1]);
    }
}

/// A run of successes yields its payloads exactly, and owes no report at
/// any level.
pub proof fn lemma_only_successes<T, E>(s: Seq<Result<T, E>>, level: Option<Level>)
    requires
        all_successes(s),
    ensures
        successes(s) == payloads(s),
        failures(s) == Seq::<E>::empty(),
        reports_for(s, level) == Seq::<(E, Level)>::empty(),
    decreases s.len(),
{
    if s.len() > 0 {
        assert(all_successes(s.drop_last()));
        lemma_only_successes(s.drop_last(), level);
        assert(s.last() == s[s.len() - 1]);
        assert(payloads(s.drop_last()).push(s.last()->Ok_0) =~= payloads(s));
    } else {
        assert(payloads(s) =~= Seq::<T>::empty());
    }
    if let Some(l) = level {
        assert(failures(s).map_values(|e: E| (e, l)) =~= Seq::<(E, Level)>::empty());
    }
}

/// The successes of `s` are its success outcomes, kept in their order, each
/// taken once, and unwrapped; its failures likewise.
pub proof fn lemma_successes_in_order<T, E>(s: Seq<Result<T, E>>)
    ensures
        successes(s) == s.filter(|r: Result<T, E>| r is Ok).map_values(|r: Result<T, E>| r->Ok_0),
        failures(s) == s.filter(|r: Result<T, E>| r is Err).map_values(|r: Result<T, E>| r->Err_0),
    decreases s.len(),
{
    reveal(Seq::filter);
    let is_ok = |r: Result<T, E>| r is Ok;
    let is_err = |r: Result<T, E>| r is Err;
    let ok = |r: Result<T, E>| r->Ok_0;
    let err = |r: Result<T, E>| r->Err_0;
    if s.len() == 0 {
        assert(s.filter(is_ok).map_values(ok) =~= Seq::<T>::empty());
        assert(s.filter(is_err).map_values(err) =~= Seq::<E>::empty());
    } else {
        lemma_successes_in_order(s.drop_last());
        let front_ok = s.drop_last().filter(is_ok);
        let front_err = s.drop_last().filter(is_err);
        if s.last() is Ok {
            assert(s.filter(is_ok) == front_ok.push(s.last()));
            assert(front_ok.push(s.last()).map_values(ok) =~= front_ok.map_values(ok).push(
                s.last()->Ok_0,
            ));
            assert(s.filter(is_err) == front_err);
        } else {
            assert(s.filter(is_err) == front_err.push(s.last()));
            assert(front_err.push(s.last()).map_values(err) =~= front_err.map_values(err).push(
                s.last()->Err_0,
            ));
            assert(s.filter(is_ok) == front_ok);
        }
    }
}

/// One report is owed per failure of `s` when a level is set, and none
/// when no level is set.
pub proof fn lemma_report_count<T, E>(s: Seq<Result<T, E>>, level: Option<Level>)
    ensures
        reports_for(s, level).len() == if level is Some {
            s.filter(|r: Result<T, E>| r is Err).len()
        } else {
            0
        },
{
    lemma_successes_in_order(s);
}

/// The outcome of draining depends on the pending outcomes and the level
/// alone: equal sources give equal payloads and equal reports.
pub proof fn lemma_drain_deterministic<T, E>(
    a: Seq<Result<T, E>>,
    b: Seq<Result<T, E>>,
    level: Option<Level>,
)
    requires
        a == b,
    ensures
        successes(a) == successes(b),
        reports_for(a, level) == reports_for(b, level),
{
}

/// The failures at the front of `s` are failures, and the outcome after
/// them, if any, is a success.
pub proof fn lemma_leading_failures<T, E>(s: Seq<Result<T, E>>)
    ensures
        leading_failures(s) <= s.len(),
        all_failures(s.take(leading_failures(s) as int)),
        leading_failures(s) < s.len() ==> s[leading_failures(s) as int] is Ok,
    decreases s.len(),
{
    if s.len() > 0 && s[0] is Err {
        let t = s.drop_first();
        lemma_leading_failures(t);
        let n = leading_failures(s) as int;
        assert forall|i: int| 0 <= i < n implies (#[trigger] s.take(n)[i]) is Err by {
            if i > 0 {
                assert(s.take(n)[i] == t.take(n - 1)[i - 1]);
            }
        }
        if n < s.len() {
            assert(s[n] == t[n - 1]);
        }
    }
}

/// `k` counts the failures at the front of `s` when the first `k` outcomes
/// fail and the next one, if any, succeeds.
pub proof fn lemma_leading_failures_at<T, E>(s: Seq<Result<T, E>>, k: int)
    requires
        0 <= k <= s.len(),
        all_failures(s.take(k)),
        k < s.len() ==> s[k] is Ok,
    ensures
        leading_failures(s) == k,
    decreases k,
{
    if k > 0 {
        assert(s.take(k)[0] == s[0]);
        let t = s.drop_first();
        assert forall|i: int| 0 <= i < k - 1 implies (#[trigger] t.take(k - 1)[i]) is Err by {
            assert(t.take(k - 1)[i] == s.take(k)[i + 1]);
        }
        if k < s.len() {
            assert(t[k - 1] == s[k]);
        }
        lemma_leading_failures_at(t, k - 1);
    }
}

} // verus!
