//! The filtering adapter: a lazy, order-keeping view of the successes of a
//! source of outcomes.
use vstd::prelude::*;

use vstd::std_specs::iter::IteratorSpec;

use crate::level::Level;
use crate::outcome::{
    all_failures, failures, leading_failures, lemma_concat, lemma_leading_failures,
    lemma_leading_failures_at, lemma_only_failures, lemma_reports_concat, reports_for, successes,
};

verus! {

/// Where discarded failures are reported.
///
/// A report is fire-and-forget: what the port does with it (write it to a
/// log, count it, drop it) is its own concern.
pub trait Report<E> {
    /// Takes one discarded failure, tagged with the level it is reported at.
    fn report(&mut self, error: &E, level: Level);
}

/// A port that drops every report.
#[derive(Clone, Copy, Debug, PartialEq, Eq, Default)]
pub struct Silent;

impl<E> Report<E> for Silent {
    fn report(&mut self, error: &E, level: Level) {
    }
}

/// A source that the adapter can drain: it obeys the iterator laws, so
/// that what it will yield is a finite sequence, and it comes with a
/// measure that each item it yields brings down.
pub open spec fn finite_source<I: Iterator>(source: I) -> bool {
    &&& source.obeys_prophetic_iter_laws()
    &&& source.decrease() is Some
}

/// An iterator that ignores errors: it yields the success payloads of the
/// source it wraps, in order, and skips each failure, reporting it first
/// when a level is set.
#[verifier::reject_recursive_types(I)]
#[verifier::reject_recursive_types(T)]
#[verifier::reject_recursive_types(E)]
pub struct SkipErrorIter<I, T, E, P> where I: Iterator<Item = Result<T, E>> {
    inner: I,
    log_level: Option<Level>,
    port: P,
    reported: Ghost<Seq<(E, Level)>>,
}

impl<I, T, E, P> SkipErrorIter<I, T, E, P> where I: Iterator<Item = Result<T, E>>, P: Report<E> {
    /// The source, with what it has not yielded yet.
    pub closed spec fn source(&self) -> I {
        self.inner
    }

    /// The level at which discarded failures are reported, if any.
    pub closed spec fn level(&self) -> Option<Level> {
        self.log_level
    }

    /// Every report made so far, in order: the failure and its level.
    pub closed spec fn reported(&self) -> Seq<(E, Level)> {
        self.reported@
    }

    /// Wraps `source`; each failure is reported to `port` at `log_level`,
    /// or not at all where `log_level` is `None`.
    pub fn new(source: I, log_level: Option<Level>, port: P) -> (r: Self)
        ensures
            r.source() == source,
            r.level() == log_level,
            r.reported() == Seq::<(E, Level)>::empty(),
    {
        SkipErrorIter { inner: source, log_level, port, reported: Ghost(Seq::empty()) }
    }

    /// The port that receives the reports.
    pub fn port(&self) -> (r: &P) {
        &self.port
    }

    /// Pulls from the source until it yields a success, whose payload is
    /// returned, or runs out, and then returns `None`. Each failure pulled
    /// on the way is reported once at the configured level, or not at all.
    ///
    /// The loop pulls one item at a time, so that a long run of failures
    /// takes no more stack than a short one.
    pub fn next(&mut self) -> (ret: Option<T>)
        requires
            finite_source(old(self).source()),
        ensures
            finite_source(final(self).source()),
            final(self).level() == old(self).level(),
            ({
                let rem = old(self).source().remaining();
                let n = leading_failures(rem) as int;
                if n < rem.len() {
                    &&& ret == Some(rem[n]->Ok_0)
                    &&& final(self).source().remaining() == rem.skip(n + 1)
                    &&& final(self).reported() == old(self).reported() + reports_for(
                        rem.take(n),
                        old(self).level(),
                    )
                    &&& final(self).source().decrease()->0 < old(self).source().decrease()->0
                } else {
                    &&& ret is None
                    &&& final(self).source().remaining() == Seq::<Result<T, E>>::empty()
                    &&& final(self).reported() == old(self).reported() + reports_for(
                        rem,
                        old(self).level(),
                    )
                }
            }),
    {
        let ghost rem = self.inner.remaining();
        let ghost start = self.inner.decrease()->0;
        let ghost mut skipped: Seq<Result<T, E>> = Seq::empty();
        loop
            invariant
                finite_source(self.inner),
                self.log_level == old(self).log_level,
                rem == old(self).source().remaining(),
                start == old(self).source().decrease()->0,
                rem == skipped + self.inner.remaining(),
                all_failures(skipped),
                self.reported@ == old(self).reported() + reports_for(skipped, self.log_level),
                self.inner.decrease()->0 <= start,
                skipped.len() > 0 ==> self.inner.decrease()->0 < start,
            decreases self.inner.decrease()->0,
        {
            let ghost before = self.inner.remaining();
            let ghost measure = self.inner.decrease()->0;
            match self.inner.next() {
                None => {
                    proof {
                        assert(rem =~= skipped);
                        lemma_leading_failures_at(rem, skipped.len() as int);
                        assert(rem.take(skipped.len() as int) =~= skipped);
                    }
                    return None;
                },
                Some(Ok(value)) => {
                    proof {
                        let n = skipped.len() as int;
                        assert(rem[n] == before[0]);
                        assert(rem.take(n) =~= skipped);
                        lemma_leading_failures_at(rem, n);
                        assert(rem.skip(n + 1) =~= self.inner.remaining());
                        assert(self.inner.decrease()->0 < measure);
                    }
                    return Some(value);
                },
                Some(Err(error)) => {
                    if let Some(l) = self.log_level {
                        self.port.report(&error, l);
                        self.reported = Ghost(self.reported@.push((error, l)));
                    }
                    proof {
                        let one = seq![Err::<T, E>(error)];
                        lemma_reports_concat(skipped, one, self.log_level);
                        assert(one.drop_last() =~= Seq::<Result<T, E>>::empty());
                        assert(failures(Seq::<Result<T, E>>::empty()) == Seq::<E>::empty());
                        assert(failures(one) =~= seq![error]);
                        let added = reports_for(one, self.log_level);
                        if let Some(l) = self.log_level {
                            assert(added =~= seq![(error, l)]);
                        } else {
                            assert(added =~= Seq::<(E, Level)>::empty());
                        }
                        assert(self.reported@ =~= old(self).reported() + reports_for(skipped, self.log_level) + added);
                        assert(self.inner.decrease()->0 < measure);
                        assert(old(self).reported() + reports_for(skipped, self.log_level) + added
                            =~= old(self).reported() + (reports_for(skipped, self.log_level) + added));
                        skipped = skipped + one;
                        assert(rem =~= skipped + self.inner.remaining());
                    }
                },
            }
        }
    }

    /// Drains the source: returns the payloads of all its successes, in
    /// order, and reports each of its failures once at the configured
    /// level, or not at all.
    pub fn collect_vec(&mut self) -> (r: Vec<T>)
        requires
            finite_source(old(self).source()),
        ensures
            finite_source(final(self).source()),
            final(self).level() == old(self).level(),
            r@ == successes(old(self).source().remaining()),
            final(self).source().remaining() == Seq::<Result<T, E>>::empty(),
            final(self).reported() == old(self).reported() + reports_for(
                old(self).source().remaining(),
                old(self).level(),
            ),
    {
        let ghost orig = self.inner.remaining();
        let ghost level = self.log_level;
        let mut out: Vec<T> = Vec::new();
        proof {
            assert(out@ + successes(orig) =~= successes(orig));
        }
        loop
            invariant
                finite_source(self.inner),
                self.log_level == level,
                level == old(self).log_level,
                orig == old(self).source().remaining(),
                successes(orig) == out@ + successes(self.inner.remaining()),
                old(self).reported() + reports_for(orig, level) == self.reported@ + reports_for(
                    self.inner.remaining(),
                    level,
                ),
            decreases self.inner.decrease()->0,
        {
            let ghost before = self.inner.remaining();
            let ghost reported_before = self.reported@;
            let ghost n = leading_failures(before) as int;
            proof {
                lemma_leading_failures(before);
                lemma_only_failures(before.take(n), level);
            }
            match self.next() {
                Some(value) => {
                    proof {
                        let after = before.skip(n + 1);
                        let one = seq![before[n]];
                        assert(before =~= before.take(n) + (one + after));
                        assert(one.drop_last() =~= Seq::<Result<T, E>>::empty());
                        assert(successes(Seq::<Result<T, E>>::empty()) == Seq::<T>::empty());
                        assert(failures(Seq::<Result<T, E>>::empty()) == Seq::<E>::empty());
                        assert(successes(one) =~= seq![value]);
                        assert(failures(one) =~= Seq::<E>::empty());
                        lemma_concat(one, after);
                        lemma_concat(before.take(n), one + after);
                        lemma_reports_concat(one, after, level);
                        lemma_reports_concat(before.take(n), one + after, level);
                        assert(reports_for(one, level) =~= Seq::<(E, Level)>::empty());
                        assert(successes(before) =~= seq![value] + successes(after));
                        assert(reports_for(one + after, level) =~= reports_for(after, level));
                        assert(out@.push(value) + successes(after) =~= out@ + successes(before));
                        assert(reported_before + reports_for(before.take(n), level) + reports_for(after, level)
                            =~= reported_before + reports_for(before, level));
                    }
                    out.push(value);
                },
                None => {
                    proof {
                        assert(before.take(n) =~= before);
                        lemma_only_failures(before, level);
                        assert(out@ + successes(Seq::<Result<T, E>>::empty()) =~= out@);
                        assert(reports_for(Seq::<Result<T, E>>::empty(), level) =~= Seq::<(E, Level)>::empty());
                        assert(self.reported@ + Seq::<(E, Level)>::empty() =~= self.reported@);
                        assert(successes(Seq::<Result<T, E>>::empty()) == Seq::<T>::empty());
                    }
                    return out;
                },
            }
        }
    }
}

/// Extends any iterator over outcomes with adapters that skip the
/// failures and keep the success payloads.
pub trait SkipError<I, T, E>: Sized where I: Iterator<Item = Result<T, E>> {
    /// Skips every failure, reporting none of them.
    fn skip_error(self) -> (r: SkipErrorIter<I, T, E, Silent>)
        ensures
            r.level() == None::<Level>,
            r.reported() == Seq::<(E, Level)>::empty(),
    ;

    /// Skips every failure, reporting each one to `port` at `log_level`.
    fn skip_error_and_log<P: Report<E>>(self, log_level: Level, port: P) -> (r: SkipErrorIter<
        I,
        T,
        E,
        P,
    >)
        ensures
            r.level() == Some(log_level),
            r.reported() == Seq::<(E, Level)>::empty(),
    ;
}

impl<I, T, E> SkipError<I, T, E> for I where I: Iterator<Item = Result<T, E>> {
    fn skip_error(self) -> (r: SkipErrorIter<I, T, E, Silent>)
        ensures
            r.source() == self,
    {
        SkipErrorIter::new(self, None, Silent)
    }

    fn skip_error_and_log<P: Report<E>>(self, log_level: Level, port: P) -> (r: SkipErrorIter<
        I,
        T,
        E,
        P,
    >)
        ensures
            r.source() == self,
    {
        SkipErrorIter::new(self, Some(log_level), port)
    }
}

/// Takes the payload of one outcome, for a caller that runs its own loop:
/// `Some` of the payload on a success; on a failure, reports it to `port`
/// at `log_level`, if one is set, and returns `None`, so that the caller
/// moves on to its next item.
pub fn ok_or_report<T, E, P: Report<E>>(
    outcome: Result<T, E>,
    log_level: Option<Level>,
    port: &mut P,
) -> (r: Option<T>)
    ensures
        r == match outcome {
            Ok(v) => Some(v),
            Err(_) => None::<T>,
        },
{
    match outcome {
        Ok(value) => Some(value),
        Err(error) => {
            if let Some(l) = log_level {
                port.report(&error, l);
            }
            None
        },
    }
}

} // verus!
