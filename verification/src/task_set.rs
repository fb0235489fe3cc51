//! An unordered set of pending units.
//!
//! A unit is a member stream waiting for its head. Polling the set asks the
//! units in turn; the first one that answers is taken out of the set and
//! handed back together with its answer.

use vstd::prelude::*;
use crate::poll::Poll;

verus! {

/// `j` is an index below `n`.
pub open spec fn within(j: int, n: int) -> bool {
    0 <= j < n
}

/// Scans `units` from index `from` on, where `behaviour` tells how a unit
/// answers a poll and what it is afterwards.
///
/// A unit that answers `Pending` stays in place, changed as the poll left it.
/// The first unit that answers `Ready(head)` leaves the set and is returned
/// with its head. If none does, the scan reports `Pending`.
pub open spec fn scan<St, T>(
    behaviour: spec_fn(St) -> (Poll<Option<T>>, St),
    units: Seq<St>,
    from: int,
) -> (Poll<Option<(Option<T>, St)>>, Seq<St>)
    decreases units.len() - from,
{
    if from < 0 || from >= units.len() {
        (Poll::Pending, units)
    } else {
        let (answer, after) = behaviour(units[from]);
        match answer {
            Poll::Pending => scan(behaviour, units.update(from, after), from + 1),
            Poll::Ready(head) => (Poll::Ready(Some((head, after))), units.remove(from)),
        }
    }
}

/// One poll of a set that holds `units`: the empty set reports `Ready(None)`,
/// any other set is scanned from its first unit.
pub open spec fn resolve<St, T>(
    behaviour: spec_fn(St) -> (Poll<Option<T>>, St),
    units: Seq<St>,
) -> (Poll<Option<(Option<T>, St)>>, Seq<St>) {
    if units.len() == 0 {
        (Poll::Ready(None), units)
    } else {
        scan(behaviour, units, 0)
    }
}

/// The set of pending units, in the order in which they are asked.
pub struct TaskSet<St> {
    units: Vec<St>,
    drained: bool,
}

impl<St> TaskSet<St> {
    /// The pending units, first asked first.
    pub closed spec fn view(&self) -> Seq<St> {
        self.units@
    }

    /// The set has reported that it is empty, and nothing was pushed since.
    pub closed spec fn terminated(&self) -> bool {
        self.drained && self.units@.len() == 0
    }

    /// A terminated set holds no unit.
    pub proof fn lemma_terminated_is_empty(&self)
        ensures
            self.terminated() ==> self@.len() == 0,
    {
    }

    /// An empty set that has not been polled yet.
    pub fn new() -> (set: Self)
        ensures
            set@ == Seq::<St>::empty(),
            !set.terminated(),
    {
        TaskSet { units: Vec::new(), drained: false }
    }

    /// The number of pending units.
    pub fn len(&self) -> (n: usize)
        ensures
            n == self@.len(),
    {
        self.units.len()
    }

    /// Whether no unit is pending.
    pub fn is_empty(&self) -> (b: bool)
        ensures
            b == (self@.len() == 0),
    {
        self.units.len() == 0
    }

    /// Whether the set has reported that it is empty, and nothing was pushed
    /// since.
    pub fn is_terminated(&self) -> (b: bool)
        ensures
            b == self.terminated(),
            b ==> self@.len() == 0,
    {
        self.drained && self.units.len() == 0
    }

    /// Registers `unit` behind the units that are already pending. The unit is
    /// not polled.
    pub fn push(&mut self, unit: St)
        ensures
            final(self)@ == old(self)@.push(unit),
            !final(self).terminated(),
    {
        self.drained = false;
        self.units.push(unit);
    }

    /// Polls the set for the next unit that answers.
    ///
    /// `poll` is called on the pending units in order, each at most once, and
    /// on nothing else. An empty set reports `Ready(None)` without calling it.
    /// Otherwise the units that answer `Pending` stay where they are, and the
    /// first unit that answers `Ready(head)` leaves the set: the result is
    /// `Ready(Some((head, unit)))`, with the unit as `poll` left it, and the
    /// units behind it have not been polled. If every unit answered
    /// `Pending`, so does the set.
    ///
    /// Where `poll` always gives the same answer on the same unit, described
    /// by some `behaviour`, the result and the set afterwards are exactly
    /// [`resolve`] of that behaviour.
    pub fn poll_next<T, F>(&mut self, poll: &mut F) -> (r: Poll<Option<(Option<T>, St)>>) where
        F: FnMut(&mut St) -> Poll<Option<T>>,

        requires
            forall|s: &mut St| call_requires(*old(poll), (s,)),
        ensures
            *final(poll) == *old(poll),
            (old(self)@.len() == 0) == (r == Poll::<Option<(Option<T>, St)>>::Ready(None)),
            final(self).terminated() == (old(self)@.len() == 0),
            r == Poll::<Option<(Option<T>, St)>>::Ready(None) ==> final(self)@ == old(self)@,
            r is Pending ==> final(self)@.len() == old(self)@.len(),
            r is Pending ==> forall|j: int| #[trigger]
                within(j, old(self)@.len() as int) ==> exists|s: &mut St|
                    #![trigger call_ensures(*old(poll), (s,), Poll::<Option<T>>::Pending)]
                    *s == old(self)@[j] && *final(s) == final(self)@[j] && call_ensures(
                        *old(poll),
                        (s,),
                        Poll::<Option<T>>::Pending,
                    ),
            r matches Poll::Ready(Some((head, unit))) ==> exists|k: int|
                #![trigger old(self)@[k]]
                ({
                    &&& within(k, old(self)@.len() as int)
                    &&& final(self)@.len() == old(self)@.len() - 1
                    &&& forall|j: int| #[trigger]
                        within(j, k) ==> exists|s: &mut St|
                            #![trigger call_ensures(*old(poll), (s,), Poll::<Option<T>>::Pending)]
                            *s == old(self)@[j] && *final(s) == final(self)@[j] && call_ensures(
                                *old(poll),
                                (s,),
                                Poll::<Option<T>>::Pending,
                            )
                    &&& forall|j: int|
                        #![trigger final(self)@[j]]
                        k <= j < final(self)@.len() ==> final(self)@[j] == old(self)@[j + 1]
                    &&& exists|s: &mut St|
                        #![trigger call_ensures(*old(poll), (s,), Poll::Ready(head))]
                        *s == old(self)@[k] && *final(s) == unit && call_ensures(
                            *old(poll),
                            (s,),
                            Poll::Ready(head),
                        )
                }),
            forall|behaviour: spec_fn(St) -> (Poll<Option<T>>, St)|
                (forall|s: &mut St, answer: Poll<Option<T>>| #[trigger]
                    call_ensures(*old(poll), (s,), answer) ==> behaviour(*s) == (answer, *final(s)))
                    ==> (r, final(self)@) == #[trigger] resolve(behaviour, old(self)@),
    {
        self.drained = self.units.len() == 0;
        if self.units.len() == 0 {
            return Poll::Ready(None);
        }
        let mut i: usize = 0;
        while i < self.units.len()
            invariant
                *poll == *old(poll),
                forall|s: &mut St| call_requires(*old(poll), (s,)),
                i <= self.units@.len() == old(self)@.len(),
                !self.drained,
                forall|j: int| #[trigger]
                    within(j, i as int) ==> exists|s: &mut St|
                        #![trigger call_ensures(*old(poll), (s,), Poll::<Option<T>>::Pending)]
                        *s == old(self)@[j] && *final(s) == self.units@[j] && call_ensures(
                            *old(poll),
                            (s,),
                            Poll::<Option<T>>::Pending,
                        ),
                forall|j: int|
                    #![trigger self.units@[j]]
                    i <= j < self.units@.len() ==> self.units@[j] == old(self)@[j],
                forall|behaviour: spec_fn(St) -> (Poll<Option<T>>, St)|
                    (forall|s: &mut St, answer: Poll<Option<T>>| #[trigger]
                        call_ensures(*old(poll), (s,), answer) ==> behaviour(*s) == (answer, *final(s)))
                        ==> #[trigger] scan(behaviour, old(self)@, 0) == scan(
                        behaviour,
                        self.units@,
                        i as int,
                    ),
            decreases self.units.len() - i,
        {
            let ghost before = self.units@;
            let answer = poll(&mut self.units[i]);
            match answer {
                Poll::Pending => {
                    proof {
                        assert(self.units@ =~= before.update(i as int, self.units@[i as int]));
                        assert forall|j: int| #[trigger] within(j, i + 1) implies exists|
                            s: &mut St,
                        |
                            #![trigger call_ensures(*old(poll), (s,), Poll::<Option<T>>::Pending)]
                            *s == old(self)@[j] && *final(s) == self.units@[j] && call_ensures(
                                *old(poll),
                                (s,),
                                Poll::<Option<T>>::Pending,
                            ) by {
                            if j < i {
                                assert(within(j, i as int));
                                assert(self.units@[j] == before[j]);
                            }
                        }
                    }
                    i = i + 1;
                },
                Poll::Ready(head) => {
                    let unit = self.units.remove(i);
                    proof {
                        assert(self.units@ =~= before.remove(i as int));
                        assert forall|behaviour: spec_fn(St) -> (Poll<Option<T>>, St)|
                            (forall|s: &mut St, answer: Poll<Option<T>>| #[trigger]
                                call_ensures(*old(poll), (s,), answer) ==> behaviour(*s) == (
                                    answer,
                                    *final(s),
                                )) implies (Poll::Ready(Some((head, unit))), self.units@)
                            == #[trigger] resolve(behaviour, old(self)@) by {
                            assert(scan(behaviour, old(self)@, 0) == scan(
                                behaviour,
                                before,
                                i as int,
                            ));
                            assert(behaviour(before[i as int]) == (answer, unit));
                        }
                        assert(old(self)@[i as int] == before[i as int]);
                        assert forall|j: int| #[trigger] within(j, i as int) implies exists|
                            s: &mut St,
                        |
                            #![trigger call_ensures(*old(poll), (s,), Poll::<Option<T>>::Pending)]
                            *s == old(self)@[j] && *final(s) == self.units@[j] && call_ensures(
                                *old(poll),
                                (s,),
                                Poll::<Option<T>>::Pending,
                            ) by {
                            assert(self.units@[j] == before[j]);
                        }
                    }
                    return Poll::Ready(Some((head, unit)));
                },
            }
        }
        proof {
            assert forall|behaviour: spec_fn(St) -> (Poll<Option<T>>, St)|
                (forall|s: &mut St, answer: Poll<Option<T>>| #[trigger]
                    call_ensures(*old(poll), (s,), answer) ==> behaviour(*s) == (
                        answer,
                        *final(s),
                    )) implies (Poll::<Option<(Option<T>, St)>>::Pending, self.units@)
                == #[trigger] resolve(behaviour, old(self)@) by {
                assert(scan(behaviour, old(self)@, 0) == scan(behaviour, self.units@, i as int));
            }
        }
        Poll::Pending
    }

    /// The pending units, for inspection.
    pub fn iter(&self) -> (units: &[St])
        ensures
            units@ == self@,
    {
        self.units.as_slice()
    }

    /// The pending units, for change in place. What is written through the
    /// slice is what the set holds afterwards; a terminated set stays
    /// terminated, as it stays empty.
    pub fn iter_mut(&mut self) -> (units: &mut [St])
        ensures
            units@ == old(self)@,
            final(self)@ == final(units)@,
            final(self).terminated() == (old(self).terminated() && final(self)@.len() == 0),
    {
        // Only an empty set is terminated.
        self.drained = self.drained && self.units.len() == 0;
        self.units.as_mut_slice()
    }

    /// Gives up the set for its pending units.
    pub fn into_vec(self) -> (units: Vec<St>)
        ensures
            units@ == self@,
    {
        self.units
    }
}

} // verus!
