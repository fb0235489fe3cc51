//! Any number of streams merged into one.

use vstd::prelude::*;
use vstd::std_specs::iter::IteratorSpec;
use crate::poll::Poll;
use crate::task_set::{resolve, within, TaskSet};

verus! {

/// What the merge does with one answer of its task set: what it returns to
/// its caller, if anything, and the members it holds afterwards.
///
/// `Pending` and `Ready(None)` are passed on. A unit that resolved with an
/// item has its stream registered again, behind the others, and the item is
/// returned. A unit that resolved without an item has ended: its stream is
/// dropped and nothing is returned, so the task set has to be polled again.
pub open spec fn settled<St, T>(streams: Seq<St>, resolved: Poll<Option<(Option<T>, St)>>) -> (
    Option<Poll<Option<T>>>,
    Seq<St>,
) {
    match resolved {
        Poll::Pending => (Some(Poll::Pending), streams),
        Poll::Ready(None) => (Some(Poll::Ready(None)), streams),
        Poll::Ready(Some((Some(item), remaining))) => (
            Some(Poll::Ready(Some(item))),
            streams.push(remaining),
        ),
        Poll::Ready(Some((None, _))) => (None, streams),
    }
}

/// One poll of a merge that holds `streams`, where `behaviour` tells how a
/// member answers a poll and what it is afterwards: the answer to the caller
/// and the members afterwards.
///
/// The task set is polled until it gives something to pass on: members that
/// end are taken out on the way and never reported.
pub open spec fn next<St, T>(
    behaviour: spec_fn(St) -> (Poll<Option<T>>, St),
    streams: Seq<St>,
) -> (Poll<Option<T>>, Seq<St>)
    decreases streams.len(),
{
    let (resolved, rest) = resolve(behaviour, streams);
    match settled(rest, resolved) {
        (Some(answer), after) => (answer, after),
        (None, after) => if after.len() < streams.len() {
            next(behaviour, after)
        } else {
            (Poll::Pending, after)
        },
    }
}

/// An unbounded set of streams, merged into one.
///
/// Streams are pushed into the set and their items are yielded as the
/// streams report them, with no order among the members. A stream that ends
/// leaves the set.
pub struct SelectAll<St> {
    inner: TaskSet<St>,
}

impl<St> SelectAll<St> {
    /// The member streams, in the order in which they are polled.
    pub closed spec fn view(&self) -> Seq<St> {
        self.inner@
    }

    /// The merge has reported its end, and no stream was pushed since.
    pub closed spec fn terminated(&self) -> bool {
        self.inner.terminated()
    }

    /// A terminated merge holds no stream.
    pub proof fn lemma_terminated_is_empty(&self)
        ensures
            self.terminated() ==> self@.len() == 0,
    {
        self.inner.lemma_terminated_is_empty();
    }

    /// A merge of no streams. Polled in this state it reports `Ready(None)`.
    pub fn new() -> (set: Self)
        ensures
            set@ == Seq::<St>::empty(),
            !set.terminated(),
    {
        SelectAll { inner: TaskSet::new() }
    }

    /// The number of streams in the set.
    pub fn len(&self) -> (n: usize)
        ensures
            n == self@.len(),
    {
        self.inner.len()
    }

    /// Whether the set holds no stream.
    pub fn is_empty(&self) -> (b: bool)
        ensures
            b == (self@.len() == 0),
    {
        self.inner.is_empty()
    }

    /// Whether the merge has reported its end, and no stream was pushed
    /// since.
    pub fn is_terminated(&self) -> (b: bool)
        ensures
            b == self.terminated(),
            b ==> self@.len() == 0,
    {
        self.inner.is_terminated()
    }

    /// Pushes a stream into the set, behind the streams that are already in
    /// it. The stream is not polled.
    pub fn push(&mut self, stream: St)
        ensures
            final(self)@ == old(self)@.push(stream),
            !final(self).terminated(),
    {
        self.inner.push(stream);
    }

    /// The streams in the set, for inspection.
    pub fn iter(&self) -> (streams: &[St])
        ensures
            streams@ == self@,
    {
        self.inner.iter()
    }

    /// The streams in the set, for inspection.
    pub fn iter_pin_ref(&self) -> (streams: &[St])
        ensures
            streams@ == self@,
    {
        self.inner.iter()
    }

    /// The streams in the set, for change in place. What is written through
    /// the slice is what the set holds afterwards, and what later polls see;
    /// a terminated merge stays terminated, as it stays empty.
    pub fn iter_mut(&mut self) -> (streams: &mut [St])
        ensures
            streams@ == old(self)@,
            final(self)@ == final(streams)@,
            final(self).terminated() == (old(self).terminated() && final(self)@.len() == 0),
    {
        self.inner.iter_mut()
    }

    /// The streams in the set, for change in place. What is written through
    /// the slice is what the set holds afterwards, and what later polls see;
    /// a terminated merge stays terminated, as it stays empty.
    pub fn iter_pin_mut(&mut self) -> (streams: &mut [St])
        ensures
            streams@ == old(self)@,
            final(self)@ == final(streams)@,
            final(self).terminated() == (old(self).terminated() && final(self)@.len() == 0),
    {
        self.inner.iter_mut()
    }

    /// Polls the merge for its next item.
    ///
    /// `poll` is called on member streams only. The task set is polled until
    /// it gives something to pass on:
    /// - `Ready(Some(item))`: a member answered with `item`. It is registered
    ///   again, as `poll` left it, behind all the others.
    /// - `Pending`: every member that is left answered `Pending`.
    /// - `Ready(None)`: no member is left. A merge of no streams answers so at
    ///   once, and goes on answering so until a stream is pushed.
    ///
    /// Members that ended on the way have left the set, and none of them is
    /// ever reported to the caller: where `poll` can answer nothing but
    /// `Ready(None)`, so does the merge.
    ///
    /// Where `poll` always gives the same answer on the same stream,
    /// described by some `behaviour`, the result and the set afterwards are
    /// exactly [`next`] of that behaviour.
    pub fn poll_next<T, F>(&mut self, poll: F) -> (r: Poll<Option<T>>) where
        F: FnMut(&mut St) -> Poll<Option<T>>,

        requires
            forall|s: &mut St| call_requires(poll, (s,)),
        ensures
            old(self)@.len() == 0 ==> r == Poll::<Option<T>>::Ready(None),
            (final(self)@.len() == 0) == (r == Poll::<Option<T>>::Ready(None)),
            final(self).terminated() == (r == Poll::<Option<T>>::Ready(None)),
            final(self)@.len() <= old(self)@.len(),
            r matches Poll::Ready(Some(item)) ==> exists|s: &mut St|
                #![trigger call_ensures(poll, (s,), Poll::Ready(Some(item)))]
                *final(s) == final(self)@.last() && call_ensures(
                    poll,
                    (s,),
                    Poll::Ready(Some(item)),
                ),
            r is Pending ==> forall|j: int| #[trigger]
                within(j, final(self)@.len() as int) ==> exists|s: &mut St|
                    #![trigger call_ensures(poll, (s,), Poll::<Option<T>>::Pending)]
                    *final(s) == final(self)@[j] && call_ensures(
                        poll,
                        (s,),
                        Poll::<Option<T>>::Pending,
                    ),
            (forall|s: &mut St, answer: Poll<Option<T>>| #[trigger]
                call_ensures(poll, (s,), answer) ==> answer == Poll::<Option<T>>::Ready(None))
                ==> r == Poll::<Option<T>>::Ready(None),
            forall|behaviour: spec_fn(St) -> (Poll<Option<T>>, St)|
                (forall|s: &mut St, answer: Poll<Option<T>>| #[trigger]
                    call_ensures(poll, (s,), answer) ==> behaviour(*s) == (answer, *final(s)))
                    ==> (r, final(self)@) == #[trigger] next(behaviour, old(self)@),
    {
        let mut ask = poll;
        loop
            invariant
                ask == poll,
                forall|s: &mut St| call_requires(poll, (s,)),
                self@.len() <= old(self)@.len(),
                forall|behaviour: spec_fn(St) -> (Poll<Option<T>>, St)|
                    (forall|s: &mut St, answer: Poll<Option<T>>| #[trigger]
                        call_ensures(poll, (s,), answer) ==> behaviour(*s) == (answer, *final(s)))
                        ==> #[trigger] next(behaviour, old(self)@) == next(behaviour, self@),
            decreases self@.len(),
        {
            let ghost before = self@;
            let resolved = self.inner.poll_next(&mut ask);
            let ghost rest = self@;
            proof {
                if resolved is Pending {
                    assert(within(0, before.len() as int));
                }
                assert forall|behaviour: spec_fn(St) -> (Poll<Option<T>>, St)|
                    (forall|s: &mut St, answer: Poll<Option<T>>| #[trigger]
                        call_ensures(poll, (s,), answer) ==> behaviour(*s) == (
                            answer,
                            *final(s),
                        )) implies #[trigger] next(behaviour, old(self)@) == (
                    match settled(rest, resolved) {
                        (Some(answer), after) => (answer, after),
                        (None, after) => next(behaviour, after),
                    }
                ) by {
                    assert(next(behaviour, old(self)@) == next(behaviour, before));
                    assert((resolved, rest) == resolve(behaviour, before));
                }
            }
            match self.settle(resolved) {
                Some(answer) => {
                    return answer;
                },
                None => {},
            }
        }
    }

    /// Pushes every stream that `streams` yields, in the order in which it
    /// yields them. None of them is polled.
    pub fn extend<I: Iterator<Item = St>>(&mut self, streams: I)
        requires
            streams.obeys_prophetic_iter_laws(),
            streams.decrease() is Some,
        ensures
            final(self)@ == old(self)@ + streams.remaining(),
            streams.remaining().len() > 0 ==> !final(self).terminated(),
            streams.remaining().len() == 0 ==> final(self).terminated() == old(self).terminated(),
    {
        let mut rest = streams;
        loop
            invariant
                rest.obeys_prophetic_iter_laws(),
                rest.decrease() is Some,
                self@ + rest.remaining() == old(self)@ + streams.remaining(),
                self@.len() > old(self)@.len() ==> !self.terminated(),
                self@.len() == old(self)@.len() ==> self.terminated() == old(self).terminated(),
                self@.len() >= old(self)@.len(),
            decreases rest.decrease()->0,
        {
            let ghost pushed = self@;
            let ghost left = rest.remaining();
            match rest.next() {
                Some(stream) => {
                    self.push(stream);
                    assert(self@ + rest.remaining() =~= pushed + left);
                },
                None => {
                    assert(self@ + rest.remaining() =~= self@);
                    return ;
                },
            }
        }
    }

    /// The merge of the streams that `streams` yields, pushed in the order in
    /// which it yields them.
    pub fn from_iter<I: Iterator<Item = St>>(streams: I) -> (set: Self)
        requires
            streams.obeys_prophetic_iter_laws(),
            streams.decrease() is Some,
        ensures
            set@ == streams.remaining(),
            !set.terminated(),
    {
        select_all(streams)
    }

    /// Takes one answer of the task set and says what to return to the
    /// caller: `Some(answer)`, or `None` where the task set has to be polled
    /// again. See [`settled`].
    pub fn settle<T>(&mut self, resolved: Poll<Option<(Option<T>, St)>>) -> (step: Option<
        Poll<Option<T>>,
    >)
        ensures
            (step, final(self)@) == settled(old(self)@, resolved),
            final(self).terminated() == (old(self).terminated() && !(resolved matches Poll::Ready(
                Some((Some(_), _)),
            ))),
    {
        match resolved {
            Poll::Pending => Some(Poll::Pending),
            Poll::Ready(None) => Some(Poll::Ready(None)),
            Poll::Ready(Some((Some(item), remaining))) => {
                self.push(remaining);
                Some(Poll::Ready(Some(item)))
            },
            Poll::Ready(Some((None, _))) => None,
        }
    }
}

impl<St> Default for SelectAll<St> {
    /// A merge of no streams, as [`SelectAll::new`] gives it.
    fn default() -> (set: Self)
        ensures
            set@ == Seq::<St>::empty(),
            !set.terminated(),
    {
        SelectAll::new()
    }
}

impl<St> IntoIterator for SelectAll<St> {
    type Item = St;

    type IntoIter = std::vec::IntoIter<St>;

    /// Gives up the merge for the streams that are still in it, in the order
    /// in which they would have been polled.
    fn into_iter(self) -> (streams: std::vec::IntoIter<St>)
        ensures
            streams.remaining() == self@,
    {
        self.inner.into_vec().into_iter()
    }
}

/// Merges the streams that `streams` yields into one.
///
/// The streams are pushed in the order in which `streams` yields them, and
/// none is polled. More streams can be pushed into the merge later.
pub fn select_all<St, I: Iterator<Item = St>>(streams: I) -> (set: SelectAll<St>)
    requires
        streams.obeys_prophetic_iter_laws(),
        streams.decrease() is Some,
    ensures
        set@ == streams.remaining(),
        !set.terminated(),
{
    let mut set = SelectAll::new();
    set.extend(streams);
    assert(Seq::<St>::empty() + streams.remaining() =~= streams.remaining());
    set
}

} // verus!
