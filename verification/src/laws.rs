//! What holds of whole runs of a merge.
//!
//! The laws speak of [`next`], the poll of a merge whose members answer as
//! some `behaviour` says. [`SelectAll::poll_next`](crate::SelectAll::poll_next)
//! is exactly `next` for every polling function that such a behaviour
//! describes.

use vstd::prelude::*;
use vstd::multiset::Multiset;
use vstd::seq_lib::lemma_multiset_commutative;
use crate::poll::Poll;
use crate::merge::{next, settled};
use crate::task_set::{resolve, scan};

verus! {

/// `items` tells for every stream what it still has to give: where the
/// stream answers `Pending`, as much as before; where it answers with an
/// item, that item first and then what the stream has left; where it answers
/// that it has ended, nothing.
pub open spec fn faithful<St, T>(
    behaviour: spec_fn(St) -> (Poll<Option<T>>, St),
    items: spec_fn(St) -> Seq<T>,
) -> bool {
    forall|stream: St|
        match #[trigger] behaviour(stream) {
            (Poll::Pending, after) => items(after) == items(stream),
            (Poll::Ready(Some(item)), after) => items(stream) == seq![item] + items(after),
            (Poll::Ready(None), _) => items(stream) == Seq::<T>::empty(),
        }
}

/// All that the members of `streams` still have to give, as a multiset.
pub open spec fn pending<St, T>(items: spec_fn(St) -> Seq<T>, streams: Seq<St>) -> Multiset<T>
    decreases streams.len(),
{
    if streams.len() == 0 {
        Multiset::empty()
    } else {
        pending(items, streams.drop_last()).add(items(streams.last()).to_multiset())
    }
}

/// The item that an answer carries, if any, as a sequence.
pub open spec fn carried<T>(answer: Poll<Option<T>>) -> Seq<T> {
    match answer {
        Poll::Ready(Some(item)) => seq![item],
        _ => Seq::empty(),
    }
}

/// The items that `polls` polls in a row yield, in the order in which they
/// are returned, and the members that are left after the last of them.
pub open spec fn drain<St, T>(
    behaviour: spec_fn(St) -> (Poll<Option<T>>, St),
    streams: Seq<St>,
    polls: nat,
) -> (Seq<T>, Seq<St>)
    decreases polls,
{
    if polls == 0 {
        (Seq::empty(), streams)
    } else {
        let (answer, after) = next(behaviour, streams);
        let (later, end) = drain(behaviour, after, (polls - 1) as nat);
        (carried(answer) + later, end)
    }
}

/// A scan never reports the end of the set, leaves as many units as there
/// were where it reports `Pending`, and one less where a unit answered.
pub proof fn lemma_scan_len<St, T>(
    behaviour: spec_fn(St) -> (Poll<Option<T>>, St),
    units: Seq<St>,
    from: int,
)
    requires
        0 <= from <= units.len(),
    ensures
        scan(behaviour, units, from).0 is Pending ==> scan(behaviour, units, from).1.len()
            == units.len(),
        scan(behaviour, units, from).0 is Ready ==> scan(behaviour, units, from).0->Ready_0 is Some
            && scan(behaviour, units, from).1.len() == units.len() - 1,
    decreases units.len() - from,
{
    if from < units.len() {
        let (answer, after) = behaviour(units[from]);
        if answer is Pending {
            lemma_scan_len(behaviour, units.update(from, after), from + 1);
        }
    }
}

/// A poll never adds a member, and it answers `Ready(None)` exactly where it
/// leaves no member.
pub proof fn lemma_next_len<St, T>(
    behaviour: spec_fn(St) -> (Poll<Option<T>>, St),
    streams: Seq<St>,
)
    ensures
        next(behaviour, streams).1.len() <= streams.len(),
        (next(behaviour, streams).1.len() == 0) == (next(behaviour, streams).0 == Poll::<
            Option<T>,
        >::Ready(None)),
    decreases streams.len(),
{
    if streams.len() > 0 {
        lemma_scan_len(behaviour, streams, 0);
        let (resolved, rest) = resolve(behaviour, streams);
        if settled(rest, resolved).0 is None {
            lemma_next_len(behaviour, rest);
        }
    }
}

/// A merge of no streams answers `Ready(None)` to the first poll and to
/// every poll after it: however many polls went before, it still holds no
/// stream and the next poll answers `Ready(None)`.
pub proof fn lemma_empty_stays_ended<St, T>(
    behaviour: spec_fn(St) -> (Poll<Option<T>>, St),
    polls: nat,
)
    ensures
        drain(behaviour, Seq::<St>::empty(), polls) == (Seq::<T>::empty(), Seq::<St>::empty()),
        next(behaviour, drain(behaviour, Seq::<St>::empty(), polls).1) == (
            Poll::<Option<T>>::Ready(None),
            Seq::<St>::empty(),
        ),
    decreases polls,
{
    if polls > 0 {
        lemma_empty_stays_ended(behaviour, (polls - 1) as nat);
        assert(carried(Poll::<Option<T>>::Ready(None)) + Seq::<T>::empty() =~= Seq::<T>::empty());
    }
}

/// Where every member answers that it has ended, the poll answers
/// `Ready(None)` and no member is left: none of the ends is reported.
pub proof fn lemma_all_ended<St, T>(
    behaviour: spec_fn(St) -> (Poll<Option<T>>, St),
    streams: Seq<St>,
)
    requires
        forall|i: int|
            0 <= i < streams.len() ==> (#[trigger] behaviour(streams[i])).0 == Poll::<
                Option<T>,
            >::Ready(None),
    ensures
        next(behaviour, streams) == (Poll::<Option<T>>::Ready(None), Seq::<St>::empty()),
    decreases streams.len(),
{
    if streams.len() > 0 {
        let rest = streams.remove(0);
        assert(behaviour(streams[0]).0 == Poll::<Option<T>>::Ready(None));
        assert forall|i: int| 0 <= i < rest.len() implies (#[trigger] behaviour(rest[i])).0
            == Poll::<Option<T>>::Ready(None) by {
            assert(rest[i] == streams[i + 1]);
        }
        lemma_all_ended(behaviour, rest);
    } else {
        assert(streams =~= Seq::<St>::empty());
    }
}

/// A stream that is pushed adds what it has to give.
pub proof fn lemma_pending_push<St, T>(items: spec_fn(St) -> Seq<T>, streams: Seq<St>, stream: St)
    ensures
        pending(items, streams.push(stream)) == pending(items, streams).add(
            items(stream).to_multiset(),
        ),
{
    assert(streams.push(stream).drop_last() =~= streams);
}

/// A member that is replaced by one with as much to give changes nothing.
proof fn lemma_pending_update<St, T>(
    items: spec_fn(St) -> Seq<T>,
    streams: Seq<St>,
    i: int,
    stream: St,
)
    requires
        0 <= i < streams.len(),
        items(stream) == items(streams[i]),
    ensures
        pending(items, streams.update(i, stream)) == pending(items, streams),
    decreases streams.len(),
{
    let updated = streams.update(i, stream);
    if i == streams.len() - 1 {
        assert(updated.drop_last() =~= streams.drop_last());
    } else {
        lemma_pending_update(items, streams.drop_last(), i, stream);
        assert(updated.drop_last() =~= streams.drop_last().update(i, stream));
    }
}

/// A member that leaves takes with it what it had to give.
proof fn lemma_pending_remove<St, T>(items: spec_fn(St) -> Seq<T>, streams: Seq<St>, i: int)
    requires
        0 <= i < streams.len(),
    ensures
        pending(items, streams) =~= pending(items, streams.remove(i)).add(
            items(streams[i]).to_multiset(),
        ),
    decreases streams.len(),
{
    let removed = streams.remove(i);
    if i == streams.len() - 1 {
        assert(removed =~= streams.drop_last());
    } else {
        lemma_pending_remove(items, streams.drop_last(), i);
        assert(removed.drop_last() =~= streams.drop_last().remove(i));
        assert(removed.last() == streams.last());
    }
}

/// A sequence that starts with `item` holds `item` once more than its rest.
proof fn lemma_cons_to_multiset<T>(item: T, rest: Seq<T>)
    ensures
        (seq![item] + rest).to_multiset() =~= rest.to_multiset().insert(item),
{
    broadcast use vstd::seq_lib::group_to_multiset_ensures;

    lemma_multiset_commutative(seq![item], rest);
    assert(seq![item] =~= Seq::<T>::empty().push(item));
    assert(Seq::<T>::empty().to_multiset() =~= Multiset::<T>::empty());
}

/// A scan keeps what the units have to give: a unit that answers with an
/// item takes with it that item and what it has left, and a unit that
/// answers that it has ended takes nothing.
proof fn lemma_scan_conserves<St, T>(
    behaviour: spec_fn(St) -> (Poll<Option<T>>, St),
    items: spec_fn(St) -> Seq<T>,
    units: Seq<St>,
    from: int,
)
    requires
        faithful(behaviour, items),
        0 <= from <= units.len(),
    ensures
        scan(behaviour, units, from).0 is Pending ==> pending(
            items,
            scan(behaviour, units, from).1,
        ) == pending(items, units),
        scan(behaviour, units, from).0 matches Poll::Ready(Some((Some(item), unit)))
            ==> pending(items, units) =~= pending(items, scan(behaviour, units, from).1).add(
            (seq![item] + items(unit)).to_multiset(),
        ),
        scan(behaviour, units, from).0 matches Poll::Ready(Some((None, _))) ==> pending(
            items,
            units,
        ) =~= pending(items, scan(behaviour, units, from).1),
    decreases units.len() - from,
{
    broadcast use vstd::seq_lib::group_to_multiset_ensures;

    if from < units.len() {
        let (answer, after) = behaviour(units[from]);
        match answer {
            Poll::Pending => {
                lemma_pending_update(items, units, from, after);
                lemma_scan_conserves(behaviour, items, units.update(from, after), from + 1);
            },
            Poll::Ready(head) => {
                lemma_pending_remove(items, units, from);
                assert(Seq::<T>::empty().to_multiset() =~= Multiset::<T>::empty());
            },
        }
    }
}

/// One poll neither drops an item nor makes one up: what the members had to
/// give before is what the poll returns together with what the members have
/// to give after it.
pub proof fn lemma_next_conserves<St, T>(
    behaviour: spec_fn(St) -> (Poll<Option<T>>, St),
    items: spec_fn(St) -> Seq<T>,
    streams: Seq<St>,
)
    requires
        faithful(behaviour, items),
    ensures
        pending(items, streams) =~= carried(next(behaviour, streams).0).to_multiset().add(
            pending(items, next(behaviour, streams).1),
        ),
    decreases streams.len(),
{
    broadcast use vstd::seq_lib::group_to_multiset_ensures;

    assert(Seq::<T>::empty().to_multiset() =~= Multiset::<T>::empty());
    if streams.len() > 0 {
        lemma_scan_len(behaviour, streams, 0);
        lemma_scan_conserves(behaviour, items, streams, 0);
        let (resolved, rest) = resolve(behaviour, streams);
        match resolved {
            Poll::Ready(Some((Some(item), remaining))) => {
                lemma_pending_push(items, rest, remaining);
                lemma_cons_to_multiset(item, items(remaining));
                assert(seq![item].to_multiset() =~= Multiset::<T>::empty().insert(item)) by {
                    assert(seq![item] =~= Seq::<T>::empty().push(item));
                }
            },
            Poll::Ready(Some((None, _))) => {
                lemma_next_conserves(behaviour, items, rest);
            },
            _ => {},
        }
    }
}

/// No item is duplicated or dropped: after any number of polls, the items
/// returned so far together with what the members still have to give are
/// what the members had to give at the start. Once no member is left, the
/// items returned are exactly those that the members had to give.
pub proof fn lemma_drain_conserves<St, T>(
    behaviour: spec_fn(St) -> (Poll<Option<T>>, St),
    items: spec_fn(St) -> Seq<T>,
    streams: Seq<St>,
    polls: nat,
)
    requires
        faithful(behaviour, items),
    ensures
        pending(items, streams) =~= drain(behaviour, streams, polls).0.to_multiset().add(
            pending(items, drain(behaviour, streams, polls).1),
        ),
        drain(behaviour, streams, polls).1.len() == 0 ==> drain(
            behaviour,
            streams,
            polls,
        ).0.to_multiset() =~= pending(items, streams),
    decreases polls,
{
    broadcast use vstd::seq_lib::group_to_multiset_ensures;

    assert(Seq::<T>::empty().to_multiset() =~= Multiset::<T>::empty());
    if polls > 0 {
        let (answer, after) = next(behaviour, streams);
        let (later, end) = drain(behaviour, after, (polls - 1) as nat);
        lemma_next_conserves(behaviour, items, streams);
        lemma_drain_conserves(behaviour, items, after, (polls - 1) as nat);
        lemma_multiset_commutative(carried(answer), later);
    }
}

/// `key` names the streams, and a stream keeps its name when it is polled.
pub open spec fn keeps_key<St, T>(
    behaviour: spec_fn(St) -> (Poll<Option<T>>, St),
    key: spec_fn(St) -> int,
) -> bool {
    forall|stream: St| key((#[trigger] behaviour(stream)).1) == key(stream)
}

/// No two members of `streams` have the same name.
pub open spec fn distinct_keys<St>(key: spec_fn(St) -> int, streams: Seq<St>) -> bool {
    forall|i: int, j: int|
        0 <= i < j < streams.len() ==> key(#[trigger] streams[i]) != key(#[trigger] streams[j])
}

/// Some member of `streams` has the name `k`.
pub open spec fn names<St>(key: spec_fn(St) -> int, streams: Seq<St>, k: int) -> bool {
    exists|i: int| 0 <= i < streams.len() && key(#[trigger] streams[i]) == k
}

/// What the member named `k` still has to give, in its own order; nothing
/// where no member has that name.
pub open spec fn share<St, T>(
    items: spec_fn(St) -> Seq<T>,
    key: spec_fn(St) -> int,
    streams: Seq<St>,
    k: int,
) -> Seq<T> {
    if names(key, streams, k) {
        items(streams[choose|i: int| 0 <= i < streams.len() && key(#[trigger] streams[i]) == k])
    } else {
        Seq::empty()
    }
}

/// The item that a poll returned, if it came from the member named `k`. The
/// member that gave an item is the one that was registered again, last.
pub open spec fn carried_from<St, T>(
    key: spec_fn(St) -> int,
    k: int,
    step: (Poll<Option<T>>, Seq<St>),
) -> Seq<T> {
    if step.0 is Ready && step.0->Ready_0 is Some && step.1.len() > 0 && key(step.1.last()) == k {
        carried(step.0)
    } else {
        Seq::empty()
    }
}

/// Of the items that `polls` polls in a row yield, those that came from the
/// member named `k`, in the order in which they are returned.
pub open spec fn drain_of<St, T>(
    behaviour: spec_fn(St) -> (Poll<Option<T>>, St),
    key: spec_fn(St) -> int,
    k: int,
    streams: Seq<St>,
    polls: nat,
) -> Seq<T>
    decreases polls,
{
    if polls == 0 {
        Seq::empty()
    } else {
        let step = next(behaviour, streams);
        carried_from(key, k, step) + drain_of(behaviour, key, k, step.1, (polls - 1) as nat)
    }
}

/// Among members with distinct names, the share of a name is what the member
/// of that name has to give.
proof fn lemma_share_at<St, T>(
    items: spec_fn(St) -> Seq<T>,
    key: spec_fn(St) -> int,
    streams: Seq<St>,
    i: int,
)
    requires
        distinct_keys(key, streams),
        0 <= i < streams.len(),
    ensures
        names(key, streams, key(streams[i])),
        share(items, key, streams, key(streams[i])) == items(streams[i]),
{
    let k = key(streams[i]);
    let c = choose|c: int| 0 <= c < streams.len() && key(#[trigger] streams[c]) == k;
    if c < i {
        assert(key(streams[c]) != key(streams[i]));
    } else if i < c {
        assert(key(streams[i]) != key(streams[c]));
    }
}

/// A scan tells the members apart: what it takes, it takes from the share of
/// the unit that answered, first item first, and every other share is as it
/// was.
proof fn lemma_scan_shares<St, T>(
    behaviour: spec_fn(St) -> (Poll<Option<T>>, St),
    items: spec_fn(St) -> Seq<T>,
    key: spec_fn(St) -> int,
    units: Seq<St>,
    from: int,
    k: int,
)
    requires
        faithful(behaviour, items),
        keeps_key(behaviour, key),
        distinct_keys(key, units),
        0 <= from <= units.len(),
    ensures
        distinct_keys(key, scan(behaviour, units, from).1),
        scan(behaviour, units, from).0 is Pending ==> share(
            items,
            key,
            scan(behaviour, units, from).1,
            k,
        ) == share(items, key, units, k),
        scan(behaviour, units, from).0 matches Poll::Ready(Some((head, unit))) ==> ({
            &&& !names(key, scan(behaviour, units, from).1, key(unit))
            &&& key(unit) != k ==> share(items, key, scan(behaviour, units, from).1, k) == share(
                items,
                key,
                units,
                k,
            )
            &&& key(unit) == k ==> share(items, key, units, k) == carried(Poll::Ready(head))
                + (if head is Some {
                items(unit)
            } else {
                Seq::empty()
            })
        }),
    decreases units.len() - from,
{
    if from < units.len() {
        let (answer, after) = behaviour(units[from]);
        match answer {
            Poll::Pending => {
                let polled = units.update(from, after);
                assert(distinct_keys(key, polled)) by {
                    assert forall|i: int, j: int| 0 <= i < j < polled.len() implies key(
                        #[trigger] polled[i],
                    ) != key(#[trigger] polled[j]) by {
                        assert(key(polled[i]) == key(units[i]));
                        assert(key(polled[j]) == key(units[j]));
                    }
                }
                assert(share(items, key, polled, k) == share(items, key, units, k)) by {
                    if names(key, units, k) {
                        let i = choose|i: int| 0 <= i < units.len() && key(#[trigger] units[i]) == k;
                        assert(key(polled[i]) == k);
                        lemma_share_at(items, key, units, i);
                        lemma_share_at(items, key, polled, i);
                    } else if names(key, polled, k) {
                        let i = choose|i: int|
                            0 <= i < polled.len() && key(#[trigger] polled[i]) == k;
                        assert(key(units[i]) == k);
                    }
                }
                lemma_scan_shares(behaviour, items, key, polled, from + 1, k);
            },
            Poll::Ready(head) => {
                let rest = units.remove(from);
                assert(distinct_keys(key, rest)) by {
                    assert forall|i: int, j: int| 0 <= i < j < rest.len() implies key(
                        #[trigger] rest[i],
                    ) != key(#[trigger] rest[j]) by {
                        let oi = if i < from { i } else { i + 1 };
                        let oj = if j < from { j } else { j + 1 };
                        assert(rest[i] == units[oi] && rest[j] == units[oj]);
                    }
                }
                assert(!names(key, rest, key(after))) by {
                    if names(key, rest, key(after)) {
                        let i = choose|i: int|
                            0 <= i < rest.len() && key(#[trigger] rest[i]) == key(after);
                        let oi = if i < from { i } else { i + 1 };
                        assert(rest[i] == units[oi]);
                        if oi < from {
                            assert(key(units[oi]) != key(units[from]));
                        } else {
                            assert(key(units[from]) != key(units[oi]));
                        }
                    }
                }
                lemma_share_at(items, key, units, from);
                if key(after) != k {
                    if names(key, units, k) {
                        let i = choose|i: int| 0 <= i < units.len() && key(#[trigger] units[i]) == k;
                        let ri = if i < from { i } else { i - 1 };
                        assert(rest[ri] == units[i]);
                        lemma_share_at(items, key, units, i);
                        lemma_share_at(items, key, rest, ri);
                    } else if names(key, rest, k) {
                        let i = choose|i: int| 0 <= i < rest.len() && key(#[trigger] rest[i]) == k;
                        let oi = if i < from { i } else { i + 1 };
                        assert(rest[i] == units[oi]);
                    }
                } else {
                    if head is None {
                        assert(carried(Poll::<Option<T>>::Ready(None)) + Seq::<T>::empty()
                            =~= Seq::<T>::empty());
                    }
                }
            },
        }
    }
}

/// One poll keeps the order within a member: an item that it returns is the
/// first that its member had to give, and what that member has to give
/// afterwards is the rest; every other member has to give what it had.
pub proof fn lemma_next_keeps_order<St, T>(
    behaviour: spec_fn(St) -> (Poll<Option<T>>, St),
    items: spec_fn(St) -> Seq<T>,
    key: spec_fn(St) -> int,
    streams: Seq<St>,
    k: int,
)
    requires
        faithful(behaviour, items),
        keeps_key(behaviour, key),
        distinct_keys(key, streams),
    ensures
        distinct_keys(key, next(behaviour, streams).1),
        share(items, key, streams, k) == carried_from(key, k, next(behaviour, streams)) + share(
            items,
            key,
            next(behaviour, streams).1,
            k,
        ),
    decreases streams.len(),
{
    let step = next(behaviour, streams);
    if streams.len() == 0 {
        assert(carried_from(key, k, step) + share(items, key, step.1, k) =~= share(
            items,
            key,
            streams,
            k,
        ));
    } else {
        lemma_scan_len(behaviour, streams, 0);
        lemma_scan_shares(behaviour, items, key, streams, 0, k);
        let (resolved, rest) = resolve(behaviour, streams);
        match resolved {
            Poll::Ready(Some((Some(item), remaining))) => {
                let after = rest.push(remaining);
                assert(step == (Poll::Ready(Some(item)), after));
                assert(distinct_keys(key, after)) by {
                    assert forall|i: int, j: int| 0 <= i < j < after.len() implies key(
                        #[trigger] after[i],
                    ) != key(#[trigger] after[j]) by {
                        assert(after[i] == rest[i]);
                        if j < rest.len() {
                            assert(after[j] == rest[j]);
                        } else {
                            assert(after[j] == remaining);
                            assert(!names(key, rest, key(remaining)));
                        }
                    }
                }
                assert(after.last() == remaining);
                if key(remaining) == k {
                    lemma_share_at(items, key, after, after.len() - 1);
                } else {
                    assert(carried_from(key, k, step) + share(items, key, rest, k) =~= share(
                        items,
                        key,
                        rest,
                        k,
                    ));
                    if names(key, rest, k) {
                        let i = choose|i: int| 0 <= i < rest.len() && key(#[trigger] rest[i]) == k;
                        assert(after[i] == rest[i]);
                        lemma_share_at(items, key, rest, i);
                        lemma_share_at(items, key, after, i);
                    } else if names(key, after, k) {
                        let i = choose|i: int|
                            0 <= i < after.len() && key(#[trigger] after[i]) == k;
                        assert(i < rest.len());
                        assert(after[i] == rest[i]);
                    }
                }
            },
            Poll::Ready(Some((None, remaining))) => {
                lemma_next_keeps_order(behaviour, items, key, rest, k);
                assert(step == next(behaviour, rest));
                if key(remaining) == k {
                    assert(share(items, key, streams, k) =~= Seq::<T>::empty());
                    assert(!names(key, rest, k));
                }
            },
            _ => {
                assert(carried_from(key, k, step) + share(items, key, step.1, k) =~= share(
                    items,
                    key,
                    step.1,
                    k,
                ));
            },
        }
    }
}

/// Within one member the order is kept: the items that came from the member
/// named `k`, in the order in which they were returned, followed by what
/// that member still has to give, are what it had to give at the start.
pub proof fn lemma_drain_keeps_order<St, T>(
    behaviour: spec_fn(St) -> (Poll<Option<T>>, St),
    items: spec_fn(St) -> Seq<T>,
    key: spec_fn(St) -> int,
    streams: Seq<St>,
    polls: nat,
    k: int,
)
    requires
        faithful(behaviour, items),
        keeps_key(behaviour, key),
        distinct_keys(key, streams),
    ensures
        distinct_keys(key, drain(behaviour, streams, polls).1),
        share(items, key, streams, k) == drain_of(behaviour, key, k, streams, polls) + share(
            items,
            key,
            drain(behaviour, streams, polls).1,
            k,
        ),
    decreases polls,
{
    if polls == 0 {
        assert(Seq::<T>::empty() + share(items, key, streams, k) =~= share(
            items,
            key,
            streams,
            k,
        ));
    } else {
        let step = next(behaviour, streams);
        lemma_next_keeps_order(behaviour, items, key, streams, k);
        lemma_drain_keeps_order(behaviour, items, key, step.1, (polls - 1) as nat, k);
        let later = drain_of(behaviour, key, k, step.1, (polls - 1) as nat);
        let end = drain(behaviour, streams, polls).1;
        assert(carried_from(key, k, step) + (later + share(items, key, end, k)) =~= (
            carried_from(key, k, step) + later) + share(items, key, end, k));
    }
}

/// A stream that is pushed into a merge is served like the others: its items
/// come out in its own order, and none is lost. After any number of polls,
/// the items that came from it, followed by what it still has to give, are
/// what it had to give when it was pushed; and once no member is left, all of
/// its items have been returned, among all those of the other members.
pub proof fn lemma_pushed_is_served<St, T>(
    behaviour: spec_fn(St) -> (Poll<Option<T>>, St),
    items: spec_fn(St) -> Seq<T>,
    key: spec_fn(St) -> int,
    streams: Seq<St>,
    stream: St,
    polls: nat,
)
    requires
        faithful(behaviour, items),
        keeps_key(behaviour, key),
        distinct_keys(key, streams.push(stream)),
    ensures
        items(stream) == drain_of(behaviour, key, key(stream), streams.push(stream), polls)
            + share(
            items,
            key,
            drain(behaviour, streams.push(stream), polls).1,
            key(stream),
        ),
        drain(behaviour, streams.push(stream), polls).1.len() == 0 ==> ({
            &&& drain_of(behaviour, key, key(stream), streams.push(stream), polls) == items(
                stream,
            )
            &&& drain(behaviour, streams.push(stream), polls).0.to_multiset() =~= pending(
                items,
                streams,
            ).add(items(stream).to_multiset())
        }),
{
    let all = streams.push(stream);
    let end = drain(behaviour, all, polls).1;
    lemma_share_at(items, key, all, all.len() - 1);
    lemma_drain_keeps_order(behaviour, items, key, all, polls, key(stream));
    lemma_drain_conserves(behaviour, items, all, polls);
    lemma_pending_push(items, streams, stream);
    if end.len() == 0 {
        assert(drain_of(behaviour, key, key(stream), all, polls) + Seq::<T>::empty()
            =~= drain_of(behaviour, key, key(stream), all, polls));
    }
}

/// Where no member ever answers `Pending`, a poll does not either.
proof fn lemma_ready_answers<St, T>(
    behaviour: spec_fn(St) -> (Poll<Option<T>>, St),
    streams: Seq<St>,
)
    requires
        forall|stream: St| (#[trigger] behaviour(stream)).0 is Ready,
    ensures
        next(behaviour, streams).0 is Ready,
    decreases streams.len(),
{
    if streams.len() > 0 {
        lemma_scan_len(behaviour, streams, 0);
        assert(behaviour(streams[0]).0 is Ready);
        let (resolved, rest) = resolve(behaviour, streams);
        if settled(rest, resolved).0 is None {
            lemma_ready_answers(behaviour, rest);
        }
    }
}

/// Where no member ever answers `Pending`, the merge comes to its end: more
/// polls than the members have items to give leave no member, so that every
/// item has been returned by then.
pub proof fn lemma_ready_streams_drain<St, T>(
    behaviour: spec_fn(St) -> (Poll<Option<T>>, St),
    items: spec_fn(St) -> Seq<T>,
    streams: Seq<St>,
    polls: nat,
)
    requires
        faithful(behaviour, items),
        forall|stream: St| (#[trigger] behaviour(stream)).0 is Ready,
        polls > pending(items, streams).len(),
    ensures
        drain(behaviour, streams, polls).1.len() == 0,
        drain(behaviour, streams, polls).0.to_multiset() =~= pending(items, streams),
    decreases polls,
{
    broadcast use vstd::multiset::group_multiset_axioms;
    broadcast use vstd::seq_lib::group_to_multiset_ensures;

    let (answer, after) = next(behaviour, streams);
    lemma_ready_answers(behaviour, streams);
    lemma_next_len(behaviour, streams);
    lemma_next_conserves(behaviour, items, streams);
    match answer {
        Poll::Ready(Some(item)) => {
            assert(carried(answer) =~= Seq::<T>::empty().push(item));
            assert(Seq::<T>::empty().to_multiset() =~= Multiset::<T>::empty());
            assert(pending(items, streams).len() == pending(items, after).len() + 1);
            lemma_ready_streams_drain(behaviour, items, after, (polls - 1) as nat);
        },
        _ => {
            assert(after =~= Seq::<St>::empty());
            lemma_empty_stays_ended::<St, T>(behaviour, (polls - 1) as nat);
        },
    }
    lemma_drain_conserves(behaviour, items, streams, polls);
}

} // verus!
