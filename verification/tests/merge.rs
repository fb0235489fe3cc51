use std::collections::VecDeque;

use select_all::{select_all, Poll, SelectAll};

/// A stream that gives the answers it was made with, one per poll, and
/// reports its end once they are used up.
#[derive(Debug, PartialEq)]
struct Script {
    name: &'static str,
    answers: VecDeque<Poll<Option<i32>>>,
    polls: usize,
}

impl Script {
    fn new(name: &'static str, answers: Vec<Poll<Option<i32>>>) -> Self {
        Script { name, answers: answers.into(), polls: 0 }
    }

    /// A stream that is always ready: it gives `items` and then ends.
    fn ready(name: &'static str, items: &[i32]) -> Self {
        Script::new(name, items.iter().map(|i| Poll::Ready(Some(*i))).collect())
    }

    fn poll(&mut self) -> Poll<Option<i32>> {
        self.polls += 1;
        match self.answers.pop_front() {
            Some(answer) => answer,
            None => Poll::Ready(None),
        }
    }
}

fn ask(stream: &mut Script) -> Poll<Option<i32>> {
    stream.poll()
}

/// Polls until the merge reports its end; `Pending` answers are skipped.
fn drain(set: &mut SelectAll<Script>, limit: usize) -> Vec<i32> {
    let mut out = Vec::new();
    for _ in 0..limit {
        match set.poll_next(ask) {
            Poll::Ready(Some(item)) => out.push(item),
            Poll::Ready(None) => return out,
            Poll::Pending => {}
        }
    }
    panic!("the merge did not come to its end within {} polls", limit);
}

fn names(set: &SelectAll<Script>) -> Vec<&'static str> {
    set.iter().iter().map(|s| s.name).collect()
}

#[test]
fn new_is_empty_and_not_terminated() {
    let set: SelectAll<Script> = SelectAll::new();
    assert_eq!(set.len(), 0);
    assert!(set.is_empty());
    assert!(!set.is_terminated());
}

#[test]
fn default_is_empty_and_not_terminated() {
    let set: SelectAll<Script> = SelectAll::default();
    assert_eq!(set.len(), 0);
    assert!(set.is_empty());
    assert!(!set.is_terminated());
}

#[test]
fn empty_merge_reports_end_on_every_poll() {
    let mut set: SelectAll<Script> = SelectAll::new();
    for _ in 0..5 {
        assert_eq!(set.poll_next(ask), Poll::Ready(None));
        assert!(set.is_terminated());
        assert!(set.is_empty());
    }
}

#[test]
fn push_counts_and_does_not_poll() {
    let mut set = SelectAll::new();
    set.push(Script::ready("a", &[1]));
    assert_eq!(set.len(), 1);
    assert!(!set.is_empty());
    set.push(Script::ready("b", &[2]));
    assert_eq!(set.len(), 2);
    assert_eq!(names(&set), vec!["a", "b"]);
    assert!(set.iter().iter().all(|s| s.polls == 0));
}

#[test]
fn two_members_interleave_and_keep_their_order() {
    let mut set = select_all(vec![Script::ready("a", &[1, 2]), Script::ready("b", &[10])].into_iter());
    assert_eq!(set.poll_next(ask), Poll::Ready(Some(1)));
    assert_eq!(set.poll_next(ask), Poll::Ready(Some(10)));
    assert_eq!(set.poll_next(ask), Poll::Ready(Some(2)));
    assert_eq!(set.poll_next(ask), Poll::Ready(None));
    assert!(set.is_terminated());
}

#[test]
fn two_members_give_a_legal_interleaving() {
    let mut set = select_all(vec![Script::ready("a", &[1, 2]), Script::ready("b", &[10])].into_iter());
    let out = drain(&mut set, 10);
    assert_eq!(out.len(), 3);
    let one = out.iter().position(|x| *x == 1).unwrap();
    let two = out.iter().position(|x| *x == 2).unwrap();
    assert!(one < two);
    assert!(out.contains(&10));
}

#[test]
fn pushed_into_empty_then_polled() {
    let mut set = SelectAll::new();
    set.push(Script::ready("c", &[7]));
    assert_eq!(set.poll_next(ask), Poll::Ready(Some(7)));
    assert_eq!(set.len(), 1);
    assert!(!set.is_terminated());
    assert_eq!(set.poll_next(ask), Poll::Ready(None));
    assert_eq!(set.len(), 0);
    assert!(set.is_terminated());
}

#[test]
fn exhausted_member_at_construction() {
    let mut set = select_all(vec![Script::ready("done", &[]), Script::ready("b", &[5])].into_iter());
    assert_eq!(set.len(), 2);
    assert_eq!(set.poll_next(ask), Poll::Ready(Some(5)));
    assert_eq!(names(&set), vec!["b"]);
    assert_eq!(set.poll_next(ask), Poll::Ready(None));
    assert!(set.is_terminated());
}

#[test]
fn members_that_only_end_are_never_reported() {
    let mut set = select_all(
        vec![Script::ready("x", &[]), Script::ready("y", &[]), Script::ready("z", &[])].into_iter(),
    );
    assert_eq!(set.len(), 3);
    assert_eq!(set.poll_next(ask), Poll::Ready(None));
    assert_eq!(set.len(), 0);
    assert!(set.is_terminated());
    assert_eq!(set.poll_next(ask), Poll::Ready(None));
}

#[test]
fn pending_members_stay_registered() {
    let mut set = SelectAll::new();
    set.push(Script::new("a", vec![Poll::Pending, Poll::Ready(Some(1))]));
    set.push(Script::new("b", vec![Poll::Pending, Poll::Pending, Poll::Ready(Some(2))]));
    assert_eq!(set.poll_next(ask), Poll::Pending);
    assert_eq!(set.len(), 2);
    assert!(!set.is_terminated());
    assert_eq!(names(&set), vec!["a", "b"]);
    assert!(set.iter().iter().all(|s| s.polls == 1));
    assert_eq!(set.poll_next(ask), Poll::Ready(Some(1)));
    // `a` answered first, so `b` was not asked again; `a` went to the back.
    assert_eq!(names(&set), vec!["b", "a"]);
    assert_eq!(set.iter()[0].polls, 1);
    // `b` answers `Pending` once more, then `a` ends: its end is taken in,
    // the set is scanned again, and `b` gives its item.
    assert_eq!(set.poll_next(ask), Poll::Ready(Some(2)));
    assert_eq!(names(&set), vec!["b"]);
    assert_eq!(set.iter()[0].polls, 3);
    assert_eq!(set.poll_next(ask), Poll::Ready(None));
}

#[test]
fn last_member_ending_behind_a_hollow_answer_ends_the_merge() {
    // The first member ends, the second is pending: the end of the first is
    // taken in and the poll reports `Pending`, not the end.
    let mut set = SelectAll::new();
    set.push(Script::ready("ended", &[]));
    set.push(Script::new("slow", vec![Poll::Pending, Poll::Ready(Some(3))]));
    assert_eq!(set.poll_next(ask), Poll::Pending);
    assert_eq!(names(&set), vec!["slow"]);
    assert_eq!(set.poll_next(ask), Poll::Ready(Some(3)));
    assert_eq!(set.poll_next(ask), Poll::Ready(None));
}

#[test]
fn member_pushed_later_is_served() {
    let mut set = select_all(vec![Script::ready("a", &[1, 2, 3])].into_iter());
    assert_eq!(set.poll_next(ask), Poll::Ready(Some(1)));
    set.push(Script::ready("late", &[40, 50]));
    assert_eq!(set.len(), 2);
    let out = drain(&mut set, 20);
    assert_eq!(out, vec![2, 40, 3, 50]);
    assert!(set.is_terminated());
}

#[test]
fn push_after_the_end_starts_the_merge_again() {
    let mut set: SelectAll<Script> = SelectAll::new();
    assert_eq!(set.poll_next(ask), Poll::Ready(None));
    assert!(set.is_terminated());
    set.push(Script::ready("again", &[9]));
    assert!(!set.is_terminated());
    assert_eq!(set.poll_next(ask), Poll::Ready(Some(9)));
    assert_eq!(set.poll_next(ask), Poll::Ready(None));
    assert!(set.is_terminated());
}

#[test]
fn every_item_comes_out_once() {
    let mut set = select_all(
        vec![
            Script::new("a", vec![Poll::Ready(Some(1)), Poll::Pending, Poll::Ready(Some(2))]),
            Script::ready("b", &[]),
            Script::new("c", vec![Poll::Pending, Poll::Pending, Poll::Ready(Some(2)), Poll::Ready(Some(7))]),
            Script::ready("d", &[5, 5, 6]),
        ]
        .into_iter(),
    );
    let mut out = drain(&mut set, 100);
    out.sort();
    assert_eq!(out, vec![1, 2, 2, 5, 5, 6, 7]);
}

#[test]
fn each_member_keeps_its_own_order() {
    let mut set = select_all(
        vec![
            Script::new("a", vec![Poll::Pending, Poll::Ready(Some(101)), Poll::Ready(Some(102)), Poll::Ready(Some(103))]),
            Script::ready("b", &[201, 202]),
            Script::new("c", vec![Poll::Ready(Some(301)), Poll::Pending, Poll::Pending, Poll::Ready(Some(302))]),
        ]
        .into_iter(),
    );
    let out = drain(&mut set, 100);
    let of = |h: i32| out.iter().copied().filter(|x| x / 100 == h).collect::<Vec<i32>>();
    assert_eq!(of(1), vec![101, 102, 103]);
    assert_eq!(of(2), vec![201, 202]);
    assert_eq!(of(3), vec![301, 302]);
    assert_eq!(out.len(), 7);
}

#[test]
fn select_all_pushes_in_iteration_order() {
    let set = select_all(
        vec![Script::ready("x", &[1]), Script::ready("y", &[2]), Script::ready("z", &[3])].into_iter(),
    );
    assert_eq!(set.len(), 3);
    assert_eq!(names(&set), vec!["x", "y", "z"]);
    assert!(!set.is_terminated());
    assert!(set.iter().iter().all(|s| s.polls == 0));
}

#[test]
fn select_all_of_nothing_is_empty() {
    let mut set: SelectAll<Script> = select_all(Vec::new().into_iter());
    assert!(set.is_empty());
    assert!(!set.is_terminated());
    assert_eq!(set.poll_next(ask), Poll::Ready(None));
}

#[test]
fn from_iter_pushes_in_iteration_order() {
    let set = SelectAll::from_iter(vec![Script::ready("p", &[1]), Script::ready("q", &[2])].into_iter());
    assert_eq!(names(&set), vec!["p", "q"]);
}

#[test]
fn extend_pushes_behind_the_members() {
    let mut set = select_all(vec![Script::ready("a", &[1])].into_iter());
    set.extend(vec![Script::ready("b", &[2]), Script::ready("c", &[3])].into_iter());
    assert_eq!(set.len(), 3);
    assert_eq!(names(&set), vec!["a", "b", "c"]);
    let mut out = drain(&mut set, 10);
    out.sort();
    assert_eq!(out, vec![1, 2, 3]);
}

#[test]
fn extend_after_the_end_starts_the_merge_again() {
    let mut set: SelectAll<Script> = SelectAll::new();
    assert_eq!(set.poll_next(ask), Poll::Ready(None));
    set.extend(Vec::new().into_iter());
    assert!(set.is_terminated());
    set.extend(vec![Script::ready("b", &[2])].into_iter());
    assert!(!set.is_terminated());
    assert_eq!(set.poll_next(ask), Poll::Ready(Some(2)));
}

#[test]
fn iter_and_iter_pin_ref_show_the_members() {
    let set = select_all(vec![Script::ready("a", &[1]), Script::ready("b", &[2, 3])].into_iter());
    let seen: Vec<usize> = set.iter().iter().map(|s| s.answers.len()).collect();
    assert_eq!(seen, vec![1, 2]);
    let pinned: Vec<&'static str> = set.iter_pin_ref().iter().map(|s| s.name).collect();
    assert_eq!(pinned, vec!["a", "b"]);
    assert_eq!(set.len(), 2);
}

#[test]
fn iter_mut_changes_are_seen_by_later_polls() {
    let mut set = select_all(vec![Script::ready("a", &[1]), Script::ready("b", &[2])].into_iter());
    for stream in set.iter_mut().iter_mut() {
        stream.answers.push_front(Poll::Ready(Some(0)));
    }
    set.iter_pin_mut()[1] = Script::ready("swapped", &[]);
    assert_eq!(set.len(), 2);
    assert_eq!(names(&set), vec!["a", "swapped"]);
    let out = drain(&mut set, 10);
    assert_eq!(out, vec![0, 1]);
}

#[test]
fn into_iter_gives_the_members_that_are_left() {
    let mut set = select_all(
        vec![Script::ready("a", &[1, 2]), Script::ready("b", &[]), Script::ready("c", &[3])].into_iter(),
    );
    assert_eq!(set.poll_next(ask), Poll::Ready(Some(1)));
    let left: Vec<Script> = set.into_iter().collect();
    let left_names: Vec<&'static str> = left.iter().map(|s| s.name).collect();
    assert_eq!(left_names, vec!["b", "c", "a"]);
    assert_eq!(left[2].answers.len(), 1);
}

#[test]
fn settle_passes_pending_on() {
    let mut set = select_all(vec![Script::ready("a", &[1])].into_iter());
    let step = set.settle::<i32>(Poll::Pending);
    assert_eq!(step, Some(Poll::Pending));
    assert_eq!(set.len(), 1);
}

#[test]
fn settle_passes_the_end_on() {
    let mut set: SelectAll<Script> = SelectAll::new();
    let step = set.settle::<i32>(Poll::Ready(None));
    assert_eq!(step, Some(Poll::Ready(None)));
    assert_eq!(set.len(), 0);
}

#[test]
fn settle_registers_the_remaining_stream_and_returns_the_item() {
    let mut set = select_all(vec![Script::ready("a", &[1])].into_iter());
    let step = set.settle(Poll::Ready(Some((Some(4), Script::ready("rest", &[5])))));
    assert_eq!(step, Some(Poll::Ready(Some(4))));
    assert_eq!(names(&set), vec!["a", "rest"]);
}

#[test]
fn settle_drops_an_ended_stream_and_asks_for_another_poll() {
    let mut set = select_all(vec![Script::ready("a", &[1])].into_iter());
    let step = set.settle(Poll::Ready(Some((None::<i32>, Script::ready("ended", &[])))));
    assert_eq!(step, None);
    assert_eq!(names(&set), vec!["a"]);
}

#[test]
fn each_member_is_asked_at_most_once_per_scan() {
    let mut set = SelectAll::new();
    set.push(Script::new("a", vec![Poll::Pending, Poll::Pending]));
    set.push(Script::new("b", vec![Poll::Pending, Poll::Pending]));
    assert_eq!(set.poll_next(ask), Poll::Pending);
    let polls: Vec<usize> = set.iter().iter().map(|s| s.polls).collect();
    assert_eq!(polls, vec![1, 1]);
}

#[test]
fn terminated_merge_holds_no_stream_and_stays_so_through_iter_mut() {
    let mut set: SelectAll<Script> = SelectAll::new();
    assert_eq!(set.poll_next(ask), Poll::Ready(None));
    assert!(set.is_terminated());
    assert_eq!(set.len(), 0);
    assert_eq!(set.iter_mut().len(), 0);
    assert!(set.is_terminated());
    assert_eq!(set.iter_pin_mut().len(), 0);
    assert!(set.is_terminated());
}

#[test]
fn merge_with_members_is_not_terminated() {
    let mut set = select_all(vec![Script::new("a", vec![Poll::Pending, Poll::Ready(Some(1))])].into_iter());
    assert!(!set.is_terminated());
    assert_eq!(set.poll_next(ask), Poll::Pending);
    assert!(!set.is_terminated());
    assert_eq!(set.poll_next(ask), Poll::Ready(Some(1)));
    assert!(!set.is_terminated());
    assert_eq!(set.poll_next(ask), Poll::Ready(None));
    assert!(set.is_terminated());
    assert!(set.is_empty());
}
