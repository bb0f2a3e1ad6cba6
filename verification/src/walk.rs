//! Walking a directory tree without recursion.
//!
//! The walk is driven from outside: whoever holds the directory listings
//! reads them and reports each answer as an [`Event`]; the walker decides
//! what follows and says so as an [`Action`].  Between two answers the
//! walker keeps nothing but the directories met and not yet opened.
//!
//! The entries of the listing in hand are drained before any directory
//! found in it is opened.  The directories wait on a stack: the one met
//! last is opened first.  Directories are opened, never yielded; a failure
//! to read an entry or to open a directory is yielded once, and the walk
//! goes on with the directories that still wait.

use vstd::prelude::*;

verus! {

/// What the directory source answered.
#[derive(Debug, PartialEq, Eq)]
pub enum Event<P, E> {
    /// The listing in hand gave one more entry.
    Entry { path: P, is_dir: bool },
    /// Reading the listing in hand, or opening a directory, failed.
    Failed(E),
    /// The listing in hand has no more entries.
    End,
    /// The directory asked for was opened; its listing is now in hand.
    Opened,
}

/// What the walker asks for, or hands out, next.
#[derive(Debug, PartialEq, Eq)]
pub enum Action<P, E> {
    /// Read the next entry of the listing in hand.
    Read,
    /// Open this directory and take its listing in hand.
    Open(P),
    /// Hand this item to the consumer; read on when asked for the next one.
    Yield(Result<P, E>),
    /// The walk is over.
    Finish,
}

/// One step of the walk: the directories that wait after `event`, and the
/// action that follows it.
pub open spec fn step<P, E>(dirs: Seq<P>, event: Event<P, E>) -> (Seq<P>, Action<P, E>) {
    match event {
        Event::Entry { path, is_dir } => if is_dir {
            (dirs.push(path), Action::Read)
        } else {
            (dirs, Action::Yield(Ok(path)))
        },
        Event::Failed(error) => (dirs, Action::Yield(Err(error))),
        Event::End => if dirs.len() > 0 {
            (dirs.drop_last(), Action::Open(dirs.last()))
        } else {
            (dirs, Action::Finish)
        },
        Event::Opened => (dirs, Action::Read),
    }
}

/// The directories met and not yet opened, the one met last at the end.
pub struct WalkDir<P> {
    dirs: Vec<P>,
}

impl<P> View for WalkDir<P> {
    type V = Seq<P>;

    closed spec fn view(&self) -> Seq<P> {
        self.dirs@
    }
}

impl<P> WalkDir<P> {
    /// A walker for a root whose listing is in hand: no directory waits.
    pub fn new() -> (walker: Self)
        ensures
            walker@ == Seq::<P>::empty(),
    {
        WalkDir { dirs: Vec::new() }
    }

    /// Takes the source's answer and decides what follows.
    pub fn next<E>(&mut self, event: Event<P, E>) -> (action: Action<P, E>)
        ensures
            (final(self)@, action) == step(old(self)@, event),
    {
        match event {
            Event::Entry { path, is_dir } => {
                if is_dir {
                    self.dirs.push(path);
                    Action::Read
                } else {
                    Action::Yield(Ok(path))
                }
            },
            Event::Failed(error) => Action::Yield(Err(error)),
            Event::End => {
                match self.dirs.pop() {
                    Some(dir) => Action::Open(dir),
                    None => Action::Finish,
                }
            },
            Event::Opened => Action::Read,
        }
    }
}

/// A whole walk: the directories that wait after the answers `events`, given
/// in this order to a walker with `dirs` waiting, and the action that
/// followed each answer.
pub open spec fn run<P, E>(dirs: Seq<P>, events: Seq<Event<P, E>>) -> (Seq<P>, Seq<Action<P, E>>)
    decreases events.len(),
{
    if events.len() == 0 {
        (dirs, Seq::empty())
    } else {
        let before = run(dirs, events.drop_last());
        let last = step(before.0, events.last());
        (last.0, before.1.push(last.1))
    }
}

/// What the answers hold for the consumer, in their order: the entries that
/// are no directories, and the failures.
pub open spec fn reported_items<P, E>(events: Seq<Event<P, E>>) -> Seq<Result<P, E>>
    decreases events.len(),
{
    if events.len() == 0 {
        Seq::empty()
    } else {
        let before = reported_items(events.drop_last());
        match events.last() {
            Event::Entry { path, is_dir } => if is_dir {
                before
            } else {
                before.push(Ok(path))
            },
            Event::Failed(error) => before.push(Err(error)),
            _ => before,
        }
    }
}

/// The directories that the answers report, in their order.
pub open spec fn reported_dirs<P, E>(events: Seq<Event<P, E>>) -> Seq<P>
    decreases events.len(),
{
    if events.len() == 0 {
        Seq::empty()
    } else {
        let before = reported_dirs(events.drop_last());
        match events.last() {
            Event::Entry { path, is_dir } => if is_dir {
                before.push(path)
            } else {
                before
            },
            _ => before,
        }
    }
}

/// The items that the actions hand to the consumer, in their order.
pub open spec fn yielded<P, E>(actions: Seq<Action<P, E>>) -> Seq<Result<P, E>>
    decreases actions.len(),
{
    if actions.len() == 0 {
        Seq::empty()
    } else {
        let before = yielded(actions.drop_last());
        match actions.last() {
            Action::Yield(item) => before.push(item),
            _ => before,
        }
    }
}

/// The directories that the actions ask to open, in their order.
pub open spec fn opened<P, E>(actions: Seq<Action<P, E>>) -> Seq<P>
    decreases actions.len(),
{
    if actions.len() == 0 {
        Seq::empty()
    } else {
        let before = opened(actions.drop_last());
        match actions.last() {
            Action::Open(dir) => before.push(dir),
            _ => before,
        }
    }
}

/// A walk takes one action for each answer.
pub proof fn lemma_run_len<P, E>(dirs: Seq<P>, events: Seq<Event<P, E>>)
    ensures
        run(dirs, events).1.len() == events.len(),
    decreases events.len(),
{
    if events.len() > 0 {
        lemma_run_len(dirs, events.drop_last());
    }
}

/// Where every listing ends at once and no directory waits, as below an
/// empty directory, nothing is yielded and the walk is over, however often
/// the walker is asked.
pub proof fn lemma_finished_walk_stays_finished<P, E>(events: Seq<Event<P, E>>)
    requires
        forall|i: int| 0 <= i < events.len() ==> events[i] == Event::<P, E>::End,
    ensures
        run(Seq::<P>::empty(), events).0 == Seq::<P>::empty(),
        run(Seq::<P>::empty(), events).1.len() == events.len(),
        forall|i: int|
            0 <= i < events.len() ==> #[trigger] run(Seq::<P>::empty(), events).1[i]
                == Action::<P, E>::Finish,
    decreases events.len(),
{
    if events.len() > 0 {
        lemma_finished_walk_stays_finished(events.drop_last());
    }
}

/// A walk yields what the source reported, no more and no less, and in the
/// order in which it was reported: each entry that is no directory, and each
/// failure.  No directory is yielded.
pub proof fn lemma_walk_yields_what_was_reported<P, E>(dirs: Seq<P>, events: Seq<Event<P, E>>)
    ensures
        yielded(run(dirs, events).1) == reported_items(events),
    decreases events.len(),
{
    if events.len() > 0 {
        lemma_walk_yields_what_was_reported(dirs, events.drop_last());
        let before = run(dirs, events.drop_last());
        let last = step(before.0, events.last());
        assert(before.1.push(last.1).drop_last() =~= before.1);
    }
}

/// A walk loses no directory and opens none twice: the directories that
/// waited at the start and those that the source reported are those that
/// were opened and those that still wait, each as often on one side as on
/// the other.
pub proof fn lemma_walk_opens_each_directory_once<P, E>(dirs: Seq<P>, events: Seq<Event<P, E>>)
    ensures
        dirs.to_multiset().add(reported_dirs(events).to_multiset()) == opened(
            run(dirs, events).1,
        ).to_multiset().add(run(dirs, events).0.to_multiset()),
    decreases events.len(),
{
    broadcast use vstd::multiset::group_multiset_axioms;

    let met = dirs.to_multiset().add(reported_dirs(events).to_multiset());
    let kept = opened(run(dirs, events).1).to_multiset().add(run(dirs, events).0.to_multiset());
    if events.len() == 0 {
        lemma_nothing_holds_nothing::<P>();
        assert(met =~= kept);
    } else {
        let earlier = events.drop_last();
        let before = run(dirs, earlier);
        let last = step(before.0, events.last());
        lemma_walk_opens_each_directory_once(dirs, earlier);
        let met_before = dirs.to_multiset().add(reported_dirs(earlier).to_multiset());
        let kept_before = opened(before.1).to_multiset().add(before.0.to_multiset());
        assert(before.1.push(last.1).drop_last() =~= before.1);
        match events.last() {
            Event::Entry { path, is_dir } => {
                if is_dir {
                    // one more directory was met, and it waits
                    vstd::seq_lib::to_multiset_build(before.0, path);
                    vstd::seq_lib::to_multiset_build(reported_dirs(earlier), path);
                    assert(met =~= met_before.insert(path));
                    assert(kept =~= kept_before.insert(path));
                }
            },
            Event::End => {
                if before.0.len() > 0 {
                    // one directory no longer waits: it is opened
                    let dir = before.0.last();
                    assert(before.0 =~= before.0.drop_last().push(dir));
                    vstd::seq_lib::to_multiset_build(before.0.drop_last(), dir);
                    vstd::seq_lib::to_multiset_build(opened(before.1), dir);
                    assert(kept =~= kept_before);
                }
            },
            _ => {},
        }
    }
}

/// The empty sequence holds nothing.
proof fn lemma_nothing_holds_nothing<A>()
    ensures
        Seq::<A>::empty().to_multiset() == vstd::multiset::Multiset::<A>::empty(),
{
    vstd::seq_lib::to_multiset_len(Seq::<A>::empty());
    vstd::multiset::lemma_multiset_empty_len(Seq::<A>::empty().to_multiset());
}

/// When a walk from a root ends, every directory that the source reported
/// has been opened, once for each time it was reported.
pub proof fn lemma_finished_walk_opened_every_directory<P, E>(events: Seq<Event<P, E>>)
    requires
        events.len() > 0,
        run(Seq::<P>::empty(), events).1.last() == Action::<P, E>::Finish,
    ensures
        run(Seq::<P>::empty(), events).0.len() == 0,
        reported_dirs(events).to_multiset() == opened(
            run(Seq::<P>::empty(), events).1,
        ).to_multiset(),
{
    broadcast use vstd::multiset::group_multiset_axioms;

    let dirs = Seq::<P>::empty();
    lemma_walk_opens_each_directory_once(dirs, events);
    lemma_nothing_holds_nothing::<P>();
    let end = run(dirs, events);
    assert(end.0 =~= dirs);
    assert(reported_dirs(events).to_multiset() =~= dirs.to_multiset().add(
        reported_dirs(events).to_multiset(),
    ));
    assert(opened(end.1).to_multiset() =~= opened(end.1).to_multiset().add(end.0.to_multiset()));
}

/// The directory opened when a listing ends is the one met last among those
/// that wait; the others keep their order.
pub proof fn lemma_last_met_opens_first<P, E>(dirs: Seq<P>, first: P, second: P)
    ensures
        ({
            let met_first = step::<P, E>(dirs, Event::Entry { path: first, is_dir: true }).0;
            let met_both = step::<P, E>(met_first, Event::Entry { path: second, is_dir: true }).0;
            let ended = step::<P, E>(met_both, Event::End);
            let ended_again = step::<P, E>(ended.0, Event::End);
            &&& ended.1 == Action::<P, E>::Open(second)
            &&& ended_again.1 == Action::<P, E>::Open(first)
            &&& ended_again.0 == dirs
        }),
{
    let met_first = dirs.push(first);
    let met_both = met_first.push(second);
    assert(met_both.drop_last() =~= met_first);
    assert(met_first.drop_last() =~= dirs);
}

} // verus!
