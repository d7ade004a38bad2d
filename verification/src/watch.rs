//! What the watcher's loop does with each change notification.
//!
//! The loop itself waits, sleeps and reads files; it asks `on_notification`
//! what to do with what it received and carries the answer out.

use crate::discovery::{is_team_file, is_team_name};
use vstd::prelude::*;

verus! {

/// How long, in milliseconds, the loop lets a change settle before it reads
/// the roster files again.
pub const SETTLE_MILLIS: u64 = 150;

/// What happened to the paths of a notification.
#[derive(Debug, Clone, Copy, PartialEq, Eq)]
pub enum ChangeKind {
    Created,
    Modified,
    Removed,
    /// A change that the watcher could not tell apart.
    Any,
    /// Anything else, such as a file being read.
    Other,
}

/// One notification: what happened, and the file name of each path it
/// happened to (`None` for a path that ends in no file name).
#[derive(Debug)]
pub struct ChangeEvent {
    pub kind: ChangeKind,
    pub file_names: Vec<Option<String>>,
}

/// What the loop does next.
#[derive(Debug, PartialEq, Eq)]
pub enum WatchStep {
    /// Nothing: wait for the next notification.
    Ignore,
    /// Watch again the paths of the notification at these indices, so that
    /// a file that comes back is seen.
    Rearm(Vec<usize>),
    /// Wait `SETTLE_MILLIS`, then read the roster files and reload.
    Settle,
    /// The notifications have ended: report it and leave the loop.
    Stop,
}

/// The file names as sequences of characters.
pub open spec fn file_names(names: Seq<Option<String>>) -> Seq<Option<Seq<char>>> {
    Seq::new(
        names.len(),
        |i: int|
            match names[i] {
                Some(n) => Some(n@),
                None => None,
            },
    )
}

/// Whether a path of a notification is that of a roster file.
pub open spec fn is_team_path(name: Option<Seq<char>>) -> bool {
    match name {
        Some(n) => is_team_name(n),
        None => false,
    }
}

/// The indices of the paths that are roster files, in rising order.
pub open spec fn team_paths(names: Seq<Option<Seq<char>>>) -> Seq<int>
    decreases names.len(),
{
    if names.len() == 0 {
        Seq::<int>::empty()
    } else {
        let before = team_paths(names.drop_last());
        if is_team_path(names.last()) {
            before.push(names.len() - 1)
        } else {
            before
        }
    }
}

/// What a notification asks for, as values.
pub enum StepView {
    Ignore,
    Rearm(Seq<int>),
    Settle,
    Stop,
}

/// What the loop does with a notification of the given kind and paths: one
/// that touches no roster file is passed over; a removal has the roster
/// files among its paths watched again; a creation, a modification or an
/// unclassified change has the files reloaded once the change has settled;
/// anything else is passed over.
pub open spec fn step_for(kind: ChangeKind, names: Seq<Option<Seq<char>>>) -> StepView {
    let hits = team_paths(names);
    if hits.len() == 0 {
        StepView::Ignore
    } else {
        match kind {
            ChangeKind::Removed => StepView::Rearm(hits),
            ChangeKind::Created | ChangeKind::Modified | ChangeKind::Any => StepView::Settle,
            ChangeKind::Other => StepView::Ignore,
        }
    }
}

impl View for WatchStep {
    type V = StepView;

    open spec fn view(&self) -> StepView {
        match *self {
            WatchStep::Ignore => StepView::Ignore,
            WatchStep::Rearm(v) => StepView::Rearm(Seq::new(v@.len(), |i: int| v@[i] as int)),
            WatchStep::Settle => StepView::Settle,
            WatchStep::Stop => StepView::Stop,
        }
    }
}

/// The indices of the paths of `names` that are roster files.
pub fn team_path_indices(names: &Vec<Option<String>>) -> (hits: Vec<usize>)
    ensures
        Seq::new(hits@.len(), |i: int| hits@[i] as int) == team_paths(file_names(names@)),
{
    let mut hits: Vec<usize> = Vec::new();
    let mut i: usize = 0;
    let ghost all = file_names(names@);
    assert(all.take(0) =~= Seq::<Option<Seq<char>>>::empty());
    while i < names.len()
        invariant
            i <= names.len(),
            all == file_names(names@),
            Seq::new(hits@.len(), |j: int| hits@[j] as int) == team_paths(all.take(i as int)),
        decreases names.len() - i,
    {
        proof {
            assert(all.take(i + 1).drop_last() =~= all.take(i as int));
        }
        let hit = match &names[i] {
            Some(n) => is_team_file(n.as_str()),
            None => false,
        };
        if hit {
            let ghost before = Seq::new(hits@.len(), |j: int| hits@[j] as int);
            hits.push(i);
            assert(Seq::new(hits@.len(), |j: int| hits@[j] as int) =~= before.push(i as int));
        }
        i += 1;
    }
    assert(all.take(i as int) =~= all);
    hits
}

/// What the loop does with what it received: `None` says that the
/// notifications have ended.
pub fn on_notification(received: Option<&ChangeEvent>) -> (step: WatchStep)
    ensures
        step@ == match received {
            Some(event) => step_for(event.kind, file_names(event.file_names@)),
            None => StepView::Stop,
        },
{
    match received {
        None => WatchStep::Stop,
        Some(event) => {
            let hits = team_path_indices(&event.file_names);
            if hits.len() == 0 {
                WatchStep::Ignore
            } else {
                match event.kind {
                    ChangeKind::Removed => WatchStep::Rearm(hits),
                    ChangeKind::Created | ChangeKind::Modified | ChangeKind::Any => {
                        WatchStep::Settle
                    },
                    ChangeKind::Other => WatchStep::Ignore,
                }
            }
        },
    }
}

/// `team_paths` gives exactly the indices of the roster files, each once and
/// in rising order.
pub proof fn lemma_team_paths(names: Seq<Option<Seq<char>>>)
    ensures
        forall|j: int|
            0 <= j < team_paths(names).len() ==> 0 <= #[trigger] team_paths(names)[j] < names.len()
                && is_team_path(names[team_paths(names)[j]]),
        forall|j: int, k: int|
            0 <= j < k < team_paths(names).len() ==> team_paths(names)[j] < team_paths(names)[k],
        forall|i: int|
            0 <= i < names.len() && is_team_path(#[trigger] names[i]) ==> team_paths(
                names,
            ).contains(i),
    decreases names.len(),
{
    if names.len() > 0 {
        let head = names.drop_last();
        lemma_team_paths(head);
        let out = team_paths(names);
        assert forall|i: int| 0 <= i < names.len() && is_team_path(
            #[trigger] names[i],
        ) implies out.contains(i) by {
            if i < head.len() {
                assert(head[i] == names[i]);
                let j = choose|j: int|
                    0 <= j < team_paths(head).len() && team_paths(head)[j] == i;
                assert(out[j] == i);
            } else {
                assert(out[out.len() - 1] == i);
            }
        }
    }
}

/// A creation, a modification or an unclassified change that touches a
/// roster file has the files reloaded after the settle delay, once for each
/// notification.
pub proof fn lemma_change_settles(kind: ChangeKind, names: Seq<Option<Seq<char>>>, i: int)
    requires
        0 <= i < names.len(),
        is_team_path(names[i]),
        kind == ChangeKind::Created || kind == ChangeKind::Modified || kind == ChangeKind::Any,
    ensures
        step_for(kind, names) == StepView::Settle,
{
    lemma_team_paths(names);
}

/// A removal that touches a roster file has exactly the roster files among
/// its paths watched again, so that a file that is made anew is seen: its
/// creation then has the files reloaded.
pub proof fn lemma_removal_rearms(names: Seq<Option<Seq<char>>>, i: int)
    requires
        0 <= i < names.len(),
        is_team_path(names[i]),
    ensures
        step_for(ChangeKind::Removed, names) == StepView::Rearm(team_paths(names)),
        team_paths(names).contains(i),
        step_for(ChangeKind::Created, names) == StepView::Settle,
{
    lemma_team_paths(names);
}

} // verus!
