//! What the watcher does with the changes that it is told of.
use crate::index;
use crate::index::{equal_states, index_states, FileState, Index, IndexedFile, Visit};
use crate::path;
use crate::path_map;
use crate::path_map::PathMap;
use crate::scope::{
    is_configured_watch_directory, is_indexed_markdown, should_watch_path, Scope,
};
use vstd::prelude::*;

verus! {

/// What is to be watched after a change.
#[derive(Debug, Clone, Copy, PartialEq, Eq, Structural)]
pub enum WatchAction {
    /// Nothing new.
    Nothing,
    /// The directory and those below it.
    Tree,
    /// The directory alone.
    Directory,
}

/// What is to be watched when a path has changed.
pub open spec fn action_for(scope: Scope, p: Seq<u8>, is_dir: bool) -> WatchAction {
    if !is_dir || !crate::scope::is_watchable(p) {
        WatchAction::Nothing
    } else if scope.all {
        WatchAction::Tree
    } else if scope.watches(p) {
        WatchAction::Directory
    } else {
        WatchAction::Nothing
    }
}

/// What is to be watched when a path has changed; see [`action_for`].
pub fn watch_new_directory(scope: &Scope, p: &[u8], is_dir: bool) -> (action: WatchAction)
    ensures
        action == action_for(*scope, p@, is_dir),
{
    if !is_dir || !should_watch_path(p) {
        return WatchAction::Nothing;
    }
    if scope.all {
        return WatchAction::Tree;
    }
    if is_configured_watch_directory(scope, p) {
        WatchAction::Directory
    } else {
        WatchAction::Nothing
    }
}

/// A path in a change, and whether it is a directory.
pub struct EventPath {
    pub path: Vec<u8>,
    pub is_dir: bool,
}

/// Whether the index is to be rebuilt when a path has changed: a directory that
/// is watched, or a file that belongs into the index.
pub open spec fn rebuilds_for(scope: Scope, p: Seq<u8>, is_dir: bool) -> bool {
    if is_dir {
        scope.all || scope.watches(p)
    } else {
        scope.indexes(p)
    }
}

/// Whether the index is to be rebuilt when a path has changed; see
/// [`rebuilds_for`].
pub fn should_rebuild_for_event_path(scope: &Scope, p: &[u8], is_dir: bool) -> (yes: bool)
    ensures
        yes == rebuilds_for(*scope, p@, is_dir),
{
    if is_dir {
        return scope.all || is_configured_watch_directory(scope, p);
    }
    is_indexed_markdown(scope, p)
}

/// Whether the index is to be rebuilt when all these paths have changed.
pub fn should_rebuild(scope: &Scope, paths: &Vec<EventPath>) -> (yes: bool)
    ensures
        yes == (exists|i: int|
            0 <= i < paths@.len() && #[trigger] rebuilds_for(
                *scope,
                paths@[i].path@,
                paths@[i].is_dir,
            )),
{
    let mut i: usize = 0;
    while i < paths.len()
        invariant
            i <= paths@.len(),
            forall|j: int|
                0 <= j < i ==> !#[trigger] rebuilds_for(
                    *scope,
                    paths@[j].path@,
                    paths@[j].is_dir,
                ),
        decreases paths@.len() - i,
    {
        if should_rebuild_for_event_path(scope, paths[i].path.as_slice(), paths[i].is_dir) {
            assert(rebuilds_for(*scope, paths@[i as int].path@, paths@[i as int].is_dir));
            return true;
        }
        i += 1;
    }
    false
}

/// Adds a path that a watch pattern has found to the directories that are to be
/// watched, under its canonical form where it has one. What is not a directory,
/// or lies below an excluded one, is left out.
pub fn watch_configured(
    dirs: &mut PathMap<()>,
    found: Vec<u8>,
    is_dir: bool,
    canonical: Option<Vec<u8>>,
)
    ensures
        final(dirs)@ == (if is_dir && crate::scope::is_watchable(found@) {
            path_map::inserted(
                old(dirs)@,
                match canonical {
                    Some(c) => c@,
                    None => found@,
                },
                (),
            )
        } else {
            old(dirs)@
        }),
{
    if !is_dir || !should_watch_path(found.as_slice()) {
        return ;
    }
    let dir = match canonical {
        Some(c) => c,
        None => found,
    };
    dirs.insert(dir, ());
}

/// The states of the files when the index was last written.
pub struct Polling {
    pub state: PathMap<FileState>,
}

impl Polling {
    /// Starts to poll behind an index that was just written.
    pub fn start(index: &Index) -> (polling: Polling)
        ensures
            polling.state@ == index::states_of(index.files@),
    {
        Polling { state: index_states(index) }
    }

    /// Whether the index is to be rebuilt, given the states of the files now.
    pub fn has_changed(&self, now: &PathMap<FileState>) -> (yes: bool)
        ensures
            yes == !index::same_states(now@, self.state@),
            forall|turn: PollTurn|
                turn.now == now@ ==> yes == #[trigger] is_rebuilt(self.state@, turn),
    {
        !equal_states(now, &self.state)
    }

    /// Goes on behind an index that was rebuilt. Where rebuilding failed, the
    /// states stay as they were.
    pub fn rebuilt(&mut self, index: Option<&Index>)
        ensures
            final(self).state@ == (match index {
                Some(i) => index::states_of(i.files@),
                None => old(self).state@,
            }),
            forall|first: Seq<(Seq<u8>, IndexedFile)>, turns: Seq<PollTurn>|
                turns.len() > 0 && old(self).state@ == index::states_of(
                    polled(first, turns.drop_last()),
                ) && is_rebuilt(old(self).state@, turns.last()) && turns.last().rebuild
                    == rebuilt_files(index) ==> final(self).state@ == index::states_of(
                    #[trigger] polled(first, turns),
                ),
    {
        if let Some(i) = index {
            self.state = index_states(i);
        }
    }
}

/// Whether two walks read alike: under each path, what one read last of a file
/// agrees with the state that the other read last of it.
pub open spec fn read_alike(
    scope: Scope,
    a: Seq<Visit<IndexedFile>>,
    b: Seq<Visit<FileState>>,
) -> bool {
    forall|key: Seq<u8>|
        #[trigger] index::last_read(scope, b, key) == state_read(index::last_read(scope, a, key))
}

/// The state of a file, where it was read.
pub open spec fn state_read(file: Option<IndexedFile>) -> Option<FileState> {
    match file {
        Some(f) => Some(index::state_of(f)),
        None => None,
    }
}

proof fn lemma_states_keep_places(entries: Seq<(Seq<u8>, IndexedFile)>, key: Seq<u8>)
    ensures
        path_map::count_before(index::states_of(entries), key) == path_map::count_before(
            entries,
            key,
        ),
    decreases entries.len(),
{
    let states = index::states_of(entries);
    if entries.len() > 0 && path::path_before(entries[0].0, key) {
        lemma_states_keep_places(entries.drop_first(), key);
        assert(states.drop_first() =~= index::states_of(entries.drop_first()));
    }
}

/// The states that a walk gives are those of the index exactly where the walk
/// reads, under each path, what the index has of it.
proof fn lemma_states_of_walks(
    scope: Scope,
    a: Seq<Visit<IndexedFile>>,
    b: Seq<Visit<FileState>>,
)
    ensures
        index::same_states(
            index::collected(scope, b),
            index::states_of(index::collected(scope, a)),
        ) == read_alike(scope, a, b),
{
    let files = index::collected(scope, a);
    let states = index::states_of(files);
    let now = index::collected(scope, b);
    index::law_walk_stores_indexed_files(scope, a);
    index::law_walk_stores_indexed_files(scope, b);
    assert(path_map::in_path_order(states)) by {
        assert forall|i: int, j: int| 0 <= i < j < states.len() implies path::path_before(
            #[trigger] states[i].0,
            #[trigger] states[j].0,
        ) by {
            assert(states[i].0 == files[i].0 && states[j].0 == files[j].0);
        }
    }
    assert forall|key: Seq<u8>|
        #![trigger path_map::value_at(now, key)]
        #![trigger index::last_read(scope, b, key)]
        path_map::value_at(now, key) == index::last_read(scope, b, key) && path_map::value_at(
            states,
            key,
        ) == state_read(index::last_read(scope, a, key)) by {
        index::law_walk_stores_what_was_read(scope, a, key);
        index::law_walk_stores_what_was_read(scope, b, key);
        lemma_states_keep_places(files, key);
        path_map::lemma_count_before(files, key);
    }
    index::law_same_states_by_path(now, states);
}

/// As long as the files stay as they were when the index was built, polling does
/// not rebuild it: a walk that reads the same times and sizes under the same
/// paths, in whatever order, gives the states that the index has.
pub proof fn law_unchanged_files_need_no_rebuild(
    scope: Scope,
    a: Seq<Visit<IndexedFile>>,
    b: Seq<Visit<FileState>>,
)
    requires
        read_alike(scope, a, b),
    ensures
        index::same_states(
            index::collected(scope, b),
            index::states_of(index::collected(scope, a)),
        ),
{
    lemma_states_of_walks(scope, a, b);
}

/// A change is seen: where a walk reads another time or size of one file than the
/// index has, or comes upon a file that the index lacks, or no more upon one that
/// it has, polling rebuilds the index. Times are in whole seconds.
pub proof fn law_changed_file_needs_rebuild(
    scope: Scope,
    a: Seq<Visit<IndexedFile>>,
    b: Seq<Visit<FileState>>,
    key: Seq<u8>,
)
    requires
        index::last_read(scope, b, key) != state_read(index::last_read(scope, a, key)),
    ensures
        !index::same_states(
            index::collected(scope, b),
            index::states_of(index::collected(scope, a)),
        ),
{
    lemma_states_of_walks(scope, a, b);
}

/// One turn of polling: the states of the files, and the files of the index that
/// a rebuild would give now, if it would succeed.
pub struct PollTurn {
    pub now: Seq<(Seq<u8>, FileState)>,
    pub rebuild: Option<Seq<(Seq<u8>, IndexedFile)>>,
}

/// The files of an index, where rebuilding gave one.
pub open spec fn rebuilt_files(index: Option<&Index>) -> Option<Seq<(Seq<u8>, IndexedFile)>> {
    match index {
        Some(i) => Some(i.files@),
        None => None,
    }
}

/// Whether the index is rebuilt in a turn, given the states that are kept.
pub open spec fn is_rebuilt(kept: Seq<(Seq<u8>, FileState)>, turn: PollTurn) -> bool {
    !index::same_states(turn.now, kept)
}

/// The files of the index after some turns: those of the last rebuild that
/// succeeded. The states of these files are kept.
pub open spec fn polled(
    first: Seq<(Seq<u8>, IndexedFile)>,
    turns: Seq<PollTurn>,
) -> Seq<(Seq<u8>, IndexedFile)>
    decreases turns.len(),
{
    if turns.len() == 0 {
        first
    } else {
        let before = polled(first, turns.drop_last());
        if is_rebuilt(index::states_of(before), turns.last()) {
            match turns.last().rebuild {
                Some(files) => files,
                None => before,
            }
        } else {
            before
        }
    }
}

/// The index follows the files: after a turn in which a path had another state
/// than in the index, and in which rebuilding succeeds, it is what was rebuilt.
pub proof fn law_index_follows_the_files(
    first: Seq<(Seq<u8>, IndexedFile)>,
    turns: Seq<PollTurn>,
    key: Seq<u8>,
)
    requires
        turns.len() > 0,
        path_map::in_path_order(turns.last().now),
        path_map::in_path_order(polled(first, turns.drop_last())),
        path_map::value_at(turns.last().now, key) != path_map::value_at(
            index::states_of(polled(first, turns.drop_last())),
            key,
        ),
        turns.last().rebuild is Some,
    ensures
        polled(first, turns) == turns.last().rebuild->0,
{
    let before = polled(first, turns.drop_last());
    let kept = index::states_of(before);
    assert(path_map::in_path_order(kept)) by {
        assert forall|i: int, j: int| 0 <= i < j < kept.len() implies path::path_before(
            #[trigger] kept[i].0,
            #[trigger] kept[j].0,
        ) by {
            assert(kept[i].0 == before[i].0 && kept[j].0 == before[j].0);
        }
    }
    index::law_same_states_by_path(turns.last().now, kept);
}

/// A rebuild that fails is tried again: the index stays as it was, and a next turn
/// that comes upon the same states rebuilds it.
pub proof fn law_failed_rebuild_is_tried_again(
    first: Seq<(Seq<u8>, IndexedFile)>,
    turns: Seq<PollTurn>,
    next: PollTurn,
)
    requires
        turns.len() > 0,
        is_rebuilt(index::states_of(polled(first, turns.drop_last())), turns.last()),
        turns.last().rebuild is None,
        next.now == turns.last().now,
    ensures
        polled(first, turns) == polled(first, turns.drop_last()),
        is_rebuilt(index::states_of(polled(first, turns)), next),
{
}

/// A turn in which the states are those of the index leaves it as it is.
pub proof fn law_unchanged_turn_keeps_index(
    first: Seq<(Seq<u8>, IndexedFile)>,
    turns: Seq<PollTurn>,
)
    ensures
        polled(first, Seq::empty()) == first,
        turns.len() > 0 && index::same_states(
            turns.last().now,
            index::states_of(polled(first, turns.drop_last())),
        ) ==> polled(first, turns) == polled(first, turns.drop_last()),
{
}

/// Only a directory with no excluded name in its path is watched: with all below
/// it where the scope takes all, and alone where a watch pattern matches it.
pub proof fn law_watch_action(scope: Scope, p: Seq<u8>, is_dir: bool)
    ensures
        action_for(scope, p, is_dir) == WatchAction::Tree <==> is_dir
            && crate::scope::is_watchable(p) && scope.all,
        action_for(scope, p, is_dir) == WatchAction::Directory <==> is_dir
            && crate::scope::is_watchable(p) && !scope.all && scope.watches(p),
{
}

/// A changed file rebuilds the index exactly where it belongs there. A changed
/// directory does where the scope takes all or watches it.
pub proof fn law_rebuild_on_change(scope: Scope, p: Seq<u8>)
    ensures
        rebuilds_for(scope, p, false) == scope.indexes(p),
        rebuilds_for(scope, p, true) == (scope.all || scope.watches(p)),
{
}

} // verus!
