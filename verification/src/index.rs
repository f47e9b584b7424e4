//! The index of Markdown files, and how a walk over the files fills it.
use crate::path;
use crate::path_map;
use crate::path_map::PathMap;
use crate::scope::{is_indexed_markdown, Scope};
use crate::text;
use vstd::prelude::*;
use vstd::slice::slice_to_vec;

verus! {

/// The version of the index format.
pub const INDEX_VERSION: u32 = 1;

/// What the index holds of one file.
pub struct IndexedFile {
    pub modified: u64,
    pub size: u64,
    pub lines: Vec<String>,
}

/// What tells whether a file has changed.
#[derive(Debug, Clone, Copy, PartialEq, Eq, Structural)]
pub struct FileState {
    pub modified: u64,
    pub size: u64,
}

/// The index of the Markdown files below a root.
pub struct Index {
    pub version: u32,
    pub root: Vec<u8>,
    pub generated_at: u64,
    pub files: PathMap<IndexedFile>,
}

/// The Unix time of a moment, given the whole seconds between the start of the
/// epoch and that moment. A moment before the epoch counts as its start.
pub fn system_time_to_unix(since_epoch: Option<u64>) -> (time: u64)
    ensures
        time == (match since_epoch {
            Some(seconds) => seconds,
            None => 0,
        }),
{
    match since_epoch {
        Some(seconds) => seconds,
        None => 0,
    }
}

/// What the index holds of a file with the given contents.
pub fn index_file(content: &str, modified: u64, size: u64) -> (file: IndexedFile)
    ensures
        file.modified == modified,
        file.size == size,
        text::texts(file.lines@) == text::lines(content@),
{
    let chars = text::chars_of(content);
    IndexedFile { modified, size, lines: text::split_lines(chars.as_slice()) }
}

/// A walk over files that stores a value for each file that belongs into the
/// index. The file that was last found to belong there waits for its value.
pub struct Walk<T> {
    pub found: PathMap<T>,
    pub waiting: Option<Vec<u8>>,
}

/// One step of a walk: a path, whether it is a file, and the value that was
/// read for it, if it could be read.
pub struct Visit<T> {
    pub path: Seq<u8>,
    pub is_file: bool,
    pub value: Option<T>,
}

/// What a walk stores: the values of the files that belong into the index and
/// could be read, each under its path.
pub open spec fn collected<T>(scope: Scope, visits: Seq<Visit<T>>) -> Seq<(Seq<u8>, T)>
    decreases visits.len(),
{
    if visits.len() == 0 {
        Seq::empty()
    } else {
        let before = collected(scope, visits.drop_last());
        let visit = visits.last();
        if visit.is_file && scope.indexes(visit.path) && visit.value is Some {
            path_map::inserted(before, visit.path, visit.value->0)
        } else {
            before
        }
    }
}

/// Whether every path belongs into the index.
pub open spec fn all_indexed<T>(scope: Scope, entries: Seq<(Seq<u8>, T)>) -> bool {
    forall|i: int| 0 <= i < entries.len() ==> scope.indexes(#[trigger] entries[i].0)
}

proof fn lemma_insert_stays_indexed<T>(
    scope: Scope,
    entries: Seq<(Seq<u8>, T)>,
    key: Seq<u8>,
    value: T,
)
    requires
        all_indexed(scope, entries),
        path_map::in_path_order(entries),
        scope.indexes(key),
    ensures
        all_indexed(scope, path_map::inserted(entries, key, value)),
{
    let after = path_map::inserted(entries, key, value);
    path_map::lemma_count_before(entries, key);
    let at = path_map::count_before(entries, key);
    assert forall|i: int| 0 <= i < after.len() implies scope.indexes(#[trigger] after[i].0) by {
        if at < entries.len() && path::same_path(entries[at].0, key) {
            assert(after[i].0 == entries[i].0);
        } else if i < at {
            assert(after[i] == entries[i]);
        } else if i > at {
            assert(after[i] == entries[i - 1]);
        }
    }
}

/// A walk stores values in the order of their paths, and none for a file that
/// does not belong into the index.
pub proof fn law_walk_stores_indexed_files<T>(scope: Scope, visits: Seq<Visit<T>>)
    ensures
        path_map::in_path_order(collected(scope, visits)),
        all_indexed(scope, collected(scope, visits)),
    decreases visits.len(),
{
    if visits.len() > 0 {
        law_walk_stores_indexed_files(scope, visits.drop_last());
        let before = collected(scope, visits.drop_last());
        let visit = visits.last();
        if visit.is_file && scope.indexes(visit.path) && visit.value is Some {
            path_map::law_insert_keeps_order(before, visit.path, visit.value->0);
            lemma_insert_stays_indexed(scope, before, visit.path, visit.value->0);
        }
    }
}

/// The value that was read last for a file that belongs into the index, among
/// the visits to paths with the components of `key`.
pub open spec fn last_read<T>(scope: Scope, visits: Seq<Visit<T>>, key: Seq<u8>) -> Option<T>
    decreases visits.len(),
{
    if visits.len() == 0 {
        None
    } else {
        let visit = visits.last();
        if visit.is_file && scope.indexes(visit.path) && visit.value is Some && path::same_path(
            visit.path,
            key,
        ) {
            visit.value
        } else {
            last_read(scope, visits.drop_last(), key)
        }
    }
}

/// Under each path a walk stores what was read last for it.
pub proof fn law_walk_stores_what_was_read<T>(scope: Scope, visits: Seq<Visit<T>>, key: Seq<u8>)
    ensures
        path_map::value_at(collected(scope, visits), key) == last_read(scope, visits, key),
    decreases visits.len(),
{
    if visits.len() > 0 {
        law_walk_stores_what_was_read(scope, visits.drop_last(), key);
        law_walk_stores_indexed_files(scope, visits.drop_last());
        let before = collected(scope, visits.drop_last());
        let visit = visits.last();
        if visit.is_file && scope.indexes(visit.path) && visit.value is Some {
            path_map::law_insert_then_find(before, visit.path, visit.value->0, key);
        }
    }
}

impl<T> Walk<T> {
    /// A walk that has not met a file.
    pub fn start(scope: &Scope) -> (walk: Walk<T>)
        ensures
            walk.found@ == collected::<T>(*scope, Seq::empty()),
            walk.waiting is None,
    {
        Walk { found: PathMap::new(), waiting: None }
    }

    /// Meets an entry and says whether its file has to be read.
    pub fn meet(&mut self, scope: &Scope, p: &[u8], is_file: bool) -> (wanted: bool)
        ensures
            wanted == (is_file && scope.indexes(p@)),
            final(self).found@ == old(self).found@,
            path::optional_bytes(final(self).waiting) == (if wanted {
                Some(p@)
            } else {
                None
            }),
            forall|visits: Seq<Visit<T>>|
                old(self).found@ == #[trigger] collected(*scope, visits) && !wanted
                    ==> final(self).found@ == collected(
                    *scope,
                    visits.push(Visit { path: p@, is_file, value: None }),
                ),
    {
        let wanted = is_file && is_indexed_markdown(scope, p);
        self.waiting = if wanted {
            Some(slice_to_vec(p))
        } else {
            None
        };
        assert forall|visits: Seq<Visit<T>>|
            old(self).found@ == #[trigger] collected(*scope, visits) && !wanted implies self.found@
            == collected(*scope, visits.push(Visit { path: p@, is_file, value: None })) by {
            let visit = Visit::<T> { path: p@, is_file, value: None };
            assert(visits.push(visit).drop_last() =~= visits);
        }
        wanted
    }

    /// Stores what was read of the file that waits for it. A file that could
    /// not be read is left waiting until the next entry is met.
    pub fn store(&mut self, value: T)
        ensures
            final(self).waiting is None,
            match old(self).waiting {
                Some(p) => {
                    &&& final(self).found@ == path_map::inserted(old(self).found@, p@, value)
                    &&& forall|scope: Scope, visits: Seq<Visit<T>>|
                        old(self).found@ == #[trigger] collected(scope, visits) && scope.indexes(
                            p@,
                        ) ==> final(self).found@ == collected(
                            scope,
                            visits.push(
                                (Visit { path: p@, is_file: true, value: Some(value) }),
                            ),
                        )
                },
                None => final(self).found@ == old(self).found@,
            },
    {
        let waiting = self.waiting.take();
        if let Some(p) = waiting {
            let ghost before = self.found@;
            let ghost key = p@;
            self.found.insert(p, value);
            assert forall|scope: Scope, visits: Seq<Visit<T>>|
                before == #[trigger] collected(scope, visits) && scope.indexes(
                    key,
                ) implies self.found@ == collected(
                scope,
                visits.push((Visit { path: key, is_file: true, value: Some(value) })),
            ) by {
                let visit = Visit { path: key, is_file: true, value: Some(value) };
                assert(visits.push(visit).drop_last() =~= visits);
            }
        }
    }
}

/// The index that a finished walk gives.
pub fn build_index(scope: &Scope, walk: Walk<IndexedFile>, generated_at: u64) -> (index: Index)
    ensures
        index.version == 1,
        index.root@ == scope.root@,
        index.generated_at == generated_at,
        index.files@ == walk.found@,
{
    Index {
        version: INDEX_VERSION,
        root: slice_to_vec(scope.root.as_slice()),
        generated_at,
        files: walk.found,
    }
}

/// Where an index is written before it takes the place of the one before: beside
/// it, under the same name with another extension.
pub fn temporary_path(index_path: &[u8]) -> (p: Vec<u8>)
    ensures
        p@ == path::with_extension(index_path@, vstd::utf8::encode_utf8("json.tmp"@)),
{
    path::replace_extension(index_path, "json.tmp".as_bytes())
}

/// The file states that a finished walk gives.
pub fn collect_file_state(walk: Walk<FileState>) -> (states: PathMap<FileState>)
    ensures
        states@ == walk.found@,
{
    walk.found
}

/// The state of an indexed file.
pub open spec fn state_of(file: IndexedFile) -> FileState {
    FileState { modified: file.modified, size: file.size }
}

/// The states of indexed files, each under its path.
pub open spec fn states_of(files: Seq<(Seq<u8>, IndexedFile)>) -> Seq<(Seq<u8>, FileState)> {
    files.map_values(|e: (Seq<u8>, IndexedFile)| (e.0, state_of(e.1)))
}

/// Whether two lists name the same files, in the same states.
pub open spec fn same_states(
    a: Seq<(Seq<u8>, FileState)>,
    b: Seq<(Seq<u8>, FileState)>,
) -> bool {
    &&& a.len() == b.len()
    &&& forall|i: int|
        0 <= i < a.len() ==> path::same_path((#[trigger] a[i]).0, b[i].0) && a[i].1 == b[i].1
}

/// The states of the files in an index.
pub fn index_states(index: &Index) -> (states: PathMap<FileState>)
    ensures
        states@ == states_of(index.files@),
{
    let n = index.files.len();
    let ghost all = states_of(index.files@);
    let mut states: PathMap<FileState> = PathMap::new();
    let mut i: usize = 0;
    assert(states@ =~= all.take(0));
    while i < n
        invariant
            n == index.files@.len(),
            i <= n,
            path_map::in_path_order(index.files@),
            all == states_of(index.files@),
            states@ == all.take(i as int),
        decreases n - i,
    {
        let e = index.files.entry(i);
        let state = FileState { modified: e.value.modified, size: e.value.size };
        let key = slice_to_vec(e.path.as_slice());
        proof {
            let done = all.take(i as int);
            assert(all[i as int] == (key@, state));
            assert forall|j: int| 0 <= j < i implies path::path_before(
                #[trigger] done[j].0,
                key@,
            ) by {
                assert(done[j].0 == index.files@[j].0);
                assert(key@ == index.files@[i as int].0);
            }
            path_map::lemma_count_before_is(done, key@, i as int);
            assert(path_map::inserted(done, key@, state) =~= all.take(i + 1));
        }
        states.insert(key, state);
        i += 1;
    }
    assert(all.take(i as int) =~= all);
    states
}

/// Whether two walks found the same files in the same states.
pub fn equal_states(a: &PathMap<FileState>, b: &PathMap<FileState>) -> (same: bool)
    ensures
        same == same_states(a@, b@),
{
    let n = a.len();
    if n != b.len() {
        return false;
    }
    let mut i: usize = 0;
    while i < n
        invariant
            n == a@.len(),
            n == b@.len(),
            i <= n,
            forall|j: int|
                0 <= j < i ==> path::same_path((#[trigger] a@[j]).0, b@[j].0) && a@[j].1
                    == b@[j].1,
        decreases n - i,
    {
        let x = a.entry(i);
        let y = b.entry(i);
        proof {
            path::law_paths_are_ordered(x.path@, y.path@);
            path::law_paths_are_ordered(y.path@, x.path@);
        }
        let same_key = match path::place_paths(x.path.as_slice(), y.path.as_slice()) {
            path::Placement::Same => true,
            _ => false,
        };
        if !same_key || x.value != y.value {
            return false;
        }
        i += 1;
    }
    true
}

proof fn lemma_count_before_by_components<T>(
    entries: Seq<(Seq<u8>, T)>,
    others: Seq<(Seq<u8>, T)>,
    key: Seq<u8>,
)
    requires
        entries.len() == others.len(),
        forall|i: int|
            0 <= i < entries.len() ==> path::same_path((#[trigger] entries[i]).0, others[i].0),
    ensures
        path_map::count_before(entries, key) == path_map::count_before(others, key),
{
    path_map::lemma_count_before(entries, key);
    let at = path_map::count_before(entries, key);
    assert forall|i: int| 0 <= i < at implies path::path_before(#[trigger] others[i].0, key) by {
        assert(path::same_path(entries[i].0, others[i].0));
    }
    if at < entries.len() {
        assert(path::same_path(entries[at].0, others[at].0));
    }
    path_map::lemma_count_before_is(others, key, at);
}

/// In an ordered list, an entry is found under its own path.
proof fn lemma_entry_is_found<T>(entries: Seq<(Seq<u8>, T)>, i: int)
    requires
        path_map::in_path_order(entries),
        0 <= i < entries.len(),
    ensures
        path_map::value_at(entries, entries[i].0) == Some(entries[i].1),
{
    path::law_paths_are_ordered(entries[i].0, entries[i].0);
    path_map::lemma_count_before_is(entries, entries[i].0, i);
}

/// The values behind the first entry are found as before, and the first is
/// not found among them.
proof fn lemma_find_in_rest<T>(entries: Seq<(Seq<u8>, T)>, key: Seq<u8>)
    requires
        path_map::in_path_order(entries),
        entries.len() > 0,
    ensures
        path_map::value_at(entries.drop_first(), key) == (if path::same_path(entries[0].0, key) {
            None
        } else {
            path_map::value_at(entries, key)
        }),
{
    let rest = entries.drop_first();
    path::law_paths_are_ordered(entries[0].0, key);
    path_map::lemma_count_before(rest, key);
    if path::path_before(entries[0].0, key) {
        assert(path_map::count_before(entries, key) == 1 + path_map::count_before(rest, key));
        let at = path_map::count_before(rest, key);
        if at < rest.len() {
            assert(rest[at] == entries[at + 1]);
        }
    } else {
        if rest.len() > 0 {
            assert(rest[0] == entries[1]);
            assert(path::path_before(entries[0].0, entries[1].0));
            path::law_paths_are_ordered(rest[0].0, key);
            if path::path_before(rest[0].0, key) {
                path::law_path_order_chains(entries[0].0, rest[0].0, key);
            } else if path::same_path(rest[0].0, key) {
                assert(path::path_before(entries[0].0, key));
            }
            path_map::lemma_count_before_is(rest, key, 0);
        }
        path_map::lemma_count_before_is(entries, key, 0);
    }
}

/// Two ordered lists name the same files in the same states exactly if each
/// path leads to the same state in both.
pub proof fn law_same_states_by_path(
    a: Seq<(Seq<u8>, FileState)>,
    b: Seq<(Seq<u8>, FileState)>,
)
    requires
        path_map::in_path_order(a),
        path_map::in_path_order(b),
    ensures
        same_states(a, b) <==> (forall|key: Seq<u8>|
            #[trigger] path_map::value_at(a, key) == path_map::value_at(b, key)),
    decreases a.len(),
{
    if same_states(a, b) {
        assert forall|key: Seq<u8>| #[trigger] path_map::value_at(a, key) == path_map::value_at(
            b,
            key,
        ) by {
            lemma_count_before_by_components(a, b, key);
            path_map::lemma_count_before(a, key);
            let at = path_map::count_before(a, key);
            if at < a.len() {
                assert(path::same_path(a[at].0, b[at].0));
            }
        }
    }
    if forall|key: Seq<u8>| #[trigger] path_map::value_at(a, key) == path_map::value_at(b, key) {
        if a.len() == 0 {
            if b.len() > 0 {
                lemma_entry_is_found(b, 0);
                assert(path_map::value_at(a, b[0].0) is None);
            }
        } else {
            lemma_entry_is_found(a, 0);
            assert(path_map::value_at(b, a[0].0) == Some(a[0].1));
            path_map::lemma_count_before(b, a[0].0);
            let k = path_map::count_before(b, a[0].0);
            lemma_entry_is_found(b, 0);
            assert(path_map::value_at(a, b[0].0) == Some(b[0].1));
            path_map::lemma_count_before(a, b[0].0);
            let m = path_map::count_before(a, b[0].0);
            assert(path::same_path(b[k].0, a[0].0));
            assert(path::same_path(a[m].0, b[0].0));
            if k > 0 {
                assert(path::path_before(b[0].0, b[k].0));
                assert(path::path_before(a[m].0, a[0].0));
                if m > 0 {
                    assert(path::path_before(a[0].0, a[m].0));
                    path::law_paths_are_ordered(a[0].0, a[m].0);
                } else {
                    path::law_paths_are_ordered(a[0].0, a[0].0);
                }
            }
            assert(path::same_path(a[0].0, b[0].0));
            assert(a[0].1 == b[0].1);
            let x = a.drop_first();
            let y = b.drop_first();
            assert forall|key: Seq<u8>| #[trigger] path_map::value_at(x, key)
                == path_map::value_at(y, key) by {
                lemma_find_in_rest(a, key);
                lemma_find_in_rest(b, key);
                assert(path_map::value_at(a, key) == path_map::value_at(b, key));
            }
            assert(path_map::in_path_order(x)) by {
                assert forall|i: int, j: int| 0 <= i < j < x.len() implies path::path_before(
                    #[trigger] x[i].0,
                    #[trigger] x[j].0,
                ) by {
                    assert(x[i] == a[i + 1] && x[j] == a[j + 1]);
                }
            }
            assert(path_map::in_path_order(y)) by {
                assert forall|i: int, j: int| 0 <= i < j < y.len() implies path::path_before(
                    #[trigger] y[i].0,
                    #[trigger] y[j].0,
                ) by {
                    assert(y[i] == b[i + 1] && y[j] == b[j + 1]);
                }
            }
            law_same_states_by_path(x, y);
            assert(same_states(x, y));
            assert forall|i: int| 0 <= i < a.len() implies path::same_path(
                (#[trigger] a[i]).0,
                b[i].0,
            ) && a[i].1 == b[i].1 by {
                if i > 0 {
                    assert(a[i] == x[i - 1] && b[i] == y[i - 1]);
                }
            }
        }
    }
}

/// Whether a visit reads a file that belongs into the index, under a path with the
/// components of `key`.
pub open spec fn reads<T>(scope: Scope, visit: Visit<T>, key: Seq<u8>) -> bool {
    &&& visit.is_file
    &&& scope.indexes(visit.path)
    &&& visit.value is Some
    &&& path::components(visit.path) == path::components(key)
}

/// What was read last under a path is what the last visit read that reads it, and
/// nothing where no visit does.
pub proof fn law_last_read<T>(scope: Scope, visits: Seq<Visit<T>>, key: Seq<u8>, i: int)
    requires
        -1 <= i < visits.len(),
        0 <= i ==> reads(scope, visits[i], key),
        forall|j: int| i < j < visits.len() ==> !#[trigger] reads(scope, visits[j], key),
    ensures
        0 <= i ==> last_read(scope, visits, key) == visits[i].value,
        i == -1 ==> last_read(scope, visits, key) is None,
    decreases visits.len(),
{
    if visits.len() > 0 {
        let shorter = visits.drop_last();
        if i < shorter.len() {
            assert(!reads(scope, visits[visits.len() - 1], key));
            assert forall|j: int| i < j < shorter.len() implies !#[trigger] reads(
                scope,
                shorter[j],
                key,
            ) by {
                assert(shorter[j] == visits[j]);
            }
            law_last_read(scope, shorter, key, i);
        }
    }
}

/// The states of an index are those of its files, one for each, under the same
/// paths, with the times and sizes that the index holds.
pub proof fn law_states_are_those_of_the_files(files: Seq<(Seq<u8>, IndexedFile)>, i: int)
    ensures
        states_of(files).len() == files.len(),
        0 <= i < files.len() ==> {
            &&& states_of(files)[i].0 == files[i].0
            &&& states_of(files)[i].1.modified == files[i].1.modified
            &&& states_of(files)[i].1.size == files[i].1.size
        },
{
}

} // verus!
