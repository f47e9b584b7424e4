//! A map from paths to values that is kept in the order of its paths.
use crate::path;
use vstd::prelude::*;
use vstd::slice::slice_to_vec;

verus! {

/// A path and the value that is stored under it.
pub struct PathEntry<T> {
    pub path: Vec<u8>,
    pub value: T,
}

/// Values stored under paths. Paths with the same components are the same key.
pub struct PathMap<T> {
    entries: Vec<PathEntry<T>>,
}

impl<T> View for PathMap<T> {
    type V = Seq<(Seq<u8>, T)>;

    /// The paths and their values, in the order in which they are walked.
    closed spec fn view(&self) -> Seq<(Seq<u8>, T)> {
        self.entries@.map_values(|e: PathEntry<T>| (e.path@, e.value))
    }
}

/// Whether the paths ascend, which excludes that one occurs twice.
pub open spec fn in_path_order<T>(entries: Seq<(Seq<u8>, T)>) -> bool {
    forall|i: int, j: int|
        0 <= i < j < entries.len() ==> path::path_before(
            #[trigger] entries[i].0,
            #[trigger] entries[j].0,
        )
}

/// How many entries at the start come before `key`.
pub open spec fn count_before<T>(entries: Seq<(Seq<u8>, T)>, key: Seq<u8>) -> int
    decreases entries.len(),
{
    if entries.len() == 0 || !path::path_before(entries[0].0, key) {
        0
    } else {
        1 + count_before(entries.drop_first(), key)
    }
}

/// The entries with `value` stored under `key`. A key that is already there
/// stays as it was written first and gets the new value.
pub open spec fn inserted<T>(
    entries: Seq<(Seq<u8>, T)>,
    key: Seq<u8>,
    value: T,
) -> Seq<(Seq<u8>, T)> {
    let at = count_before(entries, key);
    if at < entries.len() && path::same_path(entries[at].0, key) {
        entries.update(at, (entries[at].0, value))
    } else {
        entries.insert(at, (key, value))
    }
}

/// The value under a path, found by the path's components.
pub open spec fn value_at<T>(entries: Seq<(Seq<u8>, T)>, key: Seq<u8>) -> Option<T> {
    let at = count_before(entries, key);
    if at < entries.len() && path::same_path(entries[at].0, key) {
        Some(entries[at].1)
    } else {
        None
    }
}

pub proof fn lemma_count_before<T>(entries: Seq<(Seq<u8>, T)>, key: Seq<u8>)
    ensures
        0 <= count_before(entries, key) <= entries.len(),
        forall|i: int|
            0 <= i < count_before(entries, key) ==> path::path_before(#[trigger] entries[i].0, key),
        count_before(entries, key) < entries.len() ==> !path::path_before(
            entries[count_before(entries, key)].0,
            key,
        ),
    decreases entries.len(),
{
    if entries.len() > 0 && path::path_before(entries[0].0, key) {
        let rest = entries.drop_first();
        lemma_count_before(rest, key);
        assert forall|i: int| 0 <= i < count_before(entries, key) implies path::path_before(
            #[trigger] entries[i].0,
            key,
        ) by {
            if i > 0 {
                assert(entries[i] == rest[i - 1]);
            }
        }
    }
}

pub proof fn lemma_count_before_is<T>(entries: Seq<(Seq<u8>, T)>, key: Seq<u8>, at: int)
    requires
        0 <= at <= entries.len(),
        forall|i: int| 0 <= i < at ==> path::path_before(#[trigger] entries[i].0, key),
        at < entries.len() ==> !path::path_before(entries[at].0, key),
    ensures
        count_before(entries, key) == at,
{
    lemma_count_before(entries, key);
    let n = count_before(entries, key);
    if n < at {
        assert(path::path_before(entries[n].0, key));
    } else if at < n {
        assert(path::path_before(entries[at].0, key));
    }
}

/// In an ordered list, whatever stands behind the entries before `key` and is
/// not `key` comes after it.
proof fn lemma_rest_is_after<T>(entries: Seq<(Seq<u8>, T)>, key: Seq<u8>, i: int)
    requires
        in_path_order(entries),
        count_before(entries, key) <= i < entries.len(),
        count_before(entries, key) < i || !path::same_path(entries[i].0, key),
    ensures
        path::path_before(key, entries[i].0),
{
    let at = count_before(entries, key);
    lemma_count_before(entries, key);
    path::law_paths_are_ordered(entries[at].0, key);
    if at < i {
        assert(path::path_before(entries[at].0, entries[i].0));
        if path::path_before(key, entries[at].0) {
            path::law_path_order_chains(key, entries[at].0, entries[i].0);
        }
    }
}

/// Storing a value keeps the entries in the order of their paths.
pub proof fn law_insert_keeps_order<T>(entries: Seq<(Seq<u8>, T)>, key: Seq<u8>, value: T)
    requires
        in_path_order(entries),
    ensures
        in_path_order(inserted(entries, key, value)),
{
    let at = count_before(entries, key);
    lemma_count_before(entries, key);
    let after = inserted(entries, key, value);
    if at < entries.len() && path::same_path(entries[at].0, key) {
        assert forall|i: int, j: int| 0 <= i < j < after.len() implies path::path_before(
            #[trigger] after[i].0,
            #[trigger] after[j].0,
        ) by {
            assert(after[i].0 == entries[i].0 && after[j].0 == entries[j].0);
        }
    } else {
        assert forall|i: int, j: int| 0 <= i < j < after.len() implies path::path_before(
            #[trigger] after[i].0,
            #[trigger] after[j].0,
        ) by {
            if j < at {
                assert(after[i] == entries[i] && after[j] == entries[j]);
            } else if j == at {
                assert(after[i] == entries[i]);
            } else if i < at {
                assert(after[i] == entries[i] && after[j] == entries[j - 1]);
            } else if i == at {
                assert(after[j] == entries[j - 1]);
                lemma_rest_is_after(entries, key, j - 1);
            } else {
                assert(after[i] == entries[i - 1] && after[j] == entries[j - 1]);
            }
        }
    }
}

/// After a value is stored under a path, it is found under every path with the
/// same components, and under every other path is found what was found before.
pub proof fn law_insert_then_find<T>(
    entries: Seq<(Seq<u8>, T)>,
    key: Seq<u8>,
    value: T,
    other: Seq<u8>,
)
    requires
        in_path_order(entries),
    ensures
        value_at(inserted(entries, key, value), other) == (if path::same_path(key, other) {
            Some(value)
        } else {
            value_at(entries, other)
        }),
{
    let at = count_before(entries, key);
    lemma_count_before(entries, key);
    lemma_count_before(entries, other);
    let after = inserted(entries, key, value);
    let n = count_before(entries, other);
    path::law_paths_are_ordered(key, other);
    law_insert_keeps_order(entries, key, value);
    if path::same_path(key, other) {
        assert forall|i: int| 0 <= i < at implies path::path_before(
            #[trigger] after[i].0,
            other,
        ) by {
            assert(after[i] == entries[i]);
        }
        path::law_paths_are_ordered(after[at].0, other);
        lemma_count_before_is(after, other, at);
    } else if at < entries.len() && path::same_path(entries[at].0, key) {
        assert forall|i: int| 0 <= i < n implies path::path_before(#[trigger] after[i].0, other) by {
            assert(after[i].0 == entries[i].0);
        }
        if n < after.len() {
            assert(after[n].0 == entries[n].0);
        }
        lemma_count_before_is(after, other, n);
    } else if path::path_before(key, other) {
        if n < at {
            path::law_path_order_chains(entries[n].0, key, other);
        }
        assert forall|i: int| 0 <= i < n + 1 implies path::path_before(
            #[trigger] after[i].0,
            other,
        ) by {
            if i < at {
                assert(after[i] == entries[i]);
            } else if i > at {
                assert(after[i] == entries[i - 1]);
            }
        }
        if n + 1 < after.len() {
            assert(after[n + 1] == entries[n]);
        }
        lemma_count_before_is(after, other, n + 1);
    } else {
        if n > at {
            assert(path::path_before(entries[at].0, other));
            lemma_rest_is_after(entries, key, at);
            path::law_path_order_chains(key, entries[at].0, other);
        }
        assert forall|i: int| 0 <= i < n implies path::path_before(#[trigger] after[i].0, other) by {
            assert(after[i] == entries[i]);
        }
        if n < at {
            assert(after[n] == entries[n]);
        } else {
            assert(after[n] == (key, value));
            if n < entries.len() && path::same_path(entries[n].0, other) {
                lemma_rest_is_after(entries, key, n);
                path::law_paths_are_ordered(entries[n].0, key);
            }
        }
        lemma_count_before_is(after, other, n);
    }
}

impl<T> PathMap<T> {
    #[verifier::type_invariant]
    spec fn ordered(self) -> bool {
        in_path_order(self@)
    }

    /// A map without entries.
    pub fn new() -> (map: PathMap<T>)
        ensures
            map@ == Seq::<(Seq<u8>, T)>::empty(),
    {
        let map = PathMap { entries: Vec::new() };
        assert(map@ =~= Seq::<(Seq<u8>, T)>::empty());
        map
    }

    /// The number of entries.
    pub fn len(&self) -> (n: usize)
        ensures
            n == self@.len(),
            in_path_order(self@),
    {
        proof {
            use_type_invariant(self);
        }
        self.entries.len()
    }

    /// The entry at a position, counted in the order of the paths.
    pub fn entry(&self, i: usize) -> (e: &PathEntry<T>)
        requires
            i < self@.len(),
        ensures
            (e.path@, e.value) == self@[i as int],
    {
        &self.entries[i]
    }

    /// Stores a value under a path; see [`inserted`].
    pub fn insert(&mut self, key: Vec<u8>, value: T)
        ensures
            final(self)@ == inserted(old(self)@, key@, value),
    {
        proof {
            use_type_invariant(&*self);
        }
        let ghost before = self@;
        let mut entries: Vec<PathEntry<T>> = Vec::new();
        std::mem::swap(&mut entries, &mut self.entries);
        let mut lo: usize = 0;
        let mut hi: usize = entries.len();
        while lo < hi
            invariant
                lo <= hi <= entries@.len(),
                before == entries@.map_values(|e: PathEntry<T>| (e.path@, e.value)),
                in_path_order(before),
                forall|i: int| 0 <= i < lo ==> path::path_before(#[trigger] before[i].0, key@),
                forall|i: int|
                    hi <= i < before.len() ==> !path::path_before(#[trigger] before[i].0, key@),
            decreases hi - lo,
        {
            let mid: usize = lo + (hi - lo) / 2;
            assert(before[mid as int].0 == entries@[mid as int].path@);
            match path::place_paths(entries[mid].path.as_slice(), key.as_slice()) {
                path::Placement::Before => {
                    assert forall|i: int| 0 <= i < mid + 1 implies path::path_before(
                        #[trigger] before[i].0,
                        key@,
                    ) by {
                        if i < mid {
                            path::law_path_order_chains(before[i].0, before[mid as int].0, key@);
                        }
                    }
                    lo = mid + 1;
                },
                _ => {
                    assert forall|i: int| mid <= i < before.len() implies !path::path_before(
                        #[trigger] before[i].0,
                        key@,
                    ) by {
                        path::law_paths_are_ordered(before[mid as int].0, key@);
                        if path::path_before(before[i].0, key@) && mid < i {
                            path::law_path_order_chains(before[mid as int].0, before[i].0, key@);
                        }
                    }
                    hi = mid;
                },
            }
        }
        let ghost at = lo as int;
        proof {
            lemma_count_before_is(before, key@, at);
            law_insert_keeps_order(before, key@, value);
        }
        let found = if lo < entries.len() {
            assert(before[at].0 == entries@[at].path@);
            proof {
                path::law_paths_are_ordered(before[at].0, key@);
            }
            match path::place_paths(entries[lo].path.as_slice(), key.as_slice()) {
                path::Placement::Same => true,
                _ => false,
            }
        } else {
            false
        };
        let ghost list = entries@;
        if found {
            let kept = slice_to_vec(entries[lo].path.as_slice());
            entries.set(lo, PathEntry { path: kept, value });
        } else {
            entries.insert(lo, PathEntry { path: key, value });
        }
        assert(entries@.map_values(|e: PathEntry<T>| (e.path@, e.value)) =~= inserted(
            before,
            key@,
            value,
        ));
        self.entries = entries;
    }
}

} // verus!
