//! File paths as byte sequences, with `/` between their components.
use crate::text;
use vstd::prelude::*;
use vstd::slice::{slice_subrange, slice_to_vec};

verus! {

/// The byte between the components of a path.
pub const SEPARATOR: u8 = 47;

/// The byte before the extension of a file name.
pub const DOT: u8 = 46;

/// The bytes that a list of byte vectors holds.
pub open spec fn byte_lists(list: Seq<Vec<u8>>) -> Seq<Seq<u8>> {
    list.map_values(|b: Vec<u8>| b@)
}

/// The bytes that an optional byte vector holds.
pub open spec fn optional_bytes(value: Option<Vec<u8>>) -> Option<Seq<u8>> {
    match value {
        Some(b) => Some(b@),
        None => None,
    }
}

pub open spec fn is_absolute(path: Seq<u8>) -> bool {
    path.len() > 0 && path[0] == SEPARATOR
}

/// The pieces of a path that count: empty ones do not, nor does `.` unless it
/// comes first.
pub open spec fn named_pieces(pieces: Seq<Seq<u8>>) -> Seq<Seq<u8>>
    decreases pieces.len(),
{
    if pieces.len() == 0 {
        Seq::empty()
    } else {
        let rest = named_pieces(pieces.drop_last());
        let piece = pieces.last();
        if piece.len() == 0 || (piece == seq![DOT] && pieces.len() > 1) {
            rest
        } else {
            rest.push(piece)
        }
    }
}

/// The components of a path: `/` for the root of an absolute path, then the
/// names, `.` and `..`.
pub open spec fn components(path: Seq<u8>) -> Seq<Seq<u8>> {
    let names = named_pieces(text::split(path, SEPARATOR));
    if is_absolute(path) {
        seq![seq![SEPARATOR]] + names
    } else {
        names
    }
}

/// Whether two paths have the same components.
pub open spec fn same_path(a: Seq<u8>, b: Seq<u8>) -> bool {
    components(a) == components(b)
}

/// Where the kinds of components stand in the order: the root, `.`, `..`, names.
pub open spec fn component_rank(c: Seq<u8>) -> int {
    if c == seq![SEPARATOR] {
        0
    } else if c == seq![DOT] {
        1
    } else if c == seq![DOT, DOT] {
        2
    } else {
        3
    }
}

/// The lexicographic order of byte sequences.
pub open spec fn bytes_before(a: Seq<u8>, b: Seq<u8>) -> bool
    decreases a.len(),
{
    if b.len() == 0 {
        false
    } else if a.len() == 0 {
        true
    } else {
        a[0] < b[0] || (a[0] == b[0] && bytes_before(a.drop_first(), b.drop_first()))
    }
}

pub open spec fn component_before(a: Seq<u8>, b: Seq<u8>) -> bool {
    ||| component_rank(a) < component_rank(b)
    ||| component_rank(a) == component_rank(b) && bytes_before(a, b)
}

/// The lexicographic order of component sequences.
pub open spec fn parts_before(a: Seq<Seq<u8>>, b: Seq<Seq<u8>>) -> bool
    decreases a.len(),
{
    if b.len() == 0 {
        false
    } else if a.len() == 0 {
        true
    } else {
        ||| component_before(a[0], b[0])
        ||| a[0] == b[0] && parts_before(a.drop_first(), b.drop_first())
    }
}

/// The order of paths: component by component.
pub open spec fn path_before(a: Seq<u8>, b: Seq<u8>) -> bool {
    parts_before(components(a), components(b))
}

/// `tail` taken from `base`: `tail` itself where it is absolute, else `tail`
/// behind `base` and a separator, unless `base` is empty or ends in one.
pub open spec fn joined(base: Seq<u8>, tail: Seq<u8>) -> Seq<u8> {
    if is_absolute(tail) {
        tail
    } else if base.len() == 0 || base.last() == SEPARATOR {
        base + tail
    } else {
        base.push(SEPARATOR) + tail
    }
}

/// The last component, where it is a name.
pub open spec fn file_name(path: Seq<u8>) -> Option<Seq<u8>> {
    let parts = components(path);
    if parts.len() > 0 && component_rank(parts.last()) == 3 {
        Some(parts.last())
    } else {
        None
    }
}

/// What stands behind the last dot of a file name that does not start with it.
pub open spec fn name_extension(name: Seq<u8>) -> Option<Seq<u8>> {
    let at = text::last_index(name, DOT);
    if at > 0 {
        Some(name.skip(at + 1))
    } else {
        None
    }
}

/// The extension of the file that a path names.
pub open spec fn extension(path: Seq<u8>) -> Option<Seq<u8>> {
    match file_name(path) {
        Some(name) => name_extension(name),
        None => None,
    }
}

proof fn lemma_bytes_before(a: Seq<u8>, b: Seq<u8>)
    ensures
        bytes_before(a, b) ==> a != b && !bytes_before(b, a),
        a != b ==> bytes_before(a, b) || bytes_before(b, a),
    decreases a.len(),
{
    if a.len() > 0 && b.len() > 0 && a[0] == b[0] {
        let x = a.drop_first();
        let y = b.drop_first();
        lemma_bytes_before(x, y);
        if x == y {
            assert(a =~= seq![a[0]] + x);
            assert(b =~= seq![b[0]] + y);
        }
    } else if a.len() == 0 && b.len() == 0 {
        assert(a =~= b);
    }
}

proof fn lemma_bytes_before_chain(a: Seq<u8>, b: Seq<u8>, c: Seq<u8>)
    requires
        bytes_before(a, b),
        bytes_before(b, c),
    ensures
        bytes_before(a, c),
    decreases a.len(),
{
    if a.len() > 0 && a[0] == b[0] && b[0] == c[0] {
        lemma_bytes_before_chain(a.drop_first(), b.drop_first(), c.drop_first());
    }
}

proof fn lemma_component_before(a: Seq<u8>, b: Seq<u8>)
    ensures
        component_before(a, b) ==> a != b && !component_before(b, a),
        a != b ==> component_before(a, b) || component_before(b, a),
{
    lemma_bytes_before(a, b);
}

proof fn lemma_component_before_chain(a: Seq<u8>, b: Seq<u8>, c: Seq<u8>)
    requires
        component_before(a, b),
        component_before(b, c),
    ensures
        component_before(a, c),
{
    if component_rank(a) == component_rank(b) && component_rank(b) == component_rank(c) {
        lemma_bytes_before_chain(a, b, c);
    }
}

proof fn lemma_parts_before(a: Seq<Seq<u8>>, b: Seq<Seq<u8>>)
    ensures
        parts_before(a, b) ==> a != b && !parts_before(b, a),
        a != b ==> parts_before(a, b) || parts_before(b, a),
    decreases a.len(),
{
    if a.len() > 0 && b.len() > 0 {
        lemma_component_before(a[0], b[0]);
        if a[0] == b[0] {
            let x = a.drop_first();
            let y = b.drop_first();
            lemma_parts_before(x, y);
            if x == y {
                assert(a =~= seq![a[0]] + x);
                assert(b =~= seq![b[0]] + y);
            }
        }
    } else if a.len() == 0 && b.len() == 0 {
        assert(a =~= b);
    }
}

proof fn lemma_parts_before_chain(a: Seq<Seq<u8>>, b: Seq<Seq<u8>>, c: Seq<Seq<u8>>)
    requires
        parts_before(a, b),
        parts_before(b, c),
    ensures
        parts_before(a, c),
    decreases a.len(),
{
    if a.len() > 0 {
        lemma_component_before(a[0], b[0]);
        lemma_component_before(b[0], c[0]);
        if a[0] == b[0] && b[0] == c[0] {
            lemma_parts_before_chain(a.drop_first(), b.drop_first(), c.drop_first());
        } else if a[0] != b[0] && b[0] != c[0] {
            lemma_component_before_chain(a[0], b[0], c[0]);
        }
    }
}

/// Of two paths exactly one holds: the first comes before the second, the
/// second before the first, or both have the same components.
pub proof fn law_paths_are_ordered(a: Seq<u8>, b: Seq<u8>)
    ensures
        path_before(a, b) ==> !same_path(a, b) && !path_before(b, a),
        same_path(a, b) ==> !path_before(a, b) && !path_before(b, a),
        path_before(a, b) || same_path(a, b) || path_before(b, a),
{
    lemma_parts_before(components(a), components(b));
    lemma_parts_before(components(b), components(a));
}

/// The order of paths is transitive.
pub proof fn law_path_order_chains(a: Seq<u8>, b: Seq<u8>, c: Seq<u8>)
    requires
        path_before(a, b),
        path_before(b, c),
    ensures
        path_before(a, c),
{
    lemma_parts_before_chain(components(a), components(b), components(c));
}

/// How one path stands to another.
pub enum Placement {
    Before,
    Same,
    After,
}

fn place_bytes(a: &[u8], b: &[u8]) -> (p: Placement)
    ensures
        match p {
            Placement::Before => bytes_before(a@, b@),
            Placement::Same => a@ == b@,
            Placement::After => bytes_before(b@, a@),
        },
{
    let mut i: usize = 0;
    assert(a@.skip(0) =~= a@);
    assert(b@.skip(0) =~= b@);
    while i < a.len() && i < b.len()
        invariant
            i <= a@.len(),
            i <= b@.len(),
            forall|j: int| 0 <= j < i ==> a@[j] == b@[j],
            bytes_before(a@, b@) == bytes_before(a@.skip(i as int), b@.skip(i as int)),
            bytes_before(b@, a@) == bytes_before(b@.skip(i as int), a@.skip(i as int)),
        decreases a@.len() - i,
    {
        if a[i] < b[i] {
            return Placement::Before;
        }
        if b[i] < a[i] {
            return Placement::After;
        }
        assert(a@.skip(i as int).drop_first() =~= a@.skip(i + 1));
        assert(b@.skip(i as int).drop_first() =~= b@.skip(i + 1));
        i += 1;
    }
    if i < b.len() {
        Placement::Before
    } else if i < a.len() {
        Placement::After
    } else {
        assert(a@ =~= b@);
        Placement::Same
    }
}

fn rank_of(c: &[u8]) -> (rank: u8)
    ensures
        rank == component_rank(c@),
{
    if c.len() == 1 && c[0] == SEPARATOR {
        assert(c@ =~= seq![SEPARATOR]);
        0
    } else if c.len() == 1 && c[0] == DOT {
        assert(c@ =~= seq![DOT]);
        1
    } else if c.len() == 2 && c[0] == DOT && c[1] == DOT {
        assert(c@ =~= seq![DOT, DOT]);
        2
    } else {
        3
    }
}

fn place_components(a: &[u8], b: &[u8]) -> (p: Placement)
    ensures
        match p {
            Placement::Before => component_before(a@, b@),
            Placement::Same => a@ == b@,
            Placement::After => component_before(b@, a@),
        },
{
    let x = rank_of(a);
    let y = rank_of(b);
    if x < y {
        Placement::Before
    } else if y < x {
        Placement::After
    } else {
        place_bytes(a, b)
    }
}

/// Compares two paths component by component.
pub fn place_paths(a: &[u8], b: &[u8]) -> (p: Placement)
    ensures
        match p {
            Placement::Before => path_before(a@, b@),
            Placement::Same => same_path(a@, b@),
            Placement::After => path_before(b@, a@),
        },
{
    let left = split_path(a);
    let right = split_path(b);
    let ghost x = byte_lists(left@);
    let ghost y = byte_lists(right@);
    let mut i: usize = 0;
    assert(x.skip(0) =~= x);
    assert(y.skip(0) =~= y);
    while i < left.len() && i < right.len()
        invariant
            x == byte_lists(left@),
            y == byte_lists(right@),
            i <= x.len(),
            i <= y.len(),
            forall|j: int| 0 <= j < i ==> x[j] == y[j],
            parts_before(x, y) == parts_before(x.skip(i as int), y.skip(i as int)),
            parts_before(y, x) == parts_before(y.skip(i as int), x.skip(i as int)),
            x == components(a@),
            y == components(b@),
        decreases x.len() - i,
    {
        assert(x[i as int] == left@[i as int]@);
        assert(y[i as int] == right@[i as int]@);
        proof {
            lemma_component_before(x[i as int], y[i as int]);
            lemma_component_before(y[i as int], x[i as int]);
        }
        match place_components(left[i].as_slice(), right[i].as_slice()) {
            Placement::Before => {
                return Placement::Before;
            },
            Placement::After => {
                return Placement::After;
            },
            Placement::Same => {},
        }
        assert(x.skip(i as int).drop_first() =~= x.skip(i + 1));
        assert(y.skip(i as int).drop_first() =~= y.skip(i + 1));
        i += 1;
    }
    if i < right.len() {
        Placement::Before
    } else if i < left.len() {
        Placement::After
    } else {
        assert(x =~= y);
        Placement::Same
    }
}

fn find_byte(s: &[u8], b: u8) -> (at: usize)
    ensures
        at == text::first_index(s@, b),
        at <= s@.len(),
{
    let mut i: usize = 0;
    while i < s.len() && s[i] != b
        invariant
            i <= s@.len(),
            forall|j: int| 0 <= j < i ==> s@[j] != b,
        decreases s@.len() - i,
    {
        i += 1;
    }
    proof {
        text::lemma_first_index_is(s@, b, i as int);
    }
    i
}

proof fn lemma_named_pieces_step(pieces: Seq<Seq<u8>>, n: int)
    requires
        0 <= n < pieces.len(),
    ensures
        named_pieces(pieces.take(n + 1)) == ({
            let rest = named_pieces(pieces.take(n));
            if pieces[n].len() == 0 || (pieces[n] == seq![DOT] && n > 0) {
                rest
            } else {
                rest.push(pieces[n])
            }
        }),
{
    assert(pieces.take(n + 1).drop_last() =~= pieces.take(n));
}

/// Splits a path into its components; see [`components`].
pub fn split_path(path: &[u8]) -> (parts: Vec<Vec<u8>>)
    ensures
        byte_lists(parts@) == components(path@),
{
    let mut parts: Vec<Vec<u8>> = Vec::new();
    if path.len() > 0 && path[0] == SEPARATOR {
        let mut root: Vec<u8> = Vec::new();
        root.push(SEPARATOR);
        assert(root@ =~= seq![SEPARATOR]);
        parts.push(root);
    }
    let ghost head = byte_lists(parts@);
    let ghost pieces = text::split(path@, SEPARATOR);
    let ghost mut n: int = 0;
    let mut from: usize = 0;
    proof {
        assert(path@.skip(0) =~= path@);
        assert(pieces.skip(0) =~= pieces);
        assert(head + named_pieces(pieces.take(0)) =~= head);
        if is_absolute(path@) {
            assert(head =~= seq![seq![SEPARATOR]]);
        }
    }
    loop
        invariant
            from <= path@.len(),
            pieces == text::split(path@, SEPARATOR),
            0 <= n < pieces.len(),
            n == 0 <==> from == 0,
            pieces.skip(n) == text::split(path@.skip(from as int), SEPARATOR),
            byte_lists(parts@) == head + named_pieces(pieces.take(n)),
            components(path@) == head + named_pieces(pieces),
        decreases path@.len() - from,
    {
        let tail = slice_subrange(path, from, path.len());
        assert(tail@ =~= path@.skip(from as int));
        let at = find_byte(tail, SEPARATOR);
        let piece = slice_subrange(tail, 0, at);
        assert(piece@ =~= tail@.take(at as int));
        proof {
            assert(pieces.skip(n)[0] == pieces[n]);
            if at == tail@.len() {
                assert(tail@.take(at as int) =~= tail@);
            }
            assert(pieces[n] == piece@);
            lemma_named_pieces_step(pieces, n);
        }
        let ghost before = parts@;
        let skipped = piece.len() == 0 || (from > 0 && piece.len() == 1 && piece[0] == DOT);
        proof {
            if piece@.len() == 1 && piece@[0] == DOT {
                assert(piece@ =~= seq![DOT]);
            }
        }
        if !skipped {
            let name = slice_to_vec(piece);
            parts.push(name);
            assert(byte_lists(parts@) =~= byte_lists(before).push(piece@));
        }
        assert(byte_lists(parts@) =~= head + named_pieces(pieces.take(n + 1)));
        if at < tail.len() {
            proof {
                assert(tail@.skip(at + 1) =~= path@.skip(from + at + 1));
                assert(pieces.skip(n + 1) =~= pieces.skip(n).drop_first());
                assert(pieces.skip(n).drop_first() =~= text::split(
                    path@.skip(from + at + 1),
                    SEPARATOR,
                ));
                n = n + 1;
            }
            from = from + at + 1;
        } else {
            assert(pieces.skip(n).len() == 1);
            assert(pieces.take(n + 1) =~= pieces);
            return parts;
        }
    }
}

/// Joins two paths; see [`joined`].
pub fn join(base: &[u8], tail: &[u8]) -> (path: Vec<u8>)
    ensures
        path@ == joined(base@, tail@),
{
    if tail.len() > 0 && tail[0] == SEPARATOR {
        return slice_to_vec(tail);
    }
    let mut path = slice_to_vec(base);
    if base.len() > 0 && base[base.len() - 1] != SEPARATOR {
        path.push(SEPARATOR);
    }
    let mut rest = slice_to_vec(tail);
    path.append(&mut rest);
    path
}

fn find_last_byte(s: &[u8], b: u8) -> (at: Option<usize>)
    ensures
        match at {
            Some(i) => i == text::last_index(s@, b) && i < s@.len(),
            None => text::last_index(s@, b) == -1,
        },
{
    let mut i: usize = s.len();
    while i > 0
        invariant
            i <= s@.len(),
            forall|j: int| i <= j < s@.len() ==> s@[j] != b,
        decreases i,
    {
        if s[i - 1] == b {
            proof {
                text::lemma_last_index_is(s@, b, i - 1);
            }
            return Some(i - 1);
        }
        i -= 1;
    }
    proof {
        text::lemma_last_index_is(s@, b, -1);
    }
    None
}

/// The extension of the file that a path names; see [`extension`].
pub fn path_extension(path: &[u8]) -> (ext: Option<Vec<u8>>)
    ensures
        optional_bytes(ext) == extension(path@),
{
    let parts = split_path(path);
    let ghost all = components(path@);
    if parts.len() == 0 {
        return None;
    }
    let name = &parts[parts.len() - 1];
    assert(name@ == all.last());
    if rank_of(name.as_slice()) != 3 {
        return None;
    }
    let n = name.len();
    match find_last_byte(name.as_slice(), DOT) {
        Some(at) => {
            if at > 0 {
                let ext = slice_to_vec(slice_subrange(name.as_slice(), at + 1, n));
                assert(ext@ =~= name@.skip(at + 1));
                Some(ext)
            } else {
                None
            }
        },
        None => None,
    }
}

/// A file name without its extension.
pub open spec fn name_stem(name: Seq<u8>) -> Seq<u8> {
    let at = text::last_index(name, DOT);
    if at > 0 {
        name.take(at)
    } else {
        name
    }
}

/// Where the last component of a path ends: before the separators, and the `.`
/// behind separators, that stand at the end of the path.
pub open spec fn name_end(path: Seq<u8>) -> int
    decreases path.len(),
{
    if path.len() == 0 {
        0
    } else if path.last() == SEPARATOR || (path.len() > 1 && path.last() == DOT && path[path.len()
        - 2] == SEPARATOR) {
        name_end(path.drop_last())
    } else {
        path.len() as int
    }
}

/// A path whose file name has the extension `ext` in place of the one that it
/// had, if any. A path without a file name stays as it is.
pub open spec fn with_extension(path: Seq<u8>, ext: Seq<u8>) -> Seq<u8> {
    match file_name(path) {
        Some(name) => path.take(name_end(path) - name.len() + name_stem(name).len()) + seq![DOT]
            + ext,
        None => path,
    }
}

proof fn lemma_split_two(a: Seq<u8>, b: Seq<u8>)
    ensures
        text::split(a + seq![SEPARATOR] + b, SEPARATOR) == text::split(a, SEPARATOR)
            + text::split(b, SEPARATOR),
    decreases a.len(),
{
    let s = a + seq![SEPARATOR] + b;
    text::lemma_first_index(a, SEPARATOR);
    let at = text::first_index(a, SEPARATOR);
    if at < a.len() {
        text::lemma_first_index_is(s, SEPARATOR, at);
        assert(s.take(at) =~= a.take(at));
        assert(s.skip(at + 1) =~= a.skip(at + 1) + seq![SEPARATOR] + b);
        lemma_split_two(a.skip(at + 1), b);
        assert(text::split(s, SEPARATOR) =~= text::split(a, SEPARATOR) + text::split(
            b,
            SEPARATOR,
        ));
    } else {
        text::lemma_first_index_is(s, SEPARATOR, a.len() as int);
        assert(s.take(a.len() as int) =~= a);
        assert(s.skip(a.len() as int + 1) =~= b);
        assert(text::split(a, SEPARATOR) =~= seq![a]);
    }
}

proof fn lemma_split_one(s: Seq<u8>)
    requires
        !s.contains(SEPARATOR),
    ensures
        text::split(s, SEPARATOR) == seq![s],
{
    text::lemma_first_index(s, SEPARATOR);
}

proof fn lemma_split_is_not_empty(s: Seq<u8>)
    ensures
        text::split(s, SEPARATOR).len() > 0,
{
}

pub proof fn lemma_one_piece(piece: Seq<u8>)
    ensures
        named_pieces(seq![piece]) == (if piece.len() == 0 {
            Seq::empty()
        } else {
            seq![piece]
        }),
{
    let pieces = seq![piece];
    assert(pieces.drop_last() =~= Seq::<Seq<u8>>::empty());
    assert(named_pieces(pieces.drop_last()) =~= Seq::<Seq<u8>>::empty());
    assert(pieces.last() == piece);
    assert(named_pieces(pieces) =~= if piece.len() == 0 {
        Seq::empty()
    } else {
        seq![piece]
    });
}

proof fn lemma_name_end_bound(path: Seq<u8>)
    ensures
        0 <= name_end(path) <= path.len(),
    decreases path.len(),
{
    if path.len() > 0 {
        lemma_name_end_bound(path.drop_last());
    }
}

/// The components of a path do not change when what stands behind its last
/// component is cut off.
proof fn lemma_name_end_keeps_components(path: Seq<u8>)
    requires
        file_name(path) is Some,
    ensures
        0 < name_end(path) <= path.len(),
        components(path.take(name_end(path))) == components(path),
        name_end(path.take(name_end(path))) == name_end(path),
    decreases path.len(),
{
    if path.len() == 0 {
        assert(text::split(path, SEPARATOR) =~= seq![path]);
        lemma_one_piece(path);
    } else if path.last() == SEPARATOR || (path.len() > 1 && path.last() == DOT && path[path.len()
        - 2] == SEPARATOR) {
        let shorter = path.drop_last();
        let nothing = Seq::<u8>::empty();
        let cut = if path.last() == SEPARATOR {
            path.len() - 1
        } else {
            path.len() - 2
        };
        let base = path.take(cut);
        let pieces = text::split(base, SEPARATOR);
        lemma_split_is_not_empty(base);
        lemma_split_one(nothing);
        lemma_split_two(base, nothing);
        assert((pieces + seq![nothing]).drop_last() =~= pieces);
        assert(named_pieces(pieces + seq![nothing]) == named_pieces(pieces));
        if path.last() == SEPARATOR {
            assert(path =~= base + seq![SEPARATOR] + nothing);
            assert(shorter =~= base);
            if base.len() == 0 {
                lemma_split_one(base);
                lemma_one_piece(base);
                assert(components(path) =~= seq![seq![SEPARATOR]]);
            }
        } else {
            let dot = seq![DOT];
            assert(path =~= base + seq![SEPARATOR] + dot);
            assert(shorter =~= base + seq![SEPARATOR] + nothing);
            lemma_split_one(dot);
            lemma_split_two(base, dot);
            assert((pieces + seq![dot]).drop_last() =~= pieces);
            assert(named_pieces(pieces + seq![dot]) == named_pieces(pieces));
        }
        assert(components(shorter) == components(path));
        lemma_name_end_keeps_components(shorter);
        assert(shorter.take(name_end(shorter)) =~= path.take(name_end(path)));
    } else {
        assert(path.take(name_end(path)) =~= path);
    }
}

/// The components of a path that ends in a name: those of what stands before it,
/// and the name.
pub proof fn lemma_components_of_name(base: Seq<u8>, name: Seq<u8>)
    requires
        base.len() == 0 || base.last() == SEPARATOR,
        name.len() > 0,
        !name.contains(SEPARATOR),
        base.len() > 0 ==> name != seq![DOT],
    ensures
        components(base + name).len() > 0,
        components(base + name).last() == name,
        components(base + name).drop_last() == components(base),
{
    if base.len() == 0 {
        assert(base + name =~= name);
        lemma_split_one(name);
        lemma_split_one(base);
        lemma_one_piece(name);
        lemma_one_piece(base);
        assert(name.contains(name[0]));
        assert(components(base + name).drop_last() =~= components(base));
    } else {
        let before = base.drop_last();
        let nothing = Seq::<u8>::empty();
        let pieces = text::split(before, SEPARATOR);
        lemma_split_is_not_empty(before);
        assert(base =~= before + seq![SEPARATOR] + nothing);
        assert(base + name =~= before + seq![SEPARATOR] + name);
        lemma_split_two(before, nothing);
        lemma_split_two(before, name);
        lemma_split_one(nothing);
        lemma_split_one(name);
        assert((pieces + seq![nothing]).drop_last() =~= pieces);
        assert((pieces + seq![name]).drop_last() =~= pieces);
        assert(named_pieces(pieces + seq![name]) =~= named_pieces(pieces).push(name));
        assert(components(base + name).drop_last() =~= components(base));
    }
}

/// The file name of a path is what stands before the end of its last component,
/// behind the separator before it.
proof fn lemma_name_in_path(path: Seq<u8>)
    requires
        file_name(path) is Some,
    ensures
        ({
            let name = file_name(path)->0;
            let base = path.take(name_end(path) - name.len());
            &&& 0 < name.len() <= name_end(path) <= path.len()
            &&& path.take(name_end(path)) == base + name
            &&& base.len() == 0 || base.last() == SEPARATOR
            &&& !name.contains(SEPARATOR)
            &&& components(path) == components(base).push(name)
        }),
{
    lemma_name_end_keeps_components(path);
    let p = path.take(name_end(path));
    lemma_name_end_bound(p.drop_last());
    let k = text::last_index(p, SEPARATOR);
    text::lemma_last_index(p, SEPARATOR);
    let base = p.take(k + 1);
    let last = p.skip(k + 1);
    assert(p =~= base + last);
    assert forall|i: int| 0 <= i < last.len() implies last[i] != SEPARATOR by {
        assert(last[i] == p[i + k + 1]);
    }
    assert(p.last() != SEPARATOR);
    assert(last.len() > 0);
    if base.len() > 0 && last == seq![DOT] {
        assert(p.last() == last[0]);
        assert(p[p.len() - 2] == SEPARATOR);
        assert(false);
    }
    lemma_components_of_name(base, last);
    let parts = components(path);
    assert(parts.last() == last);
    assert(path.take(name_end(path) - last.len()) =~= base);
    assert(parts =~= parts.drop_last().push(last));
}

/// A path with another extension names a file in the same directory: all of its
/// components but the last stay, and the last is the old name without its
/// extension, a dot and the new extension.
pub proof fn law_extension_stays_in_directory(path: Seq<u8>, ext: Seq<u8>)
    requires
        file_name(path) is Some,
        ext.len() > 0,
        !ext.contains(SEPARATOR),
    ensures
        components(with_extension(path, ext)) == components(path).drop_last().push(
            name_stem(file_name(path)->0) + seq![DOT] + ext,
        ),
{
    lemma_name_in_path(path);
    let name = file_name(path)->0;
    let base = path.take(name_end(path) - name.len());
    let stem = name_stem(name);
    text::lemma_last_index(name, DOT);
    let fresh = stem + seq![DOT] + ext;
    let whole = path.take(name_end(path));
    assert(whole == base + name);
    assert(path.take((base.len() + stem.len()) as int) =~= base + stem) by {
        assert forall|i: int| 0 <= i < base.len() + stem.len() implies path[i] == (base
            + stem)[i] by {
            assert(whole[i] == path[i]);
            assert((base + name)[i] == path[i]);
        }
    }
    assert(with_extension(path, ext) =~= base + fresh);
    assert forall|i: int| 0 <= i < fresh.len() implies fresh[i] != SEPARATOR by {
        if i < stem.len() {
            assert(stem[i] == name[i]);
            assert(name.contains(name[i]));
        } else if i > stem.len() {
            assert(ext.contains(ext[i - stem.len() - 1]));
        }
    }
    lemma_components_of_name(base, fresh);
    let parts = components(base + fresh);
    assert(parts =~= parts.drop_last().push(fresh));
    assert(components(path).drop_last() =~= components(base));
}

/// Replaces the extension of a path; see [`with_extension`].
pub fn replace_extension(path: &[u8], ext: &[u8]) -> (renamed: Vec<u8>)
    ensures
        renamed@ == with_extension(path@, ext@),
{
    let parts = split_path(path);
    let ghost all = components(path@);
    if parts.len() == 0 {
        return slice_to_vec(path);
    }
    let name = &parts[parts.len() - 1];
    assert(name@ == all.last());
    if rank_of(name.as_slice()) != 3 {
        return slice_to_vec(path);
    }
    proof {
        lemma_name_in_path(path@);
        text::lemma_last_index(name@, DOT);
    }
    let mut end: usize = path.len();
    assert(path@.take(end as int) =~= path@);
    while end > 0 && (path[end - 1] == SEPARATOR || (end > 1 && path[end - 1] == DOT && path[end
        - 2] == SEPARATOR))
        invariant
            end <= path@.len(),
            name_end(path@) == name_end(path@.take(end as int)),
        decreases end,
    {
        assert(path@.take(end as int).drop_last() =~= path@.take(end - 1));
        end -= 1;
    }
    let stem: usize = match find_last_byte(name.as_slice(), DOT) {
        Some(at) => if at > 0 {
            at
        } else {
            name.len()
        },
        None => name.len(),
    };
    let mut renamed = slice_to_vec(slice_subrange(path, 0, end - name.len() + stem));
    assert(renamed@ =~= path@.take(name_end(path@) - name@.len() + name_stem(name@).len()));
    renamed.push(DOT);
    let mut rest = slice_to_vec(ext);
    renamed.append(&mut rest);
    assert(renamed@ =~= with_extension(path@, ext@));
    renamed
}

} // verus!
