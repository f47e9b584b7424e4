//! What holds of every path, and of every map from paths to values.
use crate::path;
use crate::path_map;
use crate::places;
use crate::text;
use crate::text_laws;
use vstd::prelude::*;
use vstd::utf8;

verus! {

/// A name behind a separator, or alone, is the last component, and the others are
/// those of what stands before it.
pub proof fn law_name_is_last_component(base: Seq<u8>, name: Seq<u8>)
    requires
        base.len() == 0 || base.last() == 47,
        name.len() > 0,
        !name.contains(47),
        base.len() > 0 ==> name != seq![46u8],
    ensures
        path::components(base + name) == path::components(base).push(name),
{
    path::lemma_components_of_name(base, name);
    let parts = path::components(base + name);
    assert(parts =~= parts.drop_last().push(name));
}

/// A separator at the end of a path adds no component, nor does `/.` there. The
/// root alone is one component and the empty path has none.
pub proof fn law_end_adds_no_component(p: Seq<u8>)
    ensures
        p.len() > 0 ==> path::components(p + seq![47u8]) == path::components(p),
        p.len() > 0 ==> path::components(p + seq![47u8, 46u8]) == path::components(p),
        path::components(Seq::<u8>::empty()) == Seq::<Seq<u8>>::empty(),
        path::components(seq![47u8]) == seq![seq![47u8]],
        path::components(seq![47u8, 46u8]) == seq![seq![47u8]],
{
    let none = Seq::<u8>::empty();
    let dot = seq![46u8];
    text_laws::law_piece_is_kept(none, 47u8);
    text_laws::law_piece_is_kept(dot, 47u8);
    path::lemma_one_piece(none);
    lemma_end_is_dropped(p);
    lemma_end_is_dropped(none);
    assert(p + seq![47u8] =~= p + seq![47u8] + none);
    assert(p + seq![47u8, 46u8] =~= p + seq![47u8] + dot);
    assert(seq![47u8] =~= none + seq![47u8] + none);
    assert(seq![47u8, 46u8] =~= none + seq![47u8] + dot);
    if p.len() > 0 {
        assert((p + seq![47u8])[0] == p[0] && (p + seq![47u8, 46u8])[0] == p[0]);
    }
    assert(path::components(seq![47u8]) =~= seq![seq![47u8]]);
    assert(path::components(seq![47u8, 46u8]) =~= seq![seq![47u8]]);
    assert(path::components(none) =~= Seq::<Seq<u8>>::empty());
}

proof fn lemma_end_is_dropped(p: Seq<u8>)
    ensures
        ({
            let none = Seq::<u8>::empty();
            let pieces = path::named_pieces(text::split(p, 47u8));
            &&& path::named_pieces(text::split(p + seq![47u8] + none, 47u8)) == pieces
            &&& path::named_pieces(text::split(p + seq![47u8] + seq![46u8], 47u8)) == pieces
        }),
{
    let none = Seq::<u8>::empty();
    let dot = seq![46u8];
    let pieces = text::split(p, 47u8);
    text_laws::law_piece_is_kept(none, 47u8);
    text_laws::law_piece_is_kept(dot, 47u8);
    text_laws::law_separator_splits(p, 47u8, none);
    text_laws::law_separator_splits(p, 47u8, dot);
    assert(pieces.len() > 0);
    assert((pieces + seq![none]).drop_last() =~= pieces);
    assert((pieces + seq![dot]).drop_last() =~= pieces);
}

/// Bytes are in the order of a dictionary: at the first place where they differ the
/// smaller byte, or the end, comes first.
pub proof fn law_bytes_are_ordered_as_words(a: Seq<u8>, b: Seq<u8>)
    ensures
        path::bytes_before(a, b) <==> exists|j: int| #[trigger] differ_at(a, b, j),
    decreases a.len(),
{
    if path::bytes_before(a, b) {
        if a.len() == 0 {
            assert(a.take(0) =~= b.take(0));
            assert(differ_at(a, b, 0));
        } else if a[0] < b[0] {
            assert(a.take(0) =~= b.take(0));
            assert(differ_at(a, b, 0));
        } else {
            law_bytes_are_ordered_as_words(a.drop_first(), b.drop_first());
            let j = choose|j: int| #[trigger] differ_at(a.drop_first(), b.drop_first(), j);
            assert(a.take(j + 1) =~= seq![a[0]] + a.drop_first().take(j));
            assert(b.take(j + 1) =~= seq![b[0]] + b.drop_first().take(j));
            assert(differ_at(a, b, j + 1));
        }
    }
    if exists|j: int| #[trigger] differ_at(a, b, j) {
        let j = choose|j: int| #[trigger] differ_at(a, b, j);
        if j > 0 {
            assert(a.take(j)[0] == b.take(j)[0]);
            let x = a.drop_first();
            let y = b.drop_first();
            assert(x.take(j - 1) =~= a.take(j).drop_first());
            assert(y.take(j - 1) =~= b.take(j).drop_first());
            assert(differ_at(x, y, j - 1));
            law_bytes_are_ordered_as_words(x, y);
        }
    }
}

/// Whether two byte sequences are the same up to `j`, and there the first ends or
/// has the smaller byte.
pub open spec fn differ_at(a: Seq<u8>, b: Seq<u8>, j: int) -> bool {
    &&& 0 <= j <= a.len()
    &&& j < b.len()
    &&& a.take(j) == b.take(j)
    &&& j == a.len() || a[j] < b[j]
}

/// Among components the root comes first, then `.`, then `..`, then the names in
/// the order of their bytes.
pub proof fn law_component_order(a: Seq<u8>, b: Seq<u8>)
    ensures
        ({
            let root = seq![47u8];
            let dot = seq![46u8];
            let up = seq![46u8, 46u8];
            let is_name = |c: Seq<u8>| c != root && c != dot && c != up;
            &&& b != root ==> path::component_before(root, b)
            &&& b == up || is_name(b) ==> path::component_before(dot, b)
            &&& is_name(b) ==> path::component_before(up, b)
            &&& is_name(a) && is_name(b) ==> path::component_before(a, b) == path::bytes_before(
                a,
                b,
            )
            &&& is_name(a) && !is_name(b) ==> !path::component_before(a, b)
        }),
{
    let root = seq![47u8];
    let dot = seq![46u8];
    let up = seq![46u8, 46u8];
    assert(root[0] != dot[0]);
    assert(root.len() != up.len() && dot.len() != up.len());
    assert(root != dot && root != up && dot != up);
}

/// Whether two component sequences are the same up to `j`, and there the first ends
/// or has the component that comes first.
pub open spec fn parts_differ_at(a: Seq<Seq<u8>>, b: Seq<Seq<u8>>, j: int) -> bool {
    &&& 0 <= j <= a.len()
    &&& j < b.len()
    &&& a.take(j) == b.take(j)
    &&& j == a.len() || path::component_before(a[j], b[j])
}

proof fn lemma_parts_before(a: Seq<Seq<u8>>, b: Seq<Seq<u8>>)
    ensures
        path::parts_before(a, b) <==> exists|j: int| #[trigger] parts_differ_at(a, b, j),
    decreases a.len(),
{
    if path::parts_before(a, b) {
        if a.len() == 0 || path::component_before(a[0], b[0]) {
            assert(a.take(0) =~= b.take(0));
            assert(parts_differ_at(a, b, 0));
        } else {
            lemma_parts_before(a.drop_first(), b.drop_first());
            let j = choose|j: int| #[trigger] parts_differ_at(a.drop_first(), b.drop_first(), j);
            assert(a.take(j + 1) =~= seq![a[0]] + a.drop_first().take(j));
            assert(b.take(j + 1) =~= seq![b[0]] + b.drop_first().take(j));
            assert(parts_differ_at(a, b, j + 1));
        }
    }
    if exists|j: int| #[trigger] parts_differ_at(a, b, j) {
        let j = choose|j: int| #[trigger] parts_differ_at(a, b, j);
        if j > 0 {
            assert(a.take(j)[0] == b.take(j)[0]);
            let x = a.drop_first();
            let y = b.drop_first();
            assert(x.take(j - 1) =~= a.take(j).drop_first());
            assert(y.take(j - 1) =~= b.take(j).drop_first());
            assert(parts_differ_at(x, y, j - 1));
            lemma_parts_before(x, y);
        }
    }
}

/// Paths are ordered by the first component in which they differ; a path comes
/// before those that go on behind it.
pub proof fn law_paths_are_ordered_by_components(a: Seq<u8>, b: Seq<u8>)
    ensures
        path::path_before(a, b) <==> exists|j: int|
            #[trigger] parts_differ_at(path::components(a), path::components(b), j),
{
    lemma_parts_before(path::components(a), path::components(b));
}

/// Joining puts a relative path behind the base, with one separator between them
/// that is not doubled; an absolute path stays alone.
pub proof fn law_join_puts_behind(base: Seq<u8>, tail: Seq<u8>)
    ensures
        ({
            let whole = path::joined(base, tail);
            let absolute = tail.len() > 0 && tail[0] == 47;
            &&& absolute ==> whole == tail
            &&& !absolute && (base.len() == 0 || base.last() == 47) ==> whole == base + tail
            &&& !absolute && base.len() > 0 && base.last() != 47 ==> whole == base + seq![47u8]
                + tail
        }),
{
    assert(base.push(47u8) + tail =~= base + seq![47u8] + tail);
}

/// The last component is the file name unless it is `.` or `..`; the root has none.
pub proof fn law_file_name_is_last(base: Seq<u8>, name: Seq<u8>)
    requires
        base.len() == 0 || base.last() == 47,
        name.len() > 0,
        !name.contains(47),
        base.len() > 0 ==> name != seq![46u8],
    ensures
        name != seq![46u8] && name != seq![46u8, 46u8] ==> path::file_name(base + name) == Some(
            name,
        ),
        name == seq![46u8] || name == seq![46u8, 46u8] ==> path::file_name(base + name) is None,
{
    law_name_is_last_component(base, name);
    assert(path::components(base + name).last() == name);
    if name == seq![47u8] {
        assert(name[0] == 47);
        assert(name.contains(47));
    }
}

/// The extension is what stands behind the last dot of the file name, unless
/// nothing stands before that dot; it may be empty.
pub proof fn law_extension_is_behind_last_dot(base: Seq<u8>, stem: Seq<u8>, ext: Seq<u8>)
    requires
        base.len() == 0 || base.last() == 47,
        !stem.contains(47),
        !ext.contains(47),
        !ext.contains(46),
        stem + seq![46u8] + ext != seq![46u8],
        stem + seq![46u8] + ext != seq![46u8, 46u8],
    ensures
        ({
            let name = stem + seq![46u8] + ext;
            &&& stem.len() > 0 ==> path::extension(base + name) == Some(ext)
            &&& stem.len() > 0 ==> path::name_stem(name) == stem
            &&& stem.len() == 0 ==> path::extension(base + name) is None
            &&& stem.len() == 0 ==> path::name_stem(name) == name
        }),
{
    let name = stem + seq![46u8] + ext;
    assert forall|i: int| 0 <= i < name.len() implies name[i] != 47 by {
        if i < stem.len() {
            assert(stem.contains(stem[i]));
        } else if i > stem.len() {
            assert(ext.contains(ext[i - stem.len() - 1]));
        }
    }
    law_file_name_is_last(base, name);
    assert forall|i: int| stem.len() < i < name.len() implies name[i] != 46 by {
        assert(ext.contains(ext[i - stem.len() - 1]));
    }
    text::lemma_last_index_is(name, 46u8, stem.len() as int);
    assert(name.skip(stem.len() as int + 1) =~= ext);
    assert(name.take(stem.len() as int) =~= stem);
}

/// Another extension takes the place of the old one: what stands before the file
/// name stays byte for byte, and so does the name up to its last dot.
pub proof fn law_extension_is_replaced(base: Seq<u8>, name: Seq<u8>, ext: Seq<u8>)
    requires
        base.len() == 0 || base.last() == 47,
        name.len() > 0,
        !name.contains(47),
        name != seq![46u8],
        name != seq![46u8, 46u8],
    ensures
        path::with_extension(base + name, ext) == base + path::name_stem(name) + seq![46u8] + ext,
{
    let whole = base + name;
    law_file_name_is_last(base, name);
    text::lemma_last_index(name, 46u8);
    assert(whole.last() == name.last());
    assert(name.contains(name.last()));
    if name.len() == 1 && name.last() == 46 {
        assert(name =~= seq![46u8]);
    } else if name.len() > 1 {
        assert(whole[whole.len() - 2] == name[name.len() - 2]);
        assert(name.contains(name[name.len() - 2]));
    }
    assert(path::name_end(whole) == whole.len());
    let stem = path::name_stem(name);
    assert(whole.take((base.len() + stem.len()) as int) =~= base + stem);
}

/// A file name without a dot has no extension, and a path without a file name has
/// none either and stays as it is when it would get one.
pub proof fn law_no_dot_no_extension(base: Seq<u8>, name: Seq<u8>, ext: Seq<u8>)
    requires
        base.len() == 0 || base.last() == 47,
        name.len() > 0,
        !name.contains(47),
        !name.contains(46),
    ensures
        path::extension(base + name) is None,
        path::name_stem(name) == name,
        path::file_name(base) is None ==> path::extension(base) is None && path::with_extension(
            base,
            ext,
        ) == base,
{
    if name == seq![46u8] || name == seq![46u8, 46u8] {
        assert(name[0] == 46);
        assert(name.contains(46));
    }
    law_file_name_is_last(base, name);
    text::lemma_last_index(name, 46u8);
    if 0 <= text::last_index(name, 46u8) {
        assert(name.contains(name[text::last_index(name, 46u8)]));
    }
}

/// The value under a path is that of the entry with the same components, and there
/// is none where no entry has them.
pub proof fn law_value_is_that_of_the_entry<T>(
    entries: Seq<(Seq<u8>, T)>,
    key: Seq<u8>,
    i: int,
)
    requires
        path_map::in_path_order(entries),
    ensures
        0 <= i < entries.len() && path::components(entries[i].0) == path::components(key)
            ==> path_map::value_at(entries, key) == Some(entries[i].1),
        (forall|j: int|
            0 <= j < entries.len() ==> path::components((#[trigger] entries[j]).0)
                != path::components(key)) ==> path_map::value_at(entries, key) is None,
{
    path_map::lemma_count_before(entries, key);
    let at = path_map::count_before(entries, key);
    if 0 <= i < entries.len() && path::components(entries[i].0) == path::components(key) {
        path::law_paths_are_ordered(entries[i].0, key);
        if i < at {
            assert(path::path_before(entries[i].0, key));
        } else if at < i {
            assert(path::path_before(entries[at].0, entries[i].0));
        }
    }
}

/// Storing a value under a new path adds one entry, with that path as it is
/// written. Under a path that is there, the number of entries and their paths stay
/// as they are.
pub proof fn law_insert_counts<T>(entries: Seq<(Seq<u8>, T)>, key: Seq<u8>, value: T)
    requires
        path_map::in_path_order(entries),
    ensures
        ({
            let after = path_map::inserted(entries, key, value);
            if path_map::value_at(entries, key) is Some {
                after.len() == entries.len() && forall|i: int|
                    0 <= i < entries.len() ==> (#[trigger] after[i]).0 == entries[i].0
            } else {
                after.len() == entries.len() + 1 && after.contains((key, value)) && forall|i: int|
                    0 <= i < entries.len() ==> after.contains(#[trigger] entries[i])
            }
        }),
{
    path_map::lemma_count_before(entries, key);
    let at = path_map::count_before(entries, key);
    let after = path_map::inserted(entries, key, value);
    if path_map::value_at(entries, key) is None {
        assert(after[at] == (key, value));
        assert forall|i: int| 0 <= i < entries.len() implies after.contains(
            #[trigger] entries[i],
        ) by {
            if i < at {
                assert(after[i] == entries[i]);
            } else {
                assert(after[i + 1] == entries[i]);
            }
        }
    }
}

/// The index lies in `zapper` below the data directory and the configuration in
/// `zapper` below the configuration directory. Without a data directory,
/// `.local/share` below the home directory takes its place.
pub proof fn law_places_of_the_user(dir: Seq<u8>, home: Option<Seq<u8>>)
    requires
        dir.len() > 0,
        dir.last() != 47,
    ensures
        places::index_place(Some(dir), home) == Some(
            dir + utf8::encode_utf8("/zapper/index.json"@),
        ),
        places::index_place(None, Some(dir)) == places::index_place(
            Some(dir + utf8::encode_utf8("/.local/share"@)),
            None,
        ),
        places::index_place(None, None) is None,
        places::config_place(Some(dir)) == Some(dir + utf8::encode_utf8("/zapper/config.json"@)),
        places::config_place(None) is None,
{
    reveal_strlit("zapper/index.json");
    reveal_strlit("/zapper/index.json");
    reveal_strlit("zapper/config.json");
    reveal_strlit("/zapper/config.json");
    reveal_strlit(".local/share");
    reveal_strlit("/.local/share");
    lemma_slash_before(".local/share"@, "/.local/share"@);
    lemma_slash_before("zapper/index.json"@, "/zapper/index.json"@);
    lemma_slash_before("zapper/config.json"@, "/zapper/config.json"@);
    let share = utf8::encode_utf8(".local/share"@);
    assert(dir.push(47u8) + share =~= dir + utf8::encode_utf8("/.local/share"@));
    let index = utf8::encode_utf8("zapper/index.json"@);
    assert(dir.push(47u8) + index =~= dir + utf8::encode_utf8("/zapper/index.json"@));
    let config = utf8::encode_utf8("zapper/config.json"@);
    assert(dir.push(47u8) + config =~= dir + utf8::encode_utf8("/zapper/config.json"@));
}

proof fn lemma_slash_before(name: Seq<char>, whole: Seq<char>)
    requires
        name.len() > 0,
        utf8::is_ascii_chars(name),
        name[0] != '/',
        whole =~= seq!['/'] + name,
    ensures
        utf8::encode_utf8(whole) == seq![47u8] + utf8::encode_utf8(name),
        utf8::encode_utf8(name).len() > 0,
        utf8::encode_utf8(name)[0] != 47,
{
    crate::search::lemma_encode_concat(seq!['/'], name);
    assert(utf8::is_ascii_chars(seq!['/']));
    utf8::is_ascii_chars_encode_utf8(seq!['/']);
    utf8::is_ascii_chars_encode_utf8(name);
    assert(utf8::encode_utf8(seq!['/']) =~= seq![47u8]);
    assert('\0' <= name[0] <= '\u{7f}');
    assert(utf8::encode_utf8(name)[0] == name[0] as u8);
}

} // verus!
