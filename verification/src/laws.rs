//! Properties that hold across calls: what a head truncation keeps, that
//! truncating again changes nothing, and how clipping to UTF-16 units
//! bounds a line; what lexical normalization leaves; that a walk's entries
//! are distinct and come with their parent directories; that repeated
//! writes report alike; that `find` and `grep` visit the same files of
//! a walk; that `grep` selects by root-relative path; that a nested
//! `.gitignore` is rooted at its own directory; that `find` defaults to
//! 1000 results; that path normalization drops only a leading `@`; and
//! that the long-line notice of `read` gives the first line's size.

use vstd::prelude::*;
use vstd::utf8::*;
use crate::lines::{
    join_with, joined_len, lemma_join_concat, lemma_join_push, lemma_join_split, lemma_joined_len,
    lemma_split_concat, lemma_split_no_sep, lemma_split_push, lemma_split_shape, split_on,
    terminated_pieces,
};
use crate::truncate::{
    first_line, fits_limits, fitting_lines, head_bytes, is_head_truncation, kept_lines, min_nat,
    text_lines, TruncationResult,
};
use crate::text::NEWLINE;
use crate::units::{fitting_chars, utf16_prefix, utf16_units};
use crate::path::{
    has_root, is_meaningful, is_normal, join_text, lexical_stack, lexical_text, normal_parts,
    path_parts, relative_text,
};
use crate::walk::{
    listed_names, plain_dir, plain_entries, plain_name, rules_with, walk_dir_spec, walk_entries_spec,
    walk_root_spec, entry_views, DirSeen, EntrySeen, RootSeen, WalkFailure, WalkFile,
};
use crate::fs::{ToolFs, ToolFsError};
use crate::write::{write_outcome, WriteSeen};
use crate::glob::{find_selection, found_paths, trim_slashes, GlobArgs};
use crate::globs::glob_matches;
use crate::grep::{grep_fold, grep_query, grep_run_outcome, grep_selects, read_settles, GrepArgs, GrepSeen};
use crate::glob::find_limit;
use crate::path::normalized_path;
use crate::read::{is_read_window, start_index, window_content, ReadOutput};
use crate::units::size_text;
use crate::text::decimal;
use crate::truncate::{DEFAULT_MAX_BYTES, MAX_FILE_BYTES};
use crate::walk::{gitignore_build_error, ignored_by, ignore_file_lines};
use crate::text::utf8_lossy;
use crate::path::file_name_of;

verus! {

/// Splitting pieces joined by a separator they do not hold gives the pieces
/// back.
proof fn lemma_split_join<T>(ps: Seq<Seq<T>>, sep: T)
    requires
        ps.len() >= 1,
        forall|i: int, j: int| 0 <= i < ps.len() && 0 <= j < ps[i].len() ==> ps[i][j] != sep,
    ensures
        split_on(join_with(ps, sep), sep) == ps,
    decreases ps.len(),
{
    if ps.len() == 1 {
        assert forall|j: int| 0 <= j < ps[0].len() implies ps[0][j] != sep by {}
        lemma_split_no_sep(ps[0], sep);
        assert(seq![ps[0]] =~= ps);
    } else {
        let front = ps.drop_last();
        let last = ps.last();
        lemma_split_join(front, sep);
        let x = join_with(front, sep);
        assert(join_with(ps, sep) == x.push(sep) + last) by {
            assert(x + seq![sep] == x.push(sep));
        }
        assert forall|j: int| 0 <= j < last.len() implies last[j] != sep by {
            assert(last[j] == ps[ps.len() - 1][j]);
        }
        lemma_split_no_sep(last, sep);
        lemma_split_push(x, sep, sep);
        lemma_split_concat(x.push(sep), last, sep);
        let sx = split_on(x.push(sep), sep);
        assert(sx == front.push(Seq::<T>::empty()));
        assert(sx.drop_last() + seq![sx.last() + last] + seq![last].drop_first() =~= ps);
    }
}

/// The first `k` pieces, joined, are a prefix of all the pieces joined.
proof fn lemma_join_take_prefix<T>(ps: Seq<Seq<T>>, sep: T, k: int)
    requires
        0 <= k <= ps.len(),
    ensures
        join_with(ps.take(k), sep).len() <= join_with(ps, sep).len(),
        join_with(ps, sep).take(join_with(ps.take(k), sep).len() as int) == join_with(ps.take(k), sep),
{
    if k == 0 {
        assert(ps.take(0) == Seq::<Seq<T>>::empty());
    } else if k == ps.len() {
        assert(ps.take(k) == ps);
    } else {
        lemma_join_concat(ps.take(k), ps.skip(k), sep);
        assert(ps.take(k) + ps.skip(k) == ps);
        let a = join_with(ps.take(k), sep);
        assert((a + seq![sep] + join_with(ps.skip(k), sep)).take(a.len() as int) == a);
    }
}

/// How many lines fit, and that they do fit.
proof fn lemma_fitting_lines_fit(lines: Seq<Seq<u8>>, m: nat, max_bytes: nat)
    ensures
        fitting_lines(lines, m, max_bytes) <= m,
        joined_len(lines.take(fitting_lines(lines, m, max_bytes) as int)) <= max_bytes,
    decreases m,
{
    if m > 0 && joined_len(lines.take(m as int)) > max_bytes {
        lemma_fitting_lines_fit(lines, (m - 1) as nat, max_bytes);
    }
    if m == 0 {
        assert(lines.take(0) == Seq::<Seq<u8>>::empty());
    }
}

/// A text's lines are among the pieces of its split, none holding a newline.
proof fn lemma_text_lines_shape(b: Seq<u8>)
    ensures
        text_lines(b).len() <= split_on(b, NEWLINE).len(),
        text_lines(b) == split_on(b, NEWLINE).take(text_lines(b).len() as int),
        forall|i: int, j: int|
            0 <= i < text_lines(b).len() && 0 <= j < text_lines(b)[i].len() ==> text_lines(b)[i][j]
                != NEWLINE,
{
    lemma_split_shape(b, NEWLINE);
    let p = split_on(b, NEWLINE);
    if b.len() == 0 {
        assert(text_lines(b) == Seq::<Seq<u8>>::empty());
        assert(p.take(0) == Seq::<Seq<u8>>::empty());
    } else if b.last() == NEWLINE {
        assert(text_lines(b) == p.drop_last());
        assert(p.take(p.len() - 1) == p.drop_last());
        assert forall|i: int, j: int|
            0 <= i < text_lines(b).len() && 0 <= j < text_lines(b)[i].len() implies text_lines(
            b,
        )[i][j] != NEWLINE by {
            assert(text_lines(b)[i] == p[i]);
        }
    } else {
        assert(p.take(p.len() as int) == p);
    }
}

/// The lines of pieces joined by newlines number no more than the pieces.
proof fn lemma_text_lines_of_join(ps: Seq<Seq<u8>>)
    requires
        forall|i: int, j: int| 0 <= i < ps.len() && 0 <= j < ps[i].len() ==> ps[i][j] != NEWLINE,
    ensures
        text_lines(join_with(ps, NEWLINE)).len() <= ps.len(),
{
    let b = join_with(ps, NEWLINE);
    if ps.len() == 0 {
        assert(b == Seq::<u8>::empty());
    } else {
        lemma_split_join(ps, NEWLINE);
    }
}

/// What a head truncation keeps fits the limits it was made with.
proof fn lemma_head_fits(b: Seq<u8>, max_lines: nat, max_bytes: nat)
    ensures
        fits_limits(head_bytes(b, max_lines, max_bytes), max_lines, max_bytes),
{
    let h = head_bytes(b, max_lines, max_bytes);
    if fits_limits(b, max_lines, max_bytes) {
    } else if b.len() > 0 && first_line(b).len() > max_bytes {
        assert(h == Seq::<u8>::empty());
        assert(text_lines(h) == Seq::<Seq<u8>>::empty());
    } else {
        let lines = text_lines(b);
        let m = min_nat(max_lines, lines.len());
        let k = kept_lines(b, max_lines, max_bytes);
        lemma_fitting_lines_fit(lines, m, max_bytes);
        lemma_text_lines_shape(b);
        let kept = lines.take(k as int);
        lemma_joined_len(kept, NEWLINE);
        assert forall|i: int, j: int| 0 <= i < kept.len() && 0 <= j < kept[i].len() implies kept[i][j]
            != NEWLINE by {
            assert(kept[i] == lines[i]);
        }
        lemma_text_lines_of_join(kept);
    }
}

/// Head truncation is idempotent: truncating what a truncation kept, to the
/// same limits, keeps all of it and reports nothing truncated.
pub proof fn law_head_truncation_is_idempotent(
    content: Seq<char>,
    max_lines: usize,
    max_bytes: usize,
    first: TruncationResult,
    second: TruncationResult,
)
    requires
        is_head_truncation(content, max_lines, max_bytes, first),
        is_head_truncation(first.content@, max_lines, max_bytes, second),
    ensures
        second.content@ == first.content@,
        !second.truncated,
{
    lemma_head_fits(encode_utf8(content), max_lines as nat, max_bytes as nat);
}

/// A head truncation keeps a prefix of the text's bytes, ending where a
/// line ends.
pub proof fn law_head_truncation_keeps_a_prefix(
    content: Seq<char>,
    max_lines: usize,
    max_bytes: usize,
    r: TruncationResult,
)
    requires
        is_head_truncation(content, max_lines, max_bytes, r),
    ensures
        encode_utf8(r.content@).len() <= encode_utf8(content).len(),
        encode_utf8(content).take(encode_utf8(r.content@).len() as int) == encode_utf8(r.content@),
{
    let b = encode_utf8(content);
    let h = encode_utf8(r.content@);
    if fits_limits(b, max_lines as nat, max_bytes as nat) {
        assert(b.take(b.len() as int) == b);
    } else if b.len() > 0 && first_line(b).len() > max_bytes {
        assert(b.take(0) == Seq::<u8>::empty());
    } else {
        let lines = text_lines(b);
        let k = kept_lines(b, max_lines as nat, max_bytes as nat);
        let m = min_nat(max_lines as nat, lines.len());
        lemma_fitting_lines_fit(lines, m, max_bytes as nat);
        lemma_text_lines_shape(b);
        let p = split_on(b, NEWLINE);
        lemma_split_shape(b, NEWLINE);
        assert(lines.take(k as int) == p.take(k as int));
        lemma_join_split(b, NEWLINE);
        lemma_join_take_prefix(p, NEWLINE, k as int);
    }
}

/// Clipping to UTF-16 units never leaves more than the limit.
pub proof fn law_utf16_prefix_fits(s: Seq<char>, max_units: nat)
    ensures
        utf16_units(utf16_prefix(s, max_units)) <= max_units,
{
    lemma_fitting_chars_fit(s, s.len(), max_units);
    let k = fitting_chars(s, s.len(), max_units);
    if k < s.len() && utf16_units(s.take(k as int)) < max_units {
        crate::units::lemma_utf16_units_concat(s.take(k as int), seq!['\u{fffd}']);
        assert(s.take(k as int).push('\u{fffd}') == s.take(k as int) + seq!['\u{fffd}']);
        assert(utf16_units(seq!['\u{fffd}']) == 1) by {
            assert(seq!['\u{fffd}'].drop_first() == Seq::<char>::empty());
            reveal_with_fuel(utf16_units, 2);
        }
    }
}

/// How many characters fit, and that they do fit.
proof fn lemma_fitting_chars_fit(s: Seq<char>, m: nat, max_units: nat)
    ensures
        fitting_chars(s, m, max_units) <= m,
        utf16_units(s.take(fitting_chars(s, m, max_units) as int)) <= max_units,
    decreases m,
{
    if m > 0 && utf16_units(s.take(m as int)) > max_units {
        lemma_fitting_chars_fit(s, (m - 1) as nat, max_units);
    }
    if m == 0 {
        assert(s.take(0) == Seq::<char>::empty());
    }
}

/// Parts that hold no `/`.
pub open spec fn slash_free(parts: Seq<Seq<char>>) -> bool {
    forall|i: int, j: int| 0 <= i < parts.len() && 0 <= j < parts[i].len() ==> parts[i][j] != '/'
}

/// What lexical normalization keeps are normal components without `/`.
proof fn lemma_lexical_stack_normal(parts: Seq<Seq<char>>)
    requires
        slash_free(parts),
    ensures
        slash_free(lexical_stack(parts)),
        forall|i: int| 0 <= i < lexical_stack(parts).len() ==> is_normal(#[trigger] lexical_stack(parts)[i]),
    decreases parts.len(),
{
    if parts.len() > 0 {
        let front = parts.drop_last();
        assert(slash_free(front)) by {
            assert forall|i: int, j: int| 0 <= i < front.len() && 0 <= j < front[i].len() implies front[i][j]
                != '/' by {
                assert(front[i] == parts[i]);
            }
        }
        lemma_lexical_stack_normal(front);
        let prev = lexical_stack(front);
        let last = parts.last();
        assert forall|j: int| 0 <= j < last.len() implies last[j] != '/' by {
            assert(last == parts[parts.len() - 1]);
        }
        let cur = lexical_stack(parts);
        assert forall|i: int, j: int| 0 <= i < cur.len() && 0 <= j < cur[i].len() implies cur[i][j] != '/' by {
            if i < prev.len() {
                assert(cur[i] == prev[i]);
            } else {
                assert(cur[i] == last);
            }
        }
        assert forall|i: int| 0 <= i < cur.len() implies is_normal(#[trigger] cur[i]) by {
            if i < prev.len() {
                assert(cur[i] == prev[i]);
            }
        }
    }
}

/// Normal components pass through lexical normalization unchanged.
proof fn lemma_lexical_stack_of_normal(parts: Seq<Seq<char>>)
    requires
        forall|i: int| 0 <= i < parts.len() ==> is_normal(#[trigger] parts[i]),
    ensures
        lexical_stack(parts) == parts,
    decreases parts.len(),
{
    if parts.len() > 0 {
        lemma_lexical_stack_of_normal(parts.drop_last());
        assert(is_normal(parts[parts.len() - 1]));
        assert(parts.drop_last().push(parts.last()) == parts);
    }
}

/// A leading empty piece changes nothing in lexical normalization.
proof fn lemma_lexical_stack_leading_empty(parts: Seq<Seq<char>>)
    ensures
        lexical_stack(seq![Seq::<char>::empty()] + parts) == lexical_stack(parts),
    decreases parts.len(),
{
    let lead = seq![Seq::<char>::empty()];
    if parts.len() == 0 {
        assert(lead + parts == lead);
        assert(lead.drop_last() == Seq::<Seq<char>>::empty());
        assert(!is_meaningful(lead.last()));
        assert(lexical_stack(Seq::<Seq<char>>::empty()) == Seq::<Seq<char>>::empty());
        assert(lexical_stack(lead) == lexical_stack(lead.drop_last()));
    } else {
        lemma_lexical_stack_leading_empty(parts.drop_last());
        assert((lead + parts).drop_last() == lead + parts.drop_last());
        assert((lead + parts).last() == parts.last());
    }
}

/// The pieces of a lexically normalized path: a leading empty piece when
/// the path is rooted, then the kept components, or one empty piece when
/// none is kept; and the result is rooted exactly when the path is.
proof fn lemma_lexical_text_parts(p: Seq<char>)
    ensures
        has_root(lexical_text(p)) == has_root(p),
        path_parts(lexical_text(p)) == (if has_root(p) {
            seq![Seq::<char>::empty()]
        } else {
            Seq::<Seq<char>>::empty()
        }) + (if lexical_stack(path_parts(p)).len() > 0 {
            lexical_stack(path_parts(p))
        } else {
            seq![Seq::<char>::empty()]
        }),
{
    let parts = path_parts(p);
    lemma_split_shape(p, '/');
    assert(slash_free(parts));
    lemma_lexical_stack_normal(parts);
    let st = lexical_stack(parts);
    let body = join_with(st, '/');
    let t = lexical_text(p);
    let core = if st.len() > 0 {
        st
    } else {
        seq![Seq::<char>::empty()]
    };
    if st.len() > 0 {
        lemma_split_join(st, '/');
        assert(body.len() >= st[0].len()) by {
            crate::lines::lemma_joined_len(st, '/');
            lemma_join_take_prefix(st, '/', 1);
            assert(st.take(1) =~= seq![st[0]]);
            assert(join_with(st.take(1), '/') == st[0]);
        }
        assert(st[0].len() > 0);
        assert(body[0] == st[0][0]) by {
            lemma_join_take_prefix(st, '/', 1);
            assert(st.take(1) =~= seq![st[0]]);
            assert(join_with(st.take(1), '/') == st[0]);
            assert(body.take(st[0].len() as int) == st[0]);
            assert(body.take(st[0].len() as int)[0] == body[0]);
        }
        assert(body[0] != '/');
    } else {
        assert(body == Seq::<char>::empty());
        assert(split_on(body, '/') =~= seq![Seq::<char>::empty()]);
    }
    assert(split_on(body, '/') == core);
    if has_root(p) {
        let slash = seq!['/'];
        assert(t == slash + body);
        assert(split_on(slash, '/') =~= seq![Seq::<char>::empty(), Seq::<char>::empty()]) by {
            assert(slash.drop_last() == Seq::<char>::empty());
            assert(slash.last() == '/');
            assert(split_on(Seq::<char>::empty(), '/') == seq![Seq::<char>::empty()]);
            assert(split_on(slash, '/') == split_on(slash.drop_last(), '/').push(Seq::<char>::empty()));
        }
        lemma_split_concat(slash, body, '/');
        let sb = split_on(body, '/');
        lemma_split_shape(body, '/');
        assert(split_on(t, '/') =~= seq![Seq::<char>::empty()] + sb);
        assert(has_root(t));
    } else {
        assert(t == body);
        assert(Seq::<Seq<char>>::empty() + core =~= core);
    }
}

/// Lexical normalization is idempotent: normalizing a normalized path
/// gives it back.
pub proof fn law_lexical_normalization_is_idempotent(p: Seq<char>)
    ensures
        lexical_text(lexical_text(p)) == lexical_text(p),
{
    let parts = path_parts(p);
    lemma_split_shape(p, '/');
    assert(slash_free(parts));
    lemma_lexical_stack_normal(parts);
    let st = lexical_stack(parts);
    lemma_lexical_stack_of_normal(st);
    lemma_lexical_text_parts(p);
    let t = lexical_text(p);
    let core = if st.len() > 0 {
        st
    } else {
        seq![Seq::<char>::empty()]
    };
    assert(lexical_stack(core) == st) by {
        if st.len() == 0 {
            assert(seq![Seq::<char>::empty()].drop_last() == Seq::<Seq<char>>::empty());
            assert(!is_meaningful(seq![Seq::<char>::empty()].last()));
        }
    }
    if has_root(p) {
        lemma_lexical_stack_leading_empty(core);
    } else {
        assert(Seq::<Seq<char>>::empty() + core =~= core);
    }
    assert(lexical_stack(path_parts(t)) == st);
}

/// Lexical normalization leaves no `.` or `..` component, and keeps a path
/// rooted exactly when it was.
pub proof fn law_lexical_normalization_leaves_no_dot_parts(p: Seq<char>)
    ensures
        has_root(lexical_text(p)) == has_root(p),
        forall|i: int|
            0 <= i < path_parts(lexical_text(p)).len() ==> #[trigger] path_parts(lexical_text(p))[i]
                != seq!['.'] && path_parts(lexical_text(p))[i] != seq!['.', '.'],
{
    let parts = path_parts(p);
    lemma_split_shape(p, '/');
    assert(slash_free(parts));
    lemma_lexical_stack_normal(parts);
    lemma_lexical_text_parts(p);
}

/// The normal components of a path text.
pub open spec fn text_components(t: Seq<char>) -> Seq<Seq<char>> {
    normal_parts(path_parts(t))
}

/// Normal components of a concatenation are those of each side.
proof fn lemma_normal_concat(a: Seq<Seq<char>>, b: Seq<Seq<char>>)
    ensures
        normal_parts(a + b) == normal_parts(a) + normal_parts(b),
    decreases b.len(),
{
    if b.len() == 0 {
        assert(a + b =~= a);
        assert(normal_parts(a) + normal_parts(b) =~= normal_parts(a));
    } else {
        lemma_normal_concat(a, b.drop_last());
        assert((a + b).drop_last() =~= a + b.drop_last());
        assert((a + b).last() == b.last());
    }
}

/// Pieces that are all normal are their own normal components.
proof fn lemma_normal_of_normal(parts: Seq<Seq<char>>)
    requires
        forall|i: int| 0 <= i < parts.len() ==> is_normal(#[trigger] parts[i]),
    ensures
        normal_parts(parts) == parts,
    decreases parts.len(),
{
    if parts.len() > 0 {
        lemma_normal_of_normal(parts.drop_last());
        assert(is_normal(parts[parts.len() - 1]));
        assert(parts.drop_last().push(parts.last()) == parts);
    }
}

/// The normal components of pieces are normal and free of `/` when the
/// pieces are.
proof fn lemma_normal_parts_plain(parts: Seq<Seq<char>>)
    requires
        slash_free(parts),
    ensures
        slash_free(normal_parts(parts)),
        forall|i: int| 0 <= i < normal_parts(parts).len() ==> is_normal(#[trigger] normal_parts(parts)[i]),
    decreases parts.len(),
{
    if parts.len() > 0 {
        let front = parts.drop_last();
        assert(slash_free(front)) by {
            assert forall|i: int, j: int| 0 <= i < front.len() && 0 <= j < front[i].len() implies front[i][j]
                != '/' by {
                assert(front[i] == parts[i]);
            }
        }
        lemma_normal_parts_plain(front);
        let prev = normal_parts(front);
        let cur = normal_parts(parts);
        assert forall|i: int, j: int| 0 <= i < cur.len() && 0 <= j < cur[i].len() implies cur[i][j] != '/' by {
            if i < prev.len() {
                assert(cur[i] == prev[i]);
            } else {
                assert(cur[i] == parts[parts.len() - 1]);
            }
        }
        assert forall|i: int| 0 <= i < cur.len() implies is_normal(#[trigger] cur[i]) by {
            if i < prev.len() {
                assert(cur[i] == prev[i]);
            }
        }
    }
}

/// One empty piece has no normal component; one normal piece is its own.
proof fn lemma_normal_single(piece: Seq<char>)
    ensures
        normal_parts(seq![piece]) == (if is_normal(piece) {
            seq![piece]
        } else {
            Seq::<Seq<char>>::empty()
        }),
{
    let one = seq![piece];
    assert(one.len() == 1);
    assert(one.last() == piece);
    assert(one.drop_last() =~= Seq::<Seq<char>>::empty());
    assert(normal_parts(one.drop_last()) == Seq::<Seq<char>>::empty());
    assert(Seq::<Seq<char>>::empty().push(piece) =~= one);
}

/// A relative path text, with or without a trailing `/`, has the
/// components of the path it was made from.
proof fn lemma_components_of_relative(x: Seq<char>)
    ensures
        text_components(relative_text(x)) == text_components(x),
        text_components(relative_text(x) + seq!['/']) == text_components(x),
{
    let parts = path_parts(x);
    lemma_split_shape(x, '/');
    assert(slash_free(parts));
    lemma_normal_parts_plain(parts);
    let ns = normal_parts(parts);
    let t = relative_text(x);
    assert(t == join_with(ns, '/'));
    if ns.len() > 0 {
        lemma_split_join(ns, '/');
        lemma_normal_of_normal(ns);
        lemma_split_push(t, '/', '/');
        assert(t + seq!['/'] == t.push('/'));
        lemma_normal_concat(ns, seq![Seq::<char>::empty()]);
        assert(ns.push(Seq::<char>::empty()) == ns + seq![Seq::<char>::empty()]);
        lemma_normal_single(Seq::<char>::empty());
        assert(ns + Seq::<Seq<char>>::empty() == ns);
    } else {
        assert(t == Seq::<char>::empty());
        lemma_normal_single(Seq::<char>::empty());
        assert(t + seq!['/'] == seq!['/']);
        assert(split_on(seq!['/'], '/') =~= seq![Seq::<char>::empty(), Seq::<char>::empty()]) by {
            lemma_split_push(Seq::<char>::empty(), '/', '/');
            assert(Seq::<char>::empty().push('/') =~= seq!['/']);
            assert(split_on(Seq::<char>::empty(), '/') == seq![Seq::<char>::empty()]);
        }
        let two = seq![Seq::<char>::empty(), Seq::<char>::empty()];
        assert(two.drop_last() =~= seq![Seq::<char>::empty()]);
        assert(normal_parts(two) == normal_parts(two.drop_last()));
    }
}

/// Joining a plain name onto a path adds that one component.
proof fn lemma_components_of_join(r: Seq<char>, name: Seq<char>)
    requires
        plain_name(name),
    ensures
        text_components(join_text(r, name)) == text_components(r).push(name),
{
    lemma_split_no_sep(name, '/');
    assert(name[0] != '/');
    assert(!has_root(name));
    let sr = split_on(r, '/');
    lemma_split_shape(r, '/');
    let single = seq![name];
    lemma_normal_single(name);
    if r.len() > 0 && r.last() != '/' {
        let rs = r.push('/');
        assert(join_text(r, name) == rs + name) by {
            assert(r + seq!['/'] == rs);
        }
        lemma_split_push(r, '/', '/');
        lemma_split_concat(rs, name, '/');
        let srs = split_on(rs, '/');
        assert(srs == sr.push(Seq::<char>::empty()));
        assert(split_on(rs + name, '/') =~= sr + single);
        lemma_normal_concat(sr, single);
    } else {
        assert(join_text(r, name) == r + name);
        lemma_split_concat(r, name, '/');
        if r.len() == 0 {
            assert(sr == seq![Seq::<char>::empty()]);
            assert(r + name == name);
            lemma_normal_single(Seq::<char>::empty());
            assert(Seq::<Seq<char>>::empty().push(name) =~= single);
        } else {
            let r0 = r.drop_last();
            assert(r0.push('/') == r);
            lemma_split_push(r0, '/', '/');
            assert(sr == split_on(r0, '/').push(Seq::<char>::empty()));
            assert(split_on(r + name, '/') =~= split_on(r0, '/') + single);
            lemma_normal_concat(split_on(r0, '/'), single);
            assert(sr.drop_last() == split_on(r0, '/'));
            assert(normal_parts(sr) == normal_parts(split_on(r0, '/')));
        }
    }
}

/// Whether every entry's components extend `base` by at least one.
pub open spec fn under_components(found: Seq<(Seq<char>, Seq<char>, bool, u64)>, base: Seq<Seq<char>>) -> bool {
    forall|i: int|
        0 <= i < found.len() ==> text_components(#[trigger] found[i].1).len() > base.len()
            && text_components(found[i].1).take(base.len() as int) == base
}

/// Whether every entry with more than `m + 1` components has its parent
/// directory among the entries.
pub open spec fn parents_present(found: Seq<(Seq<char>, Seq<char>, bool, u64)>, m: int) -> bool {
    forall|i: int|
        0 <= i < found.len() && text_components(#[trigger] found[i].1).len() > m + 1 ==> exists|j: int|
            0 <= j < found.len() && #[trigger] found[j].2 && text_components(found[j].1)
                == text_components(found[i].1).drop_last()
}

/// One more entry, one component below `base`, keeps both properties.
proof fn lemma_closed_push(
    prev: Seq<(Seq<char>, Seq<char>, bool, u64)>,
    e: (Seq<char>, Seq<char>, bool, u64),
    base: Seq<Seq<char>>,
    name: Seq<char>,
)
    requires
        under_components(prev, base),
        parents_present(prev, base.len() as int),
        text_components(e.1) == base.push(name),
    ensures
        under_components(prev.push(e), base),
        parents_present(prev.push(e), base.len() as int),
{
    let found = prev.push(e);
    assert(base.push(name).take(base.len() as int) =~= base);
    assert forall|i: int| 0 <= i < found.len() implies text_components(#[trigger] found[i].1).len()
        > base.len() && text_components(found[i].1).take(base.len() as int) == base by {
        if i < prev.len() {
            assert(found[i] == prev[i]);
        }
    }
    assert forall|i: int|
        0 <= i < found.len() && text_components(#[trigger] found[i].1).len() > base.len() + 1 implies exists|j: int|
            0 <= j < found.len() && #[trigger] found[j].2 && text_components(found[j].1)
                == text_components(found[i].1).drop_last() by {
        assert(i < prev.len());
        assert(found[i] == prev[i]);
        let j = choose|j: int|
            0 <= j < prev.len() && #[trigger] prev[j].2 && text_components(prev[j].1)
                == text_components(prev[i].1).drop_last();
        assert(found[j] == prev[j]);
    }
}

/// A directory entry one component below `base`, followed by what was found
/// inside it, keeps both properties.
proof fn lemma_closed_nested(
    prev: Seq<(Seq<char>, Seq<char>, bool, u64)>,
    e: (Seq<char>, Seq<char>, bool, u64),
    sub: Seq<(Seq<char>, Seq<char>, bool, u64)>,
    base: Seq<Seq<char>>,
    name: Seq<char>,
)
    requires
        under_components(prev, base),
        parents_present(prev, base.len() as int),
        e.2,
        text_components(e.1) == base.push(name),
        under_components(sub, base.push(name)),
        parents_present(sub, base.len() + 1int),
    ensures
        under_components(prev.push(e) + sub, base),
        parents_present(prev.push(e) + sub, base.len() as int),
{
    lemma_closed_push(prev, e, base, name);
    let head = prev.push(e);
    let found = head + sub;
    let inner = base.push(name);
    let m = base.len() as int;
    assert(inner.take(m) =~= base);
    assert forall|i: int| 0 <= i < found.len() implies text_components(#[trigger] found[i].1).len()
        > base.len() && text_components(found[i].1).take(m) == base by {
        if i < head.len() {
            assert(found[i] == head[i]);
        } else {
            let k = i - head.len();
            assert(found[i] == sub[k]);
            let c = text_components(sub[k].1);
            assert(c.take(m + 1) == inner);
            assert(c.take(m) =~= c.take(m + 1).take(m));
        }
    }
    assert forall|i: int|
        0 <= i < found.len() && text_components(#[trigger] found[i].1).len() > m + 1 implies exists|j: int|
            0 <= j < found.len() && #[trigger] found[j].2 && text_components(found[j].1)
                == text_components(found[i].1).drop_last() by {
        if i < head.len() {
            assert(found[i] == head[i]);
            let j = choose|j: int|
                0 <= j < head.len() && #[trigger] head[j].2 && text_components(head[j].1)
                    == text_components(head[i].1).drop_last();
            assert(found[j] == head[j]);
        } else {
            let k = i - head.len();
            assert(found[i] == sub[k]);
            let c = text_components(sub[k].1);
            if c.len() > m + 2 {
                let j = choose|j: int|
                    0 <= j < sub.len() && #[trigger] sub[j].2 && text_components(sub[j].1)
                        == text_components(sub[k].1).drop_last();
                assert(found[head.len() + j] == sub[j]);
            } else {
                assert(c.take(m + 1) == inner);
                assert(c.drop_last() =~= c.take(m + 1));
                assert(found[prev.len() as int] == e);
            }
        }
    }
}

/// What a walk finds inside a directory shown under `rel` lies below
/// `rel`, and every entry deeper than one level has its parent directory
/// among the entries, when every listed name is plain.
proof fn lemma_dir_closed<F: ToolFs>(
    fs: &F,
    seen: DirSeen,
    dir: Seq<char>,
    rel: Seq<char>,
    rules: Seq<(Seq<char>, Seq<Seq<char>>)>,
    depth: nat,
)
    requires
        plain_dir(seen),
        walk_dir_spec(fs, seen, dir, rel, rules, depth) is Ok,
    ensures
        under_components(walk_dir_spec(fs, seen, dir, rel, rules, depth)->Ok_0, text_components(rel)),
        parents_present(walk_dir_spec(fs, seen, dir, rel, rules, depth)->Ok_0, text_components(rel).len() as int),
        components_distinct(walk_dir_spec(fs, seen, dir, rel, rules, depth)->Ok_0),
    decreases seen, 0int,
{
    match seen {
        DirSeen::Unlisted(_) => {},
        DirSeen::Listed(listing, entries) => {
            lemma_entries_closed(fs, listing, entries, listing.len() as int, dir, rel, rules, depth);
        },
    }
}

/// [`lemma_dir_closed`] over the first `n` listed entries.
proof fn lemma_entries_closed<F: ToolFs>(
    fs: &F,
    listing: Seq<(Seq<char>, bool)>,
    entries: Seq<EntrySeen>,
    n: int,
    dir: Seq<char>,
    rel: Seq<char>,
    rules: Seq<(Seq<char>, Seq<Seq<char>>)>,
    depth: nat,
)
    requires
        n <= listing.len(),
        plain_entries(listing, entries, n),
        walk_entries_spec(fs, listing, entries, n, dir, rel, rules, depth) is Ok,
    ensures
        under_components(walk_entries_spec(fs, listing, entries, n, dir, rel, rules, depth)->Ok_0, text_components(rel)),
        parents_present(
            walk_entries_spec(fs, listing, entries, n, dir, rel, rules, depth)->Ok_0,
            text_components(rel).len() as int,
        ),
        components_distinct(walk_entries_spec(fs, listing, entries, n, dir, rel, rules, depth)->Ok_0),
        named_among(
            walk_entries_spec(fs, listing, entries, n, dir, rel, rules, depth)->Ok_0,
            text_components(rel).len() as int,
            listed_names(listing, n),
        ),
    decreases entries, n,
{
    let c = text_components(rel);
    if n <= 0 {
        let found = walk_entries_spec(fs, listing, entries, n, dir, rel, rules, depth)->Ok_0;
        assert(found.len() == 0);
    } else {
        let m = c.len() as int;
        lemma_entries_closed(fs, listing, entries, n - 1, dir, rel, rules, depth);
        let prev = walk_entries_spec(fs, listing, entries, n - 1, dir, rel, rules, depth)->Ok_0;
        let found = walk_entries_spec(fs, listing, entries, n, dir, rel, rules, depth)->Ok_0;
        let name = listing[n - 1].0;
        let path = join_text(dir, name);
        let relative = join_text(rel, name);
        lemma_components_of_join(rel, name);
        lemma_components_of_relative(relative);
        let dir_entry = (path, relative_text(relative) + "/"@, true, 0u64);
        assert("/"@ == seq!['/']) by {
            reveal_strlit("/");
        }
        assert(text_components(dir_entry.1) == c.push(name));
        let learned = if n <= entries.len() {
            entries[n - 1]
        } else {
            EntrySeen::Unseen
        };
        let names = listed_names(listing, n - 1);
        assert(listed_names(listing, n) =~= names.push(name));
        let empty = Seq::<(Seq<char>, Seq<char>, bool, u64)>::empty();
        let one_dir = seq![dir_entry];
        assert(all_named(one_dir, m, name)) by {
            assert(one_dir[0] == dir_entry);
            assert(c.push(name)[m] == name);
        }
        if found == prev {
            lemma_distinct_append(prev, empty, m, names, name);
            assert(prev + empty =~= prev);
        } else if listing[n - 1].1 {
            let mut nested = false;
            match learned {
                EntrySeen::Directory(ig, Some(b)) => {
                    match rules_with(fs, rules, path, join_text(path, ".gitignore"@), ig) {
                        Ok(inner) => {
                            if depth != 0 && walk_dir_spec(fs, *b, path, relative, inner, (depth - 1) as nat) is Ok {
                                assert(n <= entries.len());
                                assert(decreases_to!(entries => entries[n - 1]));
                                lemma_dir_closed(fs, *b, path, relative, inner, (depth - 1) as nat);
                                let sub = walk_dir_spec(fs, *b, path, relative, inner, (depth - 1) as nat)->Ok_0;
                                assert(found == prev.push(dir_entry) + sub);
                                lemma_closed_nested(prev, dir_entry, sub, c, name);
                                lemma_distinct_below(dir_entry, sub, c, name);
                                lemma_distinct_append(prev, one_dir + sub, m, names, name);
                                assert(prev + (one_dir + sub) =~= prev.push(dir_entry) + sub);
                                nested = true;
                            }
                        },
                        Err(_) => {},
                    }
                },
                _ => {},
            }
            if !nested {
                assert(found == prev.push(dir_entry));
                lemma_closed_push(prev, dir_entry, c, name);
                lemma_distinct_append(prev, one_dir, m, names, name);
                assert(prev + one_dir =~= prev.push(dir_entry));
            }
        } else {
            let stat = learned->Stat_0->Ok_0;
            let file_entry = (path, relative_text(relative), false, stat.size);
            assert(found == prev.push(file_entry));
            lemma_closed_push(prev, file_entry, c, name);
            let one_file = seq![file_entry];
            assert(all_named(one_file, m, name)) by {
                assert(one_file[0] == file_entry);
                assert(c.push(name)[m] == name);
            }
            lemma_distinct_append(prev, one_file, m, names, name);
            assert(prev + one_file =~= prev.push(file_entry));
        }
    }
}

/// In a walk of a directory whose listings hold only plain names, each
/// listed once, no two entries share a relative path, and every entry more
/// than one component deep has its parent directory among the entries.
pub proof fn law_walk_entries_are_distinct_and_closed<F: ToolFs>(fs: &F, seen: RootSeen, root: Seq<char>)
    requires
        seen is Directory,
        plain_dir(seen->Directory_3),
        walk_root_spec(fs, seen, root) is Ok,
    ensures
        parents_present(walk_root_spec(fs, seen, root)->Ok_0, 0),
        forall|i: int, j: int|
            0 <= i < j < walk_root_spec(fs, seen, root)->Ok_0.len() ==> (#[trigger] walk_root_spec(
                fs,
                seen,
                root,
            )->Ok_0[i]).1 != (#[trigger] walk_root_spec(fs, seen, root)->Ok_0[j]).1,
{
    match seen {
        RootSeen::Directory(_, exclude, ignore, dir) => {
            let first = rules_with(fs, Seq::empty(), root, join_text(root, ".git/info/exclude"@), exclude)->Ok_0;
            let rules = rules_with(fs, first, root, join_text(root, ".gitignore"@), ignore)->Ok_0;
            lemma_dir_closed(fs, dir, root, ""@, rules, usize::MAX as nat);
            assert(""@ == Seq::<char>::empty()) by {
                reveal_strlit("");
            }
            assert(path_parts(Seq::<char>::empty()) == seq![Seq::<char>::empty()]);
            lemma_normal_single(Seq::<char>::empty());
            assert(text_components(""@).len() == 0);
            let found = walk_root_spec(fs, seen, root)->Ok_0;
            assert forall|i: int, j: int| 0 <= i < j < found.len() implies (#[trigger] found[i]).1
                != (#[trigger] found[j]).1 by {
                assert(text_components(found[i].1) != text_components(found[j].1));
            }
        },
        _ => {},
    }
}

/// The entries a walk returns, a permutation of what [`walk_root_spec`]
/// finds for a directory whose listings hold only plain names, each listed
/// once, never share a relative path, so that sorted they are in strictly
/// ascending order; and every entry more than one component deep has its
/// parent directory among them.
pub proof fn law_walk_files_are_distinct_and_closed<F: ToolFs>(fs: &F, seen: RootSeen, root: Seq<char>, files: Seq<WalkFile>)
    requires
        seen is Directory,
        plain_dir(seen->Directory_3),
        walk_root_spec(fs, seen, root) matches Ok(found) && entry_views(files).to_multiset()
            == found.to_multiset(),
    ensures
        forall|i: int, j: int|
            0 <= i < j < files.len() ==> (#[trigger] files[i]).relative_path@ != (
            #[trigger] files[j]).relative_path@,
        forall|i: int|
            0 <= i < files.len() && text_components((#[trigger] files[i]).relative_path@).len() > 1
                ==> exists|j: int|
                0 <= j < files.len() && (#[trigger] files[j]).is_dir && text_components(
                    files[j].relative_path@,
                ) == text_components(files[i].relative_path@).drop_last(),
{
    law_walk_entries_are_distinct_and_closed(fs, seen, root);
    let found = walk_root_spec(fs, seen, root)->Ok_0;
    let ev = entry_views(files);
    assert(found.no_duplicates());
    found.lemma_multiset_has_no_duplicates();
    ev.lemma_multiset_has_no_duplicates_conv();
    assert forall|i: int, j: int| 0 <= i < j < files.len() implies (#[trigger] files[i]).relative_path@
        != (#[trigger] files[j]).relative_path@ by {
        let x = ev[i];
        let y = ev[j];
        assert(x != y);
        assert(ev.contains(x));
        assert(ev.contains(y));
        vstd::seq_lib::to_multiset_contains(ev, x);
        vstd::seq_lib::to_multiset_contains(ev, y);
        vstd::seq_lib::to_multiset_contains(found, x);
        vstd::seq_lib::to_multiset_contains(found, y);
        let a = choose|a: int| 0 <= a < found.len() && found[a] == x;
        let b = choose|b: int| 0 <= b < found.len() && found[b] == y;
        if a < b {
            assert(found[a].1 != found[b].1);
        } else {
            assert(found[b].1 != found[a].1);
        }
    }
    assert forall|i: int|
        0 <= i < files.len() && text_components((#[trigger] files[i]).relative_path@).len() > 1 implies exists|j: int|
            0 <= j < files.len() && (#[trigger] files[j]).is_dir && text_components(
                files[j].relative_path@,
            ) == text_components(files[i].relative_path@).drop_last() by {
        let x = ev[i];
        assert(ev.contains(x));
        vstd::seq_lib::to_multiset_contains(ev, x);
        vstd::seq_lib::to_multiset_contains(found, x);
        let a = choose|a: int| 0 <= a < found.len() && found[a] == x;
        assert(text_components(found[a].1).len() > 1);
        let b = choose|b: int|
            0 <= b < found.len() && #[trigger] found[b].2 && text_components(found[b].1)
                == text_components(found[a].1).drop_last();
        let y = found[b];
        assert(found.contains(y));
        vstd::seq_lib::to_multiset_contains(found, y);
        vstd::seq_lib::to_multiset_contains(ev, y);
        let j = choose|j: int| 0 <= j < ev.len() && ev[j] == y;
        assert(files[j].is_dir);
    }
}

/// Two writes of the same arguments that both succeed report the same text
/// and byte count, whatever the backend answered each; the second reports
/// a replacement exactly when its existence check found the file.
pub proof fn law_repeated_writes_report_alike(
    first: WriteSeen,
    second: WriteSeen,
    input_path: Seq<char>,
    content: Seq<char>,
    r1: Result<crate::write::WriteOutput, crate::fs::ToolError>,
    r2: Result<crate::write::WriteOutput, crate::fs::ToolError>,
)
    requires
        write_outcome(first, input_path, content, r1),
        write_outcome(second, input_path, content, r2),
        r1 is Ok,
        r2 is Ok,
    ensures
        r2->Ok_0.text@ == r1->Ok_0.text@,
        r2->Ok_0.bytes_written == r1->Ok_0.bytes_written,
        r2->Ok_0.replaced == (second.exists == Ok::<bool, ToolFsError>(true)),
{
}

/// The relative paths of walk entries, in order.
pub open spec fn relative_paths(files: Seq<WalkFile>) -> Seq<Seq<char>> {
    files.map_values(|f: WalkFile| f.relative_path@)
}

/// With a pattern that matches every name, the first `n` entries that have
/// a file name are all found, in order, while the limit allows.
proof fn lemma_found_everything(files: Seq<WalkFile>, n: int, limit: int)
    requires
        0 <= n <= files.len(),
        n <= limit,
        forall|p: Seq<char>| #[trigger] glob_matches("**"@, p),
        forall|i: int| 0 <= i < files.len() ==> file_name_of(trim_slashes(#[trigger] files[i].relative_path@)) is Some,
    ensures
        found_paths(files, n, "**"@, false, limit) == relative_paths(files.take(n)),
    decreases n,
{
    if n > 0 {
        lemma_found_everything(files, n - 1, limit);
        let name = file_name_of(trim_slashes(files[n - 1].relative_path@))->0;
        assert(glob_matches("**"@, name));
        assert(relative_paths(files.take(n)) =~= relative_paths(files.take(n - 1)).push(
            files[n - 1].relative_path@,
        ));
    } else {
        assert(relative_paths(files.take(n)) =~= Seq::<Seq<char>>::empty());
    }
}

/// `find` with the pattern `**`, which globset documents as matching
/// everything, lists every entry of the walk in walk order when the limit
/// allows, and `grep` without a glob searches exactly the entries that are
/// not directories: over the same walk, the files `find` lists are the
/// files `grep` searches, in the same order.
pub proof fn law_find_and_grep_visit_the_same_files(files: Seq<WalkFile>, args: GlobArgs)
    requires
        args.pattern@ == "**"@,
        args.limit matches Some(l) && l >= files.len(),
        files.len() <= usize::MAX,
        forall|p: Seq<char>| #[trigger] glob_matches("**"@, p),
        forall|i: int| 0 <= i < files.len() ==> file_name_of(trim_slashes(#[trigger] files[i].relative_path@)) is Some,
    ensures
        find_selection(files, args) == relative_paths(files),
        forall|i: int| 0 <= i < files.len() ==> (grep_selects(#[trigger] files[i], None) <==> !files[i].is_dir),
{
    reveal_strlit("**");
    reveal_strlit("**/");
    assert(!"**"@.contains('/')) by {
        assert forall|i: int| 0 <= i < "**"@.len() implies "**"@[i] != '/' by {}
    }
    let limit = crate::glob::path_limit(crate::glob::find_limit(args.limit));
    assert(limit >= files.len());
    lemma_found_everything(files, files.len() as int, limit);
    assert(files.take(files.len() as int) =~= files);
}

/// Whether no two entries have the same components.
pub open spec fn components_distinct(found: Seq<(Seq<char>, Seq<char>, bool, u64)>) -> bool {
    forall|i: int, j: int|
        0 <= i < j < found.len() ==> text_components(#[trigger] found[i].1) != text_components(
            #[trigger] found[j].1,
        )
}

/// Whether each entry's component just below `m` components is one of
/// `names`.
pub open spec fn named_among(found: Seq<(Seq<char>, Seq<char>, bool, u64)>, m: int, names: Seq<Seq<char>>) -> bool {
    forall|i: int| 0 <= i < found.len() ==> names.contains(#[trigger] text_components(found[i].1)[m])
}

/// Whether each entry has more than `m` components, the one just below `m`
/// being `name`.
pub open spec fn all_named(more: Seq<(Seq<char>, Seq<char>, bool, u64)>, m: int, name: Seq<char>) -> bool {
    forall|i: int|
        0 <= i < more.len() ==> text_components(more[i].1).len() > m && #[trigger] text_components(
            more[i].1,
        )[m] == name
}

/// Appending entries below a name not among those of the earlier entries
/// keeps the entries distinct and names them from one more name.
proof fn lemma_distinct_append(
    prev: Seq<(Seq<char>, Seq<char>, bool, u64)>,
    more: Seq<(Seq<char>, Seq<char>, bool, u64)>,
    m: int,
    names: Seq<Seq<char>>,
    name: Seq<char>,
)
    requires
        components_distinct(prev),
        named_among(prev, m, names),
        !names.contains(name),
        all_named(more, m, name),
        components_distinct(more),
    ensures
        components_distinct(prev + more),
        named_among(prev + more, m, names.push(name)),
{
    let found = prev + more;
    assert forall|i: int| 0 <= i < found.len() implies names.push(name).contains(
        #[trigger] text_components(found[i].1)[m],
    ) by {
        if i < prev.len() {
            assert(found[i] == prev[i]);
            let x = text_components(prev[i].1)[m];
            assert(names.contains(x));
            let k = choose|k: int| 0 <= k < names.len() && names[k] == x;
            assert(names.push(name)[k] == x);
        } else {
            assert(found[i] == more[i - prev.len()]);
            assert(names.push(name)[names.len() as int] == name);
        }
    }
    assert forall|i: int, j: int| 0 <= i < j < found.len() implies text_components(
        #[trigger] found[i].1,
    ) != text_components(#[trigger] found[j].1) by {
        if j < prev.len() {
            assert(found[i] == prev[i]);
            assert(found[j] == prev[j]);
        } else if i >= prev.len() {
            assert(found[i] == more[i - prev.len()]);
            assert(found[j] == more[j - prev.len()]);
        } else {
            assert(found[i] == prev[i]);
            assert(found[j] == more[j - prev.len()]);
            assert(names.contains(text_components(prev[i].1)[m]));
            assert(text_components(more[j - prev.len()].1)[m] == name);
        }
    }
}

/// A directory entry followed by what lies below it are distinct and all
/// named by the directory's name when what lies below is distinct.
proof fn lemma_distinct_below(
    e: (Seq<char>, Seq<char>, bool, u64),
    sub: Seq<(Seq<char>, Seq<char>, bool, u64)>,
    base: Seq<Seq<char>>,
    name: Seq<char>,
)
    requires
        text_components(e.1) == base.push(name),
        under_components(sub, base.push(name)),
        components_distinct(sub),
    ensures
        components_distinct(seq![e] + sub),
        all_named(seq![e] + sub, base.len() as int, name),
{
    let inner = base.push(name);
    let m = base.len() as int;
    let found = seq![e] + sub;
    assert forall|i: int, j: int| 0 <= i < j < found.len() implies text_components(
        #[trigger] found[i].1,
    ) != text_components(#[trigger] found[j].1) by {
        assert(found[j] == sub[j - 1]);
        if i > 0 {
            assert(found[i] == sub[i - 1]);
        } else {
            assert(found[i] == e);
            assert(text_components(sub[j - 1].1).len() > inner.len());
        }
    }
    assert forall|i: int| 0 <= i < found.len() implies text_components(found[i].1).len() > m
        && #[trigger] text_components(found[i].1)[m] == name by {
        if i == 0 {
            assert(found[i] == e);
            assert(inner[m] == name);
        } else {
            assert(found[i] == sub[i - 1]);
            let c = text_components(sub[i - 1].1);
            assert(c.take(m + 1) == inner);
            assert(c.take(m + 1)[m] == c[m]);
        }
    }
}

/// A search over walked entries reads each entry it reaches before its
/// match limit that is not a directory, is within [`MAX_FILE_BYTES`] and,
/// when a glob is given, whose root-relative path the glob matches; an entry
/// that is a directory, or whose root-relative path a given glob does not
/// match, changes nothing in the search.
pub proof fn law_grep_selects_by_relative_path<F: ToolFs>(
    fs: &F,
    files: Seq<WalkFile>,
    reads: Seq<Option<Seq<u8>>>,
    args: GrepArgs,
    r: Result<crate::grep::GrepOutput, crate::fs::ToolError>,
)
    requires
        grep_run_outcome(fs, GrepSeen::Searched(files, reads), args, r),
    ensures
        forall|k: int|
            #![trigger files[k]]
            0 <= k < files.len() && !grep_fold(files, reads, k, grep_query(args)).2 && !files[k].is_dir
                && files[k].size <= MAX_FILE_BYTES && (args.glob matches Some(g) ==> glob_matches(
                g@,
                files[k].relative_path@,
            )) ==> exists|answer: Result<Seq<u8>, ToolFsError>|
                #![trigger read_settles(answer, files[k].skip_read_errors, reads[k])]
                fs.bounded_read_answer(files[k].path@, MAX_FILE_BYTES as nat, answer)
                    && read_settles(answer, files[k].skip_read_errors, reads[k]),
        forall|k: int|
            0 <= k < files.len() && (files[k].is_dir || (args.glob matches Some(g) && !glob_matches(
                g@,
                files[k].relative_path@,
            ))) ==> #[trigger] grep_fold(files, reads, k + 1, grep_query(args)) == grep_fold(
                files,
                reads,
                k,
                grep_query(args),
            ),
{
    let q = grep_query(args);
    assert forall|k: int|
        #![trigger files[k]]
        0 <= k < files.len() && !grep_fold(files, reads, k, q).2 && !files[k].is_dir
            && files[k].size <= MAX_FILE_BYTES && (args.glob matches Some(g) ==> glob_matches(
            g@,
            files[k].relative_path@,
        )) implies exists|answer: Result<Seq<u8>, ToolFsError>|
        #![trigger read_settles(answer, files[k].skip_read_errors, reads[k])]
        fs.bounded_read_answer(files[k].path@, MAX_FILE_BYTES as nat, answer)
            && read_settles(answer, files[k].skip_read_errors, reads[k]) by {
        assert(crate::grep::read_fits(fs, files, reads, k, q));
        assert(grep_selects(files[k], q.glob));
    }
    assert forall|k: int|
        0 <= k < files.len() && (files[k].is_dir || (args.glob matches Some(g) && !glob_matches(
            g@,
            files[k].relative_path@,
        ))) implies #[trigger] grep_fold(files, reads, k + 1, q) == grep_fold(files, reads, k, q) by {
        assert(!grep_selects(files[k], q.glob));
    }
}

/// The rules read from a kept directory's own `.gitignore` are matched from
/// that directory: when its ignore file is read and compiles, its contents
/// are walked under the rule stack with one more set, of that file's lines
/// rooted at the directory itself, and the walk over the listing so far
/// gains the directory's entry followed by what that walk finds.
pub proof fn law_nested_ignore_rules_are_rooted_at_their_directory<F: ToolFs>(
    fs: &F,
    listing: Seq<(Seq<char>, bool)>,
    entries: Seq<EntrySeen>,
    n: int,
    dir: Seq<char>,
    rel: Seq<char>,
    rules: Seq<(Seq<char>, Seq<Seq<char>>)>,
    depth: nat,
    stat: crate::fs::FileStat,
    bytes: Seq<u8>,
    sub: DirSeen,
)
    requires
        1 <= n <= entries.len(),
        listing[n - 1].1,
        listing[n - 1].0 != ".git"@,
        !ignored_by(rules, join_text(dir, listing[n - 1].0), true),
        entries[n - 1] == EntrySeen::Directory(
            crate::walk::IgnoreSeen::Read(stat, Ok(bytes)),
            Some(Box::new(sub)),
        ),
        fs.stat_answer(join_text(join_text(dir, listing[n - 1].0), ".gitignore"@), Ok(stat)),
        stat.is_file,
        stat.size <= MAX_FILE_BYTES,
        fs.bounded_read_answer(
            join_text(join_text(dir, listing[n - 1].0), ".gitignore"@),
            MAX_FILE_BYTES as nat,
            Ok(bytes),
        ),
        gitignore_build_error(join_text(dir, listing[n - 1].0), ignore_file_lines(utf8_lossy(bytes))) is None,
        depth > 0,
        walk_entries_spec(fs, listing, entries, n - 1, dir, rel, rules, depth) is Ok,
        walk_dir_spec(
            fs,
            sub,
            join_text(dir, listing[n - 1].0),
            join_text(rel, listing[n - 1].0),
            rules.push((join_text(dir, listing[n - 1].0), ignore_file_lines(utf8_lossy(bytes)))),
            (depth - 1) as nat,
        ) is Ok,
    ensures
        walk_entries_spec(fs, listing, entries, n, dir, rel, rules, depth) == Ok::<
            Seq<(Seq<char>, Seq<char>, bool, u64)>,
            WalkFailure,
        >(
            walk_entries_spec(fs, listing, entries, n - 1, dir, rel, rules, depth)->Ok_0.push(
                (
                    join_text(dir, listing[n - 1].0),
                    relative_text(join_text(rel, listing[n - 1].0)) + "/"@,
                    true,
                    0u64,
                ),
            ) + walk_dir_spec(
                fs,
                sub,
                join_text(dir, listing[n - 1].0),
                join_text(rel, listing[n - 1].0),
                rules.push((join_text(dir, listing[n - 1].0), ignore_file_lines(utf8_lossy(bytes)))),
                (depth - 1) as nat,
            )->Ok_0,
        ),
{
}

/// With no limit given, find uses a limit of 1000 results; a given limit
/// below 1 counts as 1.
pub proof fn law_find_limit_defaults_to_a_thousand(l: i64)
    ensures
        find_limit(None) == 1000,
        find_limit(Some(l)) == if l < 1 {
            1
        } else {
            l
        },
{
}

/// Normalizing a tool path removes at most one character, a leading `@`,
/// and keeps every other character, a Unicode space variant becoming an
/// ASCII space.
pub proof fn law_normalization_drops_only_a_leading_at(p: Seq<char>)
    ensures
        normalized_path(p).len() == if p.len() > 0 && p[0] == '@' {
            p.len() - 1
        } else {
            p.len() as int
        },
        forall|i: int|
            0 <= i < normalized_path(p).len() ==> {
                let c = p[if p.len() > 0 && p[0] == '@' {
                    i + 1
                } else {
                    i
                }];
                #[trigger] normalized_path(p)[i] == if c == '\u{00a0}' || ('\u{2000}' <= c && c <= '\u{200a}')
                    || c == '\u{202f}' || c == '\u{205f}' || c == '\u{3000}' {
                    ' '
                } else {
                    c
                }
            },
{
    let mapped = p.map_values(|c: char| crate::path::map_space(c));
    if p.len() > 0 {
        assert(mapped[0] == crate::path::map_space(p[0]));
    }
}

/// The first piece of `s` split at `sep` is what comes before the first
/// `sep`.
proof fn lemma_first_piece<T>(s: Seq<T>, sep: T, k: int)
    requires
        0 <= k <= s.len(),
        forall|j: int| 0 <= j < k ==> s[j] != sep,
        k == s.len() || s[k] == sep,
    ensures
        split_on(s, sep)[0] == s.take(k),
{
    let t = s.take(k);
    assert forall|j: int| 0 <= j < t.len() implies t[j] != sep by {}
    lemma_split_no_sep(t, sep);
    if k == s.len() {
        assert(t == s);
    } else {
        assert(s.take(k + 1) == t.push(sep));
        lemma_split_push(t, sep, sep);
        crate::lines::lemma_split_prefix(s, k + 1, sep);
        let p = split_on(s.take(k + 1), sep);
        assert(p =~= seq![t, Seq::<T>::empty()]);
        assert(split_on(s, sep).take(1)[0] == split_on(s, sep)[0]);
    }
}

/// When the first line of a read window is over 50 KiB, the read answers
/// with a notice naming that line and its size, which is the number of
/// bytes before the window's first newline, not the size of the window.
pub proof fn law_long_line_notice_reports_the_first_line(
    input_path: Seq<char>,
    b: Seq<u8>,
    offset: Option<i64>,
    limit: Option<i64>,
    r: Result<ReadOutput, crate::fs::ToolError>,
    k: int,
)
    requires
        is_read_window(input_path, b, offset, limit, r),
        r is Ok,
        0 <= k <= encode_utf8(window_content(b, offset, limit)).len(),
        forall|j: int| 0 <= j < k ==> encode_utf8(window_content(b, offset, limit))[j] != 10u8,
        k == encode_utf8(window_content(b, offset, limit)).len() || encode_utf8(
            window_content(b, offset, limit),
        )[k] == 10u8,
        k > DEFAULT_MAX_BYTES,
    ensures
        r->Ok_0.text@ == "[Line "@ + decimal((start_index(offset) + 1) as nat) + " is "@ + size_text(
            k as nat,
        ) + ", exceeds "@ + size_text(DEFAULT_MAX_BYTES as nat) + " limit. Use bash: sed -n '"@
            + decimal((start_index(offset) + 1) as nat) + "p' "@ + input_path + " | head -c "@
            + decimal(DEFAULT_MAX_BYTES as nat) + "]"@,
{
    let cb = encode_utf8(window_content(b, offset, limit));
    lemma_first_piece(cb, 10u8, k);
    assert(crate::truncate::first_line(cb).len() == k);
    assert(!crate::truncate::fits_limits(cb, crate::truncate::DEFAULT_MAX_LINES as nat, DEFAULT_MAX_BYTES as nat));
}

} // verus!
