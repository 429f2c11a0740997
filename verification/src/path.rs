//! `/`-separated paths as strings: their parts, file names, parents, joins
//! and the normalization applied to model-supplied paths.

use vstd::prelude::*;
use vstd::utf8::*;
use crate::lines::{join_with, lemma_join_push, lemma_join_update_last, lemma_split_push, split_on};
use crate::text::{cat, lemma_encode_concat, push_char, string_of_encoding};

verus! {

broadcast use vstd::string::group_string_axioms;

/// The path separator.
pub const SEPARATOR: char = '/';

/// The pieces of a path between separators, empty pieces included.
pub open spec fn path_parts(p: Seq<char>) -> Seq<Seq<char>> {
    split_on(p, '/')
}

/// A piece that names a component: neither empty nor `.`.
pub open spec fn is_meaningful(part: Seq<char>) -> bool {
    part.len() > 0 && part != seq!['.']
}

/// A piece that is a normal component: meaningful and not `..`.
pub open spec fn is_normal(part: Seq<char>) -> bool {
    is_meaningful(part) && part != seq!['.', '.']
}

/// The normal components among `parts`, in order.
pub open spec fn normal_parts(parts: Seq<Seq<char>>) -> Seq<Seq<char>>
    decreases parts.len(),
{
    if parts.len() == 0 {
        Seq::<Seq<char>>::empty()
    } else if is_normal(parts.last()) {
        normal_parts(parts.drop_last()).push(parts.last())
    } else {
        normal_parts(parts.drop_last())
    }
}

/// The normal components of a path joined by `/`: root, `.` and `..`
/// components dropped.
pub open spec fn relative_text(p: Seq<char>) -> Seq<char> {
    join_with(normal_parts(path_parts(p)), '/')
}

/// Whether a path starts at the root.
pub open spec fn has_root(p: Seq<char>) -> bool {
    p.len() > 0 && p[0] == '/'
}

/// Whether a relative path starts with a `.` component (`.` or `./...`).
pub open spec fn has_leading_cur_dir(p: Seq<char>) -> bool {
    !has_root(p) && path_parts(p)[0] == seq!['.']
}

/// Index of the last meaningful piece among the first `n` pieces, or -1.
pub open spec fn last_meaningful(parts: Seq<Seq<char>>, n: int) -> int
    decreases n,
{
    if n <= 0 {
        -1
    } else if is_meaningful(parts[n - 1]) {
        n - 1
    } else {
        last_meaningful(parts, n - 1)
    }
}

/// The final component's name, unless the path ends in `..` or has no
/// component past the root or a leading `.`.
pub open spec fn file_name_of(p: Seq<char>) -> Option<Seq<char>> {
    let parts = path_parts(p);
    let j = last_meaningful(parts, parts.len() as int);
    if j < 0 || parts[j] == seq!['.', '.'] {
        None
    } else {
        Some(parts[j])
    }
}

/// The path without its final component, as `Path::parent` gives it.
pub open spec fn parent_of(p: Seq<char>) -> Option<Seq<char>> {
    let parts = path_parts(p);
    let j = last_meaningful(parts, parts.len() as int);
    let body_start: int = if has_root(p) || has_leading_cur_dir(p) {
        1
    } else {
        0
    };
    if j >= body_start {
        let i = last_meaningful(parts, j);
        if i >= body_start {
            Some(join_with(parts.take(i + 1), '/'))
        } else if has_root(p) {
            Some(seq!['/'])
        } else if has_leading_cur_dir(p) {
            Some(seq!['.'])
        } else {
            Some(Seq::<char>::empty())
        }
    } else if has_leading_cur_dir(p) {
        Some(Seq::<char>::empty())
    } else {
        None
    }
}

/// `base` with `name` pushed on, as `PathBuf::push` does it: an absolute
/// `name` replaces `base`, otherwise a separator is added when `base` is
/// non-empty and does not already end with one.
pub open spec fn join_text(base: Seq<char>, name: Seq<char>) -> Seq<char> {
    if has_root(name) {
        name
    } else if base.len() > 0 && base.last() != '/' {
        base + seq!['/'] + name
    } else {
        base + name
    }
}

/// Splits a path into its pieces.
pub fn split_path(path: &str) -> (r: Vec<Vec<char>>)
    ensures
        r@.len() == path_parts(path@).len(),
        forall|i: int| 0 <= i < r@.len() ==> #[trigger] r@[i]@ == path_parts(path@)[i],
{
    let ghost chars = path@;
    let mut parts: Vec<Vec<char>> = Vec::new();
    let mut current: Vec<char> = Vec::new();
    proof {
        assert(chars.take(0) =~= Seq::<char>::empty());
    }
    for c in it: path.chars()
        invariant
            it.seq() == chars,
            parts@.len() + 1 == split_on(chars.take(it.index()), '/').len(),
            forall|i: int|
                0 <= i < parts@.len() ==> #[trigger] parts@[i]@ == split_on(
                    chars.take(it.index()),
                    '/',
                )[i],
            current@ == split_on(chars.take(it.index()), '/').last(),
    {
        let ghost k = it.index();
        let ghost prev = split_on(chars.take(k), '/');
        proof {
            assert(chars.take(k + 1) == chars.take(k).push(c));
            lemma_split_push(chars.take(k), c, '/');
        }
        if c == '/' {
            let done = current;
            parts.push(done);
            current = Vec::new();
            proof {
                assert(current@ =~= Seq::<char>::empty());
            }
        } else {
            current.push(c);
        }
    }
    proof {
        assert(chars.take(chars.len() as int) == chars);
    }
    parts.push(current);
    parts
}

/// Appends the encoding of `chars` to `buf`.
fn push_chars(buf: &mut Vec<u8>, chars: &Vec<char>)
    ensures
        final(buf)@ == old(buf)@ + encode_utf8(chars@),
{
    let mut i: usize = 0;
    while i < chars.len()
        invariant
            0 <= i <= chars@.len(),
            buf@ == old(buf)@ + encode_utf8(chars@.take(i as int)),
        decreases chars@.len() - i,
    {
        push_char(buf, chars[i]);
        proof {
            assert(chars@.take(i + 1) == chars@.take(i as int) + seq![chars@[i as int]]);
            lemma_encode_concat(chars@.take(i as int), seq![chars@[i as int]]);
        }
        i = i + 1;
    }
    proof {
        assert(chars@.take(chars@.len() as int) == chars@);
        assert(encode_utf8(Seq::<char>::empty()) == Seq::<u8>::empty());
        assert(chars@.take(0) == Seq::<char>::empty());
    }
}

/// Whether a piece is meaningful.
pub(crate) fn meaningful(part: &Vec<char>) -> (r: bool)
    ensures
        r == is_meaningful(part@),
{
    if part.len() == 0 {
        return false;
    }
    let dot = part.len() == 1 && part[0] == '.';
    proof {
        if part@.len() == 1 && part@[0] == '.' {
            assert(part@ =~= seq!['.']);
        }
    }
    !dot
}

/// Whether a piece is a normal component.
fn normal(part: &Vec<char>) -> (r: bool)
    ensures
        r == is_normal(part@),
{
    if !meaningful(part) {
        return false;
    }
    let dots = part.len() == 2 && part[0] == '.' && part[1] == '.';
    proof {
        if part@.len() == 2 && part@[0] == '.' && part@[1] == '.' {
            assert(part@ =~= seq!['.', '.']);
        }
    }
    !dots
}

/// The first `n` pieces joined by `/`.
pub(crate) fn join_parts(parts: &Vec<Vec<char>>, n: usize, Ghost(spec_parts): Ghost<Seq<Seq<char>>>) -> (r: String)
    requires
        n <= parts@.len(),
        parts@.len() == spec_parts.len(),
        forall|i: int| 0 <= i < parts@.len() ==> #[trigger] parts@[i]@ == spec_parts[i],
    ensures
        r@ == join_with(spec_parts.take(n as int), '/'),
{
    let mut buf: Vec<u8> = Vec::new();
    let mut i: usize = 0;
    while i < n
        invariant
            0 <= i <= n <= parts@.len(),
            parts@.len() == spec_parts.len(),
            forall|j: int| 0 <= j < parts@.len() ==> #[trigger] parts@[j]@ == spec_parts[j],
            buf@ == encode_utf8(join_with(spec_parts.take(i as int), '/')),
        decreases n - i,
    {
        let ghost before = join_with(spec_parts.take(i as int), '/');
        if i > 0 {
            push_char(&mut buf, '/');
        }
        push_chars(&mut buf, &parts[i]);
        proof {
            let t = spec_parts.take(i as int);
            assert(spec_parts.take(i + 1) == t.push(spec_parts[i as int]));
            if i > 0 {
                lemma_join_push(t, '/', spec_parts[i as int]);
                lemma_encode_concat(before, seq!['/']);
                lemma_encode_concat(before + seq!['/'], spec_parts[i as int]);
            } else {
                assert(t.push(spec_parts[0]) == seq![spec_parts[0]]);
                assert(encode_utf8(Seq::<char>::empty()) == Seq::<u8>::empty());
                assert(buf@ =~= encode_utf8(spec_parts[0]));
            }
        }
        i = i + 1;
    }
    string_of_encoding(buf, Ghost(join_with(spec_parts.take(n as int), '/')))
}

/// The normal components of `path` joined by `/`.
pub fn relative_path_string(path: &str) -> (r: String)
    ensures
        r@ == relative_text(path@),
{
    let parts = split_path(path);
    let ghost spec_parts = path_parts(path@);
    let mut buf: Vec<u8> = Vec::new();
    let mut emitted: usize = 0;
    let mut i: usize = 0;
    while i < parts.len()
        invariant
            0 <= i <= parts@.len(),
            parts@.len() == spec_parts.len(),
            forall|j: int| 0 <= j < parts@.len() ==> #[trigger] parts@[j]@ == spec_parts[j],
            emitted == normal_parts(spec_parts.take(i as int)).len(),
            emitted <= i,
            buf@ == encode_utf8(join_with(normal_parts(spec_parts.take(i as int)), '/')),
        decreases parts@.len() - i,
    {
        let ghost before = normal_parts(spec_parts.take(i as int));
        proof {
            assert(spec_parts.take(i + 1).drop_last() == spec_parts.take(i as int));
            assert(spec_parts.take(i + 1).last() == spec_parts[i as int]);
        }
        if normal(&parts[i]) {
            if emitted > 0 {
                push_char(&mut buf, '/');
            }
            push_chars(&mut buf, &parts[i]);
            proof {
                let part = spec_parts[i as int];
                if emitted > 0 {
                    lemma_join_push(before, '/', part);
                    lemma_encode_concat(join_with(before, '/'), seq!['/']);
                    lemma_encode_concat(join_with(before, '/') + seq!['/'], part);
                } else {
                    assert(before.push(part) =~= seq![part]);
                    assert(join_with(before, '/') == Seq::<char>::empty());
                    assert(encode_utf8(Seq::<char>::empty()) == Seq::<u8>::empty());
                    assert(buf@ =~= encode_utf8(part));
                }
            }
            emitted = emitted + 1;
        }
        i = i + 1;
    }
    proof {
        assert(spec_parts.take(parts@.len() as int) == spec_parts);
    }
    string_of_encoding(buf, Ghost(relative_text(path@)))
}

/// Index of the last meaningful piece among the first `n`, or `None`.
fn find_last_meaningful(parts: &Vec<Vec<char>>, n: usize, Ghost(spec_parts): Ghost<Seq<Seq<char>>>) -> (r: Option<usize>)
    requires
        n <= parts@.len(),
        parts@.len() == spec_parts.len(),
        forall|i: int| 0 <= i < parts@.len() ==> #[trigger] parts@[i]@ == spec_parts[i],
    ensures
        match r {
            Some(j) => j as int == last_meaningful(spec_parts, n as int) && j < n,
            None => last_meaningful(spec_parts, n as int) == -1,
        },
    decreases n,
{
    if n == 0 {
        return None;
    }
    if meaningful(&parts[n - 1]) {
        Some(n - 1)
    } else {
        find_last_meaningful(parts, n - 1, Ghost(spec_parts))
    }
}

proof fn lemma_last_meaningful_range(parts: Seq<Seq<char>>, n: int)
    ensures
        -1 <= last_meaningful(parts, n) < n || (n <= 0 && last_meaningful(parts, n) == -1),
        last_meaningful(parts, n) >= 0 ==> is_meaningful(parts[last_meaningful(parts, n)]),
    decreases n,
{
    if n > 0 && !is_meaningful(parts[n - 1]) {
        lemma_last_meaningful_range(parts, n - 1);
    }
}

/// The final component's name, as `Path::file_name` gives it.
pub fn file_name(path: &str) -> (r: Option<String>)
    ensures
        r matches Some(name) ==> file_name_of(path@) == Some(name@),
        r is None ==> file_name_of(path@) is None,
{
    let parts = split_path(path);
    let ghost spec_parts = path_parts(path@);
    match find_last_meaningful(&parts, parts.len(), Ghost(spec_parts)) {
        None => None,
        Some(j) => {
            let part = &parts[j];
            let dots = part.len() == 2 && part[0] == '.' && part[1] == '.';
            proof {
                if part@.len() == 2 && part@[0] == '.' && part@[1] == '.' {
                    assert(part@ =~= seq!['.', '.']);
                }
            }
            if dots {
                None
            } else {
                let mut buf: Vec<u8> = Vec::new();
                push_chars(&mut buf, part);
                Some(string_of_encoding(buf, Ghost(part@)))
            }
        },
    }
}

/// The path without its final component, as `Path::parent` gives it.
pub fn parent(path: &str) -> (r: Option<String>)
    ensures
        r matches Some(p) ==> parent_of(path@) == Some(p@),
        r is None ==> parent_of(path@) is None,
{
    let parts = split_path(path);
    let ghost spec_parts = path_parts(path@);
    let ghost p = path@;
    let bytes = path.as_bytes();
    proof {
        crate::lines::lemma_split_shape(p, '/');
        lemma_first_char_ascii(p, '/');
    }
    let rooted = bytes.len() > 0 && bytes[0] == 47;
    let cur_dir = !rooted && parts[0].len() == 1 && parts[0][0] == '.';
    proof {
        if parts@[0]@.len() == 1 && parts@[0]@[0] == '.' {
            assert(parts@[0]@ =~= seq!['.']);
        }
        assert(rooted == has_root(p));
        assert(cur_dir == has_leading_cur_dir(p));
    }
    let body_start: usize = if rooted || cur_dir {
        1
    } else {
        0
    };
    match find_last_meaningful(&parts, parts.len(), Ghost(spec_parts)) {
        Some(j) if j >= body_start => match find_last_meaningful(&parts, j, Ghost(spec_parts)) {
            Some(i) if i >= body_start => Some(join_parts(&parts, i + 1, Ghost(spec_parts))),
            _ => {
                proof {
                    lemma_last_meaningful_range(spec_parts, j as int);
                    reveal_strlit("/");
                    reveal_strlit(".");
                    reveal_strlit("");
                }
                if rooted {
                    Some("/".to_owned())
                } else if cur_dir {
                    Some(".".to_owned())
                } else {
                    Some(String::new())
                }
            },
        },
        _ => {
            if cur_dir {
                Some(String::new())
            } else {
                None
            }
        },
    }
}

/// `base` with `name` pushed on, as `PathBuf::push` does it.
pub fn join_path(base: &str, name: &str) -> (r: String)
    ensures
        r@ == join_text(base@, name@),
{
    let name_bytes = name.as_bytes();
    let base_bytes = base.as_bytes();
    proof {
        lemma_first_char_ascii(name@, '/');
        lemma_last_char_ascii(base@, '/');
        reveal_strlit("/");
    }
    if name_bytes.len() > 0 && name_bytes[0] == 47 {
        return name.to_owned();
    }
    if base_bytes.len() > 0 && base_bytes[base_bytes.len() - 1] != 47 {
        let with_sep = cat(base, "/");
        cat(with_sep.as_str(), name)
    } else {
        cat(base, name)
    }
}

/// The components kept by lexical normalization of `parts`: empty and `.`
/// pieces are dropped, and `..` drops the component before it, if any.
pub open spec fn lexical_stack(parts: Seq<Seq<char>>) -> Seq<Seq<char>>
    decreases parts.len(),
{
    if parts.len() == 0 {
        Seq::<Seq<char>>::empty()
    } else {
        let prev = lexical_stack(parts.drop_last());
        let part = parts.last();
        if !is_meaningful(part) {
            prev
        } else if part == seq!['.', '.'] {
            if prev.len() > 0 {
                prev.drop_last()
            } else {
                prev
            }
        } else {
            prev.push(part)
        }
    }
}

/// A path normalized without touching the filesystem: `.` and `..`
/// resolved lexically, a leading `/` kept.
pub open spec fn lexical_text(p: Seq<char>) -> Seq<char> {
    let body = join_with(lexical_stack(path_parts(p)), '/');
    if has_root(p) {
        seq!['/'] + body
    } else {
        body
    }
}

/// Normalizes a path lexically, as [`lexical_text`] says.
pub fn lexical_normalize(path: &str) -> (r: String)
    ensures
        r@ == lexical_text(path@),
{
    let parts = split_path(path);
    let ghost sp = path_parts(path@);
    let mut kept: Vec<usize> = Vec::new();
    let mut i: usize = 0;
    while i < parts.len()
        invariant
            0 <= i <= parts@.len(),
            parts@.len() == sp.len(),
            forall|j: int| 0 <= j < parts@.len() ==> #[trigger] parts@[j]@ == sp[j],
            forall|j: int| 0 <= j < kept@.len() ==> #[trigger] kept@[j] < parts@.len(),
            kept@.map_values(|k: usize| sp[k as int]) == lexical_stack(sp.take(i as int)),
        decreases parts@.len() - i,
    {
        let ghost before = kept@;
        proof {
            assert(sp.take(i + 1).drop_last() == sp.take(i as int));
            assert(sp.take(i + 1).last() == sp[i as int]);
        }
        if meaningful(&parts[i]) {
            let part = &parts[i];
            let dots = part.len() == 2 && part[0] == '.' && part[1] == '.';
            proof {
                if part@.len() == 2 && part@[0] == '.' && part@[1] == '.' {
                    assert(part@ =~= seq!['.', '.']);
                }
            }
            if dots {
                if kept.len() > 0 {
                    kept.pop();
                    proof {
                        assert(kept@.map_values(|k: usize| sp[k as int]) =~= before.map_values(
                            |k: usize| sp[k as int],
                        ).drop_last());
                    }
                }
            } else {
                kept.push(i);
                proof {
                    assert(kept@.map_values(|k: usize| sp[k as int]) =~= before.map_values(
                        |k: usize| sp[k as int],
                    ).push(sp[i as int]));
                }
            }
        }
        i = i + 1;
    }
    proof {
        assert(sp.take(parts@.len() as int) == sp);
    }
    let ghost stack = lexical_stack(sp);
    let mut buf: Vec<u8> = Vec::new();
    let bytes = path.as_bytes();
    proof {
        lemma_first_char_ascii(path@, '/');
        reveal_strlit("/");
    }
    let rooted = bytes.len() > 0 && bytes[0] == 47;
    if rooted {
        push_char(&mut buf, '/');
        proof {
            crate::text::lemma_encode_ascii_char('/');
        }
    }
    let ghost lead = buf@;
    let mut j: usize = 0;
    while j < kept.len()
        invariant
            0 <= j <= kept@.len(),
            parts@.len() == sp.len(),
            forall|t: int| 0 <= t < parts@.len() ==> #[trigger] parts@[t]@ == sp[t],
            forall|t: int| 0 <= t < kept@.len() ==> #[trigger] kept@[t] < parts@.len(),
            kept@.map_values(|k: usize| sp[k as int]) == stack,
            buf@ == lead + encode_utf8(join_with(stack.take(j as int), '/')),
        decreases kept@.len() - j,
    {
        let ghost before = join_with(stack.take(j as int), '/');
        let k = kept[j];
        assert(stack[j as int] == sp[k as int]);
        if j > 0 {
            push_char(&mut buf, '/');
        }
        push_chars(&mut buf, &parts[k]);
        proof {
            let t = stack.take(j as int);
            assert(stack.take(j + 1) == t.push(stack[j as int]));
            if j > 0 {
                lemma_join_push(t, '/', stack[j as int]);
                lemma_encode_concat(before, seq!['/']);
                lemma_encode_concat(before + seq!['/'], stack[j as int]);
            } else {
                assert(t.push(stack[0]) == seq![stack[0]]);
                assert(encode_utf8(Seq::<char>::empty()) == Seq::<u8>::empty());
            }
        }
        j = j + 1;
    }
    proof {
        assert(stack.take(kept@.len() as int) == stack);
        let body = join_with(stack, '/');
        if rooted {
            lemma_encode_concat(seq!['/'], body);
        } else {
            assert(lead == Seq::<u8>::empty());
        }
    }
    string_of_encoding(buf, Ghost(lexical_text(path@)))
}

/// The first byte of an encoding is an ASCII character's byte exactly when
/// the first character is that character.
pub proof fn lemma_first_char_ascii(s: Seq<char>, c: char)
    requires
        (c as u32) < 0x80,
    ensures
        (encode_utf8(s).len() > 0 && encode_utf8(s)[0] == (c as u32) as u8) == (s.len() > 0 && s[0]
            == c),
        (encode_utf8(s).len() > 0) == (s.len() > 0),
{
    if s.len() > 0 {
        assert(s == seq![s[0]] + s.drop_first());
        lemma_encode_concat(seq![s[0]], s.drop_first());
        lemma_single_char_encoding(s[0]);
        if encode_utf8(s)[0] == (c as u32) as u8 {
            lemma_ascii_byte_char(s[0], c);
        }
    }
}

/// The last byte of an encoding is an ASCII character's byte exactly when
/// the last character is that character.
pub proof fn lemma_last_char_ascii(s: Seq<char>, c: char)
    requires
        (c as u32) < 0x80,
    ensures
        (encode_utf8(s).len() > 0 && encode_utf8(s)[encode_utf8(s).len() - 1] == (c as u32) as u8)
            == (s.len() > 0 && s.last() == c),
        (encode_utf8(s).len() > 0) == (s.len() > 0),
{
    if s.len() > 0 {
        assert(s == s.drop_last() + seq![s.last()]);
        lemma_encode_concat(s.drop_last(), seq![s.last()]);
        lemma_single_char_encoding(s.last());
        let e = encode_utf8(seq![s.last()]);
        if encode_utf8(s)[encode_utf8(s).len() - 1] == (c as u32) as u8 {
            assert(e[e.len() - 1] == (c as u32) as u8);
            lemma_ascii_byte_char(s.last(), c);
        }
    } else {
        assert(encode_utf8(s) == Seq::<u8>::empty());
    }
}

/// The encoding of one character: its first byte is ASCII only for an ASCII
/// character, and its last byte likewise.
proof fn lemma_single_char_encoding(c: char)
    ensures
        encode_utf8(seq![c]).len() >= 1,
        (c as u32) < 0x80 ==> encode_utf8(seq![c]) == seq![(c as u32) as u8],
        (c as u32) >= 0x80 ==> encode_utf8(seq![c])[0] >= 0x80,
        (c as u32) >= 0x80 ==> encode_utf8(seq![c])[encode_utf8(seq![c]).len() - 1] >= 0x80,
{
    let u = c as u32;
    char_is_scalar(c);
    assert(seq![c].drop_first() == Seq::<char>::empty());
    assert(encode_utf8(Seq::<char>::empty()) == Seq::<u8>::empty());
    assert(seq![c][0] == c);
    assert(encode_utf8(seq![c]) == encode_scalar(u));
    assert(has_width_1_encoding(u) ==> leading_byte_width_1(u) == u as u8) by (bit_vector);
    assert(leading_byte_width_2(u) >= 0x80) by (bit_vector);
    assert(leading_byte_width_3(u) >= 0x80) by (bit_vector);
    assert(leading_byte_width_4(u) >= 0x80) by (bit_vector);
    assert(last_continuation_byte(u) >= 0x80) by (bit_vector);
}

/// Two characters whose single-byte encodings agree are equal.
proof fn lemma_ascii_byte_char(a: char, c: char)
    requires
        (c as u32) < 0x80,
        encode_utf8(seq![a])[0] == (c as u32) as u8 || encode_utf8(seq![a])[encode_utf8(
            seq![a],
        ).len() - 1] == (c as u32) as u8,
    ensures
        a == c,
{
    lemma_single_char_encoding(a);
    let ua = a as u32;
    let uc = c as u32;
    if ua < 0x80 {
        assert(ua as u8 == uc as u8);
        assert(ua == uc) by (bit_vector)
            requires
                ua < 0x80,
                uc < 0x80,
                ua as u8 == uc as u8,
        ;
        vstd::utf8::char_u32_cast(a, ua);
        vstd::utf8::char_u32_cast(c, uc);
    }
}

/// Whether a character is one of the Unicode space variants that path
/// normalization maps to an ASCII space.
pub open spec fn is_unicode_space(c: char) -> bool {
    c == '\u{00a0}' || ('\u{2000}' <= c && c <= '\u{200a}') || c == '\u{202f}' || c == '\u{205f}'
        || c == '\u{3000}'
}

pub open spec fn map_space(c: char) -> char {
    if is_unicode_space(c) {
        ' '
    } else {
        c
    }
}

/// The path after normalization: Unicode space variants become ASCII
/// spaces, then one leading `@` is removed.
pub open spec fn normalized_path(p: Seq<char>) -> Seq<char> {
    let mapped = p.map_values(|c: char| map_space(c));
    if mapped.len() > 0 && mapped[0] == '@' {
        mapped.drop_first()
    } else {
        mapped
    }
}

/// Strips one leading `@` and maps Unicode space variants to ASCII space.
/// Tilde and file URLs stay literal, so normalization cannot introduce
/// ambient host authority.
pub fn normalize_tool_path(path: &str) -> (r: String)
    ensures
        r@ == normalized_path(path@),
{
    let ghost chars = path@;
    let ghost mapped = chars.map_values(|c: char| map_space(c));
    let mut buf: Vec<u8> = Vec::new();
    let mut first = true;
    let mut skipped = false;
    for c in it: path.chars()
        invariant
            it.seq() == chars,
            mapped == chars.map_values(|c: char| map_space(c)),
            first == (it.index() == 0),
            skipped == (it.index() > 0 && mapped[0] == '@'),
            buf@ == encode_utf8(
                if skipped {
                    mapped.take(it.index()).drop_first()
                } else {
                    mapped.take(it.index())
                },
            ),
    {
        let ghost k = it.index();
        let ghost before = if skipped {
            mapped.take(k).drop_first()
        } else {
            mapped.take(k)
        };
        let m = if c == '\u{00a0}' || ('\u{2000}' <= c && c <= '\u{200a}') || c == '\u{202f}' || c
            == '\u{205f}' || c == '\u{3000}' {
            ' '
        } else {
            c
        };
        assert(m == mapped[k]);
        if first && m == '@' {
            skipped = true;
            proof {
                assert(mapped.take(1).drop_first() =~= Seq::<char>::empty());
                assert(mapped.take(0) =~= Seq::<char>::empty());
                assert(encode_utf8(Seq::<char>::empty()) == Seq::<u8>::empty());
            }
        } else {
            push_char(&mut buf, m);
            proof {
                lemma_encode_concat(before, seq![m]);
                assert(before + seq![m] =~= before.push(m));
                if skipped {
                    assert(mapped.take(k + 1).drop_first() =~= mapped.take(k).drop_first().push(m));
                } else {
                    assert(mapped.take(k + 1) =~= mapped.take(k).push(m));
                }
            }
        }
        first = false;
    }
    proof {
        assert(mapped.take(chars.len() as int) == mapped);
    }
    string_of_encoding(buf, Ghost(normalized_path(path@)))
}

} // verus!
