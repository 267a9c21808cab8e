//! Relative path rules for the synced tree.

use vstd::prelude::*;
use vstd::utf8::*;

use crate::text;
use crate::text::Separator;

verus! {

/// Max UTF-8 bytes in a relative path.
pub const MAX_PATH: usize = 512;

/// Whether a component counts: neither empty nor `.`.
pub open spec fn counts(part: Seq<char>) -> bool {
    part.len() > 0 && part != seq!['.']
}

/// The components of a path that count.
pub open spec fn components(path: Seq<char>) -> Seq<Seq<char>> {
    text::pieces(path, Separator::Char('/')).filter(|part: Seq<char>| counts(part))
}

/// Whether a trimmed path is taken: not empty, not too long, not absolute, no
/// backslash, no control character, at least one component, none hidden.
pub open spec fn acceptable(path: Seq<char>) -> bool {
    &&& path.len() > 0
    &&& encode_utf8(path).len() <= MAX_PATH
    &&& path[0] != '/'
    &&& forall|i: int|
        0 <= i < path.len() ==> #[trigger] path[i] != '\\' && !text::is_control(path[i])
    &&& components(path).len() > 0
    &&& forall|i: int| 0 <= i < components(path).len() ==> (#[trigger] components(path)[i])[0] != '.'
}

/// The normal form of a path, if it is acceptable.
pub open spec fn sanitized(raw: Seq<char>) -> Option<Seq<char>> {
    let path = text::trimmed(raw);
    if acceptable(path) {
        Some(text::joined(components(path), '/'))
    } else {
        None
    }
}

/// A path that stays inside the synced tree: relative, of bounded length, of
/// components that are neither empty nor hidden, without backslashes or control
/// characters.
pub open spec fn safe_path(path: Seq<char>) -> bool {
    &&& 0 < path.len()
    &&& encode_utf8(path).len() <= MAX_PATH
    &&& path[0] != '/'
    &&& forall|i: int|
        0 <= i < path.len() ==> #[trigger] path[i] != '\\' && !text::is_control(path[i])
    &&& forall|i: int|
        0 <= i < text::pieces(path, Separator::Char('/')).len() ==> {
            let part = #[trigger] text::pieces(path, Separator::Char('/'))[i];
            part.len() > 0 && part[0] != '.'
        }
}

/// Normalize and reject unsafe relative paths.
///
/// Allowed: `notes/todo.txt`, `photo.jpg`. Rejected: absolute, `..`,
/// backslash, NUL/control, hidden components (`.git`), empty.
pub fn sanitize_rel(raw: &str) -> (r: Option<String>)
    ensures
        match r {
            Some(p) => sanitized(raw@) == Some(p@),
            None => sanitized(raw@) is None,
        },
{
    let chars = text::chars_of(raw);
    let path = text::trim(chars.as_slice());
    if path.len() == 0 {
        return None;
    }
    let whole = text::string_of(path.as_slice());
    if whole.as_str().as_bytes().len() > MAX_PATH {
        return None;
    }
    if path[0] == '/' {
        return None;
    }
    let mut i: usize = 0;
    while i < path.len()
        invariant
            i <= path@.len(),
            path@ == text::trimmed(raw@),
            forall|j: int|
                0 <= j < i ==> #[trigger] path@[j] != '\\' && !text::is_control(path@[j]),
        decreases path@.len() - i,
    {
        if path[i] == '\\' || text::control(path[i]) {
            return None;
        }
        i += 1;
    }
    let parts = text::split(path.as_slice(), Separator::Char('/'));
    let ghost all = text::pieces(path@, Separator::Char('/'));
    let ghost keep = |part: Seq<char>| counts(part);
    let mut out: Vec<Vec<char>> = Vec::new();
    let mut k: usize = 0;
    proof {
        reveal(Seq::filter);
        assert(text::contents(out@) =~= all.take(0).filter(keep));
    }
    while k < parts.len()
        invariant
            k <= parts@.len(),
            all == text::contents(parts@),
            all == text::pieces(path@, Separator::Char('/')),
            keep == (|part: Seq<char>| counts(part)),
            path@ == text::trimmed(raw@),
            text::contents(out@) == all.take(k as int).filter(keep),
            forall|j: int| 0 <= j < out@.len() ==> (#[trigger] out@[j])@[0] != '.',
        decreases parts@.len() - k,
    {
        proof {
            reveal(Seq::filter);
            assert(all.take(k + 1).drop_last() =~= all.take(k as int));
            assert(all.take(k + 1).last() == parts@[k as int]@);
        }
        let part = text::cut(parts[k].as_slice(), 0, parts[k].len());
        assert(part@ =~= all[k as int]);
        let dot = part.len() == 1 && part[0] == '.';
        assert(dot <==> part@ =~= seq!['.']);
        if part.len() > 0 && !dot {
            if part[0] == '.' {
                proof {
                    lemma_filter_keeps(all, keep, k as int);
                    let kept = all.filter(keep);
                    assert(kept.contains(all[k as int]));
                    let w = choose|w: int| 0 <= w < kept.len() && kept[w] == all[k as int];
                    assert(components(path@)[w][0] == '.');
                }
                return None;
            }
            let ghost before = text::contents(out@);
            out.push(part);
            assert(text::contents(out@) =~= before.push(all[k as int]));
        }
        k += 1;
    }
    assert(all.take(all.len() as int) =~= all);
    assert(components(path@) == text::contents(out@));
    if out.len() == 0 {
        return None;
    }
    assert forall|i: int| 0 <= i < components(path@).len() implies (#[trigger] components(
        path@,
    )[i])[0] != '.' by {
        assert(text::contents(out@)[i] == out@[i]@);
    }
    Some(text::join(out.as_slice(), '/'))
}

proof fn lemma_filter_keeps(s: Seq<Seq<char>>, f: spec_fn(Seq<char>) -> bool, i: int)
    requires
        0 <= i < s.len(),
        f(s[i]),
    ensures
        s.filter(f).contains(s[i]),
{
    s.lemma_filter_contains(f, i);
}

/// Text is its pieces joined again.
pub proof fn lemma_join_pieces(s: Seq<char>, sep: char)
    ensures
        text::joined(text::pieces(s, Separator::Char(sep)), sep) == s,
    decreases s.len(),
{
    let all = text::pieces(s, Separator::Char(sep));
    if s.len() > 0 {
        let t = s.drop_last();
        let before = text::pieces(t, Separator::Char(sep));
        lemma_join_pieces(t, sep);
        text::lemma_pieces_nonempty(t, Separator::Char(sep));
        if s.last() == sep {
            assert(all.drop_last() =~= before);
        } else {
            assert(all.drop_last() =~= before.drop_last());
        }
        assert(text::joined(all, sep) =~= t.push(s.last()));
        assert(t.push(s.last()) =~= s);
    } else {
        assert(text::joined(all, sep) =~= s);
    }
}

/// What follows the last separator extends the last piece.
proof fn lemma_pieces_extend(a: Seq<char>, b: Seq<char>, sep: char)
    requires
        !b.contains(sep),
    ensures
        ({
            let p = text::pieces(a, Separator::Char(sep));
            text::pieces(a + b, Separator::Char(sep)) == p.drop_last().push(p.last() + b)
        }),
    decreases b.len(),
{
    let p = text::pieces(a, Separator::Char(sep));
    text::lemma_pieces_nonempty(a, Separator::Char(sep));
    if b.len() == 0 {
        assert(a + b =~= a);
        assert(p.last() + b =~= p.last());
        assert(p.drop_last().push(p.last()) =~= p);
    } else {
        let c = b.drop_last();
        assert forall|i: int| 0 <= i < c.len() implies c[i] != sep by {
            assert(b[i] == c[i]);
        }
        assert(b[b.len() - 1] != sep);
        lemma_pieces_extend(a, c, sep);
        assert((a + b).drop_last() =~= a + c);
        let q = text::pieces(a + c, Separator::Char(sep));
        assert(q.last() == p.last() + c);
        assert(q.drop_last() =~= p.drop_last());
        assert((p.last() + c).push(b.last()) =~= p.last() + b);
    }
}

/// Joining parts that hold no separator, and splitting again, gives the parts.
pub proof fn lemma_pieces_of_joined(parts: Seq<Seq<char>>, sep: char)
    requires
        parts.len() > 0,
        forall|i: int| 0 <= i < parts.len() ==> !(#[trigger] parts[i]).contains(sep),
    ensures
        text::pieces(text::joined(parts, sep), Separator::Char(sep)) == parts,
    decreases parts.len(),
{
    if parts.len() == 1 {
        let e = Seq::<char>::empty();
        lemma_pieces_extend(e, parts[0], sep);
        assert(e + parts[0] =~= parts[0]);
        assert(text::pieces(parts[0], Separator::Char(sep)) =~= parts);
    } else {
        let init = parts.drop_last();
        assert forall|i: int| 0 <= i < init.len() implies !(#[trigger] init[i]).contains(sep) by {
            assert(init[i] == parts[i]);
        }
        lemma_pieces_of_joined(init, sep);
        let head = text::joined(init, sep).push(sep);
        assert(head.drop_last() =~= text::joined(init, sep));
        lemma_pieces_extend(head, parts.last(), sep);
        let p = text::pieces(head, Separator::Char(sep));
        assert(p =~= init.push(Seq::empty()));
        assert(p.last() + parts.last() =~= parts.last());
        assert(p.drop_last().push(parts.last()) =~= parts);
    }
}

/// The encoding of a text is that of its halves, one after the other.
pub proof fn lemma_encode_add(a: Seq<char>, b: Seq<char>)
    ensures
        encode_utf8(a + b) == encode_utf8(a) + encode_utf8(b),
    decreases a.len(),
{
    if a.len() == 0 {
        assert(a + b =~= b);
        assert(encode_utf8(a) + encode_utf8(b) =~= encode_utf8(b));
    } else {
        assert((a + b).drop_first() =~= a.drop_first() + b);
        lemma_encode_add(a.drop_first(), b);
        assert(encode_utf8(a + b) =~= encode_utf8(a) + encode_utf8(b));
    }
}

/// Leaving components out does not lengthen a path.
proof fn lemma_filter_shortens(parts: Seq<Seq<char>>, keep: spec_fn(Seq<char>) -> bool)
    ensures
        encode_utf8(text::joined(parts.filter(keep), '/')).len() <= encode_utf8(
            text::joined(parts, '/'),
        ).len(),
    decreases parts.len(),
{
    reveal(Seq::filter);
    if parts.len() > 0 {
        let init = parts.drop_last();
        let last = parts.last();
        lemma_filter_shortens(init, keep);
        let f = init.filter(keep);
        let j = text::joined(init, '/');
        if parts.len() > 1 {
            lemma_encode_add(j.push('/'), last);
            lemma_encode_add(j, seq!['/']);
            assert(j + seq!['/'] =~= j.push('/'));
            assert(text::joined(parts, '/') =~= j.push('/') + last);
        }
        if keep(last) {
            let g = f.push(last);
            assert(parts.filter(keep) == g);
            assert(g.drop_last() =~= f);
            if f.len() > 0 {
                let jf = text::joined(f, '/');
                lemma_encode_add(jf.push('/'), last);
                lemma_encode_add(jf, seq!['/']);
                assert(jf + seq!['/'] =~= jf.push('/'));
                assert(init.len() > 0) by {
                    init.lemma_filter_len(keep);
                }
            } else {
                assert(text::joined(g, '/') =~= last);
            }
        } else {
            assert(parts.filter(keep) == f);
            if parts.len() == 1 {
                assert(init =~= Seq::empty());
                assert(f =~= Seq::empty());
            }
        }
    }
}

/// A joined path begins with its first component and holds nothing but the
/// characters of its components and separators.
proof fn lemma_joined_chars(parts: Seq<Seq<char>>, sep: char)
    requires
        parts.len() > 0,
        forall|i: int| 0 <= i < parts.len() ==> (#[trigger] parts[i]).len() > 0,
    ensures
        text::joined(parts, sep).len() > 0,
        text::joined(parts, sep)[0] == parts[0][0],
        forall|k: int|
            0 <= k < text::joined(parts, sep).len() ==> {
                let c = #[trigger] text::joined(parts, sep)[k];
                c == sep || exists|i: int, j: int|
                    0 <= i < parts.len() && 0 <= j < parts[i].len() && #[trigger] parts[i][j] == c
            },
    decreases parts.len(),
{
    let whole = text::joined(parts, sep);
    if parts.len() > 1 {
        let init = parts.drop_last();
        assert forall|i: int| 0 <= i < init.len() implies (#[trigger] init[i]).len() > 0 by {
            assert(init[i] == parts[i]);
        }
        lemma_joined_chars(init, sep);
        let j = text::joined(init, sep);
        assert forall|k: int| 0 <= k < whole.len() implies {
            let c = #[trigger] whole[k];
            c == sep || exists|i: int, j: int|
                0 <= i < parts.len() && 0 <= j < parts[i].len() && #[trigger] parts[i][j] == c
        } by {
            let c = whole[k];
            if k < j.len() {
                assert(j[k] == c);
                if c != sep {
                    let (x, y) = choose|x: int, y: int|
                        0 <= x < init.len() && 0 <= y < init[x].len() && #[trigger] init[x][y] == c;
                    assert(parts[x][y] == c);
                }
            } else if k > j.len() {
                assert(parts[parts.len() - 1][k - j.len() - 1] == c);
            }
        }
    } else {
        assert forall|k: int| 0 <= k < whole.len() implies {
            let c = #[trigger] whole[k];
            c == sep || exists|i: int, j: int|
                0 <= i < parts.len() && 0 <= j < parts[i].len() && #[trigger] parts[i][j] == c
        } by {
            assert(parts[0][k] == whole[k]);
        }
    }
}

/// What the components of an acceptable path are.
pub proof fn lemma_components(path: Seq<char>)
    requires
        acceptable(path),
    ensures
        forall|i: int|
            0 <= i < components(path).len() ==> {
                let part = #[trigger] components(path)[i];
                counts(part) && part[0] != '.' && !part.contains('/')
            },
        forall|i: int, j: int|
            0 <= i < components(path).len() && 0 <= j < components(path)[i].len() ==> {
                let c = #[trigger] components(path)[i][j];
                c != '\\' && !text::is_control(c)
            },
{
    let all = text::pieces(path, Separator::Char('/'));
    let keep = |part: Seq<char>| counts(part);
    let parts = components(path);
    assert forall|i: int| 0 <= i < parts.len() implies {
        let part = #[trigger] parts[i];
        counts(part) && part[0] != '.' && !part.contains('/')
    } by {
        all.lemma_filter_pred(keep, i);
        let w = lemma_filter_source(all, keep, i);
        let part = parts[i];
        if part.contains('/') {
            let j = choose|j: int| 0 <= j < part.len() && part[j] == '/';
            text::lemma_piece_chars(path, Separator::Char('/'), w, j);
        }
    }
    assert forall|i: int, j: int| 0 <= i < parts.len() && 0 <= j < parts[i].len() implies {
        let c = #[trigger] parts[i][j];
        c != '\\' && !text::is_control(c)
    } by {
        let w = lemma_filter_source(all, keep, i);
        text::lemma_piece_chars(path, Separator::Char('/'), w, j);
        let k = choose|k: int| 0 <= k < path.len() && path[k] == parts[i][j];
        assert(path[k] != '\\' && !text::is_control(path[k]));
    }
}

/// Where an item of a filtered list stood before.
pub proof fn lemma_filter_source(
    s: Seq<Seq<char>>,
    f: spec_fn(Seq<char>) -> bool,
    i: int,
) -> (w: int)
    requires
        0 <= i < s.filter(f).len(),
    ensures
        0 <= w < s.len(),
        s[w] == s.filter(f)[i],
    decreases s.len(),
{
    reveal(Seq::filter);
    let t = s.drop_last();
    if i < t.filter(f).len() {
        lemma_filter_source(t, f, i)
    } else {
        s.len() - 1
    }
}

/// A list whose items all pass is its own filter.
proof fn lemma_filter_all(s: Seq<Seq<char>>, f: spec_fn(Seq<char>) -> bool)
    requires
        forall|i: int| 0 <= i < s.len() ==> f(#[trigger] s[i]),
    ensures
        s.filter(f) == s,
    decreases s.len(),
{
    reveal(Seq::filter);
    if s.len() > 0 {
        let t = s.drop_last();
        assert forall|i: int| 0 <= i < t.len() implies f(#[trigger] t[i]) by {
            assert(t[i] == s[i]);
        }
        lemma_filter_all(t, f);
        assert(f(s[s.len() - 1]));
        assert(t.push(s.last()) =~= s);
    }
}

/// Whatever comes out of sanitizing stays inside the synced tree.
pub proof fn sanitized_is_safe(raw: Seq<char>)
    ensures
        sanitized(raw) matches Some(p) ==> safe_path(p),
{
    if sanitized(raw) is Some {
        let path = text::trimmed(raw);
        let parts = components(path);
        let p = text::joined(parts, '/');
        lemma_components(path);
        lemma_pieces_of_joined(parts, '/');
        lemma_joined_chars(parts, '/');
        lemma_join_pieces(path, '/');
        lemma_filter_shortens(
            text::pieces(path, Separator::Char('/')),
            |part: Seq<char>| counts(part),
        );
        assert(p[0] != '/') by {
            assert(!parts[0].contains('/'));
            assert(parts[0].contains(parts[0][0]));
        }
        assert forall|k: int| 0 <= k < p.len() implies #[trigger] p[k] != '\\'
            && !text::is_control(p[k]) by {
            if p[k] != '/' {
                let (i, j) = choose|i: int, j: int|
                    0 <= i < parts.len() && 0 <= j < parts[i].len() && #[trigger] parts[i][j]
                        == p[k];
                assert(parts[i][j] == p[k]);
            }
        }
    }
}

/// A safe path without white space at its ends is left as it is; so a sanitized
/// path is sanitized to itself unless trimming would shorten it.
pub proof fn safe_path_is_fixed(path: Seq<char>)
    requires
        safe_path(path),
        text::trimmed(path) == path,
    ensures
        sanitized(path) == Some(path),
{
    let all = text::pieces(path, Separator::Char('/'));
    let keep = |part: Seq<char>| counts(part);
    assert forall|i: int| 0 <= i < all.len() implies keep(#[trigger] all[i]) by {
        assert(all[i].len() > 0 && all[i][0] != '.');
        assert(seq!['.'][0] == '.');
    }
    lemma_filter_all(all, keep);
    text::lemma_pieces_nonempty(path, Separator::Char('/'));
    lemma_join_pieces(path, '/');
}

/// Sanitizing what was sanitized changes nothing, unless leaving out components
/// has uncovered white space at an end.
pub proof fn sanitizing_settles(raw: Seq<char>)
    ensures
        sanitized(raw) matches Some(p) ==> (!text::is_space(p[0]) && !text::is_space(p.last())
            ==> sanitized(p) == Some(p)),
{
    if let Some(p) = sanitized(raw) {
        if !text::is_space(p[0]) && !text::is_space(p.last()) {
            sanitized_is_safe(raw);
            text::lemma_trimmed_fixed(p);
            safe_path_is_fixed(p);
        }
    }
}

} // verus!
