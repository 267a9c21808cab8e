//! Text: how it is cut, trimmed and put together, and which paths are taken.

use vstd::prelude::*;
use vstd::utf8::*;

use crate::paths;
use crate::text;
use crate::text::Separator;

verus! {

/// Trimming cuts off the white space at both ends, all of it, and nothing else.
pub proof fn trimming_cuts_white_space(s: Seq<char>)
    ensures
        exists|lo: int, hi: int|
            0 <= lo <= hi <= s.len() && text::trimmed(s) == #[trigger] s.subrange(lo, hi) && (forall|
                i: int,
            | 0 <= i < lo ==> text::is_space(#[trigger] s[i])) && (forall|i: int|
                hi <= i < s.len() ==> text::is_space(#[trigger] s[i])) && (lo < hi
                ==> !text::is_space(s[lo]) && !text::is_space(s[hi - 1])),
{
    let lo = lemma_trim_start_at(s);
    let t = s.skip(lo);
    let n = lemma_trim_end_at(t);
    let hi = lo + n;
    assert(s.subrange(lo, hi) =~= t.take(n));
    assert forall|i: int| hi <= i < s.len() implies text::is_space(#[trigger] s[i]) by {
        assert(t[i - lo] == s[i]);
    }
    if lo < hi {
        assert(t[n - 1] == s[hi - 1]);
    }
}

proof fn lemma_trim_start_at(s: Seq<char>) -> (lo: int)
    ensures
        0 <= lo <= s.len(),
        text::trim_start(s) == s.skip(lo),
        forall|i: int| 0 <= i < lo ==> text::is_space(#[trigger] s[i]),
        lo < s.len() ==> !text::is_space(s[lo]),
    decreases s.len(),
{
    if s.len() > 0 && text::is_space(s[0]) {
        let rest = s.drop_first();
        let k = lemma_trim_start_at(rest);
        assert(rest.skip(k) =~= s.skip(k + 1));
        assert forall|i: int| 0 <= i < k + 1 implies text::is_space(#[trigger] s[i]) by {
            if i > 0 {
                assert(rest[i - 1] == s[i]);
            }
        }
        k + 1
    } else {
        assert(s.skip(0) =~= s);
        0
    }
}

proof fn lemma_trim_end_at(s: Seq<char>) -> (n: int)
    ensures
        0 <= n <= s.len(),
        text::trim_end(s) == s.take(n),
        forall|i: int| n <= i < s.len() ==> text::is_space(#[trigger] s[i]),
        n > 0 ==> !text::is_space(s[n - 1]),
    decreases s.len(),
{
    if s.len() > 0 && text::is_space(s.last()) {
        let rest = s.drop_last();
        let k = lemma_trim_end_at(rest);
        assert(rest.take(k) =~= s.take(k));
        assert forall|i: int| k <= i < s.len() implies text::is_space(#[trigger] s[i]) by {
            if i < rest.len() {
                assert(rest[i] == s[i]);
            }
        }
        k
    } else {
        assert(s.take(s.len() as int) =~= s);
        s.len() as int
    }
}

/// A text is cut at each separator and nowhere else: what stands before and what
/// stands behind a separator are cut on their own, and a text without separators
/// is one piece.
pub proof fn pieces_lie_between_separators(a: Seq<char>, c: char, b: Seq<char>, sep: Separator)
    ensures
        text::separates(sep, c) ==> text::pieces(a + seq![c] + b, sep) == text::pieces(a, sep)
            + text::pieces(b, sep),
        (forall|i: int| 0 <= i < b.len() ==> !text::separates(sep, #[trigger] b[i]))
            ==> text::pieces(b, sep) == seq![b],
        text::separates(Separator::Char(c), c),
        forall|d: char| d != c ==> !#[trigger] text::separates(Separator::Char(c), d),
        text::separates(Separator::Space, c) == text::is_space(c),
    decreases b.len(),
{
    let whole = a + seq![c] + b;
    if b.len() == 0 {
        assert(whole =~= a.push(c));
        assert(a.push(c).drop_last() =~= a);
        assert(b =~= Seq::empty());
        assert(text::pieces(b, sep) =~= seq![b]);
        if text::separates(sep, c) {
            assert(text::pieces(whole, sep) =~= text::pieces(a, sep) + text::pieces(b, sep));
        }
    } else {
        let init = b.drop_last();
        pieces_lie_between_separators(a, c, init, sep);
        text::lemma_pieces_nonempty(init, sep);
        assert(whole.drop_last() =~= a + seq![c] + init);
        if text::separates(sep, c) {
            assert(text::pieces(whole, sep) =~= text::pieces(a, sep) + text::pieces(b, sep));
        }
        if forall|i: int| 0 <= i < b.len() ==> !text::separates(sep, #[trigger] b[i]) {
            assert forall|i: int| 0 <= i < init.len() implies !text::separates(
                sep,
                #[trigger] init[i],
            ) by {
                assert(b[i] == init[i]);
            }
            assert(!text::separates(sep, b[b.len() - 1]));
            assert(init.push(b.last()) =~= b);
            assert(text::pieces(b, sep) =~= seq![b]);
        }
    }
}

/// Joining parts puts the separator between each two, and nothing else; cutting a
/// text at a character and joining the pieces with it gives the text.
pub proof fn joining_undoes_cutting(s: Seq<char>, sep: char, parts: Seq<Seq<char>>, p: Seq<char>)
    ensures
        text::joined(text::pieces(s, Separator::Char(sep)), sep) == s,
        text::joined(seq![p], sep) == p,
        parts.len() > 0 ==> text::joined(parts.push(p), sep) == text::joined(parts, sep) + seq![sep]
            + p,
{
    paths::lemma_join_pieces(s, sep);
    if parts.len() > 0 {
        assert(parts.push(p).drop_last() =~= parts);
        assert(text::joined(parts.push(p), sep) =~= text::joined(parts, sep) + seq![sep] + p);
    }
}

proof fn lemma_nonempty_add(a: Seq<Seq<char>>, b: Seq<Seq<char>>)
    ensures
        text::nonempty(a + b) == text::nonempty(a) + text::nonempty(b),
    decreases b.len(),
{
    if b.len() == 0 {
        assert(a + b =~= a);
        assert(text::nonempty(a + b) =~= text::nonempty(a) + text::nonempty(b));
    } else {
        assert((a + b).drop_last() =~= a + b.drop_last());
        lemma_nonempty_add(a, b.drop_last());
        assert(text::nonempty(a + b) =~= text::nonempty(a) + text::nonempty(b));
    }
}

/// The words of a text are what stands between white space: the words before a
/// space and those behind it; a text without white space is one word, if it is
/// anything.
pub proof fn words_lie_between_spaces(a: Seq<char>, c: char, b: Seq<char>)
    ensures
        text::is_space(c) ==> text::words_of(a + seq![c] + b) == text::words_of(a)
            + text::words_of(b),
        b.len() > 0 && (forall|i: int| 0 <= i < b.len() ==> !text::is_space(#[trigger] b[i]))
            ==> text::words_of(b) == seq![b],
        text::words_of(Seq::empty()).len() == 0,
{
    pieces_lie_between_separators(a, c, b, Separator::Space);
    if text::is_space(c) {
        lemma_nonempty_add(
            text::pieces(a, Separator::Space),
            text::pieces(b, Separator::Space),
        );
    }
    if b.len() > 0 && (forall|i: int| 0 <= i < b.len() ==> !text::is_space(#[trigger] b[i])) {
        assert forall|i: int| 0 <= i < b.len() implies !text::separates(
            Separator::Space,
            #[trigger] b[i],
        ) by {}
        let one = seq![b];
        assert(one.drop_last() =~= Seq::empty());
        assert(text::nonempty(one.drop_last()) =~= Seq::empty());
        assert(text::nonempty(one) =~= one);
    }
    let none = text::pieces(Seq::empty(), Separator::Space);
    assert(none.drop_last() =~= Seq::empty());
    assert(text::nonempty(none.drop_last()).len() == 0);
}

/// A line ends at a line feed; a carriage return before it belongs to the end. What
/// follows the last line feed is a line if it is anything, as it stands.
pub proof fn lines_end_at_line_feeds(line: Seq<char>, rest: Seq<char>)
    requires
        !line.contains('\n'),
    ensures
        text::lines_of(line + seq!['\n'] + rest) == seq![
            if line.len() > 0 && line.last() == '\r' {
                line.drop_last()
            } else {
                line
            },
        ] + text::lines_of(rest),
        line.len() > 0 ==> text::lines_of(line) == seq![line],
        text::lines_of(Seq::empty()).len() == 0,
{
    let sep = Separator::Char('\n');
    let none = Seq::<char>::empty();
    assert forall|i: int| 0 <= i < line.len() implies !text::separates(sep, #[trigger] line[i]) by {
        assert(line.contains(line[i]));
    }
    pieces_lie_between_separators(none, '\n', line, sep);
    pieces_lie_between_separators(line, '\n', rest, sep);
    text::lemma_pieces_nonempty(rest, sep);
    let whole = line + seq!['\n'] + rest;
    let p = text::pieces(whole, sep);
    let q = text::pieces(rest, sep);
    assert(p == seq![line] + q);
    assert(p.last() == q.last());
    let ended = Seq::new((p.len() - 1) as nat, |i: int| text::without_return(p[i]));
    let after = Seq::new((q.len() - 1) as nat, |i: int| text::without_return(q[i]));
    assert(ended =~= seq![text::without_return(line)] + after) by {
        assert forall|i: int| 0 < i < ended.len() implies ended[i] == after[i - 1] by {
            assert(p[i] == q[i - 1]);
        }
    }
    assert(text::lines_of(whole) =~= seq![text::without_return(line)] + text::lines_of(rest));
    if line.len() > 0 {
        assert(text::lines_of(line) =~= seq![line]);
    }
    assert(text::lines_of(none) =~= Seq::empty());
}

/// A text begins with a prefix exactly if something completes the prefix to it.
pub proof fn a_prefix_is_completed(prefix: Seq<char>, rest: Seq<char>, s: Seq<char>)
    ensures
        text::has_prefix(prefix + rest, prefix),
        text::has_prefix(s, prefix) ==> s == prefix + s.skip(prefix.len() as int),
{
    assert((prefix + rest).take(prefix.len() as int) =~= prefix);
    if text::has_prefix(s, prefix) {
        assert(s =~= s.take(prefix.len() as int) + s.skip(prefix.len() as int));
    }
}

/// Where a character first occurs: behind all that is another character.
pub proof fn a_character_is_found_where_it_first_stands(a: Seq<char>, c: char, b: Seq<char>)
    requires
        !a.contains(c),
    ensures
        text::first_at(a + seq![c] + b, c) == a.len(),
        text::first_at(a, c) == a.len(),
    decreases a.len(),
{
    let whole = a + seq![c] + b;
    if a.len() > 0 {
        let rest = a.drop_first();
        assert(a.contains(a[0]));
        assert(!rest.contains(c)) by {
            if rest.contains(c) {
                let k = choose|k: int| 0 <= k < rest.len() && rest[k] == c;
                assert(a[k + 1] == c);
            }
        }
        a_character_is_found_where_it_first_stands(rest, c, b);
        assert(whole.drop_first() =~= rest + seq![c] + b);
        assert(whole[0] == a[0]);
    } else {
        assert(whole[0] == c);
    }
}

/// A number is read from digits only, after one plus sign at most, up to the bound
/// and not over it.
pub proof fn a_number_is_its_digits(d: Seq<char>, c: char, max: u64)
    ensures
        d.len() > 0 && d[0] != '+' ==> text::number_of(seq!['+'] + d, max) == text::number_of(
            d,
            max,
        ),
        text::number_of(Seq::empty(), max) is None,
        !text::is_digit(c) ==> text::number_of(d.push(c), max) is None || d.len() == 0,
        text::number_of(d, u64::MAX) matches Some(n) ==> text::number_of(d, max) == if n <= max {
            Some(n)
        } else {
            None
        },
        text::number_of(d, u64::MAX) is None ==> text::number_of(d, max) is None,
        text::is_digit(c) && d.len() > 0 ==> (text::number_of(d, u64::MAX) matches Some(n) ==> (n
            <= 1_000_000_000_000_000_000 ==> text::number_of(d.push(c), u64::MAX) == Some(
            (n * 10 + (c as int - 0x30)) as u64,
        ))),
{
    let plus = seq!['+'] + d;
    assert(plus.drop_first() =~= d);
    if d.len() > 0 {
        let e = d.push(c);
        let w = text::digits_of(d);
        assert(text::digits_of(e) =~= w.push(c));
        assert(w.push(c).drop_last() =~= w);
        assert(w.push(c)[w.len() as int] == c);
        if text::is_digit(c) && text::number_of(d, u64::MAX) is Some {
            assert forall|i: int| 0 <= i < w.push(c).len() implies text::is_digit(
                #[trigger] w.push(c)[i],
            ) by {
                if i < w.len() {
                    assert(w.push(c)[i] == w[i]);
                }
            }
        }
    }
}

/// Which paths are taken: trimmed, not empty, of at most 512 bytes, without
/// backslashes and control characters, not beginning with a slash, with at least
/// one component other than `.`, and none that is hidden.
pub proof fn which_paths_are_taken(raw: Seq<char>)
    ensures
        ({
            let t = text::trimmed(raw);
            let parts = text::pieces(t, Separator::Char('/'));
            paths::sanitized(raw) is Some <==> {
                &&& t.len() > 0
                &&& encode_utf8(t).len() <= 512
                &&& t[0] != '/'
                &&& !t.contains('\\')
                &&& forall|i: int| 0 <= i < t.len() ==> !text::is_control(#[trigger] t[i])
                &&& exists|i: int|
                    0 <= i < parts.len() && (#[trigger] parts[i]).len() > 0 && parts[i] != seq!['.']
                &&& forall|i: int|
                    0 <= i < parts.len() ==> ((#[trigger] parts[i]).len() > 1 ==> parts[i][0] != '.')
            }
        }),
{
    let t = text::trimmed(raw);
    let parts = text::pieces(t, Separator::Char('/'));
    let keep = |part: Seq<char>| paths::counts(part);
    let kept = paths::components(t);
    let some = exists|i: int|
        0 <= i < parts.len() && (#[trigger] parts[i]).len() > 0 && parts[i] != seq!['.'];
    let open = forall|i: int|
        0 <= i < parts.len() ==> ((#[trigger] parts[i]).len() > 1 ==> parts[i][0] != '.');
    if kept.len() > 0 {
        let w = paths::lemma_filter_source(parts, keep, 0);
        parts.lemma_filter_pred(keep, 0);
        assert(parts[w].len() > 0 && parts[w] != seq!['.']);
    }
    if some {
        let i = choose|i: int|
            0 <= i < parts.len() && (#[trigger] parts[i]).len() > 0 && parts[i] != seq!['.'];
        parts.lemma_filter_contains(keep, i);
        let w = choose|w: int| 0 <= w < kept.len() && kept[w] == parts[i];
        assert(kept.len() > 0);
    }
    if open {
        assert forall|i: int| 0 <= i < kept.len() implies (#[trigger] kept[i])[0] != '.' by {
            let w = paths::lemma_filter_source(parts, keep, i);
            parts.lemma_filter_pred(keep, i);
            if parts[w].len() == 1 && parts[w][0] == '.' {
                assert(parts[w] =~= seq!['.']);
            }
        }
    }
    if forall|i: int| 0 <= i < kept.len() ==> (#[trigger] kept[i])[0] != '.' {
        assert forall|i: int| 0 <= i < parts.len() && (#[trigger] parts[i]).len() > 1 implies parts[i][0]
            != '.' by {
            assert(parts[i] != seq!['.']) by {
                assert(seq!['.'].len() == 1);
            }
            parts.lemma_filter_contains(keep, i);
            let w = choose|w: int| 0 <= w < kept.len() && kept[w] == parts[i];
            assert(kept[w][0] != '.');
        }
    }
    assert((forall|i: int| 0 <= i < t.len() ==> #[trigger] t[i] != '\\' && !text::is_control(t[i]))
        <==> !t.contains('\\') && (forall|i: int|
        0 <= i < t.len() ==> !text::is_control(#[trigger] t[i])));
}

/// The normal form of a path has the components of the path, in order, but for
/// empty ones and `.`.
pub proof fn sanitizing_keeps_the_components(raw: Seq<char>)
    ensures
        paths::sanitized(raw) matches Some(p) ==> text::pieces(p, Separator::Char('/'))
            == text::pieces(text::trimmed(raw), Separator::Char('/')).filter(
            |c: Seq<char>| c.len() > 0 && c != seq!['.'],
        ),
{
    if let Some(p) = paths::sanitized(raw) {
        let t = text::trimmed(raw);
        paths::lemma_components(t);
        let kept = paths::components(t);
        assert forall|i: int| 0 <= i < kept.len() implies !(#[trigger] kept[i]).contains('/') by {}
        paths::lemma_pieces_of_joined(kept, '/');
        assert((|part: Seq<char>| paths::counts(part)) =~= (|c: Seq<char>|
            c.len() > 0 && c != seq!['.']));
    }
}

/// A number is written with digits alone, without a zero in front; the digits say
/// the number.
pub proof fn a_number_is_written_plainly(n: nat)
    ensures
        text::decimal(n).len() > 0,
        forall|i: int|
            0 <= i < text::decimal(n).len() ==> '0' <= #[trigger] text::decimal(n)[i] <= '9',
        text::digits_value(text::decimal(n)) == n,
        text::decimal(n)[0] == '0' ==> text::decimal(n).len() == 1,
    decreases n,
{
    text::lemma_decimal(n);
    if n >= 10 {
        a_number_is_written_plainly(n / 10);
        let front = text::decimal(n / 10);
        assert(text::decimal(n)[0] == front[0]);
        if front.len() == 1 && front[0] == '0' {
            assert(front.drop_last() =~= Seq::empty());
            assert(text::digits_value(front.drop_last()) == 0);
            assert(text::digits_value(front) == 0);
        }
    }
}

/// Making a text small changes its ASCII capitals and nothing else.
pub proof fn capitals_are_made_small(s: Seq<char>, i: int)
    requires
        0 <= i < s.len(),
    ensures
        text::lowered(s).len() == s.len(),
        !('A' <= s[i] <= 'Z') ==> text::lowered(s)[i] == s[i],
        'A' <= s[i] <= 'Z' ==> 'a' <= text::lowered(s)[i] <= 'z' && text::lowered(s)[i] as int
            - 'a' as int == s[i] as int - 'A' as int,
{
}

/// The characters that count as white space, and those that count as control
/// characters.
pub proof fn what_is_white_space(c: char)
    ensures
        c <= '\u{7f}' ==> (text::is_space(c) <==> c == ' ' || c == '\t' || c == '\n' || c == '\u{b}'
            || c == '\u{c}' || c == '\r'),
        c > '\u{7f}' ==> (text::is_space(c) <==> c == '\u{85}' || c == '\u{a0}' || c == '\u{1680}'
            || '\u{2000}' <= c <= '\u{200a}' || c == '\u{2028}' || c == '\u{2029}' || c == '\u{202f}'
            || c == '\u{205f}' || c == '\u{3000}'),
        text::is_control(c) <==> c < ' ' || ('\u{7f}' <= c && c < '\u{a0}'),
{
}

} // verus!
