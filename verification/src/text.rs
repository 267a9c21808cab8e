//! Text as sequences of characters: splitting, trimming, joining, and the few
//! conversions that the protocol and the web pages need.

use vstd::prelude::*;
use vstd::string::*;
use vstd::utf8::*;

verus! {

/// `String::push` appends one character.
pub assume_specification[ String::push ](s: &mut String, c: char)
    ensures
        final(s)@ == old(s)@.push(c),
;

/// `std::str::from_utf8` accepts exactly the well-formed UTF-8 byte strings,
/// and hands out the characters that they encode.
#[verifier::external_body]
pub(crate) fn utf8_text(bytes: &[u8]) -> (r: Option<&str>)
    ensures
        match r {
            Some(s) => valid_utf8(bytes@) && s@ == decode_utf8(bytes@),
            None => !valid_utf8(bytes@),
        },
{
    std::str::from_utf8(bytes).ok()
}

/// What `String::from_utf8_lossy` makes of a byte string.
pub uninterp spec fn lossy_text(bytes: Seq<u8>) -> Seq<char>;

/// `String::from_utf8_lossy` reads bytes as text and puts a replacement
/// character where they are not well-formed UTF-8. Well-formed input comes out
/// as it stands; how ill-formed stretches are cut up is left to the name.
#[verifier::external_body]
pub(crate) fn lossy(bytes: &[u8]) -> (s: String)
    ensures
        s@ == lossy_text(bytes@),
        valid_utf8(bytes@) ==> s@ == decode_utf8(bytes@),
{
    String::from_utf8_lossy(bytes).into_owned()
}

/// The characters of `s`.
pub fn chars_of(s: &str) -> (v: Vec<char>)
    ensures
        v@ == s@,
{
    let mut v: Vec<char> = Vec::new();
    for c in it: s.chars()
        invariant
            v@ == s@.take(it.index()),
            it.seq() == s@,
    {
        proof {
            assert(s@.take(it.index() + 1) =~= s@.take(it.index()).push(s@[it.index()]));
        }
        v.push(c);
    }
    assert(v@ =~= s@);
    v
}

/// The string of the given characters.
pub fn string_of(chars: &[char]) -> (s: String)
    ensures
        s@ == chars@,
{
    let mut s = String::new();
    push_chars(&mut s, chars);
    assert(s@ =~= chars@);
    s
}

/// Appends characters to a string.
pub fn push_chars(out: &mut String, chars: &[char])
    ensures
        final(out)@ == old(out)@ + chars@,
{
    let mut i: usize = 0;
    assert(out@ =~= old(out)@ + chars@.take(0));
    while i < chars.len()
        invariant
            i <= chars@.len(),
            out@ == old(out)@ + chars@.take(i as int),
        decreases chars@.len() - i,
    {
        out.push(chars[i]);
        assert(out@ =~= old(out)@ + chars@.take(i + 1));
        i += 1;
    }
    assert(chars@.take(chars@.len() as int) =~= chars@);
}

/// The characters `chars[lo..hi]`.
pub fn cut(chars: &[char], lo: usize, hi: usize) -> (v: Vec<char>)
    requires
        lo <= hi <= chars@.len(),
    ensures
        v@ == chars@.subrange(lo as int, hi as int),
{
    let mut v: Vec<char> = Vec::new();
    let mut i: usize = lo;
    while i < hi
        invariant
            lo <= i <= hi <= chars.len(),
            v@ == chars@.subrange(lo as int, i as int),
        decreases hi - i,
    {
        v.push(chars[i]);
        i += 1;
        assert(v@ =~= chars@.subrange(lo as int, i as int));
    }
    v
}

/// Whether `a` and `b` are the same characters.
pub fn same_chars(a: &[char], b: &[char]) -> (same: bool)
    ensures
        same == (a@ == b@),
{
    if a.len() != b.len() {
        return false;
    }
    let mut i: usize = 0;
    while i < a.len()
        invariant
            i <= a@.len() == b@.len(),
            forall|j: int| 0 <= j < i ==> a@[j] == b@[j],
        decreases a@.len() - i,
    {
        if a[i] != b[i] {
            return false;
        }
        i += 1;
    }
    assert(a@ =~= b@);
    true
}

/// Whether the characters are those of `word`.
pub fn is_word(chars: &[char], word: &str) -> (same: bool)
    ensures
        same == (chars@ == word@),
{
    same_chars(chars, chars_of(word).as_slice())
}

/// The Unicode `White_Space` characters.
pub open spec fn is_space(c: char) -> bool {
    let u = c as u32;
    ||| 0x09 <= u <= 0x0d
    ||| u == 0x20
    ||| u == 0x85
    ||| u == 0xa0
    ||| u == 0x1680
    ||| 0x2000 <= u <= 0x200a
    ||| u == 0x2028
    ||| u == 0x2029
    ||| u == 0x202f
    ||| u == 0x205f
    ||| u == 0x3000
}

/// The Unicode control characters (category `Cc`).
pub open spec fn is_control(c: char) -> bool {
    let u = c as u32;
    u <= 0x1f || 0x7f <= u <= 0x9f
}

/// Whether `c` is white space.
pub fn space(c: char) -> (b: bool)
    ensures
        b == is_space(c),
{
    let u: u32 = c as u32;
    (0x09 <= u && u <= 0x0d) || u == 0x20 || u == 0x85 || u == 0xa0 || u == 0x1680 || (0x2000 <= u
        && u <= 0x200a) || u == 0x2028 || u == 0x2029 || u == 0x202f || u == 0x205f || u == 0x3000
}

/// Whether `c` is a control character.
pub fn control(c: char) -> (b: bool)
    ensures
        b == is_control(c),
{
    let u: u32 = c as u32;
    u <= 0x1f || (0x7f <= u && u <= 0x9f)
}

/// `s` without leading white space.
pub open spec fn trim_start(s: Seq<char>) -> Seq<char>
    decreases s.len(),
{
    if s.len() > 0 && is_space(s[0]) {
        trim_start(s.drop_first())
    } else {
        s
    }
}

/// `s` without trailing white space.
pub open spec fn trim_end(s: Seq<char>) -> Seq<char>
    decreases s.len(),
{
    if s.len() > 0 && is_space(s.last()) {
        trim_end(s.drop_last())
    } else {
        s
    }
}

/// `s` without white space at either end.
pub open spec fn trimmed(s: Seq<char>) -> Seq<char> {
    trim_end(trim_start(s))
}

/// Text that starts and ends with something visible is its own trim.
pub proof fn lemma_trimmed_fixed(s: Seq<char>)
    ensures
        trimmed(s) == s <==> (s.len() > 0 ==> !is_space(s[0]) && !is_space(s.last())),
{
    lemma_trim_len(s);
    if s.len() > 0 {
        if is_space(s[0]) {
            lemma_trim_len(s.drop_first());
            lemma_trim_len(trim_start(s));
        } else if is_space(s.last()) {
            lemma_trim_len(s.drop_last());
        }
    }
}

/// Trimming leaves nothing to trim, and never lengthens.
pub proof fn lemma_trim_len(s: Seq<char>)
    ensures
        trim_start(s).len() <= s.len(),
        trim_end(s).len() <= s.len(),
        trimmed(s).len() <= s.len(),
        trim_start(s).len() > 0 ==> !is_space(trim_start(s)[0]),
        trim_end(s).len() > 0 ==> !is_space(trim_end(s).last()),
        trim_end(s).len() > 0 ==> trim_end(s)[0] == s[0],
        trimmed(s).len() > 0 ==> !is_space(trimmed(s)[0]) && !is_space(trimmed(s).last()),
    decreases s.len(),
{
    if s.len() > 0 {
        lemma_trim_len(s.drop_first());
        lemma_trim_len(s.drop_last());
        if is_space(s[0]) {
            assert(trimmed(s) == trimmed(s.drop_first()));
        } else {
            assert(trim_start(s) == s);
        }
    }
}

/// The characters left after trimming white space at both ends.
pub fn trim(chars: &[char]) -> (v: Vec<char>)
    ensures
        v@ == trimmed(chars@),
{
    let mut lo: usize = 0;
    assert(chars@.skip(0) =~= chars@);
    while lo < chars.len() && space(chars[lo])
        invariant
            lo <= chars@.len(),
            trim_start(chars@.skip(lo as int)) == trim_start(chars@),
        decreases chars@.len() - lo,
    {
        assert(chars@.skip(lo as int).drop_first() =~= chars@.skip(lo + 1));
        lo += 1;
    }
    let ghost rest = chars@.skip(lo as int);
    assert(trim_start(chars@) == rest) by {
        if rest.len() > 0 {
            assert(rest[0] == chars@[lo as int]);
        }
    }
    let mut hi: usize = chars.len();
    assert(chars@.subrange(lo as int, hi as int) =~= rest);
    while hi > lo && space(chars[hi - 1])
        invariant
            lo <= hi <= chars@.len(),
            trim_end(chars@.subrange(lo as int, hi as int)) == trim_end(rest),
        decreases hi,
    {
        assert(chars@.subrange(lo as int, hi as int).drop_last() =~= chars@.subrange(
            lo as int,
            hi - 1,
        ));
        hi -= 1;
    }
    assert(trim_end(rest) == chars@.subrange(lo as int, hi as int)) by {
        let t = chars@.subrange(lo as int, hi as int);
        if t.len() > 0 {
            assert(t.last() == chars@[hi - 1]);
        }
    }
    cut(chars, lo, hi)
}

/// What separates the pieces of a text.
#[derive(Clone, Copy)]
pub enum Separator {
    /// One given character.
    Char(char),
    /// Any white space character.
    Space,
}

/// Whether `c` separates.
pub open spec fn separates(sep: Separator, c: char) -> bool {
    match sep {
        Separator::Char(d) => c == d,
        Separator::Space => is_space(c),
    }
}

/// The pieces of `s` between separators: one more than there are separators.
pub open spec fn pieces(s: Seq<char>, sep: Separator) -> Seq<Seq<char>>
    decreases s.len(),
{
    if s.len() == 0 {
        seq![Seq::empty()]
    } else {
        let before = pieces(s.drop_last(), sep);
        if separates(sep, s.last()) {
            before.push(Seq::empty())
        } else {
            before.drop_last().push(before.last().push(s.last()))
        }
    }
}

/// The contents of a list of character vectors.
pub open spec fn contents(v: Seq<Vec<char>>) -> Seq<Seq<char>> {
    Seq::new(v.len(), |i: int| v[i]@)
}

/// There is always at least one piece.
pub proof fn lemma_pieces_nonempty(s: Seq<char>, sep: Separator)
    ensures
        pieces(s, sep).len() >= 1,
    decreases s.len(),
{
    if s.len() > 0 {
        lemma_pieces_nonempty(s.drop_last(), sep);
    }
}

/// The characters of a piece come from the text and do not separate.
pub proof fn lemma_piece_chars(s: Seq<char>, sep: Separator, i: int, j: int)
    requires
        0 <= i < pieces(s, sep).len(),
        0 <= j < pieces(s, sep)[i].len(),
    ensures
        s.contains(pieces(s, sep)[i][j]),
        !separates(sep, pieces(s, sep)[i][j]),
    decreases s.len(),
{
    if s.len() > 0 {
        let t = s.drop_last();
        let before = pieces(t, sep);
        lemma_pieces_nonempty(t, sep);
        assert(s[s.len() - 1] == s.last());
        if i < before.len() && j < before[i].len() {
            lemma_piece_chars(t, sep, i, j);
            let k = choose|k: int| 0 <= k < t.len() && t[k] == before[i][j];
            assert(s[k] == before[i][j]);
            assert(pieces(s, sep)[i][j] == before[i][j]);
        }
    }
}

/// Splits a text at its separators.
pub fn split(chars: &[char], sep: Separator) -> (v: Vec<Vec<char>>)
    ensures
        contents(v@) == pieces(chars@, sep),
{
    let mut done: Vec<Vec<char>> = Vec::new();
    let mut cur: Vec<char> = Vec::new();
    let mut i: usize = 0;
    assert(contents(done@).push(cur@) =~= pieces(chars@.take(0), sep));
    while i < chars.len()
        invariant
            i <= chars@.len(),
            contents(done@).push(cur@) == pieces(chars@.take(i as int), sep),
        decreases chars@.len() - i,
    {
        let c = chars[i];
        let ghost before = contents(done@);
        let ghost partial = cur@;
        assert(chars@.take(i + 1).drop_last() =~= chars@.take(i as int));
        assert(before.push(partial).drop_last() =~= before);
        let ends = match sep {
            Separator::Char(d) => c == d,
            Separator::Space => space(c),
        };
        if ends {
            done.push(cur);
            cur = Vec::new();
            assert(contents(done@) =~= before.push(partial));
            assert(cur@ =~= Seq::<char>::empty());
        } else {
            cur.push(c);
            assert(contents(done@) =~= before);
        }
        i += 1;
    }
    let ghost before = contents(done@);
    let ghost partial = cur@;
    done.push(cur);
    assert(contents(done@) =~= before.push(partial));
    assert(chars@.take(chars@.len() as int) =~= chars@);
    done
}

/// `parts` with `sep` between them.
pub open spec fn joined(parts: Seq<Seq<char>>, sep: char) -> Seq<char>
    decreases parts.len(),
{
    if parts.len() == 0 {
        Seq::empty()
    } else if parts.len() == 1 {
        parts[0]
    } else {
        joined(parts.drop_last(), sep).push(sep) + parts.last()
    }
}

/// Joins parts with a character between them.
pub fn join(parts: &[Vec<char>], sep: char) -> (s: String)
    ensures
        s@ == joined(contents(parts@), sep),
{
    let mut s = String::new();
    let mut i: usize = 0;
    let ghost all = contents(parts@);
    while i < parts.len()
        invariant
            i <= parts@.len(),
            all == contents(parts@),
            s@ == joined(all.take(i as int), sep),
        decreases parts@.len() - i,
    {
        assert(all.take(i + 1).drop_last() =~= all.take(i as int));
        assert(all.take(i + 1).last() == parts@[i as int]@);
        if i > 0 {
            s.push(sep);
        }
        let ghost so_far = s@;
        push_chars(&mut s, parts[i].as_slice());
        assert(s@ =~= so_far + parts@[i as int]@);
        assert(s@ =~= joined(all.take(i + 1), sep));
        i += 1;
    }
    assert(all.take(all.len() as int) =~= all);
    s
}

/// A number in decimal digits.
pub open spec fn decimal(n: nat) -> Seq<char>
    decreases n,
{
    let digit = (0x30 + n % 10) as char;
    if n < 10 {
        seq![digit]
    } else {
        decimal(n / 10).push(digit)
    }
}

/// Appends a number in decimal digits.
pub fn push_decimal(out: &mut String, n: u64)
    ensures
        final(out)@ == old(out)@ + decimal(n as nat),
    decreases n,
{
    if n >= 10 {
        push_decimal(out, n / 10);
    }
    out.push((0x30 + (n % 10) as u8) as char);
    assert(out@ =~= old(out)@ + decimal(n as nat));
}

/// Appends text.
pub fn push_text(out: &mut String, s: &str)
    ensures
        final(out)@ == old(out)@ + s@,
{
    out.append(s);
}

/// The bytes of a text.
pub fn bytes_of(s: &str) -> (v: Vec<u8>)
    ensures
        v@ == encode_utf8(s@),
{
    let mut v: Vec<u8> = Vec::new();
    v.extend_from_slice(s.as_bytes());
    assert(v@ =~= encode_utf8(s@));
    v
}

/// Whether `c` is a decimal digit.
pub open spec fn is_digit(c: char) -> bool {
    '0' <= c <= '9'
}

/// The number that decimal digits write down.
pub open spec fn digits_value(s: Seq<char>) -> nat
    decreases s.len(),
{
    if s.len() == 0 {
        0
    } else {
        digits_value(s.drop_last()) * 10 + (s.last() as nat - 0x30) as nat
    }
}

/// The digits of a number: a leading plus sign does not count.
pub open spec fn digits_of(s: Seq<char>) -> Seq<char> {
    if s.len() > 0 && s[0] == '+' {
        s.drop_first()
    } else {
        s
    }
}

/// The number up to `max` that a text writes down: digits, at least one, after
/// an optional plus sign.
pub open spec fn number_of(s: Seq<char>, max: u64) -> Option<u64> {
    let d = digits_of(s);
    if d.len() > 0 && (forall|i: int| 0 <= i < d.len() ==> is_digit(#[trigger] d[i]))
        && digits_value(d) <= max {
        Some(digits_value(d) as u64)
    } else {
        None
    }
}

/// More digits do not make a number smaller.
proof fn lemma_digits_grow(s: Seq<char>, i: int)
    requires
        0 <= i <= s.len(),
    ensures
        digits_value(s.take(i)) <= digits_value(s),
    decreases s.len() - i,
{
    if i == s.len() {
        assert(s.take(i) =~= s);
    } else {
        lemma_digits_grow(s, i + 1);
        assert(s.take(i + 1).drop_last() =~= s.take(i));
    }
}

/// The number up to `max` that a text writes down.
pub fn parse_number(chars: &[char], max: u64) -> (r: Option<u64>)
    ensures
        r == number_of(chars@, max),
{
    let mut i: usize = 0;
    if chars.len() > 0 && chars[0] == '+' {
        i = 1;
    }
    let start: usize = i;
    let ghost d = digits_of(chars@);
    assert(d =~= chars@.skip(start as int));
    if start == chars.len() {
        return None;
    }
    let mut v: u64 = 0;
    while i < chars.len()
        invariant
            start <= i <= chars@.len(),
            d == chars@.skip(start as int),
            d == digits_of(chars@),
            v == digits_value(d.take(i - start)),
            v <= max,
            forall|j: int| 0 <= j < i - start ==> is_digit(#[trigger] d[j]),
        decreases chars@.len() - i,
    {
        let c = chars[i];
        assert(d[i - start] == c);
        if !('0' <= c && c <= '9') {
            return None;
        }
        let x: u64 = c as u64 - 0x30;
        proof {
            assert(d.take(i - start + 1).drop_last() =~= d.take(i - start));
            lemma_digits_grow(d, i - start + 1);
        }
        if x > max || v > (max - x) / 10 {
            return None;
        }
        v = v * 10 + x;
        i += 1;
    }
    assert(d.take(d.len() as int) =~= d);
    Some(v)
}

/// `c` with an ASCII capital made small.
pub open spec fn lower(c: char) -> char {
    if 'A' <= c <= 'Z' {
        (c as u32 + 0x20) as char
    } else {
        c
    }
}

/// `s` with ASCII capitals made small.
pub open spec fn lowered(s: Seq<char>) -> Seq<char> {
    Seq::new(s.len(), |i: int| lower(s[i]))
}

/// `c` with an ASCII capital made small.
pub fn to_lower(c: char) -> (d: char)
    ensures
        d == lower(c),
{
    if 'A' <= c && c <= 'Z' {
        (c as u8 + 0x20) as char
    } else {
        c
    }
}

/// Whether `s` begins with `prefix`.
pub open spec fn has_prefix(s: Seq<char>, prefix: Seq<char>) -> bool {
    prefix.len() <= s.len() && s.take(prefix.len() as int) == prefix
}

/// Whether `s` begins with `prefix`, ASCII capitals in `s` made small first if
/// asked for.
pub fn starts_with(s: &[char], prefix: &[char], fold: bool) -> (b: bool)
    ensures
        b == has_prefix(
            if fold {
                lowered(s@)
            } else {
                s@
            },
            prefix@,
        ),
{
    let ghost t = if fold {
        lowered(s@)
    } else {
        s@
    };
    if prefix.len() > s.len() {
        return false;
    }
    let mut i: usize = 0;
    while i < prefix.len()
        invariant
            i <= prefix@.len() <= s@.len(),
            t == (if fold {
                lowered(s@)
            } else {
                s@
            }),
            forall|j: int| 0 <= j < i ==> t[j] == prefix@[j],
        decreases prefix@.len() - i,
    {
        let c = if fold {
            to_lower(s[i])
        } else {
            s[i]
        };
        if c != prefix[i] {
            assert(t.take(prefix@.len() as int)[i as int] != prefix@[i as int]);
            return false;
        }
        i += 1;
    }
    assert(t.take(prefix@.len() as int) =~= prefix@);
    true
}

/// Where a character first occurs in a text, or its length.
pub open spec fn first_at(s: Seq<char>, c: char) -> int
    decreases s.len(),
{
    if s.len() == 0 || s[0] == c {
        0
    } else {
        1 + first_at(s.drop_first(), c)
    }
}

/// Where a character first occurs in a text, or its length.
pub fn find_char(s: &[char], c: char) -> (at: usize)
    ensures
        at == first_at(s@, c),
        at <= s@.len(),
        at < s@.len() ==> s@[at as int] == c,
{
    let mut i: usize = 0;
    assert(s@.skip(0) =~= s@);
    while i < s.len() && s[i] != c
        invariant
            i <= s@.len(),
            i + first_at(s@.skip(i as int), c) == first_at(s@, c),
        decreases s@.len() - i,
    {
        assert(s@.skip(i as int).drop_first() =~= s@.skip(i + 1));
        i += 1;
    }
    i
}

/// A line without a carriage return at its end.
pub open spec fn without_return(line: Seq<char>) -> Seq<char> {
    if line.len() > 0 && line.last() == '\r' {
        line.drop_last()
    } else {
        line
    }
}

/// The lines of a text, without their ends. What follows the last line feed is
/// a line as it stands, if it is anything.
pub open spec fn lines_of(s: Seq<char>) -> Seq<Seq<char>> {
    let parts = pieces(s, Separator::Char('\n'));
    let ended = Seq::new((parts.len() - 1) as nat, |i: int| without_return(parts[i]));
    if parts.last().len() == 0 {
        ended
    } else {
        ended.push(parts.last())
    }
}

/// The lines of a text.
pub fn lines(chars: &[char]) -> (v: Vec<Vec<char>>)
    ensures
        contents(v@) == lines_of(chars@),
{
    let parts = split(chars, Separator::Char('\n'));
    let ghost all = contents(parts@);
    proof {
        lemma_pieces_nonempty(chars@, Separator::Char('\n'));
        assert(all.len() == parts@.len());
    }
    let n: usize = parts.len();
    let mut v: Vec<Vec<char>> = Vec::new();
    let mut i: usize = 0;
    while i < n - 1
        invariant
            i <= n - 1,
            n == parts@.len() >= 1,
            all == contents(parts@),
            v@.len() == i,
            forall|j: int| 0 <= j < i ==> (#[trigger] v@[j])@ == without_return(all[j]),
        decreases n - i,
    {
        let line = parts[i].as_slice();
        assert(line@ == all[i as int]);
        let mut len: usize = line.len();
        if len > 0 && line[len - 1] == '\r' {
            len -= 1;
        }
        let kept = cut(line, 0, len);
        assert(kept@ =~= without_return(line@));
        v.push(kept);
        i += 1;
    }
    let last = parts[n - 1].as_slice();
    assert(last@ == all.last());
    if last.len() > 0 {
        let kept = cut(last, 0, last.len());
        assert(kept@ =~= last@);
        v.push(kept);
    }
    assert(contents(v@) =~= lines_of(chars@));
    v
}

/// The words of a text: what stands between white space.
pub open spec fn words_of(s: Seq<char>) -> Seq<Seq<char>> {
    nonempty(pieces(s, Separator::Space))
}

/// The parts that are not empty.
pub open spec fn nonempty(parts: Seq<Seq<char>>) -> Seq<Seq<char>>
    decreases parts.len(),
{
    if parts.len() == 0 {
        parts
    } else {
        let before = nonempty(parts.drop_last());
        if parts.last().len() == 0 {
            before
        } else {
            before.push(parts.last())
        }
    }
}

/// The words of a text.
pub fn words(chars: &[char]) -> (v: Vec<Vec<char>>)
    ensures
        contents(v@) == words_of(chars@),
{
    let parts = split(chars, Separator::Space);
    let ghost all = contents(parts@);
    let mut v: Vec<Vec<char>> = Vec::new();
    let mut i: usize = 0;
    assert(contents(v@) =~= nonempty(all.take(0)));
    while i < parts.len()
        invariant
            i <= parts@.len(),
            all == contents(parts@),
            contents(v@) == nonempty(all.take(i as int)),
        decreases parts@.len() - i,
    {
        proof {
            assert(all.take(i + 1).drop_last() =~= all.take(i as int));
            assert(all.take(i + 1).last() == parts@[i as int]@);
        }
        if parts[i].len() > 0 {
            let word = cut(parts[i].as_slice(), 0, parts[i].len());
            assert(word@ =~= parts@[i as int]@);
            let ghost before = contents(v@);
            let ghost wv = word@;
            v.push(word);
            assert(contents(v@) =~= before.push(wv));
        }
        i += 1;
    }
    assert(all.take(all.len() as int) =~= all);
    v
}

/// A number that was written in decimal reads as that number.
pub proof fn decimal_reads_back(n: u64, max: u64)
    requires
        n <= max,
    ensures
        number_of(decimal(n as nat), max) == Some(n),
{
    lemma_decimal(n as nat);
}

/// A number in decimal is its digits.
pub proof fn lemma_decimal(n: nat)
    ensures
        decimal(n).len() > 0,
        forall|i: int| 0 <= i < decimal(n).len() ==> is_digit(#[trigger] decimal(n)[i]),
        digits_value(decimal(n)) == n,
    decreases n,
{
    if n < 10 {
        assert(decimal(n).drop_last() =~= Seq::empty());
        assert(digits_value(decimal(n).drop_last()) == 0);
    } else {
        lemma_decimal(n / 10);
        assert(decimal(n).drop_last() =~= decimal(n / 10));
    }
}

} // verus!
