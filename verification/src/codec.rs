//! Byte-level building blocks: big-endian integers, fixed-size arrays, the
//! order of byte strings, and hexadecimal.

use vstd::prelude::*;
use vstd::slice::slice_subrange;
use vstd::utf8::*;

verus! {

/// The low `n` bytes of `x`, most significant first.
pub open spec fn be_bytes(x: nat, n: nat) -> Seq<u8>
    decreases n,
{
    if n == 0 {
        Seq::empty()
    } else {
        be_bytes(x / 256, (n - 1) as nat).push((x % 256) as u8)
    }
}

/// The number that `s` writes down in base 256, most significant byte first.
pub open spec fn be_value(s: Seq<u8>) -> nat
    decreases s.len(),
{
    if s.len() == 0 {
        0
    } else {
        be_value(s.drop_last()) * 256 + s.last() as nat
    }
}

/// `256` to the power `n`.
pub open spec fn pow256(n: nat) -> nat
    decreases n,
{
    if n == 0 {
        1
    } else {
        256 * pow256((n - 1) as nat)
    }
}

/// The powers that the wire formats use.
pub proof fn lemma_pow256_values()
    ensures
        pow256(2) == 0x1_0000,
        pow256(8) == 0x1_0000_0000_0000_0000,
{
    reveal_with_fuel(pow256, 9);
}

pub proof fn lemma_pow256_le(m: nat, n: nat)
    requires
        m <= n,
    ensures
        1 <= pow256(m) <= pow256(n),
    decreases n,
{
    if m < n {
        lemma_pow256_le(m, (n - 1) as nat);
    } else if n > 0 {
        lemma_pow256_le((m - 1) as nat, (n - 1) as nat);
    }
}

/// `be_bytes(x, n)` has `n` bytes.
pub proof fn lemma_be_bytes_len(x: nat, n: nat)
    ensures
        be_bytes(x, n).len() == n,
    decreases n,
{
    if n > 0 {
        lemma_be_bytes_len(x / 256, (n - 1) as nat);
    }
}

/// `s.len()` bytes hold a number below `256` to the power `s.len()`.
pub proof fn lemma_be_value_bound(s: Seq<u8>)
    ensures
        be_value(s) < pow256(s.len()),
    decreases s.len(),
{
    if s.len() > 0 {
        lemma_be_value_bound(s.drop_last());
    }
}

/// Reading what was written gives the number back, if it fits.
pub proof fn lemma_be_value_of_bytes(x: nat, n: nat)
    requires
        x < pow256(n),
    ensures
        be_value(be_bytes(x, n)) == x,
    decreases n,
{
    if n > 0 {
        lemma_be_value_of_bytes(x / 256, (n - 1) as nat);
        assert(be_bytes(x, n).drop_last() =~= be_bytes(x / 256, (n - 1) as nat));
    }
}

/// Writing what was read gives the bytes back.
pub proof fn lemma_be_bytes_of_value(s: Seq<u8>)
    ensures
        be_bytes(be_value(s), s.len()) == s,
    decreases s.len(),
{
    if s.len() > 0 {
        lemma_be_bytes_of_value(s.drop_last());
        assert(s.drop_last().push(s.last()) =~= s);
    }
}

/// Both directions for the two- and eight-byte integers of the wire formats.
pub proof fn lemma_be_u64(x: u64)
    ensures
        be_bytes(x as nat, 8).len() == 8,
        be_value(be_bytes(x as nat, 8)) == x,
{
    lemma_pow256_values();
    lemma_be_bytes_len(x as nat, 8);
    lemma_be_value_of_bytes(x as nat, 8);
}

pub proof fn lemma_be_u16(x: nat)
    requires
        x < 0x1_0000,
    ensures
        be_bytes(x, 2).len() == 2,
        be_value(be_bytes(x, 2)) == x,
{
    lemma_pow256_values();
    lemma_be_bytes_len(x, 2);
    lemma_be_value_of_bytes(x, 2);
}

/// Appends the low `n` bytes of `x`, most significant first.
pub fn push_be(out: &mut Vec<u8>, x: u64, n: usize)
    ensures
        final(out)@ == old(out)@ + be_bytes(x as nat, n as nat),
    decreases n,
{
    if n > 0 {
        push_be(out, x / 256, n - 1);
        out.push((x % 256) as u8);
        assert(out@ =~= old(out)@ + be_bytes(x as nat, n as nat));
    } else {
        assert(out@ =~= old(out)@ + be_bytes(x as nat, n as nat));
    }
}

/// The number that the `n` bytes of `buf` from `pos` on write down.
pub fn read_be(buf: &[u8], pos: usize, n: usize) -> (x: u64)
    requires
        n <= 8,
        pos + n <= buf@.len(),
    ensures
        x as nat == be_value(buf@.subrange(pos as int, pos + n)),
        x < pow256(n as nat),
{
    let mut acc: u64 = 0;
    let mut i: usize = 0;
    while i < n
        invariant
            i <= n <= 8,
            pos + n <= buf.len(),
            acc as nat == be_value(buf@.subrange(pos as int, pos + i)),
        decreases n - i,
    {
        let ghost next = buf@.subrange(pos as int, pos + i + 1);
        proof {
            assert(next.drop_last() =~= buf@.subrange(pos as int, pos + i));
            lemma_be_value_bound(next);
            lemma_pow256_le((i + 1) as nat, 8);
            lemma_pow256_values();
        }
        acc = acc * 256 + buf[pos + i] as u64;
        i += 1;
    }
    proof {
        lemma_be_value_bound(buf@.subrange(pos as int, pos + n));
    }
    acc
}

/// Appends `bytes`.
pub fn push_bytes(out: &mut Vec<u8>, bytes: &[u8])
    ensures
        final(out)@ == old(out)@ + bytes@,
{
    out.extend_from_slice(bytes);
    assert(out@ =~= old(out)@ + bytes@);
}

/// The `N` bytes of `buf` from `pos` on.
pub fn read_array<const N: usize>(buf: &[u8], pos: usize) -> (a: [u8; N])
    requires
        pos + N <= buf@.len(),
    ensures
        a@ == buf@.subrange(pos as int, pos + N),
{
    let mut a = [0u8; N];
    let mut i: usize = 0;
    while i < N
        invariant
            i <= N,
            pos + N <= buf.len(),
            forall|j: int| 0 <= j < i ==> a@[j] == buf@[pos + j],
        decreases N - i,
    {
        a[i] = buf[pos + i];
        i += 1;
    }
    assert(a@ =~= buf@.subrange(pos as int, pos + N));
    a
}

/// The bytes of `buf` from `pos` on, as a vector.
pub fn tail_vec(buf: &[u8], pos: usize) -> (v: Vec<u8>)
    requires
        pos <= buf@.len(),
    ensures
        v@ == buf@.skip(pos as int),
{
    let mut v: Vec<u8> = Vec::new();
    push_bytes(&mut v, slice_subrange(buf, pos, buf.len()));
    assert(v@ =~= buf@.skip(pos as int));
    v
}

/// Whether `a` and `b` hold the same bytes.
pub fn bytes_eq(a: &[u8], b: &[u8]) -> (same: bool)
    ensures
        same == (a@ == b@),
{
    if a.len() != b.len() {
        return false;
    }
    let mut i: usize = 0;
    while i < a.len()
        invariant
            i <= a@.len() == b@.len(),
            forall|j: int| 0 <= j < i ==> a@[j] == b@[j],
        decreases a@.len() - i,
    {
        if a[i] != b[i] {
            return false;
        }
        i += 1;
    }
    assert(a@ =~= b@);
    true
}

/// Dictionary order of byte strings.
pub open spec fn lex_lt(a: Seq<u8>, b: Seq<u8>) -> bool
    decreases a.len(),
{
    if b.len() == 0 {
        false
    } else if a.len() == 0 {
        true
    } else if a[0] != b[0] {
        a[0] < b[0]
    } else {
        lex_lt(a.drop_first(), b.drop_first())
    }
}

/// How one byte string stands to another in dictionary order.
#[derive(Clone, Copy, Debug, PartialEq, Eq, Structural)]
pub enum Standing {
    Before,
    Same,
    After,
}

/// Dictionary order is a strict order: nothing precedes itself.
pub proof fn lemma_lex_irreflexive(a: Seq<u8>)
    ensures
        !lex_lt(a, a),
    decreases a.len(),
{
    if a.len() > 0 {
        lemma_lex_irreflexive(a.drop_first());
    }
}

pub proof fn lemma_lex_transitive(a: Seq<u8>, b: Seq<u8>, c: Seq<u8>)
    requires
        lex_lt(a, b),
        lex_lt(b, c),
    ensures
        lex_lt(a, c),
    decreases a.len(),
{
    if a.len() > 0 && b.len() > 0 && c.len() > 0 && a[0] == b[0] && b[0] == c[0] {
        lemma_lex_transitive(a.drop_first(), b.drop_first(), c.drop_first());
    }
}

pub proof fn lemma_lex_asymmetric(a: Seq<u8>, b: Seq<u8>)
    requires
        lex_lt(a, b),
    ensures
        !lex_lt(b, a),
        a != b,
{
    if lex_lt(b, a) {
        lemma_lex_transitive(a, b, a);
    }
    lemma_lex_irreflexive(a);
}

pub proof fn lemma_lex_total(a: Seq<u8>, b: Seq<u8>)
    ensures
        lex_lt(a, b) || lex_lt(b, a) || a == b,
    decreases a.len(),
{
    if a.len() > 0 && b.len() > 0 {
        if a[0] == b[0] {
            lemma_lex_total(a.drop_first(), b.drop_first());
            if a.drop_first() == b.drop_first() {
                assert(a =~= seq![a[0]] + a.drop_first());
                assert(b =~= seq![b[0]] + b.drop_first());
            }
        }
    } else if a.len() == 0 && b.len() == 0 {
        assert(a =~= b);
    }
}

/// The order of two strings is that of what follows a common prefix.
proof fn lemma_lex_skip(a: Seq<u8>, b: Seq<u8>, k: int)
    requires
        0 <= k <= a.len(),
        k <= b.len(),
        forall|j: int| 0 <= j < k ==> a[j] == b[j],
    ensures
        lex_lt(a, b) == lex_lt(a.skip(k), b.skip(k)),
    decreases k,
{
    if k == 0 {
        assert(a.skip(0) =~= a);
        assert(b.skip(0) =~= b);
    } else {
        lemma_lex_skip(a.drop_first(), b.drop_first(), k - 1);
        assert(a.drop_first().skip(k - 1) =~= a.skip(k));
        assert(b.drop_first().skip(k - 1) =~= b.skip(k));
    }
}

/// The first byte in which two strings differ decides which comes first; one that
/// the other only continues comes before it.
pub proof fn first_difference_decides(a: Seq<u8>, b: Seq<u8>, k: int)
    requires
        0 <= k <= a.len(),
        k <= b.len(),
        a.take(k) == b.take(k),
    ensures
        k < a.len() && k < b.len() && a[k] < b[k] ==> lex_lt(a, b),
        k < a.len() && k < b.len() && a[k] > b[k] ==> !lex_lt(a, b),
        k == a.len() && k < b.len() ==> lex_lt(a, b),
        k == b.len() ==> !lex_lt(a, b),
{
    assert forall|j: int| 0 <= j < k implies a[j] == b[j] by {
        let (x, y) = (a.take(k), b.take(k));
        assert(x[j] == a[j]);
        assert(y[j] == b[j]);
    }
    lemma_lex_skip(a, b, k);
}

/// Compares two byte strings in dictionary order.
pub fn stand(a: &[u8], b: &[u8]) -> (s: Standing)
    ensures
        s == Standing::Before <==> lex_lt(a@, b@),
        s == Standing::After <==> lex_lt(b@, a@),
        s == Standing::Same <==> a@ == b@,
{
    let mut i: usize = 0;
    proof {
        if lex_lt(a@, b@) {
            lemma_lex_asymmetric(a@, b@);
        }
        if lex_lt(b@, a@) {
            lemma_lex_asymmetric(b@, a@);
        }
    }
    while i < a.len() && i < b.len()
        invariant
            i <= a@.len(),
            i <= b@.len(),
            forall|j: int| 0 <= j < i ==> a@[j] == b@[j],
            lex_lt(a@, b@) ==> !lex_lt(b@, a@) && a@ != b@,
            lex_lt(b@, a@) ==> !lex_lt(a@, b@) && a@ != b@,
        decreases a@.len() - i,
    {
        if a[i] < b[i] {
            proof {
                lemma_lex_skip(a@, b@, i as int);
            }
            return Standing::Before;
        }
        if a[i] > b[i] {
            proof {
                lemma_lex_skip(b@, a@, i as int);
            }
            return Standing::After;
        }
        i += 1;
    }
    proof {
        lemma_lex_skip(a@, b@, i as int);
        lemma_lex_skip(b@, a@, i as int);
    }
    if i < b.len() {
        Standing::Before
    } else if i < a.len() {
        Standing::After
    } else {
        assert(a@ =~= b@);
        proof {
            lemma_lex_irreflexive(a@);
        }
        Standing::Same
    }
}

/// The value of an ASCII hexadecimal digit, of either case.
pub open spec fn hex_digit_value(b: u8) -> Option<u8> {
    if 0x30 <= b <= 0x39 {
        Some((b - 0x30) as u8)
    } else if 0x61 <= b <= 0x66 {
        Some((b - 0x61 + 10) as u8)
    } else if 0x41 <= b <= 0x46 {
        Some((b - 0x41 + 10) as u8)
    } else {
        None
    }
}

/// The lower-case hexadecimal digit of a value below sixteen.
pub open spec fn hex_lower(v: nat) -> char {
    if v < 10 {
        (0x30 + v) as char
    } else {
        (0x61 + v - 10) as char
    }
}

/// The upper-case hexadecimal digit of a value below sixteen.
pub open spec fn hex_upper(v: nat) -> char {
    if v < 10 {
        (0x30 + v) as char
    } else {
        (0x41 + v - 10) as char
    }
}

/// `bytes` in lower-case hexadecimal, two digits each.
pub open spec fn hex_text(bytes: Seq<u8>) -> Seq<char> {
    Seq::new(
        2 * bytes.len(),
        |i: int|
            if i % 2 == 0 {
                hex_lower(bytes[i / 2] as nat / 16)
            } else {
                hex_lower(bytes[i / 2] as nat % 16)
            },
    )
}

/// The byte that two characters of hexadecimal text stand for: two digits, or
/// a plus sign and one digit.
pub open spec fn hex_pair(a: u8, b: u8) -> Option<u8> {
    match (hex_digit_value(a), hex_digit_value(b)) {
        (Some(hi), Some(lo)) => Some((hi * 16 + lo) as u8),
        (None, Some(lo)) => if a == 0x2b {
            Some(lo)
        } else {
            None
        },
        _ => None,
    }
}

/// The `n` bytes that hexadecimal text of `2 * n` characters stands for.
pub open spec fn hex_bytes(text: Seq<u8>, n: nat) -> Option<Seq<u8>> {
    if text.len() == 2 * n && (forall|i: int|
        0 <= i < n ==> (#[trigger] hex_pair(text[2 * i], text[2 * i + 1])) is Some) {
        Some(Seq::new(n, |i: int| hex_pair(text[2 * i], text[2 * i + 1])->0))
    } else {
        None
    }
}

/// The value of an ASCII hexadecimal digit, of either case.
pub fn hex(b: u8) -> (v: Option<u8>)
    ensures
        v == hex_digit_value(b),
        v matches Some(d) ==> d < 16,
{
    if 0x30 <= b && b <= 0x39 {
        Some(b - 0x30)
    } else if 0x61 <= b && b <= 0x66 {
        Some(b - 0x61 + 10)
    } else if 0x41 <= b && b <= 0x46 {
        Some(b - 0x41 + 10)
    } else {
        None
    }
}

/// The lower-case hexadecimal digit of `v`.
pub fn hex_digit(v: u8) -> (c: char)
    requires
        v < 16,
    ensures
        c == hex_lower(v as nat),
{
    if v < 10 {
        (0x30 + v) as char
    } else {
        (0x61 + (v - 10)) as char
    }
}

/// The upper-case hexadecimal digit of `v`.
pub fn hex_digit_upper(v: u8) -> (c: char)
    requires
        v < 16,
    ensures
        c == hex_upper(v as nat),
{
    if v < 10 {
        (0x30 + v) as char
    } else {
        (0x41 + (v - 10)) as char
    }
}

/// The bytes that `text` writes in hexadecimal, if it holds `N` of them.
///
/// Each byte is two digits of either case; a plus sign may take the place of a
/// leading zero.
pub fn hex_decode<const N: usize>(text: &str) -> (r: Option<[u8; N]>)
    ensures
        match r {
            Some(a) => hex_bytes(encode_utf8(text@), N as nat) == Some(a@),
            None => hex_bytes(encode_utf8(text@), N as nat) is None,
        },
{
    let t = text.as_bytes();
    if t.len() / 2 != N || t.len() % 2 != 0 {
        return None;
    }
    let mut a = [0u8; N];
    let mut i: usize = 0;
    while i < N
        invariant
            i <= N,
            t.len() == 2 * N,
            t@ == encode_utf8(text@),
            forall|j: int|
                0 <= j < i ==> (#[trigger] hex_pair(t@[2 * j], t@[2 * j + 1])) == Some(a@[j]),
        decreases N - i,
    {
        let hi = t[2 * i];
        assert(hex_pair(t@[2 * i], t@[2 * i + 1]) == hex_pair(hi, t@[2 * i + 1]));
        let Some(lo) = hex(t[2 * i + 1]) else {
            return None;
        };
        let b = match hex(hi) {
            Some(h) => h * 16 + lo,
            None => {
                if hi != 0x2b {
                    return None;
                }
                lo
            },
        };
        a[i] = b;
        i += 1;
    }
    assert(a@ =~= hex_bytes(t@, N as nat)->0);
    Some(a)
}

/// Every two characters of hexadecimal text name the byte that they were
/// written for.
proof fn lemma_hex_pair_of_digits(b: u8)
    ensures
        hex_pair(hex_lower(b as nat / 16) as u8, hex_lower(b as nat % 16) as u8) == Some(b),
        hex_lower(b as nat / 16) <= '\u{7f}',
        hex_lower(b as nat % 16) <= '\u{7f}',
{
}

/// Decoding hexadecimal text gives back the bytes it was written for.
pub proof fn hex_round_trip(bytes: Seq<u8>)
    ensures
        hex_bytes(encode_utf8(hex_text(bytes)), bytes.len()) == Some(bytes),
{
    let text = hex_text(bytes);
    assert forall|i: int| 0 <= i < text.len() implies '\0' <= #[trigger] text[i] <= '\u{7f}' by {
        lemma_hex_pair_of_digits(bytes[i / 2]);
    }
    is_ascii_chars_encode_utf8(text);
    let enc = encode_utf8(text);
    assert forall|i: int| 0 <= i < bytes.len() implies (#[trigger] hex_pair(
        enc[2 * i],
        enc[2 * i + 1],
    )) == Some(bytes[i]) by {
        lemma_hex_pair_of_digits(bytes[i]);
        assert(enc[2 * i] == text[2 * i] as u8);
        assert(enc[2 * i + 1] == text[2 * i + 1] as u8);
    }
    assert(hex_bytes(enc, bytes.len())->0 =~= bytes);
}

} // verus!
