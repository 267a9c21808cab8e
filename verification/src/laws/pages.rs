//! The web view: what a request says, where it leads, what a page shows, what an
//! answer carries.

use vstd::prelude::*;
use vstd::utf8::*;

use crate::codec;
use crate::laws::words;
use crate::paths;
use crate::store::RecView;
use crate::text;
use crate::text::Separator;
use crate::web;
use crate::web::{IntakeStep, IntakeView, ReplyView, RequestView};

verus! {

/// Whether a text occurs in another.
pub open spec fn shows(page: Seq<char>, part: Seq<char>) -> bool {
    exists|a: Seq<char>, b: Seq<char>| #[trigger] (a + part + b) == page
}

/// The rows of a list are those of its parts, one after the other; the list of one
/// file has the row of that file.
pub proof fn rows_follow_each_other(a: Seq<RecView>, b: Seq<RecView>, r: RecView)
    ensures
        web::rows(a + b) == web::rows(a) + web::rows(b),
        web::rows(seq![r]) == web::row(r),
        web::rows(Seq::empty()).len() == 0,
    decreases b.len(),
{
    let one = seq![r];
    assert(one.drop_last() =~= Seq::empty());
    assert(web::rows(one.drop_last()) =~= Seq::empty());
    assert(web::rows(one) =~= web::row(r));
    if b.len() == 0 {
        assert(a + b =~= a);
        assert(web::rows(a + b) =~= web::rows(a) + web::rows(b));
    } else {
        assert((a + b).drop_last() =~= a + b.drop_last());
        rows_follow_each_other(a, b.drop_last(), r);
        assert(web::rows(a + b) =~= web::rows(a) + web::rows(b));
    }
}

/// The page has a row for each file of the list, behind the rows of the files
/// before it and before those of the files behind it.
pub proof fn every_file_has_its_row(root: Seq<char>, recs: Seq<RecView>, i: int)
    requires
        0 <= i < recs.len(),
    ensures
        web::rows(recs) == web::rows(recs.take(i)) + web::row(recs[i]) + web::rows(
            recs.skip(i + 1),
        ),
        shows(web::home_page(root, recs), web::row(recs[i])),
        shows(web::home_page(root, recs), web::rows(recs)),
{
    let front = recs.take(i);
    let back = recs.skip(i + 1);
    let one = seq![recs[i]];
    assert(recs =~= front + one + back);
    rows_follow_each_other(front + one, back, recs[i]);
    rows_follow_each_other(front, one, recs[i]);
    let page = web::home_page(root, recs);
    let before = page.take(page.len() - (web::rows(recs) + web::PAGE_END@).len());
    assert(before + web::rows(recs) + web::PAGE_END@ =~= page);
    lemma_shows_inner(
        before,
        web::rows(front),
        web::row(recs[i]),
        web::rows(back),
        web::PAGE_END@,
        page,
    );
}

proof fn lemma_shows_inner(
    a: Seq<char>,
    b: Seq<char>,
    part: Seq<char>,
    c: Seq<char>,
    d: Seq<char>,
    page: Seq<char>,
)
    requires
        page == a + (b + part + c) + d,
    ensures
        shows(page, part),
{
    assert((a + b) + part + (c + d) =~= page);
}

/// The page shows the name of the folder and the number of files; without files it
/// says so.
pub proof fn a_page_names_its_folder(root: Seq<char>, recs: Seq<RecView>)
    ensures
        shows(
            web::home_page(root, recs),
            web::PAGE_TOP@ + web::escaped(root) + web::PAGE_FOLDER@,
        ),
        shows(
            web::home_page(root, recs),
            web::PAGE_FOLDER@ + text::decimal(recs.len()) + web::PAGE_TABLE@,
        ),
        recs.len() == 0 ==> shows(web::home_page(root, recs), web::ROW_EMPTY@),
{
    let page = web::home_page(root, recs);
    let top = web::PAGE_TOP@;
    let name = web::escaped(root);
    let folder = web::PAGE_FOLDER@;
    let n = text::decimal(recs.len());
    let table = web::PAGE_TABLE@;
    let shown = if recs.len() == 0 {
        web::ROW_EMPTY@
    } else {
        web::rows(recs)
    };
    let end = web::PAGE_END@;
    assert(page == top + name + folder + n + table + shown + end);
    lemma_page_parts(top, name, folder, n, table, shown, end, page);
}

proof fn lemma_page_parts(
    top: Seq<char>,
    name: Seq<char>,
    folder: Seq<char>,
    n: Seq<char>,
    table: Seq<char>,
    shown: Seq<char>,
    end: Seq<char>,
    page: Seq<char>,
)
    requires
        page == top + name + folder + n + table + shown + end,
    ensures
        shows(page, top + name + folder),
        shows(page, folder + n + table),
        shows(page, shown),
{
    assert(Seq::<char>::empty() + (top + name + folder) + (n + table + shown + end) =~= page);
    assert((top + name) + (folder + n + table) + (shown + end) =~= page);
    assert((top + name + folder + n + table) + shown + end =~= page);
}

/// The row of a file shows its path, its size and its time, links to its download
/// and has a button that removes it: both with the query that names its path.
pub proof fn a_row_shows_its_file(r: RecView)
    ensures
        shows(
            web::row(r),
            "\"dl?"@ + web::link_query(r.path) + "\">"@ + web::escaped(r.path) + "</a>"@,
        ),
        shows(web::row(r), "<td class='num'>"@ + text::decimal(r.size as nat) + "</td>"@),
        shows(web::row(r), "<td class='muted'>"@ + text::decimal(r.mtime as nat) + "</td>"@),
        shows(web::row(r), "<form method='post' action='rm?"@ + web::link_query(r.path) + "'"@),
{
    let enc = web::form_encoded(encode_utf8(r.path));
    let name = web::escaped(r.path);
    let size = text::decimal(r.size as nat);
    let time = text::decimal(r.mtime as nat);
    let m = lemma_row_marks();
    let b2 = web::ROW_LINK@ + enc + web::ROW_NAME@ + name;
    let b3 = b2 + web::ROW_SIZE@;
    let b5 = b3 + size + web::ROW_TIME@;
    let b7 = b5 + time + web::ROW_DELETE@;
    let row = b7 + enc + web::ROW_END@;
    assert(row == web::row(r));
    let link = "\"dl?"@ + web::link_query(r.path) + "\">"@ + name + "</a>"@;
    assert(shows(b3, link)) by {
        lemma_link_shown(m.0, "\"dl?"@, "p="@, enc, "\">"@, name, "</a>"@, m.2);
    }
    lemma_shows_before(b3, size, link);
    lemma_shows_before(b3 + size, web::ROW_TIME@, link);
    let sized = "<td class='num'>"@ + size + "</td>"@;
    assert(shows(b5, sized)) by {
        lemma_cell_shown(b2, m.1, "<td class='num'>"@, size, "</td>"@, m.4);
    }
    lemma_shows_before(b5, time, link);
    lemma_shows_before(b5 + time, web::ROW_DELETE@, link);
    lemma_shows_before(b5, time, sized);
    lemma_shows_before(b5 + time, web::ROW_DELETE@, sized);
    let timed = "<td class='muted'>"@ + time + "</td>"@;
    assert(shows(b7, timed)) by {
        lemma_cell_shown(b3 + size, m.3, "<td class='muted'>"@, time, "</td>"@, m.6);
    }
    lemma_shows_before(b7, enc, link);
    lemma_shows_before(b7 + enc, web::ROW_END@, link);
    lemma_shows_before(b7, enc, sized);
    lemma_shows_before(b7 + enc, web::ROW_END@, sized);
    lemma_shows_before(b7, enc, timed);
    lemma_shows_before(b7 + enc, web::ROW_END@, timed);
    let form = "<form method='post' action='rm?"@;
    assert(shows(row, form + web::link_query(r.path) + "'"@)) by {
        assert(m.5 + form + "p="@ =~= m.5 + (form + "p="@));
        lemma_cell_shown(b5 + time, m.5, form + "p="@, enc, "'"@, m.7);
        assert(form + "p="@ + enc + "'"@ =~= form + ("p="@ + enc) + "'"@);
    }
}

proof fn lemma_shows_before(page: Seq<char>, more: Seq<char>, part: Seq<char>)
    requires
        shows(page, part),
    ensures
        shows(page + more, part),
{
    let (a, b) = choose|a: Seq<char>, b: Seq<char>| #[trigger] (a + part + b) == page;
    assert(a + part + (b + more) =~= page + more);
}

proof fn lemma_cell_shown(
    before: Seq<char>,
    left: Seq<char>,
    open: Seq<char>,
    value: Seq<char>,
    close: Seq<char>,
    right: Seq<char>,
)
    ensures
        shows(before + (left + open) + value + (close + right), open + value + close),
{
    assert((before + left) + (open + value + close) + right =~= before + (left + open) + value + (
    close + right));
}

proof fn lemma_link_shown(
    left: Seq<char>,
    open: Seq<char>,
    key: Seq<char>,
    value: Seq<char>,
    quote: Seq<char>,
    name: Seq<char>,
    close: Seq<char>,
    right: Seq<char>,
)
    ensures
        shows(
            left + open + key + value + quote + name + (close + right),
            open + (key + value) + quote + name + close,
        ),
{
    let shown = open + (key + value) + quote + name;
    assert(open + key + value + quote + name =~= shown);
    assert(left + open + key + value + quote + name =~= left + shown);
    assert(left + (shown + close) + right =~= left + shown + (close + right));
}

/// What the fixed pieces of a row begin and end with.
proof fn lemma_row_marks() -> (m: (
    Seq<char>,
    Seq<char>,
    Seq<char>,
    Seq<char>,
    Seq<char>,
    Seq<char>,
    Seq<char>,
    Seq<char>,
))
    ensures
        web::ROW_LINK@ == m.0 + "\"dl?"@ + "p="@,
        web::ROW_NAME@ == "\">"@,
        web::ROW_SIZE@ == m.1 + "<td class='num'>"@,
        web::ROW_SIZE@ == "</a>"@ + m.2,
        web::ROW_TIME@ == m.3 + "<td class='muted'>"@,
        web::ROW_TIME@ == "</td>"@ + m.4,
        web::ROW_DELETE@ == m.5 + "<form method='post' action='rm?"@ + "p="@,
        web::ROW_DELETE@ == "</td>"@ + m.6,
        web::ROW_END@ == "'"@ + m.7,
{
    reveal_strlit("\"dl?");
    reveal_strlit("</a>");
    reveal_strlit("p=");
    reveal_strlit("'");
    reveal_strlit("</td>");
    reveal_strlit("<td class='num'>");
    reveal_strlit("<td class='muted'>");
    reveal_strlit("<form method='post' action='rm?");
    reveal_strlit("<tr><td><a href=\"dl?p=");
    reveal_strlit("</a></td><td class='num'>");
    reveal_strlit("</td><td class='muted'>");
    reveal_strlit("</td><td><form method='post' action='rm?p=");
    reveal_strlit(
        "' style='display:inline'><button type='submit' class='danger'>Delete</button></form></td></tr>",
    );
    let l = web::ROW_LINK@;
    let z = web::ROW_SIZE@;
    let t = web::ROW_TIME@;
    let d = web::ROW_DELETE@;
    let e = web::ROW_END@;
    assert(l =~= l.take(l.len() - 6) + "\"dl?"@ + "p="@);
    assert(z =~= z.take(9) + "<td class='num'>"@);
    assert(z =~= "</a>"@ + z.skip(4));
    assert(t =~= t.take(5) + "<td class='muted'>"@);
    assert(t =~= "</td>"@ + t.skip(5));
    assert(d =~= d.take(9) + "<form method='post' action='rm?"@ + "p="@);
    assert(d =~= "</td>"@ + d.skip(5));
    assert(e =~= "'"@ + e.skip(1));
    (l.take(l.len() - 6), z.take(9), z.skip(4), t.take(5), t.skip(5), d.take(9), d.skip(5), e.skip(1))
}

/// A page shows every character of a text as it is, but for the four that mean
/// something to it.
pub proof fn escaping_goes_by_characters(a: Seq<char>, b: Seq<char>, c: char)
    ensures
        web::escaped(a + b) == web::escaped(a) + web::escaped(b),
        web::escaped(Seq::empty()).len() == 0,
        c != '&' && c != '<' && c != '>' && c != '"' ==> web::escaped(seq![c]) == seq![c],
        web::escaped(seq!['&']) == "&amp;"@,
        web::escaped(seq!['<']) == "&lt;"@,
        web::escaped(seq!['>']) == "&gt;"@,
        web::escaped(seq!['"']) == "&quot;"@,
    decreases b.len(),
{
    assert forall|d: char| #[trigger] web::escaped(seq![d]) == web::escaped_char(d) by {
        let one = seq![d];
        assert(one.drop_last() =~= Seq::empty());
        assert(web::escaped(one.drop_last()) =~= Seq::empty());
        assert(web::escaped(one) =~= web::escaped_char(d));
    }
    if b.len() == 0 {
        assert(a + b =~= a);
        assert(web::escaped(a + b) =~= web::escaped(a) + web::escaped(b));
    } else {
        assert((a + b).drop_last() =~= a + b.drop_last());
        escaping_goes_by_characters(a, b.drop_last(), c);
        assert(web::escaped(a + b) =~= web::escaped(a) + web::escaped(b));
    }
}

/// A form carries text byte by byte: letters, digits and `-_.~` as they are, a
/// space as a plus sign, every other byte as a percent sign and its two digits.
pub proof fn forms_go_by_bytes(a: Seq<u8>, b: Seq<u8>, x: u8)
    ensures
        web::form_encoded(a + b) == web::form_encoded(a) + web::form_encoded(b),
        web::form_encoded(Seq::empty()).len() == 0,
        ('a' <= x as char <= 'z' || 'A' <= x as char <= 'Z' || '0' <= x as char <= '9' || x as char
            == '-' || x as char == '_' || x as char == '.' || x as char == '~')
            ==> web::form_encoded(seq![x]) == seq![x as char],
        web::form_encoded(seq![0x20u8]) == seq!['+'],
        web::form_encoded(seq![x]).len() == 1 || (web::form_encoded(seq![x]).len() == 3
            && web::form_encoded(seq![x])[0] == '%' && seq![
            '0', '1', '2', '3', '4', '5', '6', '7', '8', '9', 'A', 'B', 'C', 'D', 'E', 'F',
        ][x as int / 16] == web::form_encoded(seq![x])[1] && seq![
            '0', '1', '2', '3', '4', '5', '6', '7', '8', '9', 'A', 'B', 'C', 'D', 'E', 'F',
        ][x as int % 16] == web::form_encoded(seq![x])[2]),
    decreases b.len(),
{
    assert forall|d: u8| #[trigger] web::form_encoded(seq![d]) == web::form_byte(d) by {
        let one = seq![d];
        assert(one.drop_last() =~= Seq::empty());
        assert(web::form_encoded(one.drop_last()) =~= Seq::empty());
        assert(web::form_encoded(one) =~= web::form_byte(d));
    }
    if b.len() == 0 {
        assert(a + b =~= a);
        assert(web::form_encoded(a + b) =~= web::form_encoded(a) + web::form_encoded(b));
    } else {
        assert((a + b).drop_last() =~= a + b.drop_last());
        forms_go_by_bytes(a, b.drop_last(), x);
        assert(web::form_encoded(a + b) =~= web::form_encoded(a) + web::form_encoded(b));
    }
}

/// The hexadecimal digits, of either case, and nothing else.
pub proof fn hexadecimal_digits(b: u8, v: u8)
    ensures
        v < 10 ==> codec::hex_digit_value((0x30 + v) as u8) == Some(v) && codec::hex_lower(v as nat)
            == (0x30 + v) as char && codec::hex_upper(v as nat) == (0x30 + v) as char,
        10 <= v < 16 ==> codec::hex_digit_value((0x57 + v) as u8) == Some(v)
            && codec::hex_digit_value((0x37 + v) as u8) == Some(v) && codec::hex_lower(v as nat)
            == (0x57 + v) as char && codec::hex_upper(v as nat) == (0x37 + v) as char,
        codec::hex_digit_value(b) is Some <==> 0x30 <= b <= 0x39 || 0x61 <= b <= 0x66 || 0x41 <= b
            <= 0x46,
{
}

/// A URL is decoded from the front: a plus sign is a space, a percent sign with two
/// digits the byte that they write, everything else stands for itself, a percent
/// sign without two digits too.
pub proof fn urls_are_decoded_from_the_front(c: u8, h: u8, l: u8, rest: Seq<u8>)
    ensures
        web::url_decoded(Seq::empty()).len() == 0,
        web::url_decoded(seq![0x2bu8] + rest) == seq![' '] + web::url_decoded(rest),
        c != 0x2b && c != 0x25 ==> web::url_decoded(seq![c] + rest) == seq![c as char]
            + web::url_decoded(rest),
        codec::hex_digit_value(h) is Some && codec::hex_digit_value(l) is Some ==> web::url_decoded(
            seq![0x25u8, h, l] + rest,
        ) == seq![
            (codec::hex_digit_value(h)->0 * 16 + codec::hex_digit_value(l)->0) as char,
        ] + web::url_decoded(rest),
        rest.len() < 2 || codec::hex_digit_value(rest[0]) is None || codec::hex_digit_value(
            rest[1],
        ) is None ==> web::url_decoded(seq![0x25u8] + rest) == seq!['%'] + web::url_decoded(rest),
{
    assert((seq![0x2bu8] + rest).skip(1) =~= rest);
    assert((seq![c] + rest).skip(1) =~= rest);
    assert((seq![0x25u8] + rest).skip(1) =~= rest);
    assert((seq![0x25u8, h, l] + rest).skip(3) =~= rest);
    let p = seq![0x25u8, h, l] + rest;
    assert(p[0] == 0x25 && p[1] == h && p[2] == l);
    let q = seq![0x25u8] + rest;
    if rest.len() >= 2 {
        assert(q[1] == rest[0] && q[2] == rest[1]);
    }
}

/// The text of a parameter.
pub open spec fn pair_text(pair: (Seq<char>, Seq<char>)) -> Seq<char> {
    pair.0 + seq!['='] + pair.1
}

/// The texts of parameters.
pub open spec fn pair_texts(pairs: Seq<(Seq<char>, Seq<char>)>) -> Seq<Seq<char>> {
    Seq::new(pairs.len(), |i: int| pair_text(pairs[i]))
}

/// The value of a key in a query is that of the first parameter with that key, as
/// it stands, whatever other parameters there are; without one there is none.
pub proof fn the_first_parameter_counts(pairs: Seq<(Seq<char>, Seq<char>)>, key: Seq<char>)
    requires
        pairs.len() > 0,
        !key.contains('='),
        forall|i: int|
            0 <= i < pairs.len() ==> !(#[trigger] pairs[i]).0.contains('=') && !pairs[i].0.contains(
                '&',
            ) && !pairs[i].1.contains('&'),
    ensures
        ({
            let query = text::joined(pair_texts(pairs), '&');
            &&& forall|i: int|
                0 <= i < pairs.len() && (#[trigger] pairs[i]).0 == key && (forall|j: int|
                    0 <= j < i ==> (#[trigger] pairs[j]).0 != key) ==> web::param_of(query, key)
                    == Some(pairs[i].1)
            &&& (forall|i: int| 0 <= i < pairs.len() ==> (#[trigger] pairs[i]).0 != key)
                ==> web::param_of(query, key) is None
        }),
{
    let texts = pair_texts(pairs);
    assert forall|i: int| 0 <= i < texts.len() implies !(#[trigger] texts[i]).contains('&') by {
        let t = texts[i];
        let k = pairs[i].0;
        if t.contains('&') {
            let x = choose|x: int| 0 <= x < t.len() && t[x] == '&';
            if x < k.len() {
                assert(k.contains(k[x]));
            } else if x > k.len() {
                assert(pairs[i].1.contains(pairs[i].1[x - k.len() - 1]));
            }
        }
    }
    paths::lemma_pieces_of_joined(texts, '&');
    lemma_param_in(pairs, key);
}

proof fn lemma_param_in(pairs: Seq<(Seq<char>, Seq<char>)>, key: Seq<char>)
    requires
        !key.contains('='),
        forall|i: int| 0 <= i < pairs.len() ==> !(#[trigger] pairs[i]).0.contains('='),
    ensures
        forall|i: int|
            0 <= i < pairs.len() && (#[trigger] pairs[i]).0 == key && (forall|j: int|
                0 <= j < i ==> (#[trigger] pairs[j]).0 != key) ==> web::param_in(
                pair_texts(pairs),
                key,
            ) == Some(pairs[i].1),
        (forall|i: int| 0 <= i < pairs.len() ==> (#[trigger] pairs[i]).0 != key) ==> web::param_in(
            pair_texts(pairs),
            key,
        ) is None,
    decreases pairs.len(),
{
    let texts = pair_texts(pairs);
    if pairs.len() > 0 {
        let first = pairs[0];
        let t = texts[0];
        let rest = pairs.drop_first();
        assert(texts.drop_first() =~= pair_texts(rest));
        assert forall|i: int| 0 <= i < rest.len() implies !(#[trigger] rest[i]).0.contains('=') by {
            assert(rest[i] == pairs[i + 1]);
        }
        lemma_param_in(rest, key);
        let prefix = key.push('=');
        assert(!pairs[0].0.contains('='));
        assert(text::has_prefix(t, prefix) <==> first.0 == key) by {
            if first.0 == key {
                assert(t.take(prefix.len() as int) =~= prefix);
            }
            if text::has_prefix(t, prefix) {
                let n = key.len() as int;
                let m = first.0.len() as int;
                assert(t.take(n + 1)[n] == '=');
                assert(t[n] == '=');
                if n < m {
                    assert(first.0.contains(first.0[n]));
                }
                if m < n {
                    assert(t[m] == '=');
                    assert(prefix[m] == t.take(n + 1)[m]);
                    assert(key.contains(key[m]));
                }
                assert forall|x: int| 0 <= x < n implies key[x] == first.0[x] by {
                    assert(prefix[x] == t.take(n + 1)[x]);
                }
                assert(first.0 =~= key);
            }
        }
        if first.0 == key {
            assert(t.skip(key.len() as int + 1) =~= first.1);
        }
        assert forall|i: int|
            0 <= i < pairs.len() && (#[trigger] pairs[i]).0 == key && (forall|j: int|
                0 <= j < i ==> (#[trigger] pairs[j]).0 != key) implies web::param_in(texts, key)
            == Some(pairs[i].1) by {
            if i > 0 {
                assert(pairs[0].0 != key);
                assert(rest[i - 1] == pairs[i]);
                assert forall|j: int| 0 <= j < i - 1 implies (#[trigger] rest[j]).0 != key by {
                    assert(rest[j] == pairs[j + 1]);
                }
            }
        }
        if forall|i: int| 0 <= i < pairs.len() ==> (#[trigger] pairs[i]).0 != key {
            assert(pairs[0].0 != key);
            assert forall|i: int| 0 <= i < rest.len() implies (#[trigger] rest[i]).0 != key by {
                assert(rest[i] == pairs[i + 1]);
            }
        }
    }
}

/// The name of a file is what follows the last slash of its path, or the path if
/// there is none.
pub proof fn a_name_follows_the_last_slash(dir: Seq<char>, name: Seq<char>)
    requires
        !name.contains('/'),
    ensures
        web::base_name(dir + seq!['/'] + name) == name,
        web::base_name(name) == name,
{
    let sep = Separator::Char('/');
    assert forall|i: int| 0 <= i < name.len() implies !text::separates(sep, #[trigger] name[i]) by {
        assert(name.contains(name[i]));
    }
    words::pieces_lie_between_separators(dir, '/', name, sep);
    assert(text::pieces(name, sep) == seq![name]);
}

/// What a request asks for: a path, and a query if there is one.
pub open spec fn target(path: Seq<char>, query: Option<Seq<char>>) -> Seq<char> {
    match query {
        Some(q) => path + seq!['?'] + q,
        None => path,
    }
}

/// The first line of a request gives the method, then the path and, behind the
/// first question mark, the query; the version and what follows change neither.
pub proof fn a_request_line_is_read(
    method: Seq<char>,
    path: Seq<char>,
    query: Option<Seq<char>>,
    version: Seq<char>,
    rest: Seq<char>,
)
    requires
        method.len() > 0,
        forall|i: int| 0 <= i < method.len() ==> !text::is_space(#[trigger] method[i]),
        path.len() > 0,
        !path.contains('?'),
        forall|i: int| 0 <= i < path.len() ==> !text::is_space(#[trigger] path[i]),
        query matches Some(q) ==> (forall|i: int|
            0 <= i < q.len() ==> !text::is_space(#[trigger] q[i])),
        !version.contains('\n'),
    ensures
        ({
            let line = method + seq![' '] + target(path, query) + seq![' '] + version;
            let r = web::request_of(line + seq!['\r', '\n'] + rest);
            &&& r.method == method
            &&& r.path == path
            &&& r.query == match query {
                Some(q) => q,
                None => Seq::empty(),
            }
            &&& r.content_len == web::content_length(seq![line] + text::lines_of(rest))
        }),
{
    let t = target(path, query);
    let line = method + seq![' '] + t + seq![' '] + version;
    let full = line.push('\r');
    let head = line + seq!['\r', '\n'] + rest;
    assert forall|i: int| 0 <= i < t.len() implies !text::is_space(#[trigger] t[i]) by {
        if i < path.len() {
            assert(t[i] == path[i]);
        } else if i > path.len() {
            assert(t[i] == query->0[i - path.len() - 1]);
        }
    }
    assert(!full.contains('\n')) by {
        if full.contains('\n') {
            let x = choose|x: int| 0 <= x < full.len() && full[x] == '\n';
            let m = method.len() as int;
            let n = t.len() as int;
            if x < m {
                assert(full[x] == method[x]);
            } else if m < x <= m + n {
                assert(full[x] == t[x - m - 1]);
            } else if m + n + 1 < x < full.len() - 1 {
                assert(full[x] == version[x - m - n - 2]);
                assert(version.contains(version[x - m - n - 2]));
            }
        }
    }
    assert(head =~= full + seq!['\n'] + rest);
    words::lines_end_at_line_feeds(full, rest);
    assert(full.drop_last() =~= line);
    let lines = text::lines_of(head);
    assert(lines == seq![line] + text::lines_of(rest));
    assert(lines[0] == line);
    let w = text::words_of(line);
    assert(w == seq![method] + (seq![t] + text::words_of(version))) by {
        assert(line =~= method + seq![' '] + (t + seq![' '] + version));
        words::words_lie_between_spaces(method, ' ', t + seq![' '] + version);
        words::words_lie_between_spaces(Seq::empty(), ' ', method);
        words::words_lie_between_spaces(t, ' ', version);
        words::words_lie_between_spaces(Seq::empty(), ' ', t);
    }
    assert(w[0] == method);
    assert(w[1] == t);
    match query {
        Some(q) => {
            words::a_character_is_found_where_it_first_stands(path, '?', q);
            assert(t.take(path.len() as int) =~= path);
            assert(t.skip(path.len() as int + 1) =~= q);
        },
        None => {
            words::a_character_is_found_where_it_first_stands(path, '?', Seq::empty());
            assert(t.take(path.len() as int) =~= path);
        },
    }
}

/// A request without a target asks for the front page; an empty one has no method.
pub proof fn what_a_request_leaves_out(method: Seq<char>)
    requires
        method.len() > 0,
        forall|i: int| 0 <= i < method.len() ==> !text::is_space(#[trigger] method[i]),
    ensures
        web::request_of(method).method == method,
        web::request_of(method).path == seq!['/'],
        web::request_of(method).query.len() == 0,
        web::request_of(Seq::empty()).method.len() == 0,
        web::request_of(Seq::empty()).path == seq!['/'],
        web::request_of(Seq::empty()).query.len() == 0,
        web::request_of(Seq::empty()).content_len == 0,
{
    assert(!method.contains('\n')) by {
        if method.contains('\n') {
            let x = choose|x: int| 0 <= x < method.len() && method[x] == '\n';
            assert(text::is_space(method[x]));
        }
    }
    words::lines_end_at_line_feeds(method, Seq::empty());
    words::words_lie_between_spaces(Seq::empty(), ' ', method);
    let t = seq!['/'];
    assert(!t.contains('?'));
    words::a_character_is_found_where_it_first_stands(t, '?', Seq::empty());
    assert(t.take(1) =~= t);
}

/// The length of a body is what the first line that gives one says: its name in
/// capitals or not, with white space round the number or not. A line that gives no
/// number says zero, and so does a head without such a line.
pub proof fn the_length_is_what_its_line_says(
    before: Seq<Seq<char>>,
    name: Seq<char>,
    left: Seq<char>,
    number: Seq<char>,
    right: Seq<char>,
    after: Seq<Seq<char>>,
)
    requires
        forall|i: int|
            0 <= i < before.len() ==> !text::has_prefix(
                text::lowered(#[trigger] before[i]),
                "content-length:"@,
            ),
        text::lowered(name) == "content-length:"@,
        forall|i: int| 0 <= i < left.len() ==> text::is_space(#[trigger] left[i]),
        forall|i: int| 0 <= i < right.len() ==> text::is_space(#[trigger] right[i]),
        number.len() > 0 ==> !text::is_space(number[0]) && !text::is_space(number.last()),
        forall|i: int| 0 <= i < number.len() ==> !('A' <= #[trigger] number[i] <= 'Z'),
    ensures
        ({
            let line = name + left + number + right;
            web::content_length(before + seq![line] + after) == match text::number_of(
                number,
                usize::MAX as u64,
            ) {
                Some(n) => n as usize,
                None => 0,
            }
        }),
        web::content_length(before) == 0,
    decreases before.len(),
{
    let line = name + left + number + right;
    let all = before + seq![line] + after;
    if before.len() > 0 {
        assert(!web::gives_length(before[0]));
        assert(all.drop_first() =~= before.drop_first() + seq![line] + after);
        assert(all[0] == before[0]);
        assert forall|i: int| 0 <= i < before.drop_first().len() implies !text::has_prefix(
            text::lowered(#[trigger] before.drop_first()[i]),
            "content-length:"@,
        ) by {
            assert(before.drop_first()[i] == before[i + 1]);
        }
        the_length_is_what_its_line_says(before.drop_first(), name, left, number, right, after);
    } else {
        assert(all[0] == line);
        let low = text::lowered(line);
        assert(low.take(name.len() as int) =~= text::lowered(name));
        assert(web::gives_length(line));
        let value = left + number + right;
        assert(low.skip(name.len() as int) =~= value) by {
            assert forall|i: int| 0 <= i < value.len() implies low.skip(name.len() as int)[i]
                == value[i] by {
                assert(line[name.len() + i] == value[i]);
                if i < left.len() {
                    assert(value[i] == left[i]);
                } else if i < left.len() + number.len() {
                    assert(value[i] == number[i - left.len()]);
                } else {
                    assert(value[i] == right[i - left.len() - number.len()]);
                }
            }
        }
        lemma_trimmed_between(left, number, right);
    }
}

proof fn lemma_trimmed_between(left: Seq<char>, middle: Seq<char>, right: Seq<char>)
    requires
        forall|i: int| 0 <= i < left.len() ==> text::is_space(#[trigger] left[i]),
        forall|i: int| 0 <= i < right.len() ==> text::is_space(#[trigger] right[i]),
        middle.len() > 0 ==> !text::is_space(middle[0]) && !text::is_space(middle.last()),
    ensures
        text::trimmed(left + middle + right) == middle,
{
    let s = left + middle + right;
    words::trimming_cuts_white_space(s);
    let (lo, hi) = choose|lo: int, hi: int|
        0 <= lo <= hi <= s.len() && text::trimmed(s) == #[trigger] s.subrange(lo, hi) && (forall|
            i: int,
        | 0 <= i < lo ==> text::is_space(#[trigger] s[i])) && (forall|i: int|
            hi <= i < s.len() ==> text::is_space(#[trigger] s[i])) && (lo < hi ==> !text::is_space(
            s[lo],
        ) && !text::is_space(s[hi - 1]));
    let a = left.len() as int;
    let b = a + middle.len();
    assert forall|i: int| 0 <= i < s.len() && !(a <= i < b) implies text::is_space(s[i]) by {
        if i < a {
            assert(s[i] == left[i]);
        } else {
            assert(s[i] == right[i - b]);
        }
    }
    if middle.len() > 0 {
        assert(s[a] == middle[0]);
        assert(s[b - 1] == middle.last());
        assert(lo == a && hi == b);
    } else {
        assert(lo == hi);
    }
    assert(s.subrange(lo, hi) =~= middle);
}

/// The head of a request ends at the first empty line, wherever the search for it
/// starts before that.
pub proof fn a_head_ends_at_the_first_empty_line(head: Seq<u8>, from: int)
    requires
        0 <= from,
    ensures
        web::head_end(head, from) matches Some(i) ==> from <= i && i + 4 <= head.len()
            && head.subrange(i, i + 4) == seq![0x0du8, 0x0a, 0x0d, 0x0a] && (forall|j: int|
            from <= j < i ==> #[trigger] head.subrange(j, j + 4) != seq![0x0du8, 0x0a, 0x0d, 0x0a]),
        web::head_end(head, from) is None ==> (forall|j: int|
            from <= j && j + 4 <= head.len() ==> #[trigger] head.subrange(j, j + 4) != seq![
                0x0du8,
                0x0a,
                0x0d,
                0x0a,
            ]),
    decreases head.len() - from,
{
    if from + 4 <= head.len() {
        let here = head.subrange(from, from + 4);
        let end = seq![0x0du8, 0x0a, 0x0d, 0x0a];
        assert(here[0] == head[from] && here[1] == head[from + 1] && here[2] == head[from + 2]
            && here[3] == head[from + 3]);
        assert(end[0] == 0x0d && end[1] == 0x0a && end[2] == 0x0d && end[3] == 0x0a);
        if web::ends_at(head, from) {
            assert(here =~= end);
        } else {
            assert(here != end);
            a_head_ends_at_the_first_empty_line(head, from + 1);
        }
    }
}

/// A request is read until its head has ended and the body is as long as the head
/// says: nothing that arrives is lost. A head of more than 64 KiB or one that
/// breaks off closes the connection, a body of more than 4 MiB and 8 bytes is
/// refused, and one that breaks off is taken as it is.
pub proof fn a_request_is_read_to_its_end(v: IntakeView, data: Seq<u8>)
    ensures
        ({
            let all = v.head + data;
            let (next, step) = web::taken(v, data);
            &&& v.request is None && data.len() == 0 ==> next == v && step == IntakeStep::Close
            &&& v.request is None && data.len() > 0 ==> next.head == all
            &&& v.request is None && data.len() > 0 && web::head_end(all, 0) is None
                ==> next.request is None && next.body.len() == 0 && step == if all.len() > 65536 {
                IntakeStep::Close
            } else {
                IntakeStep::More
            }
            &&& v.request is None && data.len() > 0 ==> (web::head_end(all, 0) matches Some(i) ==> {
                let r = web::request_of(text::lossy_text(all));
                &&& next.request == Some(r)
                &&& next.body == all.skip(i + 4)
                &&& step == if all.len() - i - 4 >= r.content_len {
                    IntakeStep::Ready
                } else {
                    IntakeStep::More
                }
            })
            &&& v.request is Some ==> next.head == v.head && next.request == v.request && next.body
                == v.body + data
            &&& v.request is Some && data.len() == 0 ==> step == IntakeStep::Ready
            &&& v.request is Some && data.len() > 0 ==> step == if v.body.len() + data.len()
                > 4 * 1024 * 1024 + 8 {
                IntakeStep::TooLarge
            } else if v.body.len() + data.len() >= v.request->0.content_len {
                IntakeStep::Ready
            } else {
                IntakeStep::More
            }
        }),
{
    a_head_ends_at_the_first_empty_line(v.head + data, 0);
    assert(v.body + Seq::<u8>::empty() =~= v.body);
    if data.len() == 0 {
        assert(data =~= Seq::empty());
    }
}

/// It does not matter how what arrives is cut: while the head has not ended, and
/// again once it has.
pub proof fn cuts_do_not_matter(v: IntakeView, a: Seq<u8>, b: Seq<u8>)
    requires
        a.len() > 0,
        b.len() > 0,
        v.request is Some || web::head_end(v.head + a, 0) is None,
    ensures
        web::taken(web::taken(v, a).0, b) == web::taken(v, a + b),
{
    assert(v.head + a + b =~= v.head + (a + b));
    assert(v.body + a + b =~= v.body + (a + b));
}

/// Where a request leads: reading the front page, downloading a file that is in the
/// index and alive, writing a file of at most 4 MiB, removing one. A path that is
/// not taken is refused, and so is everything else.
pub proof fn where_a_request_leads(
    files: Map<Seq<char>, RecView>,
    live: Seq<RecView>,
    root: Seq<char>,
    req: RequestView,
    body_len: nat,
)
    ensures
        ({
            let r = web::replied(files, live, root, req, body_len);
            let p = match web::param_of(req.query, "p"@) {
                Some(v) => web::url_decoded(encode_utf8(v)),
                None => Seq::empty(),
            };
            let name = match web::param_of(req.query, "name"@) {
                Some(v) => web::url_decoded(encode_utf8(v)),
                None => Seq::empty(),
            };
            let get = req.method == "GET"@;
            let post = req.method == "POST"@;
            let missing = ReplyView::Send(web::status_answer(404, "not found"@));
            let refused = ReplyView::Send(web::status_answer(400, "bad path"@));
            let large = ReplyView::Send(web::status_answer(413, "too large"@));
            &&& get && (req.path == "/"@ || req.path == "/index.html"@) ==> r == ReplyView::Send(
                web::html_answer(web::home_page(root, live)),
            )
            &&& get && req.path == "/dl"@ ==> (paths::sanitized(p) matches Some(path) ==> (
            files.dom().contains(path) && !files[path].deleted ==> r == (ReplyView::Download {
                path,
                name: web::base_name(p),
            })))
            &&& get && req.path == "/dl"@ && paths::sanitized(p) is None ==> r == missing
            &&& get && req.path == "/dl"@ ==> (paths::sanitized(p) matches Some(path) ==> (
            !files.dom().contains(path) || files[path].deleted ==> r == missing))
            &&& post && req.path == "/up"@ ==> (paths::sanitized(name) matches Some(path) ==> (
            body_len <= 4 * 1024 * 1024 ==> r == (ReplyView::Upload { path })))
            &&& post && req.path == "/up"@ && paths::sanitized(name) is Some && body_len > 4 * 1024
                * 1024 ==> r == large
            &&& post && req.path == "/up"@ && paths::sanitized(name) is None ==> r == refused
            &&& post && req.path == "/rm"@ ==> (paths::sanitized(p) matches Some(path) ==> r == (
            ReplyView::Remove { path }))
            &&& post && req.path == "/rm"@ && paths::sanitized(p) is None ==> r == refused
            &&& !get && !post ==> r == missing
            &&& get && req.path != "/"@ && req.path != "/index.html"@ && req.path != "/dl"@ ==> r
                == missing
            &&& post && req.path != "/up"@ && req.path != "/rm"@ ==> r == missing
        }),
{
    reveal_strlit("GET");
    reveal_strlit("POST");
    reveal_strlit("/");
    reveal_strlit("/index.html");
    reveal_strlit("/dl");
    reveal_strlit("/up");
    reveal_strlit("/rm");
    assert("GET"@.len() != "POST"@.len());
    assert("/"@.len() != "/index.html"@.len());
    assert("/dl"@.len() == 3 && "/up"@[1] == 'u' && "/rm"@[1] == 'r');
}

/// A name in the head of an answer has every character that cannot end it or the
/// line.
pub proof fn names_keep_their_characters(name: Seq<char>, i: int)
    requires
        0 <= i < name.len(),
    ensures
        web::header_name(name).len() == name.len(),
        name[i] != '"' && name[i] != '\r' && name[i] != '\n' ==> web::header_name(name)[i]
            == name[i],
        name[i] == '"' || name[i] == '\r' || name[i] == '\n' ==> web::header_name(name)[i] == '_',
{
}

/// An answer: a head that starts with the line of a status, holds a line that says
/// how many bytes follow it, ends with an empty line, and is followed by them.
pub open spec fn answers(answer: Seq<u8>, status: Seq<char>, body: Seq<u8>) -> bool {
    exists|head: Seq<char>| #[trigger]
        answers_with(answer, head, body) && text::has_prefix(head, status + "\r\n"@)
}

/// An answer with this head.
pub open spec fn answers_with(answer: Seq<u8>, head: Seq<char>, body: Seq<u8>) -> bool {
    &&& answer == encode_utf8(head) + body
    &&& shows(head, "\r\nContent-Length: "@ + text::decimal(body.len()) + "\r\n"@)
    &&& exists|front: Seq<char>| #[trigger] (front + "\r\n\r\n"@) == head
}

proof fn lemma_answers(
    start: Seq<char>,
    front: Seq<char>,
    body: Seq<u8>,
    status: Seq<char>,
    answer: Seq<u8>,
)
    requires
        start == status + "\r\n"@ + front,
        answer == encode_utf8(
            start + "\r\nContent-Length: "@ + text::decimal(body.len()) + web::HEAD_END@,
        ) + body,
    ensures
        answers(answer, status, body),
{
    reveal_strlit("\r\n");
    reveal_strlit("\r\n\r\n");
    reveal_strlit("\r\nConnection: close\r\n\r\n");
    let end = web::HEAD_END@;
    let length = "\r\nContent-Length: "@;
    let n = text::decimal(body.len());
    let head = start + length + n + end;
    assert(end =~= "\r\n"@ + end.skip(2));
    assert(start + (length + n + "\r\n"@) + end.skip(2) =~= head);
    let close = end.take(end.len() - 4);
    assert(end =~= close + "\r\n\r\n"@);
    assert((start + length + n + close) + "\r\n\r\n"@ =~= head);
    assert(head.take((status + "\r\n"@).len() as int) =~= status + "\r\n"@);
    assert(answers_with(answer, head, body));
}

/// The page is answered as it is, in UTF-8.
pub proof fn a_page_is_answered_whole(page: Seq<char>)
    ensures
        answers(web::html_answer(page), "HTTP/1.1 200 OK"@, encode_utf8(page)),
{
    reveal_strlit("\r\n");
    reveal_strlit("HTTP/1.1 200 OK");
    reveal_strlit("\r\nContent-Length: ");
    reveal_strlit(
        "HTTP/1.1 200 OK\r\nContent-Type: text/html; charset=utf-8\r\nContent-Length: ",
    );
    let h = web::HTML_HEAD@;
    let length = "\r\nContent-Length: "@;
    let start = h.take(h.len() - 18);
    assert(h =~= start + length);
    assert(start =~= "HTTP/1.1 200 OK"@ + "\r\n"@ + start.skip(17));
    let body = encode_utf8(page);
    let head = start + length + text::decimal(body.len()) + web::HEAD_END@;
    paths::lemma_encode_add(head, page);
    lemma_answers(start, start.skip(17), body, "HTTP/1.1 200 OK"@, web::html_answer(page));
}

/// A file is answered byte by byte, to be saved under its name.
pub proof fn a_file_is_answered_whole(name: Seq<char>, content: Seq<u8>)
    ensures
        answers(web::file_answer(name, content), "HTTP/1.1 200 OK"@, content),
        exists|head: Seq<char>|
            #![trigger answers_with(web::file_answer(name, content), head, content)]
            answers_with(web::file_answer(name, content), head, content) && shows(
                head,
                "attachment; filename=\""@ + web::header_name(name) + "\"\r\n"@,
            ),
{
    reveal_strlit("\r\n");
    reveal_strlit("\"\r\n");
    reveal_strlit("HTTP/1.1 200 OK");
    reveal_strlit("attachment; filename=\"");
    reveal_strlit("\r\nContent-Length: ");
    reveal_strlit("\"\r\nContent-Length: ");
    reveal_strlit("\r\nConnection: close\r\n\r\n");
    reveal_strlit("\r\n\r\n");
    reveal_strlit(
        "HTTP/1.1 200 OK\r\nContent-Type: application/octet-stream\r\nContent-Disposition: attachment; filename=\"",
    );
    let h = web::FILE_HEAD@;
    let given = web::header_name(name);
    let n = text::decimal(content.len());
    let length = "\r\nContent-Length: "@;
    let end = web::HEAD_END@;
    let h1 = h.take(h.len() - 22);
    assert(h =~= h1 + "attachment; filename=\""@);
    let h2 = h.skip(17);
    assert(h =~= "HTTP/1.1 200 OK"@ + "\r\n"@ + h2);
    let start = h + given + seq!['"'];
    assert(web::FILE_LENGTH@ =~= seq!['"'] + length);
    let head = start + length + n + end;
    assert(h + given + web::FILE_LENGTH@ + n + end =~= head);
    assert(start =~= "HTTP/1.1 200 OK"@ + "\r\n"@ + (h2 + given + seq!['"']));
    lemma_answers(
        start,
        h2 + given + seq!['"'],
        content,
        "HTTP/1.1 200 OK"@,
        web::file_answer(name, content),
    );
    assert(end =~= "\r\n"@ + end.skip(2));
    assert(start + (length + n + "\r\n"@) + end.skip(2) =~= head);
    let close = end.take(end.len() - 4);
    assert(end =~= close + "\r\n\r\n"@);
    assert((start + length + n + close) + "\r\n\r\n"@ =~= head);
    assert(answers_with(web::file_answer(name, content), head, content));
    assert(web::FILE_LENGTH@ =~= "\"\r\n"@ + web::FILE_LENGTH@.skip(3));
    assert(h1 + ("attachment; filename=\""@ + given + "\"\r\n"@) + (web::FILE_LENGTH@.skip(3) + n
        + end) =~= head);
}

/// A status is answered with its number, its words, and a text that explains it.
pub proof fn a_status_is_answered(code: u16, msg: Seq<char>)
    ensures
        answers(
            web::status_answer(code, msg),
            "HTTP/1.1 "@ + text::decimal(code as nat) + " "@ + web::reason(code),
            encode_utf8(msg),
        ),
        web::reason(204) == "No Content"@,
        web::reason(400) == "Bad Request"@,
        web::reason(404) == "Not Found"@,
        web::reason(413) == "Payload Too Large"@,
        code != 204 && code != 400 && code != 404 && code != 413 ==> web::reason(code) == "OK"@,
{
    reveal_strlit(" ");
    reveal_strlit("\r\n");
    reveal_strlit("\r\nContent-Length: ");
    reveal_strlit("\r\nContent-Type: text/plain; charset=utf-8\r\nContent-Length: ");
    let status = "HTTP/1.1 "@ + text::decimal(code as nat) + " "@ + web::reason(code);
    let l = web::STATUS_LENGTH@;
    let length = "\r\nContent-Length: "@;
    let l1 = l.take(l.len() - 18);
    assert(l =~= l1 + length);
    let l2 = l1.skip(2);
    assert(l1 =~= "\r\n"@ + l2);
    let start = status + "\r\n"@ + l2;
    let body = encode_utf8(msg);
    let head = start + length + text::decimal(body.len()) + web::HEAD_END@;
    assert(" "@ =~= seq![' ']);
    assert(web::STATUS_HEAD@ + text::decimal(code as nat) + seq![' '] + web::reason(code) + l
        + text::decimal(body.len()) + web::HEAD_END@ =~= head);
    paths::lemma_encode_add(head, msg);
    lemma_answers(start, l2, body, status, web::status_answer(code, msg));
}

/// A redirect names the place to go to and has no body.
pub proof fn a_redirect_names_its_place(loc: Seq<char>)
    ensures
        answers(web::redirect_answer(loc), "HTTP/1.1 302 Found"@, Seq::empty()),
        exists|head: Seq<char>|
            #![trigger encode_utf8(head)]
            web::redirect_answer(loc) == encode_utf8(head) && shows(
                head,
                "\r\nLocation: "@ + loc + "\r\n"@,
            ),
{
    reveal_strlit("\r\n");
    reveal_strlit("\r\nLocation: ");
    reveal_strlit("HTTP/1.1 302 Found");
    reveal_strlit("HTTP/1.1 302 Found\r\nLocation: ");
    reveal_strlit("\r\nContent-Length: ");
    reveal_strlit("\r\nContent-Length: 0");
    let h = web::REDIRECT_HEAD@;
    let l = web::REDIRECT_LENGTH@;
    let end = web::HEAD_END@;
    let none = Seq::<u8>::empty();
    let zero = text::decimal(0);
    assert(zero =~= seq!['0']);
    assert(l =~= "\r\nContent-Length: "@ + zero);
    let h2 = h.skip(20);
    assert(h =~= "HTTP/1.1 302 Found"@ + "\r\n"@ + h2);
    let start = h + loc;
    assert(start =~= "HTTP/1.1 302 Found"@ + "\r\n"@ + (h2 + loc));
    let head = start + "\r\nContent-Length: "@ + zero + end;
    assert(h + loc + l + end =~= head);
    assert(encode_utf8(head) + none =~= encode_utf8(head));
    lemma_answers(start, h2 + loc, none, "HTTP/1.1 302 Found"@, web::redirect_answer(loc));
    assert(h =~= "HTTP/1.1 302 Found"@ + "\r\nLocation: "@);
    assert(l =~= "\r\n"@ + l.skip(2));
    assert("HTTP/1.1 302 Found"@ + ("\r\nLocation: "@ + loc + "\r\n"@) + (l.skip(2) + end) =~= head);
}

} // verus!
