//! The portal: what a registration says, where it is sent, when it is tried again.

use vstd::prelude::*;
use vstd::utf8::*;

use crate::laws::pages;
use crate::laws::words;
use crate::portal;
use crate::portal::RegisterStep;
use crate::text;
use crate::text::Separator;
use crate::web;

verus! {

/// The fields of a registration.
pub open spec fn fields(slug: Seq<char>, port: u16, title: Seq<char>) -> Seq<(Seq<char>, Seq<char>)> {
    seq![
        ("slug"@, portal::field(slug)),
        ("port"@, text::decimal(port as nat)),
        ("title"@, portal::field(title)),
    ]
}

proof fn lemma_decimal_no_separator(n: nat)
    ensures
        !text::decimal(n).contains('&'),
{
    words::a_number_is_written_plainly(n);
    let d = text::decimal(n);
    if d.contains('&') {
        let x = choose|x: int| 0 <= x < d.len() && d[x] == '&';
        assert('0' <= d[x]);
    }
}

/// Who reads the form of a registration finds the slug, the port and the title that
/// were registered, under their names, and no others; the form that takes it back
/// holds the slug.
pub proof fn a_registration_reads_back(slug: Seq<char>, port: u16, title: Seq<char>, key: Seq<char>)
    requires
        !key.contains('='),
    ensures
        ({
            let form = portal::registration(slug, port, title);
            &&& web::param_of(form, "slug"@) == Some(portal::field(slug))
            &&& web::param_of(form, "port"@) == Some(text::decimal(port as nat))
            &&& web::param_of(form, "title"@) == Some(portal::field(title))
            &&& key != "slug"@ && key != "port"@ && key != "title"@ ==> web::param_of(form, key)
                is None
        }),
        web::param_of(portal::withdrawal(slug), "slug"@) == Some(portal::field(slug)),
        key != "slug"@ ==> web::param_of(portal::withdrawal(slug), key) is None,
        (forall|i: int| 0 <= i < slug.len() ==> '\0' <= #[trigger] slug[i] <= '\u{7f}')
            ==> web::url_decoded(encode_utf8(portal::field(slug))) == slug,
        (forall|i: int| 0 <= i < title.len() ==> '\0' <= #[trigger] title[i] <= '\u{7f}')
            ==> web::url_decoded(encode_utf8(portal::field(title))) == title,
        text::number_of(text::decimal(port as nat), 65535) == Some(port as u64),
{
    reveal_strlit("slug");
    reveal_strlit("port");
    reveal_strlit("title");
    reveal_strlit("slug=");
    reveal_strlit("&port=");
    reveal_strlit("&title=");
    text::decimal_reads_back(port as u64, 65535);
    web::form_round_trip(slug);
    web::form_round_trip(title);
    web::lemma_form_no_separator(encode_utf8(slug));
    web::lemma_form_no_separator(encode_utf8(title));
    lemma_decimal_no_separator(port as nat);
    let all = fields(slug, port, title);
    assert(all[0].0 == "slug"@ && all[1].0 == "port"@ && all[2].0 == "title"@);
    assert("slug"@[0] == 's' && "port"@[0] == 'p' && "title"@[0] == 't');
    let texts = pages::pair_texts(all);
    let form = portal::registration(slug, port, title);
    assert(text::joined(texts, '&') =~= form) by {
        let two = texts.drop_last();
        let one = two.drop_last();
        assert(text::joined(one, '&') == texts[0]);
        assert(text::joined(two, '&') == texts[0].push('&') + texts[1]);
        assert(text::joined(texts, '&') == text::joined(two, '&').push('&') + texts[2]);
        assert(portal::SLUG_FIELD@ =~= "slug"@ + seq!['=']);
        assert(portal::PORT_FIELD@ =~= seq!['&'] + "port"@ + seq!['=']);
        assert(portal::TITLE_FIELD@ =~= seq!['&'] + "title"@ + seq!['=']);
    }
    pages::the_first_parameter_counts(all, "slug"@);
    pages::the_first_parameter_counts(all, "port"@);
    pages::the_first_parameter_counts(all, "title"@);
    pages::the_first_parameter_counts(all, key);
    let single = seq![all[0]];
    let text = pages::pair_texts(single);
    assert(text::joined(text, '&') =~= portal::withdrawal(slug)) by {
        assert(portal::SLUG_FIELD@ =~= "slug"@ + seq!['=']);
        assert(text[0] == pages::pair_text(all[0]));
    }
    assert(single[0] == all[0]);
    pages::the_first_parameter_counts(single, "slug"@);
    pages::the_first_parameter_counts(single, key);
}

/// Slashes at the end of an address do not count.
pub proof fn slashes_at_the_end_are_cut(base: Seq<char>)
    ensures
        portal::without_slashes(base.push('/')) == portal::without_slashes(base),
        base.len() == 0 || base.last() != '/' ==> portal::without_slashes(base) == base,
{
    assert(base.push('/').drop_last() =~= base);
}

/// The host and the port stand between the scheme and the next slash. Without a
/// colon the port is that of HTTP, else what follows the last colon.
pub proof fn an_address_names_host_and_port(host: Seq<char>, port: Seq<char>, rest: Seq<char>)
    requires
        !host.contains('/'),
        !port.contains('/'),
        !port.contains(':'),
        rest.len() > 0 ==> rest[0] == '/',
    ensures
        portal::host_of("http://"@ + host + seq![':'] + port + rest) == host,
        portal::port_of("http://"@ + host + seq![':'] + port + rest) == text::number_of(port, 65535),
        !host.contains(':') ==> portal::host_of("http://"@ + host + rest) == host
            && portal::port_of("http://"@ + host + rest) == Some(80u64),
{
    let both = host + seq![':'] + port;
    assert(!both.contains('/')) by {
        if both.contains('/') {
            let x = choose|x: int| 0 <= x < both.len() && both[x] == '/';
            if x < host.len() {
                assert(host.contains(host[x]));
            } else if x > host.len() {
                assert(port.contains(port[x - host.len() - 1]));
            }
        }
    }
    lemma_host_part(both, rest);
    lemma_host_part(host, rest);
    let full = "http://"@ + host + seq![':'] + port + rest;
    assert(full =~= "http://"@ + both + rest);
    let sep = Separator::Char(':');
    assert forall|i: int| 0 <= i < port.len() implies !text::separates(sep, #[trigger] port[i]) by {
        assert(port.contains(port[i]));
    }
    words::pieces_lie_between_separators(host, ':', port, sep);
    text::lemma_pieces_nonempty(host, sep);
    let p = portal::colon_pieces(full);
    assert(p == text::pieces(host, sep) + seq![port]);
    assert(p.drop_last() =~= text::pieces(host, sep));
    words::joining_undoes_cutting(host, ':', p, port);
    if !host.contains(':') {
        assert forall|i: int| 0 <= i < host.len() implies !text::separates(
            sep,
            #[trigger] host[i],
        ) by {
            assert(host.contains(host[i]));
        }
        words::pieces_lie_between_separators(host, ':', host, sep);
    }
}

proof fn lemma_host_part(part: Seq<char>, rest: Seq<char>)
    requires
        !part.contains('/'),
        rest.len() > 0 ==> rest[0] == '/',
    ensures
        portal::host_part("http://"@ + part + rest) == part,
{
    let base = "http://"@ + part + rest;
    let behind = part + rest;
    assert(base.skip("http://"@.len() as int) =~= behind);
    if rest.len() > 0 {
        words::a_character_is_found_where_it_first_stands(part, '/', rest.skip(1));
        assert(behind =~= part + seq!['/'] + rest.skip(1));
    } else {
        words::a_character_is_found_where_it_first_stands(part, '/', rest);
        assert(behind =~= part);
    }
    assert(behind.take(part.len() as int) =~= part);
}

/// A form is posted to its path, under the host and port it is sent to, and the
/// head says how many bytes follow it.
#[verifier::rlimit(40)]
pub proof fn a_form_is_posted_whole(host: Seq<char>, port: u16, path: Seq<char>, body: Seq<char>)
    requires
        path.len() > 0,
        !path.contains('?'),
        forall|i: int| 0 <= i < path.len() ==> !text::is_space(#[trigger] path[i]),
        !host.contains('\n'),
        encode_utf8(body).len() <= usize::MAX,
    ensures
        ({
            let sent = portal::post_request(host, port, path, body);
            let r = web::request_of(sent);
            &&& r.method == "POST"@
            &&& r.path == path
            &&& r.query.len() == 0
            &&& r.content_len == encode_utf8(body).len()
            &&& text::lines_of(sent)[1] == "Host: "@ + host + ":"@ + text::decimal(port as nat)
            &&& exists|head: Seq<char>| #[trigger] (head + "\r\n\r\n"@ + body) == sent
        }),
{
    reveal_strlit("POST");
    reveal_strlit("POST ");
    reveal_strlit("Host: ");
    reveal_strlit(":");
    reveal_strlit("HTTP/1.1");
    reveal_strlit(" HTTP/1.1\r\nHost: ");
    reveal_strlit("Content-Type: application/x-www-form-urlencoded");
    reveal_strlit("Content-Length:");
    reveal_strlit("content-length:");
    reveal_strlit("\r\n\r\n");
    reveal_strlit("\r\nConnection: close\r\n\r\n");
    reveal_strlit("\r\nContent-Type: application/x-www-form-urlencoded\r\nContent-Length: ");
    let sent = portal::post_request(host, port, path, body);
    let crlf = seq!['\r', '\n'];
    let n = encode_utf8(body).len();
    let dec = text::decimal(n);
    let pdec = text::decimal(port as nat);
    let end = web::HEAD_END@;
    let end2 = end.skip(2);
    let h = "Host: "@ + host + ":"@ + pdec;
    let t = "Content-Type: application/x-www-form-urlencoded"@;
    let l = "Content-Length:"@ + seq![' '] + dec;
    let first = "POST"@ + seq![' '] + path + seq![' '] + "HTTP/1.1"@;
    let r3 = end2 + body;
    let r2 = l + crlf + r3;
    let r1 = t + crlf + r2;
    let rest = h + crlf + r1;
    assert(end =~= crlf + end2);
    assert(portal::POST_METHOD@ =~= "POST"@ + seq![' ']);
    assert(portal::POST_HOST@ =~= seq![' '] + "HTTP/1.1"@ + crlf + "Host: "@);
    assert(portal::POST_LENGTH@ =~= crlf + t + crlf + "Content-Length:"@ + seq![' ']);
    assert(":"@ =~= seq![':']);
    assert(sent =~= first + crlf + rest);
    words::a_number_is_written_plainly(port as nat);
    words::a_number_is_written_plainly(n);
    assert(!h.contains('\n')) by {
        if h.contains('\n') {
            let x = choose|x: int| 0 <= x < h.len() && h[x] == '\n';
            if 6 <= x < 6 + host.len() {
                assert(h[x] == host[x - 6]);
                assert(host.contains(host[x - 6]));
            } else if x > 6 + host.len() {
                assert(h[x] == pdec[x - 7 - host.len()]);
            }
        }
    }
    assert(!l.contains('\n')) by {
        if l.contains('\n') {
            let x = choose|x: int| 0 <= x < l.len() && l[x] == '\n';
            if x > 15 {
                assert(l[x] == dec[x - 16]);
            }
        }
    }
    assert(!"HTTP/1.1"@.contains('\n'));
    pages::a_request_line_is_read("POST"@, path, None, "HTTP/1.1"@, rest);
    assert(pages::target(path, None) == path);
    lemma_line(h, r1);
    lemma_line(t, r2);
    lemma_line(l, r3);
    lemma_line(first, rest);
    let front = seq![first, h, t];
    let after = text::lines_of(r3);
    let lines = text::lines_of(sent);
    assert(lines =~= front + seq![l] + after);
    assert(lines[1] == h);
    assert forall|i: int| 0 <= i < front.len() implies !text::has_prefix(
        text::lowered(#[trigger] front[i]),
        "content-length:"@,
    ) by {
        let low = text::lowered(front[i]);
        if text::has_prefix(low, "content-length:"@) {
            assert(low.take(15)[0] == "content-length:"@[0]);
            assert(low.take(15)[8] == "content-length:"@[8]);
            assert(low[0] == 'c');
            assert(low[8] == 'l');
            assert(front[0][0] == 'P');
            assert(front[1][0] == 'H');
            assert(front[2][8] == 'T');
        }
    }
    assert(text::lowered("Content-Length:"@) =~= "content-length:"@);
    text::decimal_reads_back(n as u64, usize::MAX as u64);
    pages::the_length_is_what_its_line_says(
        front,
        "Content-Length:"@,
        seq![' '],
        dec,
        Seq::empty(),
        after,
    );
    assert("Content-Length:"@ + seq![' '] + dec + Seq::<char>::empty() =~= l);
    let close = end.take(end.len() - 4);
    assert(end =~= close + "\r\n\r\n"@);
    let head = first + crlf + h + crlf + t + crlf + l + close;
    assert(head + "\r\n\r\n"@ + body =~= sent);
}

proof fn lemma_line(line: Seq<char>, rest: Seq<char>)
    requires
        !line.contains('\n'),
    ensures
        text::lines_of(line + seq!['\r', '\n'] + rest) == seq![line] + text::lines_of(rest),
{
    let full = line.push('\r');
    assert(!full.contains('\n')) by {
        if full.contains('\n') {
            let x = choose|x: int| 0 <= x < full.len() && full[x] == '\n';
            assert(line.contains(line[x]));
        }
    }
    words::lines_end_at_line_feeds(full, rest);
    assert(full.drop_last() =~= line);
    assert(full + seq!['\n'] + rest =~= line + seq!['\r', '\n'] + rest);
}

/// An answer with the status 200 says that all went well, and no other does.
pub proof fn the_status_decides(rest: Seq<char>, resp: Seq<char>)
    ensures
        portal::is_ok("HTTP/1.1 200"@ + rest),
        portal::is_ok("HTTP/1.0 200"@ + rest),
        portal::is_ok(resp) ==> (resp == "HTTP/1.1 200"@ + resp.skip(12) || resp == "HTTP/1.0 200"@
            + resp.skip(12)),
{
    reveal_strlit("HTTP/1.1 200");
    reveal_strlit("HTTP/1.0 200");
    words::a_prefix_is_completed("HTTP/1.1 200"@, rest, resp);
    words::a_prefix_is_completed("HTTP/1.0 200"@, rest, resp);
}

/// A registration that never succeeds is tried eight times, 400 milliseconds apart;
/// one that succeeds is not tried again.
pub proof fn a_registration_is_tried_eight_times(attempt: u32)
    ensures
        portal::step_after(attempt, true) == RegisterStep::Done,
        1 <= attempt < 8 ==> portal::step_after(attempt, false) == RegisterStep::Wait(400),
        attempt >= 8 ==> portal::step_after(attempt, false) == RegisterStep::GiveUp,
{
}

} // verus!
