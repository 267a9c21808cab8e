//! Loopback HTTP UI: browse, download, upload, delete.

use vstd::prelude::*;
use vstd::slice::slice_subrange;
use vstd::utf8::*;

use crate::codec;
use crate::paths;
use crate::store;
use crate::store::{FileError, FileRec, RecView, Store};
use crate::text;
use crate::text::Separator;

verus! {

/// Bytes of a request after which a head without an end is given up.
pub const MAX_HEAD: usize = 65_536;

/// Bytes of an upload through the portal.
pub const MAX_UPLOAD: usize = 4_194_304;

/// Bytes of a body after which reading stops.
pub const MAX_BODY: usize = 4_194_312;

/// What a request asks for.
#[derive(Debug, PartialEq, Eq)]
pub struct Request {
    pub method: String,
    pub path: String,
    pub query: String,
    pub content_len: usize,
}

/// What a request says.
#[verifier::ext_equal]
pub struct RequestView {
    pub method: Seq<char>,
    pub path: Seq<char>,
    pub query: Seq<char>,
    pub content_len: usize,
}

impl View for Request {
    type V = RequestView;

    open spec fn view(&self) -> RequestView {
        RequestView {
            method: self.method@,
            path: self.path@,
            query: self.query@,
            content_len: self.content_len,
        }
    }
}

/// The name of the header that gives the length of the body.
pub const CONTENT_LENGTH: &'static str = "content-length:";

/// Whether a line gives the length of the body.
pub open spec fn gives_length(line: Seq<char>) -> bool {
    text::has_prefix(text::lowered(line), CONTENT_LENGTH@)
}

/// The length that such a line gives; one that cannot be read counts as nothing.
pub open spec fn length_in(line: Seq<char>) -> usize {
    match text::number_of(
        text::trimmed(text::lowered(line).skip(CONTENT_LENGTH@.len() as int)),
        usize::MAX as u64,
    ) {
        Some(n) => n as usize,
        None => 0,
    }
}

/// The length of the body: what the first line says that gives one.
pub open spec fn content_length(lines: Seq<Seq<char>>) -> usize
    decreases lines.len(),
{
    if lines.len() == 0 {
        0
    } else if gives_length(lines[0]) {
        length_in(lines[0])
    } else {
        content_length(lines.drop_first())
    }
}

/// What the text of a request says: method and target from its first line, the
/// target cut at the first question mark, and the length of the body.
pub open spec fn request_of(head: Seq<char>) -> RequestView {
    let lines = text::lines_of(head);
    let words = if lines.len() > 0 {
        text::words_of(lines[0])
    } else {
        Seq::empty()
    };
    let target = if words.len() > 1 {
        words[1]
    } else {
        seq!['/']
    };
    let mark = text::first_at(target, '?');
    RequestView {
        method: if words.len() > 0 {
            words[0]
        } else {
            Seq::empty()
        },
        path: target.take(mark),
        query: if mark < target.len() {
            target.skip(mark + 1)
        } else {
            Seq::empty()
        },
        content_len: content_length(lines),
    }
}

/// The length that a line gives, if it gives one.
fn line_length(line: &[char]) -> (r: Option<usize>)
    ensures
        match r {
            Some(n) => gives_length(line@) && n == length_in(line@),
            None => !gives_length(line@),
        },
{
    let name = text::chars_of(CONTENT_LENGTH);
    if !text::starts_with(line, name.as_slice(), true) {
        return None;
    }
    let mut low: Vec<char> = Vec::new();
    let mut i: usize = name.len();
    let ghost rest = text::lowered(line@).skip(name@.len() as int);
    while i < line.len()
        invariant
            name@.len() <= i <= line@.len(),
            rest == text::lowered(line@).skip(name@.len() as int),
            low@.len() == i - name@.len(),
            forall|j: int| 0 <= j < low@.len() ==> low@[j] == rest[j],
        decreases line@.len() - i,
    {
        low.push(text::to_lower(line[i]));
        i += 1;
    }
    assert(low@ =~= rest);
    let value = text::trim(low.as_slice());
    match text::parse_number(value.as_slice(), usize::MAX as u64) {
        Some(n) => Some(n as usize),
        None => Some(0),
    }
}

/// Reads the text of a request.
pub fn parse_request(head: &str) -> (r: Request)
    ensures
        r@ == request_of(head@),
{
    let chars = text::chars_of(head);
    let lines = text::lines(chars.as_slice());
    let ghost all = text::contents(lines@);
    let words: Vec<Vec<char>> = if lines.len() > 0 {
        assert(all[0] == lines@[0]@);
        text::words(lines[0].as_slice())
    } else {
        Vec::new()
    };
    let ghost wv = text::contents(words@);
    assert(wv.len() == words@.len());
    let method = if words.len() > 0 {
        assert(wv[0] == words@[0]@);
        text::string_of(words[0].as_slice())
    } else {
        String::new()
    };
    let target: Vec<char> = if words.len() > 1 {
        assert(wv[1] == words@[1]@);
        let t = text::cut(words[1].as_slice(), 0, words[1].len());
        assert(t@ =~= words@[1]@);
        t
    } else {
        let mut t: Vec<char> = Vec::new();
        t.push('/');
        assert(t@ =~= seq!['/']);
        t
    };
    let mark: usize = text::find_char(target.as_slice(), '?');
    let path = text::cut(target.as_slice(), 0, mark);
    assert(path@ =~= target@.take(mark as int));
    let query: Vec<char> = if mark < target.len() {
        let q = text::cut(target.as_slice(), mark + 1, target.len());
        assert(q@ =~= target@.skip(mark + 1));
        q
    } else {
        Vec::new()
    };
    let mut content_len: usize = 0;
    let mut i: usize = 0;
    let mut open = true;
    assert(all.skip(0) =~= all);
    while open && i < lines.len()
        invariant
            i <= lines@.len(),
            all == text::contents(lines@),
            open ==> content_length(all.skip(i as int)) == content_length(all) && content_len == 0,
            !open ==> content_len == content_length(all),
        decreases
            lines@.len() - i,
            if open {
                1int
            } else {
                0int
            },
    {
        proof {
            assert(all.skip(i as int)[0] == lines@[i as int]@);
            assert(all.skip(i as int).drop_first() =~= all.skip(i + 1));
        }
        match line_length(lines[i].as_slice()) {
            Some(n) => {
                content_len = n;
                open = false;
            },
            None => {
                i += 1;
            },
        }
    }
    Request {
        method,
        path: text::string_of(path.as_slice()),
        query: text::string_of(query.as_slice()),
        content_len,
    }
}

/// Whether the empty line that ends a head begins here.
pub open spec fn ends_at(head: Seq<u8>, i: int) -> bool {
    &&& 0 <= i
    &&& i + 4 <= head.len()
    &&& head[i] == 0x0d
    &&& head[i + 1] == 0x0a
    &&& head[i + 2] == 0x0d
    &&& head[i + 3] == 0x0a
}

/// Where the first empty line begins, looking from `i` on.
pub open spec fn head_end(head: Seq<u8>, i: int) -> Option<int>
    decreases head.len() - i,
{
    if i + 4 > head.len() {
        None
    } else if ends_at(head, i) {
        Some(i)
    } else {
        head_end(head, i + 1)
    }
}

/// Where the first empty line begins.
fn find_end(head: &[u8]) -> (r: Option<usize>)
    ensures
        match r {
            Some(i) => head_end(head@, 0) == Some(i as int) && i + 4 <= head@.len(),
            None => head_end(head@, 0) is None,
        },
{
    let mut i: usize = 0;
    while i < head.len() && head.len() - i >= 4
        invariant
            i <= head@.len(),
            head_end(head@, i as int) == head_end(head@, 0),
        decreases head@.len() - i,
    {
        if head[i] == 0x0d && head[i + 1] == 0x0a && head[i + 2] == 0x0d && head[i + 3] == 0x0a {
            return Some(i);
        }
        i += 1;
    }
    None
}

/// A request that is coming in.
pub struct Intake {
    head: Vec<u8>,
    request: Option<Request>,
    body: Vec<u8>,
}

/// How far a request has come in.
#[verifier::ext_equal]
pub struct IntakeView {
    pub head: Seq<u8>,
    pub request: Option<RequestView>,
    pub body: Seq<u8>,
}

impl View for Intake {
    type V = IntakeView;

    closed spec fn view(&self) -> IntakeView {
        IntakeView {
            head: self.head@,
            request: match self.request {
                Some(r) => Some(r@),
                None => None,
            },
            body: self.body@,
        }
    }
}

/// What to do after a read.
#[derive(Clone, Copy, Debug, PartialEq, Eq, Structural)]
pub enum IntakeStep {
    /// Read on.
    More,
    /// Close the connection without an answer.
    Close,
    /// Answer that the body is too large.
    TooLarge,
    /// The request is there.
    Ready,
}

/// What to do when a body has this many bytes.
pub open spec fn body_step(len: nat, content_len: usize) -> IntakeStep {
    if len < content_len {
        IntakeStep::More
    } else {
        IntakeStep::Ready
    }
}

/// What comes of the head so far, given its text: the request, once the head is
/// whole.
pub open spec fn head_taken(head: Seq<u8>, head_text: Seq<char>) -> (IntakeView, IntakeStep) {
    match head_end(head, 0) {
        Some(i) => {
            let request = request_of(head_text);
            let body = head.skip(i + 4);
            (
                IntakeView { head, request: Some(request), body },
                body_step(body.len(), request.content_len),
            )
        },
        None => (
            IntakeView { head, request: None, body: Seq::empty() },
            if head.len() > MAX_HEAD {
                IntakeStep::Close
            } else {
                IntakeStep::More
            },
        ),
    }
}

/// What comes of a further read; no bytes mean the end of the stream.
pub open spec fn taken(v: IntakeView, data: Seq<u8>) -> (IntakeView, IntakeStep) {
    match v.request {
        None => if data.len() == 0 {
            (v, IntakeStep::Close)
        } else {
            head_taken(v.head + data, text::lossy_text(v.head + data))
        },
        Some(r) => if data.len() == 0 {
            (v, IntakeStep::Ready)
        } else {
            (
                IntakeView { body: v.body + data, ..v },
                if v.body.len() + data.len() > MAX_BODY {
                    IntakeStep::TooLarge
                } else {
                    body_step(v.body.len() + data.len(), r.content_len)
                },
            )
        },
    }
}

impl Intake {
    /// A request of which nothing has come in.
    pub fn new() -> (i: Self)
        ensures
            i@ == (IntakeView { head: Seq::empty(), request: None, body: Seq::empty() }),
    {
        Intake { head: Vec::new(), request: None, body: Vec::new() }
    }

    /// Looks at the head so far, given its text: reads the request once the head
    /// is whole.
    pub fn take_head(&mut self, head_text: &str) -> (step: IntakeStep)
        requires
            old(self)@.request is None,
            old(self)@.body == Seq::<u8>::empty(),
        ensures
            final(self)@ == head_taken(old(self)@.head, head_text@).0,
            step == head_taken(old(self)@.head, head_text@).1,
    {
        let len: usize = self.head.len();
        match find_end(self.head.as_slice()) {
            Some(i) => {
                let request = parse_request(head_text);
                let content_len: usize = request.content_len;
                self.body = codec::tail_vec(self.head.as_slice(), i + 4);
                self.request = Some(request);
                if self.body.len() < content_len {
                    IntakeStep::More
                } else {
                    IntakeStep::Ready
                }
            },
            None => if len > MAX_HEAD {
                IntakeStep::Close
            } else {
                IntakeStep::More
            },
        }
    }

    /// Takes in what a read brought; no bytes mean the end of the stream.
    pub fn feed(&mut self, data: &[u8]) -> (step: IntakeStep)
        requires
            old(self)@.request is None ==> old(self)@.body == Seq::<u8>::empty(),
        ensures
            final(self)@ == taken(old(self)@, data@).0,
            step == taken(old(self)@, data@).1,
            final(self)@.request is None ==> final(self)@.body == Seq::<u8>::empty(),
    {
        let content_len: usize = match &self.request {
            Some(r) => r.content_len,
            None => {
                if data.len() == 0 {
                    return IntakeStep::Close;
                }
                codec::push_bytes(&mut self.head, data);
                let head_text = text::lossy(self.head.as_slice());
                return self.take_head(head_text.as_str());
            },
        };
        if data.len() == 0 {
            return IntakeStep::Ready;
        }
        codec::push_bytes(&mut self.body, data);
        if self.body.len() > MAX_BODY {
            return IntakeStep::TooLarge;
        }
        if self.body.len() < content_len {
            IntakeStep::More
        } else {
            IntakeStep::Ready
        }
    }

    /// The request and its body, cut to the length that the head gives; none
    /// before the head is whole.
    pub fn finish(self) -> (r: Option<(Request, Vec<u8>)>)
        ensures
            match (r, self@.request) {
                (Some((req, body)), Some(v)) => req@ == v && body@ == if self@.body.len()
                    > v.content_len {
                    self@.body.take(v.content_len as int)
                } else {
                    self@.body
                },
                (None, None) => true,
                _ => false,
            },
    {
        let Intake { head: _, request, body } = self;
        match request {
            Some(req) => {
                let mut body = body;
                let ghost all = body@;
                if body.len() > req.content_len {
                    body.truncate(req.content_len);
                    assert(body@ =~= all.take(req.content_len as int));
                }
                Some((req, body))
            },
            None => None,
        }
    }
}

/// The row of a table without files.
pub const ROW_EMPTY: &'static str = "<tr><td colspan='4' class='empty'>No files yet. Upload one, or drop files into the folder.</td></tr>";

pub const ROW_LINK: &'static str = "<tr><td><a href=\"dl?p=";

pub const ROW_NAME: &'static str = "\">";

pub const ROW_SIZE: &'static str = "</a></td><td class='num'>";

pub const ROW_TIME: &'static str = "</td><td class='muted'>";

pub const ROW_DELETE: &'static str = "</td><td><form method='post' action='rm?p=";

pub const ROW_END: &'static str = "' style='display:inline'>\
    <button type='submit' class='danger'>Delete</button></form></td></tr>";

/// The page up to the name of the folder.
pub const PAGE_TOP: &'static str = "<!DOCTYPE html>\n\
    <html><head><meta charset=\"utf-8\"><title>Filesync</title>\n\
    <style>\
    body{font-family:sans-serif;margin:0;background:#f5f5f5;color:#222}\
    main{max-width:52rem;margin:0 auto;padding:1.5rem}\
    h1{color:#1a1a2e;margin:0 0 .4rem}\
    .sub{color:#666;font-size:.9rem;margin:0 0 1.2rem}\
    .card{background:#fff;border-radius:8px;padding:1rem 1.2rem;\
    box-shadow:0 1px 3px rgba(0,0,0,.08);margin-bottom:1rem}\
    table{width:100%;border-collapse:collapse}\
    th{text-align:left;font-size:.8rem;color:#666;padding:.4rem 0;border-bottom:1px solid #eee}\
    td{padding:.45rem 0;border-bottom:1px solid #f0f0f0;font-size:.92rem}\
    .num{font-variant-numeric:tabular-nums}\
    .muted{color:#888;font-size:.85rem}\
    .empty{color:#888;font-style:italic}\
    a{color:#1a1a2e}\
    button,.btn{background:#1a1a2e;color:#fff;border:none;border-radius:5px;\
    padding:.4rem .8rem;cursor:pointer;font-size:.85rem}\
    .danger{background:#c0392b}\
    input[type=file]{margin-right:.6rem}\
    code{background:#eee;padding:.1rem .3rem;border-radius:3px;font-size:.85rem}\
    </style></head><body><main>\n\
    <h1>Filesync</h1>\
    <p class=\"sub\">Folder replica on this device. Other pNet devices running \
    filesync converge to the same tree. Web is a viewport — the browser is not \
    a fabric peer.</p>\
    <div class=\"card\">\
    <p style=\"margin:.2rem 0 .8rem\">Folder: <code>";

/// Between the name of the folder and the number of files.
pub const PAGE_FOLDER: &'static str = "</code> · ";

/// Between the number of files and the rows of the table.
pub const PAGE_TABLE: &'static str = " file(s)</p>\
    <input id=\"f\" type=\"file\">\
    <button type=\"button\" onclick=\"up()\">Upload</button>\
    <span id=\"st\" class=\"muted\"></span>\
    </div>\
    <div class=\"card\">\
    <table><thead><tr><th>Path</th><th>Bytes</th><th>mtime</th><th></th></tr></thead>\
    <tbody>";

/// What follows the rows of the table.
pub const PAGE_END: &'static str = "</tbody></table>\
    </div>\
    <p class=\"sub\"><a href=\"/\">← Portal Home</a> (when opened via the portal)</p>\
    <script>\
    async function up(){\
    const i=document.getElementById('f');\
    const s=document.getElementById('st');\
    if(!i.files.length){s.textContent='choose a file';return;}\
    const file=i.files[0];\
    s.textContent='uploading…';\
    const r=await fetch('up?name='+encodeURIComponent(file.name),{method:'POST',body:file});\
    s.textContent=r.ok?'done':'failed '+r.status;\
    if(r.ok) location.reload();\
    }\
    </script>\
    </main></body></html>";

/// A character as it stands in a page.
pub open spec fn escaped_char(c: char) -> Seq<char> {
    if c == '&' {
        "&amp;"@
    } else if c == '<' {
        "&lt;"@
    } else if c == '>' {
        "&gt;"@
    } else if c == '"' {
        "&quot;"@
    } else {
        seq![c]
    }
}

/// A text as it stands in a page.
pub open spec fn escaped(s: Seq<char>) -> Seq<char>
    decreases s.len(),
{
    if s.len() == 0 {
        Seq::empty()
    } else {
        escaped(s.drop_last()) + escaped_char(s.last())
    }
}

/// A text as it stands in a page.
pub fn html_escape(s: &str) -> (out: String)
    ensures
        out@ == escaped(s@),
{
    let chars = text::chars_of(s);
    let mut out = String::new();
    let mut i: usize = 0;
    assert(out@ =~= escaped(s@.take(0)));
    while i < chars.len()
        invariant
            i <= chars@.len(),
            chars@ == s@,
            out@ == escaped(s@.take(i as int)),
        decreases chars@.len() - i,
    {
        let c = chars[i];
        assert(s@.take(i + 1).drop_last() =~= s@.take(i as int));
        if c == '&' {
            text::push_text(&mut out, "&amp;");
        } else if c == '<' {
            text::push_text(&mut out, "&lt;");
        } else if c == '>' {
            text::push_text(&mut out, "&gt;");
        } else if c == '"' {
            text::push_text(&mut out, "&quot;");
        } else {
            let ghost before = out@;
            out.push(c);
            assert(out@ =~= before + seq![c]);
        }
        i += 1;
    }
    assert(s@.take(s@.len() as int) =~= s@);
    out
}

/// Whether a byte stands for itself in a form.
pub open spec fn plain_in_form(b: u8) -> bool {
    ||| 0x41 <= b <= 0x5a
    ||| 0x61 <= b <= 0x7a
    ||| 0x30 <= b <= 0x39
    ||| b == 0x2d
    ||| b == 0x5f
    ||| b == 0x2e
    ||| b == 0x7e
}

/// A byte as it stands in a form: itself, a plus sign for a space, or a percent
/// sign and two digits.
pub open spec fn form_byte(b: u8) -> Seq<char> {
    if plain_in_form(b) {
        seq![b as char]
    } else if b == 0x20 {
        seq!['+']
    } else {
        seq!['%', codec::hex_upper(b as nat / 16), codec::hex_upper(b as nat % 16)]
    }
}

/// Bytes as they stand in a form.
pub open spec fn form_encoded(bytes: Seq<u8>) -> Seq<char>
    decreases bytes.len(),
{
    if bytes.len() == 0 {
        Seq::empty()
    } else {
        form_encoded(bytes.drop_last()) + form_byte(bytes.last())
    }
}

/// A text as it stands in a form.
pub fn form_enc(s: &str) -> (out: String)
    ensures
        out@ == form_encoded(encode_utf8(s@)),
{
    let bytes = s.as_bytes();
    let mut out = String::new();
    let mut i: usize = 0;
    assert(out@ =~= form_encoded(bytes@.take(0)));
    while i < bytes.len()
        invariant
            i <= bytes@.len(),
            out@ == form_encoded(bytes@.take(i as int)),
        decreases bytes@.len() - i,
    {
        let b = bytes[i];
        let ghost before = out@;
        assert(bytes@.take(i + 1).drop_last() =~= bytes@.take(i as int));
        if (0x41 <= b && b <= 0x5a) || (0x61 <= b && b <= 0x7a) || (0x30 <= b && b <= 0x39) || b
            == 0x2d || b == 0x5f || b == 0x2e || b == 0x7e {
            out.push(b as char);
        } else if b == 0x20 {
            out.push('+');
        } else {
            out.push('%');
            out.push(codec::hex_digit_upper(b / 16));
            out.push(codec::hex_digit_upper(b % 16));
        }
        assert(out@ =~= before + form_byte(b));
        i += 1;
    }
    assert(bytes@.take(bytes@.len() as int) =~= bytes@);
    out
}

/// Whether an escaped byte stands at the front.
pub open spec fn escape_at(b: Seq<u8>) -> bool {
    b.len() > 2 && b[0] == 0x25 && codec::hex_digit_value(b[1]) is Some && codec::hex_digit_value(
        b[2],
    ) is Some
}

/// What encoded bytes stand for, one character for each byte: a plus sign for a
/// space, a percent sign with two digits for the byte that they name.
pub open spec fn url_decoded(b: Seq<u8>) -> Seq<char>
    decreases b.len(),
{
    if b.len() == 0 {
        Seq::empty()
    } else if b[0] == 0x2b {
        seq![' '] + url_decoded(b.skip(1))
    } else if escape_at(b) {
        seq![
            (codec::hex_digit_value(b[1])->0 * 16 + codec::hex_digit_value(b[2])->0) as char,
        ] + url_decoded(b.skip(3))
    } else {
        seq![b[0] as char] + url_decoded(b.skip(1))
    }
}

/// What an encoded text stands for.
pub fn url_decode(s: &str) -> (out: String)
    ensures
        out@ == url_decoded(encode_utf8(s@)),
{
    let b = s.as_bytes();
    let mut out = String::new();
    let mut i: usize = 0;
    let ghost all = url_decoded(b@);
    assert(b@.skip(0) =~= b@);
    assert(out@ + url_decoded(b@) =~= all);
    while i < b.len()
        invariant
            i <= b@.len(),
            out@ + url_decoded(b@.skip(i as int)) == all,
        decreases b@.len() - i,
    {
        let ghost rest = b@.skip(i as int);
        let ghost before = out@;
        proof {
            assert(rest[0] == b@[i as int]);
            assert(rest.skip(1) =~= b@.skip(i + 1));
            if rest.len() > 2 {
                assert(rest[1] == b@[i + 1]);
                assert(rest[2] == b@[i + 2]);
                assert(rest.skip(3) =~= b@.skip(i + 3));
            }
        }
        if b[i] == 0x2b {
            out.push(' ');
            i += 1;
            assert(out@ + url_decoded(b@.skip(i as int)) =~= before + url_decoded(rest));
        } else {
            let mut step: usize = 1;
            let mut c = b[i] as char;
            if b[i] == 0x25 && b.len() - i > 2 {
                if let (Some(hi), Some(lo)) = (codec::hex(b[i + 1]), codec::hex(b[i + 2])) {
                    c = (hi * 16 + lo) as char;
                    step = 3;
                }
            }
            out.push(c);
            i += step;
            assert(out@ + url_decoded(b@.skip(i as int)) =~= before + url_decoded(rest));
        }
    }
    assert(out@ =~= all);
    out
}

/// The value of the first parameter with the given key.
pub open spec fn param_in(params: Seq<Seq<char>>, key: Seq<char>) -> Option<Seq<char>>
    decreases params.len(),
{
    if params.len() == 0 {
        None
    } else if text::has_prefix(params[0], key.push('=')) {
        Some(params[0].skip(key.len() as int + 1))
    } else {
        param_in(params.drop_first(), key)
    }
}

/// The value of the first parameter with the given key in a query.
pub open spec fn param_of(query: Seq<char>, key: Seq<char>) -> Option<Seq<char>> {
    param_in(text::pieces(query, Separator::Char('&')), key)
}

/// The value of the first parameter with the given key in a query.
pub fn query_param(query: &str, key: &str) -> (r: Option<String>)
    ensures
        match r {
            Some(v) => param_of(query@, key@) == Some(v@),
            None => param_of(query@, key@) is None,
        },
{
    let chars = text::chars_of(query);
    let params = text::split(chars.as_slice(), Separator::Char('&'));
    let mut prefix = text::chars_of(key);
    prefix.push('=');
    let ghost all = text::contents(params@);
    let mut i: usize = 0;
    assert(all.skip(0) =~= all);
    while i < params.len()
        invariant
            i <= params@.len(),
            all == text::contents(params@),
            prefix@ == key@.push('='),
            all == text::pieces(query@, Separator::Char('&')),
            param_in(all.skip(i as int), key@) == param_of(query@, key@),
        decreases params@.len() - i,
    {
        let p = params[i].as_slice();
        proof {
            assert(all.skip(i as int)[0] == p@);
            assert(all.skip(i as int).drop_first() =~= all.skip(i + 1));
        }
        if text::starts_with(p, prefix.as_slice(), false) {
            let value = text::cut(p, prefix.len(), p.len());
            assert(value@ =~= p@.skip(key@.len() as int + 1));
            return Some(text::string_of(value.as_slice()));
        }
        i += 1;
    }
    None
}

/// What follows the last slash of a path.
pub open spec fn base_name(path: Seq<char>) -> Seq<char> {
    text::pieces(path, Separator::Char('/')).last()
}

/// What follows the last slash of a path.
pub fn file_name(path: &str) -> (name: String)
    ensures
        name@ == base_name(path@),
{
    let chars = text::chars_of(path);
    let parts = text::split(chars.as_slice(), Separator::Char('/'));
    proof {
        text::lemma_pieces_nonempty(path@, Separator::Char('/'));
        assert(text::contents(parts@).len() == parts@.len());
        assert(text::contents(parts@).last() == parts@[parts@.len() - 1]@);
    }
    text::string_of(parts[parts.len() - 1].as_slice())
}

/// One row of the table of files.
pub open spec fn row(r: RecView) -> Seq<char> {
    ROW_LINK@ + form_encoded(encode_utf8(r.path)) + ROW_NAME@ + escaped(r.path) + ROW_SIZE@
        + text::decimal(r.size as nat) + ROW_TIME@ + text::decimal(r.mtime as nat) + ROW_DELETE@
        + form_encoded(encode_utf8(r.path)) + ROW_END@
}

/// The rows of the table, one after the other.
pub open spec fn rows(recs: Seq<RecView>) -> Seq<char>
    decreases recs.len(),
{
    if recs.len() == 0 {
        Seq::empty()
    } else {
        rows(recs.drop_last()) + row(recs.last())
    }
}

/// The page that lists the files of a folder.
pub open spec fn home_page(root: Seq<char>, recs: Seq<RecView>) -> Seq<char> {
    PAGE_TOP@ + escaped(root) + PAGE_FOLDER@ + text::decimal(recs.len()) + PAGE_TABLE@ + (
    if recs.len() == 0 {
        ROW_EMPTY@
    } else {
        rows(recs)
    }) + PAGE_END@
}

fn push_row(out: &mut String, f: &FileRec)
    ensures
        final(out)@ == old(out)@ + row(f@),
{
    let safe = html_escape(f.path.as_str());
    let enc = form_enc(f.path.as_str());
    text::push_text(out, ROW_LINK);
    text::push_text(out, enc.as_str());
    text::push_text(out, ROW_NAME);
    text::push_text(out, safe.as_str());
    text::push_text(out, ROW_SIZE);
    text::push_decimal(out, f.size);
    text::push_text(out, ROW_TIME);
    text::push_decimal(out, f.mtime);
    text::push_text(out, ROW_DELETE);
    text::push_text(out, enc.as_str());
    text::push_text(out, ROW_END);
    assert(out@ =~= old(out)@ + row(f@));
}

/// The page that lists the files of a folder.
pub fn render_home(root: &str, files: &[FileRec]) -> (page: String)
    ensures
        page@ == home_page(root@, store::rec_views(files@)),
{
    let ghost recs = store::rec_views(files@);
    let mut table = String::new();
    if files.len() == 0 {
        text::push_text(&mut table, ROW_EMPTY);
        assert(table@ =~= ROW_EMPTY@);
    }
    let mut i: usize = 0;
    let ghost head = table@;
    assert(table@ =~= head + rows(recs.take(0)));
    while i < files.len()
        invariant
            i <= files@.len(),
            recs == store::rec_views(files@),
            table@ == head + rows(recs.take(i as int)),
        decreases files@.len() - i,
    {
        let ghost before = table@;
        proof {
            assert(recs.take(i + 1).drop_last() =~= recs.take(i as int));
            assert(recs.take(i + 1).last() == files@[i as int]@);
        }
        push_row(&mut table, &files[i]);
        assert(table@ =~= head + rows(recs.take(i + 1)));
        i += 1;
    }
    assert(recs.take(recs.len() as int) =~= recs);
    proof {
        if recs.len() == 0 {
            assert(table@ =~= ROW_EMPTY@);
        } else {
            assert(table@ =~= rows(recs));
        }
    }
    let mut page = String::new();
    text::push_text(&mut page, PAGE_TOP);
    text::push_text(&mut page, html_escape(root).as_str());
    text::push_text(&mut page, PAGE_FOLDER);
    text::push_decimal(&mut page, files.len() as u64);
    text::push_text(&mut page, PAGE_TABLE);
    text::push_text(&mut page, table.as_str());
    text::push_text(&mut page, PAGE_END);
    assert(page@ =~= home_page(root@, recs));
    page
}

/// The end of every head that gives a length.
pub const HEAD_END: &'static str = "\r\nConnection: close\r\n\r\n";

pub const HTML_HEAD: &'static str =
    "HTTP/1.1 200 OK\r\nContent-Type: text/html; charset=utf-8\r\nContent-Length: ";

/// A page as an answer.
pub open spec fn html_answer(page: Seq<char>) -> Seq<u8> {
    encode_utf8(
        HTML_HEAD@ + text::decimal(encode_utf8(page).len()) + HEAD_END@ + page,
    )
}

/// A page as an answer.
pub fn write_html(page: &str) -> (out: Vec<u8>)
    ensures
        out@ == html_answer(page@),
{
    let mut s = String::new();
    text::push_text(&mut s, HTML_HEAD);
    text::push_decimal(&mut s, page.as_bytes().len() as u64);
    text::push_text(&mut s, HEAD_END);
    text::push_text(&mut s, page);
    assert(s@ =~= HTML_HEAD@ + text::decimal(encode_utf8(page@).len()) + HEAD_END@ + page@);
    text::bytes_of(s.as_str())
}

/// A character as it stands in the name of a download.
pub open spec fn name_char(c: char) -> char {
    if c == '"' || c == '\r' || c == '\n' {
        '_'
    } else {
        c
    }
}

/// The name of a download as it stands in a head.
pub open spec fn header_name(name: Seq<char>) -> Seq<char> {
    Seq::new(name.len(), |i: int| name_char(name[i]))
}

pub const FILE_HEAD: &'static str =
    "HTTP/1.1 200 OK\r\nContent-Type: application/octet-stream\r\n\
    Content-Disposition: attachment; filename=\"";

pub const FILE_LENGTH: &'static str = "\"\r\nContent-Length: ";

/// A file as an answer.
pub open spec fn file_answer(name: Seq<char>, content: Seq<u8>) -> Seq<u8> {
    encode_utf8(
        FILE_HEAD@ + header_name(name) + FILE_LENGTH@ + text::decimal(content.len()) + HEAD_END@,
    ) + content
}

/// A file as an answer.
pub fn write_bytes(name: &str, content: &[u8]) -> (out: Vec<u8>)
    ensures
        out@ == file_answer(name@, content@),
{
    let chars = text::chars_of(name);
    let mut safe: Vec<char> = Vec::new();
    let mut i: usize = 0;
    while i < chars.len()
        invariant
            i <= chars@.len(),
            safe@.len() == i,
            forall|j: int| 0 <= j < i ==> safe@[j] == name_char(chars@[j]),
        decreases chars@.len() - i,
    {
        let c = chars[i];
        safe.push(
            if c == '"' || c == '\r' || c == '\n' {
                '_'
            } else {
                c
            },
        );
        i += 1;
    }
    assert(safe@ =~= header_name(name@));
    let mut s = String::new();
    text::push_text(&mut s, FILE_HEAD);
    text::push_chars(&mut s, safe.as_slice());
    text::push_text(&mut s, FILE_LENGTH);
    text::push_decimal(&mut s, content.len() as u64);
    text::push_text(&mut s, HEAD_END);
    assert(s@ =~= FILE_HEAD@ + header_name(name@) + FILE_LENGTH@ + text::decimal(content@.len())
        + HEAD_END@);
    let mut out = text::bytes_of(s.as_str());
    codec::push_bytes(&mut out, content);
    out
}

/// The words that go with a status.
pub open spec fn reason(code: u16) -> Seq<char> {
    if code == 204 {
        "No Content"@
    } else if code == 400 {
        "Bad Request"@
    } else if code == 404 {
        "Not Found"@
    } else if code == 413 {
        "Payload Too Large"@
    } else {
        "OK"@
    }
}

pub const STATUS_HEAD: &'static str = "HTTP/1.1 ";

pub const STATUS_LENGTH: &'static str =
    "\r\nContent-Type: text/plain; charset=utf-8\r\nContent-Length: ";

/// A status as an answer.
pub open spec fn status_answer(code: u16, msg: Seq<char>) -> Seq<u8> {
    encode_utf8(
        STATUS_HEAD@ + text::decimal(code as nat) + seq![' '] + reason(code) + STATUS_LENGTH@
            + text::decimal(encode_utf8(msg).len()) + HEAD_END@ + msg,
    )
}

/// A status as an answer.
pub fn write_status(code: u16, msg: &str) -> (out: Vec<u8>)
    ensures
        out@ == status_answer(code, msg@),
{
    let words = if code == 204 {
        "No Content"
    } else if code == 400 {
        "Bad Request"
    } else if code == 404 {
        "Not Found"
    } else if code == 413 {
        "Payload Too Large"
    } else {
        "OK"
    };
    let mut s = String::new();
    text::push_text(&mut s, STATUS_HEAD);
    text::push_decimal(&mut s, code as u64);
    s.push(' ');
    text::push_text(&mut s, words);
    text::push_text(&mut s, STATUS_LENGTH);
    text::push_decimal(&mut s, msg.as_bytes().len() as u64);
    text::push_text(&mut s, HEAD_END);
    text::push_text(&mut s, msg);
    assert(s@ =~= STATUS_HEAD@ + text::decimal(code as nat) + seq![' '] + reason(code)
        + STATUS_LENGTH@ + text::decimal(encode_utf8(msg@).len()) + HEAD_END@ + msg@);
    text::bytes_of(s.as_str())
}

pub const REDIRECT_HEAD: &'static str = "HTTP/1.1 302 Found\r\nLocation: ";

pub const REDIRECT_LENGTH: &'static str = "\r\nContent-Length: 0";

/// A redirect as an answer.
pub open spec fn redirect_answer(loc: Seq<char>) -> Seq<u8> {
    encode_utf8(REDIRECT_HEAD@ + loc + REDIRECT_LENGTH@ + HEAD_END@)
}

/// A redirect as an answer.
pub fn write_redirect(loc: &str) -> (out: Vec<u8>)
    ensures
        out@ == redirect_answer(loc@),
{
    let mut s = String::new();
    text::push_text(&mut s, REDIRECT_HEAD);
    text::push_text(&mut s, loc);
    text::push_text(&mut s, REDIRECT_LENGTH);
    text::push_text(&mut s, HEAD_END);
    assert(s@ =~= REDIRECT_HEAD@ + loc@ + REDIRECT_LENGTH@ + HEAD_END@);
    text::bytes_of(s.as_str())
}

/// What a request comes to.
#[derive(Debug, PartialEq, Eq)]
pub enum Reply {
    /// Answer this.
    Send(Vec<u8>),
    /// Read the file at this path and answer it under this name.
    Download { path: String, name: String },
    /// Write the body to this path.
    Upload { path: String },
    /// Remove the file at this path.
    Remove { path: String },
}

/// What a reply says.
#[verifier::ext_equal]
pub enum ReplyView {
    Send(Seq<u8>),
    Download { path: Seq<char>, name: Seq<char> },
    Upload { path: Seq<char> },
    Remove { path: Seq<char> },
}

impl View for Reply {
    type V = ReplyView;

    open spec fn view(&self) -> ReplyView {
        match self {
            Reply::Send(bytes) => ReplyView::Send(bytes@),
            Reply::Download { path, name } => ReplyView::Download { path: path@, name: name@ },
            Reply::Upload { path } => ReplyView::Upload { path: path@ },
            Reply::Remove { path } => ReplyView::Remove { path: path@ },
        }
    }
}

/// The path that a parameter of a request names, decoded; empty if there is no
/// such parameter.
pub open spec fn named(req: RequestView, key: Seq<char>) -> Seq<char> {
    match param_of(req.query, key) {
        Some(v) => url_decoded(encode_utf8(v)),
        None => Seq::empty(),
    }
}

/// The path that a parameter of a request names, decoded.
fn name_in(req: &Request, key: &str) -> (s: String)
    ensures
        s@ == named(req@, key@),
{
    match query_param(req.query.as_str(), key) {
        Some(v) => url_decode(v.as_str()),
        None => String::new(),
    }
}

/// Whether a request is of this method and path.
pub open spec fn asks(req: RequestView, method: Seq<char>, path: Seq<char>) -> bool {
    req.method == method && req.path == path
}

/// Whether a request is of this method and path.
fn is_for(req: &Request, method: &str, path: &str) -> (b: bool)
    ensures
        b == asks(req@, method@, path@),
{
    text::is_word(text::chars_of(req.method.as_str()).as_slice(), method) && text::is_word(
        text::chars_of(req.path.as_str()).as_slice(),
        path,
    )
}

/// What a request with a body of `body_len` bytes comes to, given the index as a
/// map and its live records in order.
pub open spec fn replied(
    files: Map<Seq<char>, RecView>,
    live: Seq<RecView>,
    root: Seq<char>,
    req: RequestView,
    body_len: nat,
) -> ReplyView {
    if asks(req, "GET"@, "/"@) || asks(req, "GET"@, "/index.html"@) {
        ReplyView::Send(html_answer(home_page(root, live)))
    } else if asks(req, "GET"@, "/dl"@) {
        let name = named(req, "p"@);
        match paths::sanitized(name) {
            Some(path) => if files.dom().contains(path) && !files[path].deleted {
                ReplyView::Download { path, name: base_name(name) }
            } else {
                ReplyView::Send(status_answer(404, "not found"@))
            },
            None => ReplyView::Send(status_answer(404, "not found"@)),
        }
    } else if asks(req, "POST"@, "/up"@) {
        match paths::sanitized(named(req, "name"@)) {
            Some(path) => if body_len > MAX_UPLOAD {
                ReplyView::Send(status_answer(413, "too large"@))
            } else {
                ReplyView::Upload { path }
            },
            None => ReplyView::Send(status_answer(400, "bad path"@)),
        }
    } else if asks(req, "POST"@, "/rm"@) {
        match paths::sanitized(named(req, "p"@)) {
            Some(path) => ReplyView::Remove { path },
            None => ReplyView::Send(status_answer(400, "bad path"@)),
        }
    } else {
        ReplyView::Send(status_answer(404, "not found"@))
    }
}

/// Decides on a request with a body of `body_len` bytes; `root` is the name of
/// the folder.
pub fn handle(store: &Store, root: &str, req: &Request, body_len: usize) -> (r: Reply)
    requires
        store.wf(),
    ensures
        r@ == replied(
            store.files@,
            store::live_recs(store.files.seq()),
            root@,
            req@,
            body_len as nat,
        ),
{
    if is_for(req, "GET", "/") || is_for(req, "GET", "/index.html") {
        let files = store.live_list();
        let page = render_home(root, files.as_slice());
        return Reply::Send(write_html(page.as_str()));
    }
    if is_for(req, "GET", "/dl") {
        let decoded = name_in(req, "p");
        return match store.read_file(decoded.as_str()) {
            Some(path) => Reply::Download { path, name: file_name(decoded.as_str()) },
            None => Reply::Send(write_status(404, "not found")),
        };
    }
    if is_for(req, "POST", "/up") {
        let decoded = name_in(req, "name");
        return match store.write_file(decoded.as_str(), body_len) {
            Ok(path) => if body_len > MAX_UPLOAD {
                Reply::Send(write_status(413, "too large"))
            } else {
                Reply::Upload { path }
            },
            Err(FileError::TooLarge) => Reply::Send(write_status(413, "too large")),
            Err(_) => Reply::Send(write_status(400, "bad path")),
        };
    }
    if is_for(req, "POST", "/rm") {
        let decoded = name_in(req, "p");
        return match store.remove_file(decoded.as_str()) {
            Ok(path) => Reply::Remove { path },
            Err(_) => Reply::Send(write_status(400, "bad path")),
        };
    }
    Reply::Send(write_status(404, "not found"))
}

/// The answer to a request whose body is too large to be read.
pub fn body_refused() -> (out: Vec<u8>)
    ensures
        out@ == status_answer(413, "too large"@),
{
    write_status(413, "too large")
}

/// The answer to a download, given the content of the file, if it could be read.
pub fn download_done(name: &str, content: Option<&[u8]>) -> (out: Vec<u8>)
    ensures
        out@ == match content {
            Some(bytes) => file_answer(name@, bytes@),
            None => status_answer(404, "not found"@),
        },
{
    match content {
        Some(bytes) => write_bytes(name, bytes),
        None => write_status(404, "not found"),
    }
}

/// The answer to an upload, after the disk took the file or refused.
pub fn upload_done(written: bool) -> (out: Vec<u8>)
    ensures
        out@ == if written {
            status_answer(204, ""@)
        } else {
            status_answer(400, "bad path"@)
        },
{
    if written {
        write_status(204, "")
    } else {
        write_status(400, "bad path")
    }
}

/// The answer to a removal, after the disk removed the file or refused.
pub fn remove_done(removed: bool) -> (out: Vec<u8>)
    ensures
        out@ == if removed {
            redirect_answer("./"@)
        } else {
            status_answer(400, "bad path"@)
        },
{
    if removed {
        write_redirect("./")
    } else {
        write_status(400, "bad path")
    }
}

/// Whatever a request says, the disk is only touched inside the synced tree, and
/// only files of the index are read.
pub proof fn replies_stay_in_the_tree(
    files: Map<Seq<char>, RecView>,
    live: Seq<RecView>,
    root: Seq<char>,
    req: RequestView,
    body_len: nat,
)
    ensures
        match replied(files, live, root, req, body_len) {
            ReplyView::Send(_) => true,
            ReplyView::Download { path, .. } => paths::safe_path(path) && files.dom().contains(path)
                && !files[path].deleted,
            ReplyView::Upload { path } => paths::safe_path(path) && body_len <= MAX_UPLOAD,
            ReplyView::Remove { path } => paths::safe_path(path),
        },
{
    paths::sanitized_is_safe(named(req, "p"@));
    paths::sanitized_is_safe(named(req, "name"@));
}

/// Escaped text holds nothing that ends a tag or an attribute in double quotes.
pub proof fn escaped_is_inert(s: Seq<char>)
    ensures
        forall|i: int|
            0 <= i < escaped(s).len() ==> #[trigger] escaped(s)[i] != '<' && escaped(s)[i] != '>'
                && escaped(s)[i] != '"',
    decreases s.len(),
{
    reveal_strlit("&amp;");
    reveal_strlit("&lt;");
    reveal_strlit("&gt;");
    reveal_strlit("&quot;");
    if s.len() > 0 {
        let before = escaped(s.drop_last());
        let piece = escaped_char(s.last());
        escaped_is_inert(s.drop_last());
        assert forall|i: int| 0 <= i < escaped(s).len() implies #[trigger] escaped(s)[i] != '<'
            && escaped(s)[i] != '>' && escaped(s)[i] != '"' by {
            if i < before.len() {
                assert(escaped(s)[i] == before[i]);
            } else {
                assert(escaped(s)[i] == piece[i - before.len()]);
            }
        }
    }
}

/// The name of a download cannot end its place in the head.
pub proof fn header_name_is_inert(name: Seq<char>)
    ensures
        header_name(name).len() == name.len(),
        forall|i: int|
            0 <= i < name.len() ==> #[trigger] header_name(name)[i] != '"' && header_name(name)[i]
                != '\r' && header_name(name)[i] != '\n',
{
}

/// Bytes as characters, one for each.
pub open spec fn byte_chars(bytes: Seq<u8>) -> Seq<char> {
    Seq::new(bytes.len(), |i: int| bytes[i] as char)
}

/// Encoding from the front.
proof fn lemma_form_first(bytes: Seq<u8>)
    requires
        bytes.len() > 0,
    ensures
        form_encoded(bytes) == form_byte(bytes[0]) + form_encoded(bytes.drop_first()),
    decreases bytes.len(),
{
    if bytes.len() == 1 {
        assert(bytes.drop_last() =~= Seq::empty());
        assert(bytes.drop_first() =~= Seq::empty());
        assert(form_encoded(bytes) =~= form_byte(bytes[0]) + form_encoded(bytes.drop_first()));
    } else {
        let init = bytes.drop_last();
        lemma_form_first(init);
        assert(init.drop_first() =~= bytes.drop_first().drop_last());
        assert(form_encoded(bytes) =~= form_byte(bytes[0]) + form_encoded(bytes.drop_first()));
    }
}

/// What is encoded for a form is ASCII.
proof fn lemma_form_ascii(bytes: Seq<u8>)
    ensures
        forall|i: int|
            0 <= i < form_encoded(bytes).len() ==> '\0' <= #[trigger] form_encoded(bytes)[i]
                <= '\u{7f}',
    decreases bytes.len(),
{
    if bytes.len() > 0 {
        let before = form_encoded(bytes.drop_last());
        let piece = form_byte(bytes.last());
        lemma_form_ascii(bytes.drop_last());
        assert forall|i: int| 0 <= i < form_encoded(bytes).len() implies '\0'
            <= #[trigger] form_encoded(bytes)[i] <= '\u{7f}' by {
            if i < before.len() {
                assert(form_encoded(bytes)[i] == before[i]);
            } else {
                assert(form_encoded(bytes)[i] == piece[i - before.len()]);
            }
        }
    }
}

/// Characters as bytes, for ASCII.
spec fn ascii_bytes(s: Seq<char>) -> Seq<u8> {
    Seq::new(s.len(), |i: int| s[i] as u8)
}

proof fn lemma_form_decodes(bytes: Seq<u8>)
    ensures
        url_decoded(ascii_bytes(form_encoded(bytes))) == byte_chars(bytes),
    decreases bytes.len(),
{
    let enc = ascii_bytes(form_encoded(bytes));
    if bytes.len() == 0 {
        assert(enc =~= Seq::empty());
        assert(url_decoded(enc) =~= byte_chars(bytes));
    } else {
        let b = bytes[0];
        let rest = bytes.drop_first();
        lemma_form_first(bytes);
        lemma_form_decodes(rest);
        let tail = ascii_bytes(form_encoded(rest));
        if plain_in_form(b) {
            assert(enc[0] == b);
            assert(enc.skip(1) =~= tail);
        } else if b == 0x20 {
            assert(enc[0] == 0x2b);
            assert(enc.skip(1) =~= tail);
        } else {
            assert(enc[0] == 0x25);
            assert(enc[1] == codec::hex_upper(b as nat / 16) as u8);
            assert(enc[2] == codec::hex_upper(b as nat % 16) as u8);
            assert(escape_at(enc));
            assert(enc.skip(3) =~= tail);
        }
        assert(url_decoded(enc) =~= seq![b as char] + url_decoded(tail));
        assert(seq![b as char] + byte_chars(rest) =~= byte_chars(bytes));
    }
}

/// Decoding what was encoded for a form gives one character for each byte of the
/// text; so text in ASCII comes back as it was.
pub proof fn form_round_trip(s: Seq<char>)
    ensures
        url_decoded(encode_utf8(form_encoded(encode_utf8(s)))) == byte_chars(encode_utf8(s)),
        (forall|i: int| 0 <= i < s.len() ==> '\0' <= #[trigger] s[i] <= '\u{7f}') ==> url_decoded(
            encode_utf8(form_encoded(encode_utf8(s))),
        ) == s,
{
    let bytes = encode_utf8(s);
    let enc = form_encoded(bytes);
    lemma_form_ascii(bytes);
    is_ascii_chars_encode_utf8(enc);
    assert(encode_utf8(enc) =~= ascii_bytes(enc));
    lemma_form_decodes(bytes);
    if forall|i: int| 0 <= i < s.len() ==> '\0' <= #[trigger] s[i] <= '\u{7f}' {
        is_ascii_chars_encode_utf8(s);
        assert(byte_chars(bytes) =~= s);
    }
}

/// What is encoded for a form holds no ampersand.
pub proof fn lemma_form_no_separator(bytes: Seq<u8>)
    ensures
        !form_encoded(bytes).contains('&'),
    decreases bytes.len(),
{
    if bytes.len() > 0 {
        let before = form_encoded(bytes.drop_last());
        let piece = form_byte(bytes.last());
        lemma_form_no_separator(bytes.drop_last());
        assert forall|i: int| 0 <= i < form_encoded(bytes).len() implies form_encoded(bytes)[i]
            != '&' by {
            if i < before.len() {
                assert(form_encoded(bytes)[i] == before[i]);
                assert(before.contains(before[i]));
            } else {
                assert(form_encoded(bytes)[i] == piece[i - before.len()]);
            }
        }
    }
}

/// The query that the links of the page carry for a path.
pub open spec fn link_query(path: Seq<char>) -> Seq<char> {
    "p="@ + form_encoded(encode_utf8(path))
}

/// Following the link of a listed file downloads it, and its button removes it,
/// as long as its path is ASCII.
pub proof fn links_lead_to_their_files(
    files: Map<Seq<char>, RecView>,
    live: Seq<RecView>,
    root: Seq<char>,
    path: Seq<char>,
    content_len: usize,
    body_len: nat,
)
    requires
        files.dom().contains(path),
        !files[path].deleted,
        paths::sanitized(path) == Some(path),
        forall|i: int| 0 <= i < path.len() ==> '\0' <= #[trigger] path[i] <= '\u{7f}',
    ensures
        replied(
            files,
            live,
            root,
            RequestView {
                method: "GET"@,
                path: "/dl"@,
                query: link_query(path),
                content_len,
            },
            body_len,
        ) == (ReplyView::Download { path, name: base_name(path) }),
        replied(
            files,
            live,
            root,
            RequestView {
                method: "POST"@,
                path: "/rm"@,
                query: link_query(path),
                content_len,
            },
            body_len,
        ) == (ReplyView::Remove { path }),
{
    reveal_strlit("p");
    reveal_strlit("p=");
    reveal_strlit("GET");
    reveal_strlit("POST");
    reveal_strlit("/");
    reveal_strlit("/index.html");
    reveal_strlit("/dl");
    reveal_strlit("/up");
    reveal_strlit("/rm");
    let enc = form_encoded(encode_utf8(path));
    let query = link_query(path);
    form_round_trip(path);
    lemma_form_no_separator(encode_utf8(path));
    assert(!query.contains('&')) by {
        if query.contains('&') {
            let i = choose|i: int| 0 <= i < query.len() && query[i] == '&';
            assert(enc[i - 2] == '&');
        }
    }
    let parts = seq![query];
    paths::lemma_pieces_of_joined(parts, '&');
    assert(text::joined(parts, '&') == query);
    assert("p"@.push('=') =~= "p="@);
    assert(query.take(2) =~= "p="@);
    assert(query.skip(2) =~= enc);
    assert(param_of(query, "p"@) == Some(enc));
    assert("/dl"@[1] == 'd');
    assert("/rm"@[1] == 'r');
    assert("/up"@[1] == 'u');
    assert("GET"@[0] == 'G');
    assert("POST"@[0] == 'P');
    assert("/dl"@.len() == 3 && "/"@.len() == 1 && "/index.html"@.len() == 11);
}

} // verus!
