//! Registration of the web UI with the owner portal.

use vstd::prelude::*;
use vstd::utf8::*;

use crate::text;
use crate::text::Separator;
use crate::web;

verus! {

/// Where the portal takes registrations.
pub const REGISTER_PATH: &'static str = "/api/app-web/register";

/// Where the portal takes them back.
pub const UNREGISTER_PATH: &'static str = "/api/app-web/unregister";

pub const SLUG_FIELD: &'static str = "slug=";

pub const PORT_FIELD: &'static str = "&port=";

pub const TITLE_FIELD: &'static str = "&title=";

/// A text as a value in a form.
pub open spec fn field(s: Seq<char>) -> Seq<char> {
    web::form_encoded(encode_utf8(s))
}

/// The form that registers a web UI.
pub open spec fn registration(slug: Seq<char>, port: u16, title: Seq<char>) -> Seq<char> {
    SLUG_FIELD@ + field(slug) + PORT_FIELD@ + text::decimal(port as nat) + TITLE_FIELD@ + field(
        title,
    )
}

/// The form that takes a registration back.
pub open spec fn withdrawal(slug: Seq<char>) -> Seq<char> {
    SLUG_FIELD@ + field(slug)
}

/// The form that registers the web UI.
pub fn portal_register(slug: &str, port: u16, title: &str) -> (body: String)
    ensures
        body@ == SLUG_FIELD@ + field(slug@) + PORT_FIELD@ + text::decimal(port as nat)
            + TITLE_FIELD@ + field(title@),
        body@ == registration(slug@, port, title@),
{
    let mut body = String::new();
    text::push_text(&mut body, SLUG_FIELD);
    text::push_text(&mut body, web::form_enc(slug).as_str());
    text::push_text(&mut body, PORT_FIELD);
    text::push_decimal(&mut body, port as u64);
    text::push_text(&mut body, TITLE_FIELD);
    text::push_text(&mut body, web::form_enc(title).as_str());
    assert(body@ =~= SLUG_FIELD@ + field(slug@) + PORT_FIELD@ + text::decimal(port as nat)
        + TITLE_FIELD@ + field(title@));
    body
}

/// The form that takes the registration back.
pub fn portal_unregister(slug: &str) -> (body: String)
    ensures
        body@ == SLUG_FIELD@ + field(slug@),
        body@ == withdrawal(slug@),
{
    let mut body = String::new();
    text::push_text(&mut body, SLUG_FIELD);
    text::push_text(&mut body, web::form_enc(slug).as_str());
    assert(body@ =~= SLUG_FIELD@ + field(slug@));
    body
}

/// A text without slashes at its end.
pub open spec fn without_slashes(s: Seq<char>) -> Seq<char>
    decreases s.len(),
{
    if s.len() > 0 && s.last() == '/' {
        without_slashes(s.drop_last())
    } else {
        s
    }
}

/// Why a portal cannot be reached under its address.
#[derive(Debug, PartialEq, Eq)]
pub enum AddressError {
    /// The address, without slashes at its end, is not one of HTTP.
    Scheme(String),
    /// What follows the last colon is no port.
    Port,
}

pub const SCHEME_COMPLAINT: &'static str = "only http:// supported: ";

pub const PORT_COMPLAINT: &'static str = "bad port";

impl AddressError {
    /// What to tell the user.
    pub fn message(&self) -> (s: String)
        ensures
            s@ == match self {
                AddressError::Scheme(base) => SCHEME_COMPLAINT@ + base@,
                AddressError::Port => PORT_COMPLAINT@,
            },
    {
        let mut s = String::new();
        match self {
            AddressError::Scheme(base) => {
                text::push_text(&mut s, SCHEME_COMPLAINT);
                text::push_text(&mut s, base.as_str());
                assert(s@ =~= SCHEME_COMPLAINT@ + base@);
            },
            AddressError::Port => {
                text::push_text(&mut s, PORT_COMPLAINT);
                assert(s@ =~= PORT_COMPLAINT@);
            },
        }
        s
    }
}

/// How often a registration is tried.
pub const REGISTER_TRIES: u32 = 8;

/// Milliseconds between two tries.
pub const REGISTER_PAUSE: u64 = 400;

/// What to do after a try to register, counted from one.
#[derive(Clone, Copy, Debug, PartialEq, Eq, Structural)]
pub enum RegisterStep {
    Done,
    /// Try again after so many milliseconds.
    Wait(u64),
    GiveUp,
}

/// What follows a try to register, counted from one.
pub open spec fn step_after(attempt: u32, ok: bool) -> RegisterStep {
    if ok {
        RegisterStep::Done
    } else if attempt < REGISTER_TRIES {
        RegisterStep::Wait(REGISTER_PAUSE)
    } else {
        RegisterStep::GiveUp
    }
}

/// Decides what follows a try to register, counted from one.
pub fn register_next(attempt: u32, ok: bool) -> (r: RegisterStep)
    ensures
        r == if ok {
            RegisterStep::Done
        } else if attempt < REGISTER_TRIES {
            RegisterStep::Wait(REGISTER_PAUSE)
        } else {
            RegisterStep::GiveUp
        },
        r == step_after(attempt, ok),
{
    if ok {
        RegisterStep::Done
    } else if attempt < REGISTER_TRIES {
        RegisterStep::Wait(REGISTER_PAUSE)
    } else {
        RegisterStep::GiveUp
    }
}

/// The scheme of addresses that can be used.
pub const SCHEME: &'static str = "http://";

/// What stands between the scheme and the next slash.
pub open spec fn host_part(base: Seq<char>) -> Seq<char> {
    let rest = base.skip(SCHEME@.len() as int);
    rest.take(text::first_at(rest, '/'))
}

/// The pieces between colons: the last is the port, if there is more than one.
pub open spec fn colon_pieces(base: Seq<char>) -> Seq<Seq<char>> {
    text::pieces(host_part(base), Separator::Char(':'))
}

/// The host of an address: what stands before the last colon, if there is one.
pub open spec fn host_of(base: Seq<char>) -> Seq<char> {
    let p = colon_pieces(base);
    if p.len() > 1 {
        text::joined(p.drop_last(), ':')
    } else {
        host_part(base)
    }
}

/// The port of an address; the one of HTTP if it gives none.
pub open spec fn port_of(base: Seq<char>) -> Option<u64> {
    let p = colon_pieces(base);
    if p.len() > 1 {
        text::number_of(p.last(), 65535)
    } else {
        Some(80)
    }
}

/// The host and port of a portal, from its address.
pub fn portal_host(address: &str) -> (r: Result<(String, u16), AddressError>)
    ensures
        ({
            let base = without_slashes(address@);
            match r {
                Ok((host, port)) => text::has_prefix(base, SCHEME@) && host@ == host_of(base)
                    && port_of(base) == Some(port as u64),
                Err(AddressError::Scheme(b)) => !text::has_prefix(base, SCHEME@) && b@ == base,
                Err(AddressError::Port) => text::has_prefix(base, SCHEME@) && port_of(base) is None,
            }
        }),
{
    let chars = text::chars_of(address);
    let mut n: usize = chars.len();
    assert(chars@.take(n as int) =~= chars@);
    while n > 0 && chars[n - 1] == '/'
        invariant
            n <= chars@.len(),
            chars@ == address@,
            without_slashes(chars@.take(n as int)) == without_slashes(address@),
        decreases n,
    {
        assert(chars@.take(n as int).drop_last() =~= chars@.take(n - 1));
        n -= 1;
    }
    let base = text::cut(chars.as_slice(), 0, n);
    assert(base@ =~= chars@.take(n as int));
    assert(base@ == without_slashes(address@)) by {
        if n > 0 {
            assert(base@.last() == chars@[n - 1]);
        }
    }
    let scheme = text::chars_of(SCHEME);
    if !text::starts_with(base.as_slice(), scheme.as_slice(), false) {
        return Err(AddressError::Scheme(text::string_of(base.as_slice())));
    }
    let rest = text::cut(base.as_slice(), scheme.len(), base.len());
    assert(rest@ =~= base@.skip(SCHEME@.len() as int));
    let slash: usize = text::find_char(rest.as_slice(), '/');
    let hostport = text::cut(rest.as_slice(), 0, slash);
    assert(hostport@ =~= host_part(base@));
    let mut parts = text::split(hostport.as_slice(), Separator::Char(':'));
    let ghost all = colon_pieces(base@);
    assert(all == text::contents(parts@));
    assert(all.len() == parts@.len());
    if parts.len() < 2 {
        return Ok((text::string_of(hostport.as_slice()), 80));
    }
    let last = match parts.pop() {
        Some(p) => p,
        None => {
            return Err(AddressError::Port);
        },
    };
    assert(last@ == all.last());
    assert(text::contents(parts@) =~= all.drop_last());
    let host = text::join(parts.as_slice(), ':');
    match text::parse_number(last.as_slice(), 65535) {
        Some(port) => Ok((host, port as u16)),
        None => Err(AddressError::Port),
    }
}

pub const POST_METHOD: &'static str = "POST ";

pub const POST_HOST: &'static str = " HTTP/1.1\r\nHost: ";

pub const POST_LENGTH: &'static str =
    "\r\nContent-Type: application/x-www-form-urlencoded\r\nContent-Length: ";

/// A request that posts a form.
pub open spec fn post_request(
    host: Seq<char>,
    port: u16,
    path: Seq<char>,
    body: Seq<char>,
) -> Seq<char> {
    POST_METHOD@ + path + POST_HOST@ + host + seq![':'] + text::decimal(port as nat) + POST_LENGTH@
        + text::decimal(encode_utf8(body).len()) + web::HEAD_END@ + body
}

/// A request that posts a form.
pub fn http_post_form(host: &str, port: u16, path: &str, body: &str) -> (req: String)
    ensures
        req@ == post_request(host@, port, path@, body@),
{
    let mut req = String::new();
    text::push_text(&mut req, POST_METHOD);
    text::push_text(&mut req, path);
    text::push_text(&mut req, POST_HOST);
    text::push_text(&mut req, host);
    req.push(':');
    text::push_decimal(&mut req, port as u64);
    text::push_text(&mut req, POST_LENGTH);
    text::push_decimal(&mut req, body.as_bytes().len() as u64);
    text::push_text(&mut req, web::HEAD_END);
    text::push_text(&mut req, body);
    assert(req@ =~= post_request(host@, port, path@, body@));
    req
}

/// Whether an answer says that all went well.
pub open spec fn is_ok(resp: Seq<char>) -> bool {
    text::has_prefix(resp, "HTTP/1.1 200"@) || text::has_prefix(resp, "HTTP/1.0 200"@)
}

/// What came of posting a form: the first line of an answer that does not say
/// that all went well.
pub fn post_outcome(resp: &str) -> (r: Result<(), String>)
    ensures
        match r {
            Ok(()) => is_ok(resp@),
            Err(line) => !is_ok(resp@) && line@ == if text::lines_of(resp@).len() > 0 {
                text::lines_of(resp@)[0]
            } else {
                resp@
            },
        },
{
    let chars = text::chars_of(resp);
    if text::starts_with(chars.as_slice(), text::chars_of("HTTP/1.1 200").as_slice(), false)
        || text::starts_with(chars.as_slice(), text::chars_of("HTTP/1.0 200").as_slice(), false) {
        return Ok(());
    }
    let lines = text::lines(chars.as_slice());
    assert(text::contents(lines@).len() == lines@.len());
    if lines.len() > 0 {
        assert(text::contents(lines@)[0] == lines@[0]@);
        Err(text::string_of(lines[0].as_slice()))
    } else {
        Err(text::string_of(chars.as_slice()))
    }
}

} // verus!
