use pnet_filesync::paths::sanitize_rel;
use pnet_filesync::store::{FileRec, Store};
use pnet_filesync::web::{
    body_refused, download_done, file_name, form_enc, handle, html_escape, parse_request,
    query_param, remove_done, render_home, upload_done, url_decode, write_bytes, write_html,
    write_redirect, write_status, Intake, IntakeStep, Reply, Request, MAX_BODY, MAX_HEAD,
    MAX_UPLOAD, PAGE_END, PAGE_FOLDER, PAGE_TABLE, PAGE_TOP, ROW_EMPTY,
};

fn rec(path: &str, deleted: bool) -> FileRec {
    FileRec {
        path: path.into(),
        size: 12,
        mtime: 345,
        hash: [1; 32],
        deleted,
    }
}

fn store() -> Store {
    let mut s = Store::open_with(None, [0; 16]);
    s.files.insert("n/a b.txt".into(), rec("n/a b.txt", false));
    s.files.insert("gone".into(), rec("gone", true));
    s
}

fn req(method: &str, path: &str, query: &str) -> Request {
    Request {
        method: method.into(),
        path: path.into(),
        query: query.into(),
        content_len: 0,
    }
}

#[test]
fn sanitize_used_on_query_names() {
    assert!(sanitize_rel(&url_decode("ok.txt")).is_some());
    assert!(sanitize_rel(&url_decode("..%2Fetc%2Fpasswd")).is_none());
}

#[test]
fn urls_are_decoded() {
    assert_eq!(url_decode("a+b%20c%2fD"), "a b c/D");
    assert_eq!(url_decode("100%"), "100%");
    assert_eq!(url_decode("%4"), "%4");
    assert_eq!(url_decode("%zz%41"), "%zzA");
    assert_eq!(url_decode("%C3%A9"), "\u{c3}\u{a9}");
    assert_eq!(url_decode("é"), "\u{c3}\u{a9}");
    assert_eq!(url_decode(""), "");
}

#[test]
fn forms_are_encoded() {
    assert_eq!(form_enc("aZ09-_.~"), "aZ09-_.~");
    assert_eq!(form_enc("a b/c&d"), "a+b%2Fc%26d");
    assert_eq!(form_enc("é"), "%C3%A9");
    for s in ["", "notes/to do.txt", "100% & more+", "q=1?x#y\u{1}"] {
        assert_eq!(url_decode(&form_enc(s)), s);
    }
}

#[test]
fn pages_are_escaped() {
    assert_eq!(html_escape("a<b>&\"c\" 'd'"), "a&lt;b&gt;&amp;&quot;c&quot; 'd'");
    assert_eq!(html_escape("&lt;"), "&amp;lt;");
}

#[test]
fn query_parameters_are_found() {
    assert_eq!(query_param("p=a&name=b", "name").as_deref(), Some("b"));
    assert_eq!(query_param("p=a=b&p=c", "p").as_deref(), Some("a=b"));
    assert_eq!(query_param("xp=1&p", "p"), None);
    assert_eq!(query_param("", "p"), None);
    assert_eq!(query_param("p=", "p").as_deref(), Some(""));
    assert_eq!(file_name("a/b/c.txt"), "c.txt");
    assert_eq!(file_name("c.txt"), "c.txt");
    assert_eq!(file_name("a/"), "");
}

#[test]
fn home_page_lists_files() {
    let page = render_home("/home/<me>", &[rec("n/a&b.txt", false)]);
    let row = "<tr><td><a href=\"dl?p=n%2Fa%26b.txt\">n/a&amp;b.txt</a></td>\
               <td class='num'>12</td><td class='muted'>345</td>\
               <td><form method='post' action='rm?p=n%2Fa%26b.txt' style='display:inline'>\
               <button type='submit' class='danger'>Delete</button></form></td></tr>";
    let expected = format!(
        "{PAGE_TOP}/home/&lt;me&gt;{PAGE_FOLDER}1{PAGE_TABLE}{row}{PAGE_END}"
    );
    assert_eq!(page, expected);
    let empty = render_home("r", &[]);
    assert_eq!(empty, format!("{PAGE_TOP}r{PAGE_FOLDER}0{PAGE_TABLE}{ROW_EMPTY}{PAGE_END}"));
    assert!(empty.starts_with("<!DOCTYPE html>\n<html><head><meta charset=\"utf-8\"><title>Filesync</title>\n<style>body{font-family:sans-serif;margin:0;background:#f5f5f5;color:#222}main{"));
    assert!(empty.contains(".danger{background:#c0392b}input[type=file]{margin-right:.6rem}"));
    assert!(empty.contains("running filesync converge to the same tree. Web is a viewport — the browser is not a fabric peer.</p>"));
    assert!(empty.contains("Folder: <code>r</code> · 0 file(s)</p><input id=\"f\" type=\"file\">"));
    assert!(empty.contains("<tbody><tr><td colspan='4' class='empty'>No files yet. Upload one, or drop files into the folder.</td></tr></tbody></table></div>"));
    assert!(empty.contains("if(!i.files.length){s.textContent='choose a file';return;}const file=i.files[0];s.textContent='uploading…';"));
    assert!(empty.contains("{method:'POST',body:file});"));
    assert!(empty.ends_with("if(r.ok) location.reload();}</script></main></body></html>"));
}

#[test]
fn answers_have_their_form() {
    assert_eq!(
        write_html("é"),
        "HTTP/1.1 200 OK\r\nContent-Type: text/html; charset=utf-8\r\n\
         Content-Length: 2\r\nConnection: close\r\n\r\né"
            .as_bytes()
    );
    let mut file = "HTTP/1.1 200 OK\r\nContent-Type: application/octet-stream\r\n\
                    Content-Disposition: attachment; filename=\"a_b__c.txt\"\r\n\
                    Content-Length: 3\r\nConnection: close\r\n\r\n"
        .as_bytes()
        .to_vec();
    file.extend([0, 255, 10]);
    assert_eq!(write_bytes("a\"b\r\nc.txt", &[0, 255, 10]), file);
    for (code, words) in [
        (204, "No Content"),
        (400, "Bad Request"),
        (404, "Not Found"),
        (413, "Payload Too Large"),
        (200, "OK"),
    ] {
        let expected = format!(
            "HTTP/1.1 {code} {words}\r\nContent-Type: text/plain; charset=utf-8\r\n\
             Content-Length: 3\r\nConnection: close\r\n\r\nmsg"
        );
        assert_eq!(write_status(code, "msg"), expected.as_bytes());
    }
    assert_eq!(
        write_redirect("./"),
        "HTTP/1.1 302 Found\r\nLocation: ./\r\nContent-Length: 0\r\nConnection: close\r\n\r\n".as_bytes()
    );
    assert_eq!(body_refused(), write_status(413, "too large"));
    assert_eq!(download_done("n", Some(&[1])), write_bytes("n", &[1]));
    assert_eq!(download_done("n", None), write_status(404, "not found"));
    assert_eq!(upload_done(true), write_status(204, ""));
    assert_eq!(upload_done(false), write_status(400, "bad path"));
    assert_eq!(remove_done(true), write_redirect("./"));
    assert_eq!(remove_done(false), write_status(400, "bad path"));
}

#[test]
fn requests_are_read() {
    let r = parse_request("POST /up?name=a%20b?c HTTP/1.1\r\nHost: x\r\nCONTENT-length:  +12 \r\n\r\n");
    assert_eq!(r.method, "POST");
    assert_eq!(r.path, "/up");
    assert_eq!(r.query, "name=a%20b?c");
    assert_eq!(r.content_len, 12);
    let r = parse_request("GET\r\n\r\n");
    assert_eq!((r.method.as_str(), r.path.as_str(), r.query.as_str()), ("GET", "/", ""));
    assert_eq!(r.content_len, 0);
    let r = parse_request("\r\n\r\n");
    assert_eq!((r.method.as_str(), r.path.as_str()), ("", "/"));
    for bad in ["x", "", "-1", "99999999999999999999999"] {
        let r = parse_request(&format!("GET / X\r\nContent-Length: {bad}\r\nContent-Length: 5\r\n\r\n"));
        assert_eq!(r.content_len, 0);
    }
}

#[test]
fn requests_come_in_by_pieces() {
    let mut i = Intake::new();
    assert_eq!(i.feed(b"POST /up?name=x HTTP/1.1\r\nContent-Length: 5\r\n\r"), IntakeStep::More);
    assert_eq!(i.feed(b"\nab"), IntakeStep::More);
    assert_eq!(i.feed(b"cdefg"), IntakeStep::Ready);
    let (r, body) = i.finish().unwrap();
    assert_eq!(r.path, "/up");
    assert_eq!(body, b"abcde");
    // The stream ends early.
    let mut i = Intake::new();
    assert_eq!(i.feed(b"POST /up HTTP/1.1\r\nContent-Length: 5\r\n\r\nab"), IntakeStep::More);
    assert_eq!(i.feed(b""), IntakeStep::Ready);
    assert_eq!(i.finish().unwrap().1, b"ab");
    let mut i = Intake::new();
    assert_eq!(i.feed(b"GET / HT"), IntakeStep::More);
    assert_eq!(i.feed(b""), IntakeStep::Close);
    assert!(i.finish().is_none());
    // Bytes that are no text do no harm.
    let mut i = Intake::new();
    assert_eq!(i.feed(b"GET /\xff HTTP/1.1\r\n\r\n"), IntakeStep::Ready);
    assert_eq!(i.finish().unwrap().0.path, "/\u{fffd}");
}

#[test]
fn requests_that_are_too_large_are_stopped() {
    let mut i = Intake::new();
    assert_eq!(i.feed(&vec![b'a'; MAX_HEAD]), IntakeStep::More);
    assert_eq!(i.feed(b"a"), IntakeStep::Close);
    let mut i = Intake::new();
    assert_eq!(i.feed(b"POST /up HTTP/1.1\r\nContent-Length: 9999999\r\n\r\n"), IntakeStep::More);
    assert_eq!(i.feed(&vec![0; MAX_BODY]), IntakeStep::More);
    assert_eq!(i.feed(&[0]), IntakeStep::TooLarge);
}

#[test]
fn requests_are_routed() {
    let s = store();
    let home = Reply::Send(write_html(&render_home("root", &s.live_list())));
    assert_eq!(handle(&s, "root", &req("GET", "/", ""), 0), home);
    assert_eq!(handle(&s, "root", &req("GET", "/index.html", "x"), 0), home);
    let not_found = Reply::Send(write_status(404, "not found"));
    assert_eq!(handle(&s, "root", &req("GET", "/other", ""), 0), not_found);
    assert_eq!(handle(&s, "root", &req("POST", "/", ""), 0), not_found);
    assert_eq!(
        handle(&s, "root", &req("GET", "/dl", &format!("p={}", form_enc("n/a b.txt"))), 0),
        Reply::Download { path: "n/a b.txt".into(), name: "a b.txt".into() }
    );
    assert_eq!(handle(&s, "root", &req("GET", "/dl", "p=gone"), 0), not_found);
    assert_eq!(handle(&s, "root", &req("GET", "/dl", "p=..%2Fx"), 0), not_found);
    assert_eq!(handle(&s, "root", &req("GET", "/dl", ""), 0), not_found);
    let bad_path = Reply::Send(write_status(400, "bad path"));
    assert_eq!(
        handle(&s, "root", &req("POST", "/up", "name=new.txt"), MAX_UPLOAD),
        Reply::Upload { path: "new.txt".into() }
    );
    assert_eq!(
        handle(&s, "root", &req("POST", "/up", "name=new.txt"), MAX_UPLOAD + 1),
        Reply::Send(write_status(413, "too large"))
    );
    assert_eq!(handle(&s, "root", &req("POST", "/up", "name=.x"), 1), bad_path);
    assert_eq!(handle(&s, "root", &req("POST", "/up", ""), 1), bad_path);
    assert_eq!(
        handle(&s, "root", &req("POST", "/rm", "p=n%2Fa+b.txt"), 0),
        Reply::Remove { path: "n/a b.txt".into() }
    );
    assert_eq!(handle(&s, "root", &req("POST", "/rm", "p=%2Fabs"), 0), bad_path);
}
