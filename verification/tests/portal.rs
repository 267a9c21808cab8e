use pnet_filesync::portal::{
    http_post_form, portal_host, portal_register, portal_unregister, post_outcome, register_next,
    AddressError, RegisterStep, REGISTER_PATH,
};

#[test]
fn forms_name_the_app() {
    assert_eq!(
        portal_register("filesync", 9090, "My Files"),
        "slug=filesync&port=9090&title=My+Files"
    );
    assert_eq!(portal_unregister("a&b"), "slug=a%26b");
}

#[test]
fn addresses_are_read() {
    assert_eq!(portal_host("http://127.0.0.1:8777"), Ok(("127.0.0.1".to_string(), 8777)));
    assert_eq!(portal_host("http://host///"), Ok(("host".to_string(), 80)));
    assert_eq!(portal_host("http://host:81/a/b:9"), Ok(("host".to_string(), 81)));
    assert_eq!(portal_host("http://[::1]:8777/"), Ok(("[::1]".to_string(), 8777)));
    assert_eq!(portal_host("http://host:x"), Err(AddressError::Port));
    assert_eq!(portal_host("http://host:65536"), Err(AddressError::Port));
    assert_eq!(
        portal_host("https://host/"),
        Err(AddressError::Scheme("https://host".to_string()))
    );
}

#[test]
fn posts_have_their_form() {
    assert_eq!(
        http_post_form("h", 80, REGISTER_PATH, "a=é"),
        "POST /api/app-web/register HTTP/1.1\r\nHost: h:80\r\n\
         Content-Type: application/x-www-form-urlencoded\r\n\
         Content-Length: 4\r\nConnection: close\r\n\r\na=é"
    );
}

#[test]
fn answers_are_judged_by_their_first_line() {
    assert_eq!(post_outcome("HTTP/1.1 200 OK\r\n\r\n"), Ok(()));
    assert_eq!(post_outcome("HTTP/1.0 200"), Ok(()));
    assert_eq!(
        post_outcome("HTTP/1.1 403 Forbidden\r\nX: y\r\n\r\n"),
        Err("HTTP/1.1 403 Forbidden".to_string())
    );
    assert_eq!(post_outcome(""), Err("".to_string()));
}

#[test]
fn address_errors_have_a_text() {
    let e = portal_host("https://host/").unwrap_err();
    assert_eq!(e.message(), "only http:// supported: https://host");
    assert_eq!(AddressError::Port.message(), "bad port");
}

#[test]
fn registration_is_tried_eight_times() {
    assert_eq!(register_next(1, true), RegisterStep::Done);
    assert_eq!(register_next(8, true), RegisterStep::Done);
    assert_eq!(register_next(1, false), RegisterStep::Wait(400));
    assert_eq!(register_next(7, false), RegisterStep::Wait(400));
    assert_eq!(register_next(8, false), RegisterStep::GiveUp);
}
