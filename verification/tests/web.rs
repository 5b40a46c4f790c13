use apiforma::web::{login_fields, route, Route};

#[test]
fn login_fields_take_the_last_values() {
    let (p, u) = login_fields(b"username=ann&password=a%20b&password=c+d&x=1");
    assert_eq!(p.as_deref(), Some("c d"));
    assert_eq!(u.as_deref(), Some("ann"));
}

#[test]
fn login_fields_without_a_password() {
    let (p, u) = login_fields(b"username=bo");
    assert!(p.is_none());
    assert_eq!(u.as_deref(), Some("bo"));
}

#[test]
fn login_fields_read_only_the_first_1000_bytes() {
    let mut body = vec![b'x'; 985];
    body.extend_from_slice(b"&password=secret");
    let (p, _) = login_fields(&body);
    assert_eq!(p.as_deref(), Some("secre"));
}

#[test]
fn routes_of_requests() {
    assert!(matches!(route(true, false, "webs"), Route::Socket));
    assert!(matches!(route(true, false, "login"), Route::File(f) if f == "login.html"));
    assert!(matches!(route(true, false, "create"), Route::File(f) if f == "create_account.html"));
    assert!(matches!(route(true, false, "game.js"), Route::File(f) if f == "game.js"));
    assert!(matches!(route(false, true, ""), Route::Login));
    assert!(matches!(route(true, false, ""), Route::File(f) if f == "home-unlog.html"));
    assert!(matches!(route(true, false, "a/b.js"), Route::Html(p, Some(true)) if p == "a/b.js"));
    assert!(matches!(route(true, false, "pic.png"), Route::Html(_, Some(false))));
    assert!(matches!(route(true, false, "j"), Route::Html(_, None)));
    assert!(matches!(route(false, true, "login"), Route::NotFound));
}
