//! The web side of the server: which reply a request gets, and the fields
//! of the login form.
use vstd::prelude::*;
use vstd::string::StrSliceExecFns;

verus! {

/// What `form_urlencoded::parse` yields for `body`, each name and value
/// decoded to text.
pub uninterp spec fn form_pairs_spec(body: Seq<u8>) -> Seq<(Seq<char>, Seq<char>)>;

/// `form_urlencoded::parse(body).into_owned()`, collected: the
/// `name=value` pairs of an `application/x-www-form-urlencoded` body, in
/// order, with `+` and percent escapes decoded. The result is named, not
/// stated: it depends on `body` alone.
#[verifier::external_body]
fn form_pairs(body: &[u8]) -> (v: Vec<(String, String)>)
    ensures
        v@.map_values(|p: (String, String)| (p.0@, p.1@)) == form_pairs_spec(body@),
{
    form_urlencoded::parse(body).into_owned().collect()
}

/// The value of the last pair named `key`, if any.
pub open spec fn last_value(ps: Seq<(Seq<char>, Seq<char>)>, key: Seq<char>) -> Option<Seq<char>>
    decreases ps.len(),
{
    if ps.len() == 0 {
        None
    } else if ps.last().0 == key {
        Some(ps.last().1)
    } else {
        last_value(ps.drop_last(), key)
    }
}

/// A text, as a sequence of characters.
pub open spec fn opt_text(o: Option<String>) -> Option<Seq<char>> {
    match o {
        Some(s) => Some(s@),
        None => None,
    }
}

/// The part of a request body that the login form reads: its first 1000
/// bytes.
pub open spec fn form_prefix(body: Seq<u8>) -> Seq<u8> {
    if body.len() <= 1000 {
        body
    } else {
        body.take(1000)
    }
}

/// Whether two texts are equal.
fn str_eq(a: &str, b: &str) -> (r: bool)
    ensures
        r == (a@ == b@),
{
    a.to_owned() == b.to_owned()
}

/// The password and the user name that a login form posts: the values of
/// the last `password` and the last `username` pair among the first 1000
/// bytes of the body.
pub fn login_fields(body: &[u8]) -> (r: (Option<String>, Option<String>))
    ensures
        opt_text(r.0) == last_value(form_pairs_spec(form_prefix(body@)), "password"@),
        opt_text(r.1) == last_value(form_pairs_spec(form_prefix(body@)), "username"@),
{
    let n: usize = if body.len() <= 1000 { body.len() } else { 1000 };
    let head = vstd::slice::slice_subrange(body, 0, n);
    proof {
        assert(head@ =~= form_prefix(body@));
    }
    let pairs = form_pairs(head);
    let ghost ps = form_pairs_spec(head@);
    let mut pass: Option<String> = None;
    let mut user: Option<String> = None;
    let mut i: usize = 0;
    while i < pairs.len()
        invariant
            0 <= i <= pairs@.len(),
            pairs@.map_values(|p: (String, String)| (p.0@, p.1@)) == ps,
            opt_text(pass) == last_value(ps.take(i as int), "password"@),
            opt_text(user) == last_value(ps.take(i as int), "username"@),
        decreases pairs@.len() - i,
    {
        proof {
            assert(ps.take(i + 1).drop_last() =~= ps.take(i as int));
            assert(ps[i as int] == (pairs@[i as int].0@, pairs@[i as int].1@));
            reveal_strlit("password");
            reveal_strlit("username");
            assert("password"@ != "username"@) by {
                assert("password"@[0] != "username"@[0]);
            }
        }
        if str_eq(pairs[i].0.as_str(), "password") {
            pass = Some(pairs[i].1.clone());
        } else if str_eq(pairs[i].0.as_str(), "username") {
            user = Some(pairs[i].1.clone());
        }
        i = i + 1;
    }
    proof {
        assert(ps.take(pairs@.len() as int) =~= ps);
    }
    (pass, user)
}

/// The reply a request gets.
pub enum Route {
    /// The game's websocket.
    Socket,
    /// A page served by name.
    File(String),
    /// The login form posted.
    Login,
    /// The file `html/` followed by the path; when the path is at least two
    /// characters long, whether it ends in `js` (then served as JavaScript).
    Html(String, Option<bool>),
    /// Not found.
    NotFound,
}

/// A reply, with its texts as sequences of characters.
pub enum RouteView {
    Socket,
    File(Seq<char>),
    Login,
    Html(Seq<char>, Option<bool>),
    NotFound,
}

impl View for Route {
    type V = RouteView;

    open spec fn view(&self) -> RouteView {
        match self {
            Route::Socket => RouteView::Socket,
            Route::File(f) => RouteView::File(f@),
            Route::Login => RouteView::Login,
            Route::Html(p, js) => RouteView::Html(p@, *js),
            Route::NotFound => RouteView::NotFound,
        }
    }
}

/// The reply to a request for `path` (without its leading `/`): the
/// websocket, the named pages, the login form, the home page, any other
/// file under `html/` for a GET, and not found otherwise.
pub open spec fn route_spec(is_get: bool, is_post: bool, p: Seq<char>) -> RouteView {
    if is_get && p == "webs"@ {
        RouteView::Socket
    } else if is_get && p == "login"@ {
        RouteView::File("login.html"@)
    } else if is_get && p == "create"@ {
        RouteView::File("create_account.html"@)
    } else if is_get && p == "game"@ {
        RouteView::File("game.html"@)
    } else if is_get && p == "game.js"@ {
        RouteView::File("game.js"@)
    } else if is_post && p == ""@ {
        RouteView::Login
    } else if is_get && p == ""@ {
        RouteView::File("home-unlog.html"@)
    } else if is_get {
        RouteView::Html(
            p,
            if p.len() >= 2 {
                Some(p.subrange(p.len() - 2, p.len() as int) == "js"@)
            } else {
                None
            },
        )
    } else {
        RouteView::NotFound
    }
}

/// The reply to a request for `path` (without its leading `/`).
pub fn route(is_get: bool, is_post: bool, path: &str) -> (r: Route)
    ensures
        r@ == route_spec(is_get, is_post, path@),
{
    if is_get && str_eq(path, "webs") {
        Route::Socket
    } else if is_get && str_eq(path, "login") {
        Route::File("login.html".to_owned())
    } else if is_get && str_eq(path, "create") {
        Route::File("create_account.html".to_owned())
    } else if is_get && str_eq(path, "game") {
        Route::File("game.html".to_owned())
    } else if is_get && str_eq(path, "game.js") {
        Route::File("game.js".to_owned())
    } else if is_post && str_eq(path, "") {
        Route::Login
    } else if is_get && str_eq(path, "") {
        Route::File("home-unlog.html".to_owned())
    } else if is_get {
        let n = path.unicode_len();
        let js = if n >= 2 {
            Some(str_eq(path.substring_char(n - 2, n), "js"))
        } else {
            None
        };
        Route::Html(path.to_owned(), js)
    } else {
        Route::NotFound
    }
}

} // verus!

verus! {

/// The file a reply serves by name, if it serves one.
pub open spec fn file_of(r: RouteView) -> Option<Seq<char>> {
    match r {
        RouteView::File(f) => Some(f),
        _ => None,
    }
}

/// Distinct GET requests that serve a page by name serve distinct pages:
/// each named path has its own file.
pub proof fn law_named_pages_distinct(p1: Seq<char>, p2: Seq<char>)
    ensures
        file_of(route_spec(true, false, p1)) is Some && file_of(route_spec(true, false, p1)) == file_of(
            route_spec(true, false, p2),
        ) ==> p1 == p2,
{
    reveal_strlit("webs");
    reveal_strlit("login");
    reveal_strlit("create");
    reveal_strlit("game");
    reveal_strlit("game.js");
    reveal_strlit("");
    reveal_strlit("login.html");
    reveal_strlit("create_account.html");
    reveal_strlit("game.html");
    reveal_strlit("home-unlog.html");
    assert("login.html"@.len() == 10);
    assert("create_account.html"@.len() == 19);
    assert("game.html"@.len() == 9);
    assert("game.js"@.len() == 7);
    assert("home-unlog.html"@.len() == 15);
    let r1 = route_spec(true, false, p1);
    let r2 = route_spec(true, false, p2);
    if file_of(r1) is Some && file_of(r1) == file_of(r2) {
        let f = file_of(r1)->0;
        if f.len() == 10 {
            assert(p1 == "login"@ && p2 == "login"@);
        } else if f.len() == 19 {
            assert(p1 == "create"@ && p2 == "create"@);
        } else if f.len() == 9 {
            assert(p1 == "game"@ && p2 == "game"@);
        } else if f.len() == 7 {
            assert(p1 == "game.js"@ && p2 == "game.js"@);
        } else {
            assert(p1 == ""@ && p2 == ""@);
        }
    }
}

} // verus!
