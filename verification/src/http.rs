//! The HTTP side of the report server: which page a request asks for, the bytes
//! of a response, and the port to listen on.

use vstd::prelude::*;

use crate::text;

verus! {

/// ASCII white space, as `u8::is_ascii_whitespace` defines it.
pub open spec fn is_ascii_space(c: char) -> bool {
    c == ' ' || c == '\t' || c == '\n' || c == '\x0C' || c == '\r'
}

/// How many characters of white space `s` starts with.
pub open spec fn space_len(s: Seq<char>) -> nat
    decreases s.len(),
{
    if s.len() > 0 && is_ascii_space(s[0]) {
        1 + space_len(s.drop_first())
    } else {
        0
    }
}

/// How many characters that are not white space `s` starts with.
pub open spec fn word_len(s: Seq<char>) -> nat
    decreases s.len(),
{
    if s.len() > 0 && !is_ascii_space(s[0]) {
        1 + word_len(s.drop_first())
    } else {
        0
    }
}

proof fn lemma_space_len(s: Seq<char>, m: int)
    requires
        0 <= m <= s.len(),
        forall|j: int| 0 <= j < m ==> is_ascii_space(s[j]),
        m == s.len() || !is_ascii_space(s[m]),
    ensures
        space_len(s) == m,
    decreases s.len(),
{
    if s.len() > 0 && m > 0 {
        lemma_space_len(s.drop_first(), m - 1);
    }
}

proof fn lemma_word_len(s: Seq<char>, m: int)
    requires
        0 <= m <= s.len(),
        forall|j: int| 0 <= j < m ==> !is_ascii_space(s[j]),
        m == s.len() || is_ascii_space(s[m]),
    ensures
        word_len(s) == m,
    decreases s.len(),
{
    if s.len() > 0 && m > 0 {
        lemma_word_len(s.drop_first(), m - 1);
    }
}

pub proof fn lemma_len_bounds(s: Seq<char>)
    ensures
        space_len(s) <= s.len(),
        word_len(s) <= s.len(),
        s.len() > 0 && !is_ascii_space(s[0]) ==> word_len(s) > 0,
    decreases s.len(),
{
    if s.len() > 0 {
        lemma_len_bounds(s.drop_first());
    }
}

/// The words of `s`: its maximal runs without ASCII white space, as
/// `str::split_ascii_whitespace` yields them.
pub open spec fn words(s: Seq<char>) -> Seq<Seq<char>>
    decreases s.len(),
{
    let t = s.skip(space_len(s) as int);
    if space_len(s) > s.len() || t.len() == 0 {
        seq![]
    } else {
        proof {
            lemma_len_bounds(t);
        }
        let w = word_len(t);
        if w == 0 {
            seq![]
        } else {
            seq![t.take(w as int)] + words(t.skip(w as int))
        }
    }
}

/// The next word of `v[lo..hi]`, as its bounds: `words(v[lo..hi])` is that word
/// followed by the words of `v[r.1..hi]`.
fn next_word(v: &Vec<char>, lo: usize, hi: usize) -> (r: Option<(usize, usize)>)
    requires
        lo <= hi <= v@.len(),
    ensures
        r matches Some(b) ==> lo <= b.0 < b.1 <= hi && words(v@.subrange(lo as int, hi as int)) == seq![
            v@.subrange(b.0 as int, b.1 as int),
        ] + words(v@.subrange(b.1 as int, hi as int)),
        r is None ==> words(v@.subrange(lo as int, hi as int)).len() == 0,
{
    let ghost s = v@.subrange(lo as int, hi as int);
    let mut a = lo;
    while a < hi && (v[a] == ' ' || v[a] == '\t' || v[a] == '\n' || v[a] == '\x0C' || v[a] == '\r')
        invariant
            lo <= a <= hi <= v@.len(),
            forall|j: int| lo <= j < a ==> is_ascii_space(v@[j]),
        decreases hi - a,
    {
        a = a + 1;
    }
    proof {
        assert forall|j: int| 0 <= j < a - lo implies is_ascii_space(s[j]) by {
            assert(s[j] == v@[lo + j]);
        }
        if a < hi {
            assert(s[a - lo] == v@[a as int]);
        }
        lemma_space_len(s, a - lo);
    }
    let ghost t = s.skip(a - lo);
    assert(t =~= v@.subrange(a as int, hi as int));
    if a == hi {
        return None;
    }
    let mut b = a;
    while b < hi && !(v[b] == ' ' || v[b] == '\t' || v[b] == '\n' || v[b] == '\x0C' || v[b] == '\r')
        invariant
            a <= b <= hi <= v@.len(),
            forall|j: int| a <= j < b ==> !is_ascii_space(v@[j]),
        decreases hi - b,
    {
        b = b + 1;
    }
    proof {
        assert forall|j: int| 0 <= j < b - a implies !is_ascii_space(t[j]) by {
            assert(t[j] == v@[a + j]);
        }
        if b < hi {
            assert(t[b - a] == v@[b as int]);
        }
        lemma_word_len(t, b - a);
        assert(t[0] == v@[a as int]);
    }
    assert(t.take(b - a) =~= v@.subrange(a as int, b as int));
    assert(t.skip(b - a) =~= v@.subrange(b as int, hi as int));
    Some((a, b))
}

/// The page that a request asks for.
#[derive(Debug, Clone, Copy, PartialEq, Eq, Structural)]
pub enum Route {
    /// The request line has fewer than two words.
    BadRequest,
    /// `GET /`: the report page.
    Index,
    /// `GET /report`: the last report, as JSON.
    Report,
    /// `GET /ws`: a WebSocket that runs the tests.
    WebSocket,
    /// Anything else.
    NotFound,
}

/// The request line of a request: its first line, or nothing where it has none.
pub open spec fn request_line(request: Seq<char>) -> Seq<char> {
    if text::lines(request).len() > 0 {
        text::lines(request)[0]
    } else {
        seq![]
    }
}

/// The page asked for by a request with text `request`, by the method and target that
/// start its request line.
pub open spec fn route_of(request: Seq<char>) -> Route {
    let ws = words(request_line(request));
    if ws.len() < 2 {
        Route::BadRequest
    } else if ws[0] == "GET"@ && ws[1] == "/"@ {
        Route::Index
    } else if ws[0] == "GET"@ && ws[1] == "/report"@ {
        Route::Report
    } else if ws[0] == "GET"@ && ws[1] == "/ws"@ {
        Route::WebSocket
    } else {
        Route::NotFound
    }
}

/// The page asked for by the request `request`.
pub fn route(request: &str) -> (r: Route)
    ensures
        r == route_of(request@),
{
    let v = text::chars_of(request);
    let n = v.len();
    let end = if n == 0 {
        0
    } else {
        let (e, _) = text::next_line(&v, 0);
        e
    };
    proof {
        assert(v@.subrange(0, n as int) =~= v@);
        if n == 0 {
            assert(text::lines(v@).len() == 0);
        }
    }
    let ghost line = v@.subrange(0, end as int);
    assert(line == request_line(request@));
    let first = next_word(&v, 0, end);
    let (a0, b0) = match first {
        None => {
            return Route::BadRequest;
        },
        Some(b) => b,
    };
    let second = next_word(&v, b0, end);
    let (a1, b1) = match second {
        None => {
            return Route::BadRequest;
        },
        Some(b) => b,
    };
    let ghost ws = words(line);
    assert(ws[0] == v@.subrange(a0 as int, b0 as int));
    assert(ws[1] == v@.subrange(a1 as int, b1 as int));
    if !text::equals_at(&v, a0, b0, "GET") {
        return Route::NotFound;
    }
    if text::equals_at(&v, a1, b1, "/") {
        Route::Index
    } else if text::equals_at(&v, a1, b1, "/report") {
        Route::Report
    } else if text::equals_at(&v, a1, b1, "/ws") {
        Route::WebSocket
    } else {
        Route::NotFound
    }
}

/// The text of a response with status line `status`, content type `content_type` and
/// body `body`; the body's length is its length in bytes.
pub open spec fn response_text(status: Seq<char>, content_type: Seq<char>, body: Seq<char>) -> Seq<
    char,
> {
    "HTTP/1.1 "@ + status + "\r\nContent-Type: "@ + content_type + "\r\nContent-Length: "@
        + text::decimal(vstd::utf8::encode_utf8(body).len()) + "\r\nConnection: close\r\n\r\n"@
        + body
}

/// The bytes of a response that closes the connection, with status line `status`,
/// content type `content_type` and body `body`.
pub fn response(status: &str, content_type: &str, body: &str) -> (r: Vec<u8>)
    ensures
        r@ == vstd::utf8::encode_utf8(response_text(status@, content_type@, body@)),
{
    let mut s = String::new();
    s.push_str("HTTP/1.1 ");
    s.push_str(status);
    s.push_str("\r\nContent-Type: ");
    s.push_str(content_type);
    s.push_str("\r\nContent-Length: ");
    let body_len = body.as_bytes().len();
    text::push_decimal(&mut s, body_len as u128);
    s.push_str("\r\nConnection: close\r\n\r\n");
    s.push_str(body);
    assert(s@ =~= response_text(status@, content_type@, body@));
    vstd::slice::slice_to_vec(s.as_str().as_bytes())
}

/// The port given by a command-line argument or by the `PORT` variable, as a number
/// `str::parse` accepts as a `u16`.
pub open spec fn port_of(text: Option<Seq<char>>) -> Option<nat> {
    match text {
        Some(t) => text::parse_unsigned(t, 65535),
        None => None,
    }
}

/// The port to listen on: the first argument where it is a port number, else the `PORT`
/// variable where it is one, else 8080.
pub fn select_port(arg: Option<&str>, env_port: Option<&str>) -> (p: u16)
    ensures
        p as nat == match port_of(opt_view(arg)) {
            Some(n) => n,
            None => match port_of(opt_view(env_port)) {
                Some(n) => n,
                None => 8080,
            },
        },
{
    match parse_port(arg) {
        Some(p) => p,
        None => match parse_port(env_port) {
            Some(p) => p,
            None => 8080,
        },
    }
}

/// An optional text as plain characters.
pub open spec fn opt_view(t: Option<&str>) -> Option<Seq<char>> {
    match t {
        Some(t) => Some(t@),
        None => None,
    }
}

fn parse_port(text: Option<&str>) -> (p: Option<u16>)
    ensures
        match p {
            Some(n) => port_of(opt_view(text)) == Some(n as nat),
            None => port_of(opt_view(text)) is None,
        },
{
    match text {
        None => None,
        Some(t) => {
            let v = text::chars_of(t);
            assert(v@.subrange(0, v@.len() as int) =~= v@);
            match text::parse_unsigned_at(&v, 0, v.len(), 65535) {
                Some(n) => Some(n as u16),
                None => None,
            }
        },
    }
}

/// Law: a request line with fewer than two words is a bad request; one whose method (its
/// first word) is not `GET` is never served a page; and a `GET` request is served the
/// report page, the report or the WebSocket exactly when its target (its second word)
/// is `/`, `/report` or `/ws`, and is otherwise not found.
pub proof fn law_route_by_method_and_target(request: Seq<char>)
    ensures
        ({
            let ws = words(request_line(request));
            &&& (route_of(request) == Route::BadRequest) == (ws.len() < 2)
            &&& ws.len() >= 2 && ws[0] != "GET"@ ==> route_of(request) == Route::NotFound
            &&& ws.len() >= 2 && ws[0] == "GET"@ ==> {
                &&& (route_of(request) == Route::Index) == (ws[1] == "/"@)
                &&& (route_of(request) == Route::Report) == (ws[1] == "/report"@)
                &&& (route_of(request) == Route::WebSocket) == (ws[1] == "/ws"@)
                &&& (route_of(request) == Route::NotFound) == (ws[1] != "/"@ && ws[1] != "/report"@
                    && ws[1] != "/ws"@)
            }
        }),
{
    reveal_strlit("/");
    reveal_strlit("/report");
    reveal_strlit("/ws");
    assert("/"@.len() != "/report"@.len());
    assert("/"@.len() != "/ws"@.len());
    assert("/report"@.len() != "/ws"@.len());
}

/// Law: the page a request is routed to depends only on the first two words of its
/// request line.
pub proof fn law_route_by_first_two_words(a: Seq<char>, b: Seq<char>)
    requires
        words(request_line(a)).len() >= 2,
        words(request_line(b)).len() >= 2,
        words(request_line(a))[0] == words(request_line(b))[0],
        words(request_line(a))[1] == words(request_line(b))[1],
    ensures
        route_of(a) == route_of(b),
{
}

} // verus!
