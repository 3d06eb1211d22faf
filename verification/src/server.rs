//! The web server's decisions: which page a request gets, the response
//! head, and the bounded list of recent samples it serves.

use vstd::prelude::*;
use std::collections::VecDeque;
use crate::text::{chars_of, decimal, first_index, find_char, lines, lines_of, push_char,
    push_decimal, same, views, words, words_of, string_of};
use crate::util::{join, lemma_object4, member, number, object, object_text};

verus! {

/// What a request is answered with.
#[derive(Clone, Copy, Debug, PartialEq, Eq, Structural)]
pub enum Page {
    Index,
    Style,
    Script,
    Status,
    Warmup,
    History,
    Favicon,
    NotFound,
    MethodNotAllowed,
}

/// The path of a request target, without its query.
pub open spec fn path_part(target: Seq<char>) -> Seq<char> {
    match first_index(target, '?') {
        Some(i) => target.take(i),
        None => target,
    }
}

/// The page for a request target; the status endpoint answers only once a
/// first sample is `ready`.
pub open spec fn page_for(target: Seq<char>, ready: bool) -> Page {
    let p = path_part(target);
    if p == "/"@ || p == "/index.html"@ {
        Page::Index
    } else if p == "/style.css"@ {
        Page::Style
    } else if p == "/app.js"@ {
        Page::Script
    } else if p == "/api/status"@ {
        if ready {
            Page::Status
        } else {
            Page::Warmup
        }
    } else if p == "/api/history"@ {
        Page::History
    } else if p == "/favicon.ico"@ {
        Page::Favicon
    } else {
        Page::NotFound
    }
}

/// The HTTP status of a page.
pub open spec fn status_of(page: Page) -> u16 {
    match page {
        Page::Warmup => 503,
        Page::Favicon => 204,
        Page::NotFound => 404,
        Page::MethodNotAllowed => 405,
        _ => 200,
    }
}

/// The media type of a page.
pub open spec fn content_type_of(page: Page) -> Seq<char> {
    match page {
        Page::Index => "text/html; charset=utf-8"@,
        Page::Style => "text/css; charset=utf-8"@,
        Page::Script => "text/javascript; charset=utf-8"@,
        Page::Status => "application/json"@,
        Page::Warmup => "application/json"@,
        Page::History => "application/json"@,
        Page::Favicon => "image/x-icon"@,
        Page::NotFound => "text/plain; charset=utf-8"@,
        Page::MethodNotAllowed => "text/plain"@,
    }
}

/// The reason phrase of a status.
pub open spec fn reason_of(status: u16) -> Seq<char> {
    if status == 200 {
        "OK"@
    } else if status == 204 {
        "No Content"@
    } else if status == 404 {
        "Not Found"@
    } else if status == 405 {
        "Method Not Allowed"@
    } else {
        "Service Unavailable"@
    }
}

fn is(p: &Vec<char>, lit: &str) -> (r: bool)
    ensures
        r == (p@ == lit@),
{
    same(p, &chars_of(lit))
}

/// The page for a request target; the status endpoint answers only once a
/// first sample is `ready`.
pub fn route(target: &str, ready: bool) -> (page: Page)
    ensures
        page == page_for(target@, ready),
{
    let t = chars_of(target);
    let p = match find_char(&t, '?') {
        Some(i) => crate::text::slice_vec(&t, 0, i),
        None => t,
    };
    if is(&p, "/") || is(&p, "/index.html") {
        Page::Index
    } else if is(&p, "/style.css") {
        Page::Style
    } else if is(&p, "/app.js") {
        Page::Script
    } else if is(&p, "/api/status") {
        if ready {
            Page::Status
        } else {
            Page::Warmup
        }
    } else if is(&p, "/api/history") {
        Page::History
    } else if is(&p, "/favicon.ico") {
        Page::Favicon
    } else {
        Page::NotFound
    }
}

/// The dashboard file that a page serves.
pub open spec fn asset_of(page: Page) -> Option<Seq<char>> {
    match page {
        Page::Index => Some("index.html"@),
        Page::Style => Some("style.css"@),
        Page::Script => Some("app.js"@),
        _ => None,
    }
}

/// The dashboard file that a page serves, if it is one.
pub fn asset_name(page: Page) -> (r: Option<&'static str>)
    ensures
        match r {
            Some(n) => asset_of(page) == Some(n@),
            None => asset_of(page) is None,
        },
{
    match page {
        Page::Index => Some("index.html"),
        Page::Style => Some("style.css"),
        Page::Script => Some("app.js"),
        _ => None,
    }
}

/// The body of a page whose answer does not depend on the samples: the
/// warm-up notice, the refusals, and the empty icon.
pub open spec fn fixed_body_of(page: Page) -> Option<Seq<char>> {
    match page {
        Page::Warmup => Some("{\"error\":\"First sample is being collected\"}"@),
        Page::Favicon => Some(""@),
        Page::NotFound => Some("Not found\n"@),
        Page::MethodNotAllowed => Some("Method not allowed\n"@),
        _ => None,
    }
}

/// The body of a page whose answer does not depend on the samples or a
/// dashboard file.
pub fn fixed_body(page: Page) -> (r: Option<String>)
    ensures
        match r {
            Some(b) => fixed_body_of(page) == Some(b@),
            None => fixed_body_of(page) is None,
        },
{
    match page {
        Page::Warmup => Some("{\"error\":\"First sample is being collected\"}".to_owned()),
        Page::Favicon => Some("".to_owned()),
        Page::NotFound => Some("Not found\n".to_owned()),
        Page::MethodNotAllowed => Some("Method not allowed\n".to_owned()),
        _ => None,
    }
}

/// Whether a method is served: only `GET` and `HEAD` are.
pub fn allowed(method: &str) -> (r: bool)
    ensures
        r == (method@ == "GET"@ || method@ == "HEAD"@),
{
    let m = chars_of(method);
    is(&m, "GET") || is(&m, "HEAD")
}

/// The page a request gets: methods other than `GET` and `HEAD` are refused.
pub open spec fn answer_for(method: Seq<char>, target: Seq<char>, ready: bool) -> Page {
    if method == "GET"@ || method == "HEAD"@ {
        page_for(target, ready)
    } else {
        Page::MethodNotAllowed
    }
}

/// The page a request with `method` and `target` gets; the status endpoint
/// answers only once a first sample is `ready`.
pub fn answer(method: &str, target: &str, ready: bool) -> (page: Page)
    ensures
        page == answer_for(method@, target@, ready),
{
    if allowed(method) {
        route(target, ready)
    } else {
        Page::MethodNotAllowed
    }
}

/// Whether the response carries its body: all but answers to `HEAD` do.
pub fn sends_body(method: &str) -> (r: bool)
    ensures
        r == (method@ != "HEAD"@),
{
    let head = is(&chars_of(method), "HEAD");
    !head
}

impl Page {
    /// The HTTP status.
    pub fn status(&self) -> (s: u16)
        ensures
            s == status_of(*self),
    {
        match self {
            Page::Warmup => 503,
            Page::Favicon => 204,
            Page::NotFound => 404,
            Page::MethodNotAllowed => 405,
            _ => 200,
        }
    }

    /// The media type.
    pub fn content_type(&self) -> (t: &'static str)
        ensures
            t@ == content_type_of(*self),
    {
        match self {
            Page::Index => "text/html; charset=utf-8",
            Page::Style => "text/css; charset=utf-8",
            Page::Script => "text/javascript; charset=utf-8",
            Page::Status => "application/json",
            Page::Warmup => "application/json",
            Page::History => "application/json",
            Page::Favicon => "image/x-icon",
            Page::NotFound => "text/plain; charset=utf-8",
            Page::MethodNotAllowed => "text/plain",
        }
    }
}

/// The reason phrase of a status.
pub fn reason(status: u16) -> (r: &'static str)
    ensures
        r@ == reason_of(status),
{
    if status == 200 {
        "OK"
    } else if status == 204 {
        "No Content"
    } else if status == 404 {
        "Not Found"
    } else if status == 405 {
        "Method Not Allowed"
    } else {
        "Service Unavailable"
    }
}

/// The security and caching headers every response carries, and the blank
/// line that ends the head.
pub open spec fn closing_headers() -> Seq<char> {
    "\r\nCache-Control: no-store\r\nX-Content-Type-Options: nosniff\r\nContent-Security-Policy: default-src 'self'; script-src 'self'; style-src 'self'; img-src 'self' data:; connect-src 'self'; base-uri 'none'; frame-ancestors 'none'\r\nConnection: close\r\n\r\n"@
}

/// The head of the response to a page with a body of `length` bytes.
pub open spec fn head_text(page: Page, length: usize) -> Seq<char> {
    "HTTP/1.1 "@ + decimal(status_of(page) as nat) + " "@ + reason_of(status_of(page))
        + "\r\nContent-Type: "@ + content_type_of(page) + "\r\nContent-Length: "@ + decimal(
        length as nat,
    ) + closing_headers()
}

/// The head of the response to a page with a body of `length` bytes: status
/// line, media type, length, no caching, no sniffing, a same-origin content
/// policy, and no keep-alive.
pub fn response_head(page: Page, length: usize) -> (s: String)
    ensures
        s@ == head_text(page, length),
{
    let status = page.status();
    let mut s = "HTTP/1.1 ".to_owned();
    push_decimal(&mut s, status as u64);
    s.append(" ");
    s.append(reason(status));
    s.append("\r\nContent-Type: ");
    s.append(page.content_type());
    s.append("\r\nContent-Length: ");
    push_decimal(&mut s, length as u64);
    s.append(
        "\r\nCache-Control: no-store\r\nX-Content-Type-Options: nosniff\r\nContent-Security-Policy: default-src 'self'; script-src 'self'; style-src 'self'; img-src 'self' data:; connect-src 'self'; base-uri 'none'; frame-ancestors 'none'\r\nConnection: close\r\n\r\n",
    );
    s
}

/// Whether a carriage return, line feed, carriage return, line feed start
/// at `i`.
pub open spec fn head_end_at(b: Seq<u8>, i: int) -> bool {
    0 <= i && i + 4 <= b.len() && b[i] == 13 && b[i + 1] == 10 && b[i + 2] == 13 && b[i + 3] == 10
}

/// Whether the bytes hold the blank line that ends a request head.
pub open spec fn has_head_end(b: Seq<u8>) -> bool {
    exists|i: int| #[trigger] head_end_at(b, i)
}

/// Whether the bytes received so far hold a complete request head.
pub fn head_complete(b: &Vec<u8>) -> (r: bool)
    ensures
        r == has_head_end(b@),
{
    if b.len() < 4 {
        return false;
    }
    let mut i: usize = 0;
    while i <= b.len() - 4
        invariant
            b.len() >= 4,
            i <= b.len() - 3,
            forall|j: int| 0 <= j < i ==> !#[trigger] head_end_at(b@, j),
        decreases b.len() - i,
    {
        if b[i] == 13 && b[i + 1] == 10 && b[i + 2] == 13 && b[i + 3] == 10 {
            assert(head_end_at(b@, i as int));
            return true;
        }
        i += 1;
    }
    assert forall|j: int| !#[trigger] head_end_at(b@, j) by {
        if 0 <= j < i {
        }
    }
    false
}

/// The method and the target of a request: the first two words of its first
/// line, each empty when missing.
pub open spec fn request_line(text: Seq<char>) -> (Seq<char>, Seq<char>) {
    let ls = lines(text);
    let w = if ls.len() > 0 {
        words(ls[0])
    } else {
        Seq::<Seq<char>>::empty()
    };
    (
        if w.len() > 0 {
            w[0]
        } else {
            Seq::<char>::empty()
        },
        if w.len() > 1 {
            w[1]
        } else {
            Seq::<char>::empty()
        },
    )
}

/// The method and the target of a request.
pub fn parse_request(text: &str) -> (r: (String, String))
    ensures
        (r.0@, r.1@) == request_line(text@),
{
    let chars = chars_of(text);
    let ls = lines_of(&chars);
    let w = if ls.len() > 0 {
        words_of(&ls[0])
    } else {
        Vec::new()
    };
    assert(views(w@) == if lines(text@).len() > 0 {
        words(lines(text@)[0])
    } else {
        Seq::<Seq<char>>::empty()
    }) by {
        if ls.len() == 0 {
            assert(views(w@) =~= Seq::<Seq<char>>::empty());
        } else {
            assert(ls@[0]@ == lines(text@)[0]);
        }
    }
    let method = if w.len() > 0 {
        string_of(&w[0])
    } else {
        String::new()
    };
    let target = if w.len() > 1 {
        string_of(&w[1])
    } else {
        String::new()
    };
    (method, target)
}

// ---------------------------------------------------------------------------
// The sampling schedule and the status document
// ---------------------------------------------------------------------------

/// How many five-second rounds pass between re-readings of the services,
/// the disk and the firmware flags: every 30 seconds.
pub const SLOW_EVERY: u64 = 6;

/// Whether round `cycle` re-reads the slowly changing readings.
pub open spec fn slow_round(cycle: u64) -> bool {
    cycle % SLOW_EVERY == 0
}

/// The number of the round after `cycle`, counting on from zero after the
/// largest.
pub open spec fn next_round(cycle: u64) -> u64 {
    if cycle == u64::MAX {
        0
    } else {
        (cycle + 1) as u64
    }
}

/// Round `cycle` of the sampler: whether it re-reads the services, disk and
/// firmware flags (the first round and every sixth after it, so every 30
/// seconds at one round per five seconds), and the number of the next round.
pub fn round(cycle: u64) -> (r: (bool, u64))
    ensures
        r.0 == slow_round(cycle),
        r.1 == next_round(cycle),
{
    let next = if cycle == u64::MAX {
        0
    } else {
        cycle + 1
    };
    (cycle % SLOW_EVERY == 0, next)
}

/// The status document: the round's metrics, the machine's description,
/// the services, and when the services were last read.
pub open spec fn status_document(
    metrics: Seq<char>,
    system: Seq<char>,
    services: Seq<char>,
    services_updated_at: u64,
) -> Seq<char> {
    object_text(
        seq![
            ("metrics"@, metrics),
            ("system"@, system),
            ("services"@, services),
            ("services_updated_at"@, decimal(services_updated_at as nat)),
        ],
    )
}

/// The status document of a round, from the rendered metrics, description
/// and services and the second the services were read at.
pub fn status_text(metrics: &str, system: &str, services: &str, services_updated_at: u64) -> (s: String)
    ensures
        s@ == status_document(metrics@, system@, services@, services_updated_at),
{
    let fields = [
        ("metrics", metrics.to_owned()),
        ("system", system.to_owned()),
        ("services", services.to_owned()),
        ("services_updated_at", number(Some(services_updated_at))),
    ];
    let s = object(&fields);
    assert(fields@.map_values(|f: (&str, String)| (f.0@, f.1@)) =~= seq![
        ("metrics"@, metrics@),
        ("system"@, system@),
        ("services"@, services@),
        ("services_updated_at"@, decimal(services_updated_at as nat)),
    ]);
    s
}

// ---------------------------------------------------------------------------
// Recent samples
// ---------------------------------------------------------------------------

/// How many recent samples are served: one hour at one per five seconds.
pub const HISTORY_LIMIT: usize = 721;

/// The list after adding `item`: the oldest goes once there are more than
/// `HISTORY_LIMIT`.
pub open spec fn kept(items: Seq<String>, item: String) -> Seq<String> {
    let s = items.push(item);
    if s.len() > HISTORY_LIMIT {
        s.drop_first()
    } else {
        s
    }
}

/// The rendered recent samples, oldest first, at most `HISTORY_LIMIT`.
pub struct Recent {
    items: VecDeque<String>,
}

impl Recent {
    #[verifier::type_invariant]
    spec fn bounded(&self) -> bool {
        self.items@.len() <= HISTORY_LIMIT
    }

    /// The samples, oldest first.
    pub closed spec fn items(&self) -> Seq<String> {
        self.items@
    }

    /// No samples.
    pub fn new() -> (r: Recent)
        ensures
            r.items().len() == 0,
    {
        Recent { items: VecDeque::new() }
    }

    /// Adds a sample; the oldest goes once there are more than
    /// `HISTORY_LIMIT`, so the list never holds more.
    pub fn push(&mut self, item: String)
        ensures
            final(self).items() == kept(old(self).items(), item),
            final(self).items().len() <= HISTORY_LIMIT,
    {
        proof {
            use_type_invariant(&*self);
        }
        let mut items: VecDeque<String> = VecDeque::new();
        std::mem::swap(&mut items, &mut self.items);
        items.push_back(item);
        if items.len() > HISTORY_LIMIT {
            items.pop_front();
        }
        self.items = items;
    }

    /// The number of samples.
    pub fn len(&self) -> (n: usize)
        ensures
            n == self.items().len(),
    {
        self.items.len()
    }

    /// The samples as a JSON array.
    pub fn json(&self) -> (s: String)
        ensures
            s@ == seq!['['] + join(self.items().map_values(|x: String| x@), seq![',']) + seq![']'],
    {
        let ghost v = self.items@.map_values(|x: String| x@);
        let mut s = String::new();
        push_char(&mut s, '[');
        let mut i: usize = 0;
        while i < self.items.len()
            invariant
                i <= self.items@.len(),
                v == self.items@.map_values(|x: String| x@),
                s@ == seq!['['] + join(v.take(i as int), seq![',']),
            decreases self.items@.len() - i,
        {
            if i > 0 {
                push_char(&mut s, ',');
            }
            s.append(self.items[i].as_str());
            proof {
                assert(v.take(i + 1).drop_last() =~= v.take(i as int));
                assert(v.take(i + 1).last() == self.items@[i as int]@);
            }
            assert(s@ =~= seq!['['] + join(v.take(i + 1), seq![',']));
            i += 1;
        }
        assert(v.take(self.items@.len() as int) =~= v);
        push_char(&mut s, ']');
        s
    }
}


/// The items after pushing each of `pushed` in turn, starting from `items`.
pub open spec fn kept_all(items: Seq<String>, pushed: Seq<String>) -> Seq<String>
    decreases pushed.len(),
{
    if pushed.len() == 0 {
        items
    } else {
        kept(kept_all(items, pushed.drop_last()), pushed.last())
    }
}

/// The last `HISTORY_LIMIT` of `s`, or all of it when it is shorter.
pub open spec fn last_kept(s: Seq<String>) -> Seq<String> {
    if s.len() > HISTORY_LIMIT {
        s.skip(s.len() - HISTORY_LIMIT)
    } else {
        s
    }
}

/// The ring buffer over a run of rounds: after pushing any items in turn
/// onto at most `HISTORY_LIMIT` items, it holds the last `HISTORY_LIMIT` of
/// all of them, oldest first; from empty, after `n` pushes, the last
/// `min(n, HISTORY_LIMIT)` pushed.
pub proof fn lemma_recent_keeps_last(items: Seq<String>, pushed: Seq<String>)
    requires
        items.len() <= HISTORY_LIMIT,
    ensures
        kept_all(items, pushed) == last_kept(items + pushed),
    decreases pushed.len(),
{
    if pushed.len() > 0 {
        let init = pushed.drop_last();
        let x = pushed.last();
        lemma_recent_keeps_last(items, init);
        let a = items + init;
        let b = items + pushed;
        assert(b =~= a.push(x));
        let k = last_kept(a);
        if a.len() > HISTORY_LIMIT {
            assert(k.push(x).drop_first() =~= b.skip(b.len() - HISTORY_LIMIT));
        } else if a.len() == HISTORY_LIMIT {
            assert(k.push(x).drop_first() =~= b.skip(b.len() - HISTORY_LIMIT));
        }
    } else {
        assert(items + pushed =~= items);
    }
}

/// Each request path gets its page with its own status and media type: the
/// dashboard at `/` and `/index.html` as HTML, `/style.css` as CSS,
/// `/app.js` as JavaScript (which browsers run only when so labelled, as the
/// responses forbid sniffing), the two endpoints as JSON (the status one
/// with 503 until a first sample is ready), the icon with no content, and
/// anything else not found, as plain text; a query after `?` changes
/// nothing.
pub proof fn lemma_paths_and_media_types(target: Seq<char>, ready: bool)
    ensures
        path_part(target) == "/"@ || path_part(target) == "/index.html"@ ==> status_of(
            page_for(target, ready),
        ) == 200 && content_type_of(page_for(target, ready)) == "text/html; charset=utf-8"@,
        path_part(target) == "/style.css"@ ==> status_of(page_for(target, ready)) == 200
            && content_type_of(page_for(target, ready)) == "text/css; charset=utf-8"@,
        path_part(target) == "/app.js"@ ==> status_of(page_for(target, ready)) == 200
            && content_type_of(page_for(target, ready)) == "text/javascript; charset=utf-8"@,
        path_part(target) == "/api/status"@ ==> status_of(page_for(target, ready)) == (if ready {
            200u16
        } else {
            503u16
        }) && content_type_of(page_for(target, ready)) == "application/json"@,
        path_part(target) == "/api/history"@ ==> status_of(page_for(target, ready)) == 200
            && content_type_of(page_for(target, ready)) == "application/json"@,
        path_part(target) == "/favicon.ico"@ ==> status_of(page_for(target, ready)) == 204
            && content_type_of(page_for(target, ready)) == "image/x-icon"@,
        path_part(target) != "/"@ && path_part(target) != "/index.html"@ && path_part(target)
            != "/style.css"@ && path_part(target) != "/app.js"@ && path_part(target)
            != "/api/status"@ && path_part(target) != "/api/history"@ && path_part(target)
            != "/favicon.ico"@ ==> status_of(page_for(target, ready)) == 404 && content_type_of(
            page_for(target, ready),
        ) == "text/plain; charset=utf-8"@,
{
    reveal_strlit("/");
    reveal_strlit("/index.html");
    reveal_strlit("/style.css");
    reveal_strlit("/app.js");
    reveal_strlit("/api/status");
    reveal_strlit("/api/history");
    reveal_strlit("/favicon.ico");
}

/// A request path without a query is its own path.
pub proof fn lemma_plain_paths()
    ensures
        path_part("/"@) == "/"@,
        path_part("/index.html"@) == "/index.html"@,
        path_part("/style.css"@) == "/style.css"@,
        path_part("/app.js"@) == "/app.js"@,
        path_part("/api/status"@) == "/api/status"@,
        path_part("/api/history"@) == "/api/history"@,
        path_part("/favicon.ico"@) == "/favicon.ico"@,
{
    reveal_strlit("/");
    reveal_strlit("/index.html");
    reveal_strlit("/style.css");
    reveal_strlit("/app.js");
    reveal_strlit("/api/status");
    reveal_strlit("/api/history");
    reveal_strlit("/favicon.ico");
    reveal_with_fuel(first_index, 13);
}

/// The refusal of other methods is plain text with status 405.
pub proof fn lemma_refusal(method: Seq<char>, target: Seq<char>, ready: bool)
    ensures
        method != "GET"@ && method != "HEAD"@ ==> status_of(answer_for(method, target, ready)) == 405
            && content_type_of(answer_for(method, target, ready)) == "text/plain"@,
        method == "GET"@ || method == "HEAD"@ ==> answer_for(method, target, ready) == page_for(
            target,
            ready,
        ),
{
}

/// The status document holds, in order, the round's metrics, the machine's
/// description, the services, and the second the services were read at.
pub proof fn lemma_status_members(
    metrics: Seq<char>,
    system: Seq<char>,
    services: Seq<char>,
    services_updated_at: u64,
)
    ensures
        status_document(metrics, system, services, services_updated_at) == seq!['{'] + member(
            "metrics"@,
            metrics,
        ) + seq![','] + member("system"@, system) + seq![','] + member("services"@, services) + seq![
            ',',
        ] + member("services_updated_at"@, decimal(services_updated_at as nat)) + seq!['}'],
{
    lemma_object4("metrics"@, metrics, "system"@, system, "services"@, services, "services_updated_at"@,
        decimal(services_updated_at as nat));
}

/// The reason phrases of the statuses the server sends.
pub proof fn lemma_reasons()
    ensures
        reason_of(200) == "OK"@,
        reason_of(204) == "No Content"@,
        reason_of(404) == "Not Found"@,
        reason_of(405) == "Method Not Allowed"@,
        reason_of(503) == "Service Unavailable"@,
{
}
} // verus!
