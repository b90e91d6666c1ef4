//! Requests and responses of a minimal HTTP/1.1 server.
use std::collections::HashMap;
use vstd::prelude::*;
use vstd::std_specs::hash::obeys_key_model;
use vstd::string::{StrSliceExecFns, StringExecFns, StringSliceAdditionalSpecFns};

verus! {

/// One parsed request line and its query arguments.
#[derive(Debug)]
pub struct HttpRequest {
    pub verb: String,
    pub path: String,
    pub version: String,
    pub arguments: HashMap<String, String>,
}

impl HttpRequest {
    pub fn new(verb: &str, path: &str, version: &str, arguments: HashMap<String, String>) -> (r:
        HttpRequest)
        ensures
            r.verb@ == verb@,
            r.path@ == path@,
            r.version@ == version@,
            r.arguments == arguments,
    {
        HttpRequest {
            verb: String::from_str(verb),
            path: String::from_str(path),
            version: String::from_str(version),
            arguments,
        }
    }
}

/// A status code and a plain-text body.
#[derive(Debug)]
pub struct HttpResponse {
    code: HttpStatus,
    body: String,
}

/// The status codes this server answers with.
#[derive(Clone, Copy, Debug, PartialEq, Eq, Structural)]
pub enum HttpStatus {
    Success,
    BadRequest,
    NotFound,
    MethodNotAllowed,
    HttpVersionNotSupported,
}

/// The status line text of `s`.
pub open spec fn status_text(s: HttpStatus) -> Seq<char> {
    match s {
        HttpStatus::Success => "200 OK"@,
        HttpStatus::BadRequest => "400 Bad Request"@,
        HttpStatus::NotFound => "404 Not Found"@,
        HttpStatus::MethodNotAllowed => "405 Method Not Allowed"@,
        HttpStatus::HttpVersionNotSupported => "505 HTTP Version Not Supported"@,
    }
}

impl HttpStatus {
    /// The code and reason phrase, as sent in a status line.
    pub fn to_string(&self) -> (r: &'static str)
        ensures
            r@ == status_text(*self),
    {
        match self {
            HttpStatus::Success => "200 OK",
            HttpStatus::BadRequest => "400 Bad Request",
            HttpStatus::NotFound => "404 Not Found",
            HttpStatus::MethodNotAllowed => "405 Method Not Allowed",
            HttpStatus::HttpVersionNotSupported => "505 HTTP Version Not Supported",
        }
    }
}

impl HttpResponse {
    pub closed spec fn spec_code(&self) -> HttpStatus {
        self.code
    }

    pub closed spec fn spec_body(&self) -> Seq<char> {
        self.body@
    }

    pub fn new(code: HttpStatus, body: String) -> (r: HttpResponse)
        ensures
            r.spec_code() == code,
            r.spec_body() == body@,
    {
        HttpResponse { code, body }
    }

    /// `200 OK` with `body`.
    pub fn ok(body: String) -> (r: HttpResponse)
        ensures
            r.spec_code() == HttpStatus::Success,
            r.spec_body() == body@,
    {
        HttpResponse::new(HttpStatus::Success, body)
    }

    /// `404 Not Found`, naming the missing `url`.
    pub fn not_found(url: String) -> (r: HttpResponse)
        ensures
            r.spec_code() == HttpStatus::NotFound,
            r.spec_body() == url@,
    {
        HttpResponse::new(HttpStatus::NotFound, url)
    }

    /// `400 Bad Request` with an explanation.
    pub fn bad_request(message: String) -> (r: HttpResponse)
        ensures
            r.spec_code() == HttpStatus::BadRequest,
            r.spec_body() == message@,
    {
        HttpResponse::new(HttpStatus::BadRequest, message)
    }

    /// The status of the response.
    pub fn code(&self) -> (r: HttpStatus)
        ensures
            r == self.spec_code(),
    {
        self.code
    }

    /// The body of the response.
    pub fn body(&self) -> (r: &String)
        ensures
            r@ == self.spec_body(),
    {
        &self.body
    }
}

/// A health check: answers `200 OK` echoing the verb, path and version.
pub fn health<T>(request: HttpRequest, _state: &T) -> (r: HttpResponse)
    ensures
        r.spec_code() == HttpStatus::Success,
        r.spec_body() == request.verb@ + " "@ + request.path@ + " "@ + request.version@,
{
    let mut body = request.verb;
    body.append(" ");
    body.append(request.path.as_str());
    body.append(" ");
    body.append(request.version.as_str());
    HttpResponse::ok(body)
}

/// Splits `s` at every `sep`, scanning from the left: the pieces already
/// closed by a separator, and the piece still open.
pub open spec fn split_scan(s: Seq<char>, sep: char) -> (Seq<Seq<char>>, Seq<char>)
    decreases s.len(),
{
    if s.len() == 0 {
        (Seq::empty(), Seq::empty())
    } else {
        let before = split_scan(s.drop_last(), sep);
        if s.last() == sep {
            (before.0.push(before.1), Seq::empty())
        } else {
            (before.0, before.1.push(s.last()))
        }
    }
}

/// The pieces of `s` between separators `sep`, as `str::split` gives them:
/// empty pieces included, and always at least one.
pub open spec fn pieces(s: Seq<char>, sep: char) -> Seq<Seq<char>> {
    split_scan(s, sep).0.push(split_scan(s, sep).1)
}

/// Splits `s` at every `sep`.
pub fn split_char(s: &str, sep: char) -> (r: Vec<&str>)
    ensures
        r@.map_values(|p: &str| p@) == pieces(s@, sep),
{
    let n = s.unicode_len();
    let mut out: Vec<&str> = Vec::new();
    let mut start: usize = 0;
    let mut i: usize = 0;
    assert(out@.map_values(|p: &str| p@) =~= split_scan(s@.subrange(0, 0), sep).0);
    assert(s@.subrange(0, 0) =~= s@.subrange(start as int, i as int));
    while i < n
        invariant
            n == s@.len(),
            start <= i <= n,
            out@.map_values(|p: &str| p@) == split_scan(s@.subrange(0, i as int), sep).0,
            s@.subrange(start as int, i as int) == split_scan(s@.subrange(0, i as int), sep).1,
        decreases n - i,
    {
        let c = s.get_char(i);
        let ghost prefix = s@.subrange(0, i as int + 1);
        assert(prefix.drop_last() =~= s@.subrange(0, i as int));
        if c == sep {
            let piece = s.substring_char(start, i);
            let ghost before = out@;
            out.push(piece);
            assert(out@.map_values(|p: &str| p@) =~= before.map_values(|p: &str| p@).push(piece@));
            start = i + 1;
            assert(s@.subrange(start as int, i as int + 1) =~= Seq::<char>::empty());
        } else {
            assert(s@.subrange(start as int, i as int + 1) =~= s@.subrange(start as int, i as int).push(c));
        }
        i += 1;
    }
    let last = s.substring_char(start, n);
    let ghost before = out@;
    out.push(last);
    assert(s@.subrange(0, n as int) =~= s@);
    assert(out@.map_values(|p: &str| p@) =~= before.map_values(|p: &str| p@).push(last@));
    out
}

/// Relies on `str == str`: equal exactly when the characters are.
#[verifier::external_body]
fn str_equals(a: &str, b: &str) -> (r: bool)
    ensures
        r == (a@ == b@),
{
    a == b
}

/// `c` is an ASCII hexadecimal digit.
pub open spec fn is_hex(c: u8) -> bool {
    (48 <= c <= 57) || (65 <= c <= 70) || (97 <= c <= 102)
}

/// The value of the hexadecimal digit `c`.
pub open spec fn hex_value(c: u8) -> int {
    if c <= 57 {
        c - 48
    } else if c <= 70 {
        c - 55
    } else {
        c - 87
    }
}

/// Percent-decoding of the bytes `b`: `%` and two hexadecimal digits stand
/// for one byte; a `%` not followed by two of them stays as it is, and so does
/// every other byte (`+` included).
pub open spec fn percent_decoded(b: Seq<u8>) -> Seq<u8>
    decreases b.len(),
{
    if b.len() == 0 {
        Seq::empty()
    } else if b[0] != 37 || b.len() < 3 {
        if b[0] == 37 {
            b
        } else {
            seq![b[0]] + percent_decoded(b.subrange(1, b.len() as int))
        }
    } else if is_hex(b[1]) && is_hex(b[2]) {
        seq![(16 * hex_value(b[1]) + hex_value(b[2])) as u8] + percent_decoded(
            b.subrange(3, b.len() as int),
        )
    } else if is_hex(b[1]) {
        seq![37u8, b[1]] + percent_decoded(b.subrange(2, b.len() as int))
    } else {
        seq![37u8] + percent_decoded(b.subrange(1, b.len() as int))
    }
}

/// The percent-decoding of the text `s` read as UTF-8, or `None` where the
/// decoded bytes are not UTF-8.
pub open spec fn url_decoded(s: Seq<char>) -> Option<Seq<char>> {
    let d = percent_decoded(vstd::utf8::encode_utf8(s));
    if vstd::utf8::valid_utf8(d) {
        Some(vstd::utf8::decode_utf8(d))
    } else {
        None
    }
}

/// `c` does not occur in `s`.
pub open spec fn lacks(s: Seq<char>, c: char) -> bool {
    forall|i: int| 0 <= i < s.len() ==> s[i] != c
}

/// Relies on `urlencoding::decode`: percent-decodes `s` as UTF-8; text with
/// no `%` comes back unchanged.
#[verifier::external_body]
fn url_decode(s: &str) -> (r: Option<String>)
    ensures
        r is None <==> url_decoded(s@) is None,
        r matches Some(t) ==> url_decoded(s@) == Some(t@),
{
    match urlencoding::decode(s) {
        Ok(t) => Some(t.into_owned()),
        Err(_) => None,
    }
}

/// One `name=value` argument, both sides decoded; `None` unless there is
/// exactly one `=` and both sides decode.
pub open spec fn decode_argument(a: Seq<char>) -> Option<(Seq<char>, Seq<char>)> {
    let parts = pieces(a, '=');
    if parts.len() == 2 && url_decoded(parts[0]) is Some && url_decoded(parts[1]) is Some {
        Some((url_decoded(parts[0]).unwrap(), url_decoded(parts[1]).unwrap()))
    } else {
        None
    }
}

/// Every `&`-separated argument of `query` decodes.
pub open spec fn query_ok(query: Seq<char>) -> bool {
    forall|i: int|
        0 <= i < pieces(query, '&').len() ==> (#[trigger] decode_argument(pieces(query, '&')[i])) is Some
}

/// Decodes the `name=value` arguments of a query string, in order.
pub fn parse_query(query: &str) -> (r: Option<Vec<(String, String)>>)
    ensures
        r is Some <==> query_ok(query@),
        r matches Some(args) ==> {
            &&& args@.len() == pieces(query@, '&').len()
            &&& forall|i: int|
                0 <= i < args@.len() ==> decode_argument(pieces(query@, '&')[i]) == Some(
                    (#[trigger] args@[i].0@, args@[i].1@),
                )
        },
{
    let arguments = split_char(query, '&');
    let ghost ps = pieces(query@, '&');
    assert(arguments@.len() == ps.len());
    let mut out: Vec<(String, String)> = Vec::new();
    let mut k: usize = 0;
    while k < arguments.len()
        invariant
            ps == pieces(query@, '&'),
            arguments@.map_values(|p: &str| p@) == ps,
            k <= arguments@.len(),
            out@.len() == k,
            forall|i: int|
                0 <= i < k ==> decode_argument(ps[i]) == Some((#[trigger] out@[i].0@, out@[i].1@)),
        decreases arguments@.len() - k,
    {
        let argument = arguments[k];
        assert(argument@ == ps[k as int]);
        let parts = split_char(argument, '=');
        assert(parts@.len() == pieces(argument@, '=').len());
        if parts.len() != 2 {
            assert(decode_argument(ps[k as int]) is None);
            return None;
        }
        assert(parts@[0]@ == pieces(argument@, '=')[0]);
        assert(parts@[1]@ == pieces(argument@, '=')[1]);
        let name = match url_decode(parts[0]) {
            Some(t) => t,
            None => {
                assert(decode_argument(ps[k as int]) is None);
                return None;
            },
        };
        let value = match url_decode(parts[1]) {
            Some(t) => t,
            None => {
                assert(decode_argument(ps[k as int]) is None);
                return None;
            },
        };
        out.push((name, value));
        k += 1;
    }
    assert forall|i: int| 0 <= i < ps.len() implies (#[trigger] decode_argument(ps[i])) is Some by {
        assert(decode_argument(ps[i]) == Some((out@[i].0@, out@[i].1@)));
    }
    Some(out)
}

/// The index of the first `c` in `s`, or the length of `s` if there is none.
pub open spec fn index_of(s: Seq<char>, c: char) -> int
    decreases s.len(),
{
    if s.len() == 0 {
        0
    } else if s[0] == c {
        0
    } else {
        1 + index_of(s.subrange(1, s.len() as int), c)
    }
}

/// The path of a request target: everything before the first `?`.
pub open spec fn target_path(t: Seq<char>) -> Seq<char> {
    t.subrange(0, index_of(t, '?'))
}

/// The query of a request target: everything after the first `?`, if any.
pub open spec fn target_query(t: Seq<char>) -> Option<Seq<char>> {
    if index_of(t, '?') < t.len() {
        Some(t.subrange(index_of(t, '?') + 1, t.len() as int))
    } else {
        None
    }
}

proof fn lemma_index_of(s: Seq<char>, c: char, i: int)
    requires
        0 <= i <= s.len(),
        lacks(s.subrange(0, i), c),
    ensures
        i < s.len() && s[i] == c ==> index_of(s, c) == i,
        i == s.len() ==> index_of(s, c) == s.len(),
    decreases i,
{
    if i > 0 {
        assert(s.subrange(0, i)[0] == s[0]);
        let t = s.subrange(1, s.len() as int);
        assert(lacks(t.subrange(0, i - 1), c)) by {
            assert forall|j: int| 0 <= j < i - 1 implies #[trigger] t.subrange(0, i - 1)[j] != c by {
                assert(t.subrange(0, i - 1)[j] == s.subrange(0, i)[j + 1]);
            }
        }
        lemma_index_of(t, c, i - 1);
    }
}

/// Splits a request target at its first `?` into the path and the query.
pub fn split_target(target: &str) -> (r: (&str, Option<&str>))
    ensures
        r.0@ == target_path(target@),
        (match r.1 {
            None => target_query(target@) is None,
            Some(q) => target_query(target@) == Some(q@),
        }),
{
    let n = target.unicode_len();
    let mut i: usize = 0;
    while i < n
        invariant
            n == target@.len(),
            i <= n,
            lacks(target@.subrange(0, i as int), '?'),
        decreases n - i,
    {
        if target.get_char(i) == '?' {
            proof {
                lemma_index_of(target@, '?', i as int);
            }
            let path = target.substring_char(0, i);
            let query = target.substring_char(i + 1, n);
            return (path, Some(query));
        }
        assert(lacks(target@.subrange(0, i as int + 1), '?')) by {
            assert forall|j: int| 0 <= j < i + 1 implies #[trigger] target@.subrange(0, i as int + 1)[j] != '?' by {
                if j < i {
                    assert(target@.subrange(0, i as int + 1)[j] == target@.subrange(0, i as int)[j]);
                }
            }
        }
        i += 1;
    }
    proof {
        lemma_index_of(target@, '?', n as int);
    }
    assert(target@.subrange(0, n as int) =~= target@);
    (target, None)
}

/// The query of `t`, if any, decodes.
pub open spec fn target_ok(t: Seq<char>) -> bool {
    match target_query(t) {
        None => true,
        Some(q) => query_ok(q),
    }
}

/// The decoded `(name, value)` arguments of the target `t`, in order; none
/// without a query.
pub open spec fn target_arguments(t: Seq<char>) -> Seq<(Seq<char>, Seq<char>)> {
    match target_query(t) {
        None => Seq::empty(),
        Some(q) => pieces(q, '&').map_values(|a: Seq<char>| decode_argument(a).unwrap()),
    }
}

/// The contents of a list of string pairs.
pub open spec fn pair_views(pairs: Seq<(String, String)>) -> Seq<(Seq<char>, Seq<char>)> {
    pairs.map_values(|p: (String, String)| (p.0@, p.1@))
}

/// The map that inserting `pairs` in order builds: each name goes to the
/// value of its last occurrence.
pub open spec fn pairs_map(pairs: Seq<(String, String)>) -> Map<String, String>
    decreases pairs.len(),
{
    if pairs.len() == 0 {
        Map::empty()
    } else {
        pairs_map(pairs.drop_last()).insert(pairs.last().0, pairs.last().1)
    }
}

/// Inserts `pairs` into a new map in order, a later name replacing an earlier
/// one. What the map then holds is known where `String` keys follow the key
/// model of `HashMap`.
pub fn arguments_map(pairs: Vec<(String, String)>) -> (r: HashMap<String, String>)
    ensures
        obeys_key_model::<String>() ==> r@ == pairs_map(pairs@),
{
    broadcast use vstd::std_specs::hash::axiom_random_state_builds_valid_hashers;

    let ghost all = pairs@;
    let mut arguments: HashMap<String, String> = HashMap::new();
    let mut rest = pairs;
    let ghost k: int = 0;
    assert(all.subrange(0, 0) =~= Seq::<(String, String)>::empty());
    assert(rest@ =~= all.subrange(0, all.len() as int));
    while rest.len() > 0
        invariant
            0 <= k <= all.len(),
            rest@ == all.subrange(k, all.len() as int),
            obeys_key_model::<String>() ==> arguments@ == pairs_map(all.subrange(0, k)),
        decreases rest@.len(),
    {
        let ghost before = rest@;
        let (name, value) = rest.remove(0);
        assert(all.subrange(0, k + 1).drop_last() =~= all.subrange(0, k));
        assert(all.subrange(0, k + 1).last() == before[0]);
        arguments.insert(name, value);
        assert(rest@ =~= all.subrange(k + 1, all.len() as int));
        proof {
            k = k + 1;
        }
    }
    assert(all.subrange(0, all.len() as int) =~= all);
    arguments
}

/// Splits the query off a request target and decodes its arguments into a
/// map, a later argument replacing an earlier one of the same name. Fails
/// when an argument does not decode.
pub fn parse_querystring_arguments(target: &str) -> (r: Result<(&str, HashMap<String, String>), ()>)
    ensures
        r is Ok <==> target_ok(target@),
        r matches Ok((path, args)) ==> {
            &&& path@ == target_path(target@)
            &&& target_query(target@) is None ==> args@ == Map::<String, String>::empty()
            &&& exists|pairs: Seq<(String, String)>|
                #[trigger] pair_views(pairs) == target_arguments(target@) && (obeys_key_model::<
                    String,
                >() ==> args@ == pairs_map(pairs))
        },
{
    let (path, query) = split_target(target);
    match query {
        None => {
            let arguments: HashMap<String, String> = HashMap::new();
            let ghost none = Seq::<(String, String)>::empty();
            assert(pair_views(none) =~= target_arguments(target@));
            assert(pairs_map(none) == Map::<String, String>::empty());
            Ok((path, arguments))
        },
        Some(query) => match parse_query(query) {
            Some(pairs) => {
                let ghost ps = pairs@;
                assert(pair_views(ps) =~= target_arguments(target@)) by {
                    let q = query@;
                    assert forall|i: int| 0 <= i < ps.len() implies #[trigger] pair_views(ps)[i]
                        == target_arguments(target@)[i] by {
                        assert(decode_argument(pieces(q, '&')[i]) == Some((ps[i].0@, ps[i].1@)));
                    }
                }
                let arguments = arguments_map(pairs);
                Ok((path, arguments))
            },
            None => Err(()),
        },
    }
}

/// The status and body answering the request line `line`, or `None` when it
/// is served: a line of fewer than three space-separated parts is a bad
/// request; then the verb must be `GET`, the version `HTTP/1.1`, and the
/// query of the target must decode.
pub open spec fn request_line_error(line: Seq<char>) -> Option<(HttpStatus, Seq<char>)> {
    let parts = pieces(line, ' ');
    if parts.len() < 3 {
        Some((HttpStatus::BadRequest, Seq::empty()))
    } else if parts[0] != "GET"@ {
        Some((HttpStatus::MethodNotAllowed, parts[0]))
    } else if parts[2] != "HTTP/1.1"@ {
        Some((HttpStatus::HttpVersionNotSupported, parts[2]))
    } else if !target_ok(parts[1]) {
        Some((HttpStatus::BadRequest, "Unable to parse querystring"@))
    } else {
        None
    }
}

/// Parses a request line such as `GET /assess?g=parse,clint HTTP/1.1`.
/// Only `GET` and `HTTP/1.1` are served; any other verb or version, too few
/// parts, or a query that does not decode gives the response to send back.
pub fn parse_request_line(line: &str) -> (r: Result<HttpRequest, HttpResponse>)
    ensures
        r is Err <==> request_line_error(line@) is Some,
        r matches Err(e) ==> request_line_error(line@) == Some((e.spec_code(), e.spec_body())),
        r matches Ok(request) ==> {
            &&& pieces(line@, ' ').len() >= 3
            &&& request.verb@ == "GET"@
            &&& request.version@ == "HTTP/1.1"@
            &&& target_ok(pieces(line@, ' ')[1])
            &&& request.path@ == target_path(pieces(line@, ' ')[1])
            &&& exists|pairs: Seq<(String, String)>|
                #[trigger] pair_views(pairs) == target_arguments(pieces(line@, ' ')[1]) && (
                obeys_key_model::<String>() ==> request.arguments@ == pairs_map(pairs))
        },
{
    let parts = split_char(line, ' ');
    let ghost ps = pieces(line@, ' ');
    assert(parts@.len() == ps.len());
    if parts.len() < 3 {
        return Err(HttpResponse::bad_request(String::new()));
    }
    assert(parts@[0]@ == ps[0] && parts@[1]@ == ps[1] && parts@[2]@ == ps[2]);
    let verb = parts[0];
    if !str_equals(verb, "GET") {
        return Err(HttpResponse::new(HttpStatus::MethodNotAllowed, String::from_str(verb)));
    }
    let version = parts[2];
    if !str_equals(version, "HTTP/1.1") {
        return Err(HttpResponse::new(HttpStatus::HttpVersionNotSupported, String::from_str(version)));
    }
    match parse_querystring_arguments(parts[1]) {
        Ok((path, arguments)) => Ok(HttpRequest::new(verb, path, version, arguments)),
        Err(()) => Err(
            HttpResponse::new(HttpStatus::BadRequest, String::from_str("Unable to parse querystring")),
        ),
    }
}

/// The decimal digits of `n`, most significant first.
pub open spec fn decimal_text(n: nat) -> Seq<char>
    decreases n,
{
    if n < 10 {
        seq![(n + 48) as char]
    } else {
        decimal_text(n / 10).push(((n % 10) + 48) as char)
    }
}

/// Relies on `usize::to_string`: the decimal digits of `n`.
#[verifier::external_body]
fn usize_text(n: usize) -> (r: String)
    ensures
        r@ == decimal_text(n as nat),
{
    n.to_string()
}

/// The bytes sent for `response`: status line, a plain-text content type,
/// the body's length in bytes, a blank line, and the body.
pub open spec fn response_text(code: HttpStatus, body: Seq<char>) -> Seq<char> {
    "HTTP/1.1 "@ + status_text(code) + "\r\nContent-Type: text/plain; charset=utf-8\r\nContent-Length: "@
        + decimal_text(vstd::utf8::encode_utf8(body).len()) + "\r\n\r\n"@ + body
}

/// Renders a response as sent on the wire.
pub fn render_response(response: &HttpResponse) -> (r: String)
    ensures
        r@ == response_text(response.spec_code(), response.spec_body()),
{
    let body = response.body.as_str();
    let length = body.as_bytes().len();
    let mut out = String::from_str("HTTP/1.1 ");
    out.append(response.code.to_string());
    out.append("\r\nContent-Type: text/plain; charset=utf-8\r\nContent-Length: ");
    let digits = usize_text(length);
    out.append(digits.as_str());
    out.append("\r\n\r\n");
    out.append(body);
    out
}

} // verus!
