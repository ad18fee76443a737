use vstd::prelude::*;
use vstd::slice::slice_subrange;
use crate::headers::Headers;
use crate::method::{method_of_upper, Method, MethodParseError};
use crate::text::{
    decimal, find_char, latin1, lemma_find_char, lemma_parse_decimal, lossy_utf8, parse_usize,
    parse_usize_str, push_char, split_once, split_once_str, trim, trim_str, upper_of, utf8_lossy,
};

verus! {

/// Position of the first line feed at or after `i`, or the end of `s`.
pub open spec fn line_end(s: Seq<u8>, i: int) -> int
    decreases s.len() - i,
{
    if i >= s.len() {
        s.len() as int
    } else if s[i] == 10u8 {
        i
    } else {
        line_end(s, i + 1)
    }
}

/// Where the line after the one starting at `i` begins.
pub open spec fn next_line(s: Seq<u8>, i: int) -> int {
    if line_end(s, i) < s.len() {
        line_end(s, i) + 1
    } else {
        s.len() as int
    }
}

/// The text of the line that starts at `i`, without its line feed.
pub open spec fn line_text(s: Seq<u8>, i: int) -> Seq<char> {
    latin1(s.subrange(i, line_end(s, i)))
}

pub proof fn lemma_line_end(s: Seq<u8>, i: int)
    requires
        0 <= i <= s.len(),
    ensures
        i <= line_end(s, i) <= s.len(),
        line_end(s, i) < s.len() ==> s[line_end(s, i)] == 10u8,
        forall|j: int| i <= j < line_end(s, i) ==> s[j] != 10u8,
    decreases s.len() - i,
{
    if i < s.len() && s[i] != 10u8 {
        lemma_line_end(s, i + 1);
    }
}

/// Where the text from `pos` on is a line `x` and then `y`, the line at
/// `pos` is `x`.
pub proof fn lemma_line_of_text(b: Seq<u8>, pos: int, x: Seq<char>, y: Seq<char>)
    requires
        0 <= pos <= b.len(),
        latin1(b).subrange(pos, b.len() as int) == x + seq!['\n'] + y,
        !x.contains('\n'),
    ensures
        line_end(b, pos) == pos + x.len(),
        line_text(b, pos) == x,
        next_line(b, pos) == pos + x.len() + 1,
{
    let t = latin1(b).subrange(pos, b.len() as int);
    let k = pos + x.len();
    lemma_line_end(b, pos);
    assert(t.len() == x.len() + 1 + y.len());
    assert(k < b.len());
    assert(t[x.len() as int] == '\n');
    assert(t[x.len() as int] == latin1(b)[k]);
    assert(latin1(b)[k] == b[k] as char);
    assert((b[k] as char) as u32 == b[k] as u32);
    assert(b[k] == 10u8);
    assert forall|j: int| pos <= j < k implies b[j] != 10u8 by {
        assert(t[j - pos] == x[j - pos]);
        assert(latin1(b)[j] == b[j] as char);
        assert((b[j] as char) as u32 == b[j] as u32);
    }
    let le = line_end(b, pos);
    assert(le == k);
    assert(line_text(b, pos) =~= x) by {
        assert forall|j: int| 0 <= j < x.len() implies line_text(b, pos)[j] == x[j] by {
            assert(t[j] == x[j]);
        }
    }
}

/// The header lines from `pos` on, added to `h`: the headers, where the
/// block ends, and whether a blank line ended it (rather than the end of
/// the input). `None` when a line has no colon.
pub open spec fn header_block(s: Seq<u8>, pos: int, h: Map<Seq<char>, Seq<char>>) -> Option<
    (Map<Seq<char>, Seq<char>>, int, bool),
>
    decreases s.len() - pos,
    via header_block_decreases
{
    if pos < 0 || pos >= s.len() {
        Some((h, s.len() as int, false))
    } else {
        let l = line_text(s, pos);
        if trim(l).len() == 0 {
            Some((h, next_line(s, pos), true))
        } else {
            match split_once(l, ':') {
                None => None,
                Some((a, b)) => header_block(s, next_line(s, pos), h.insert(trim(a), trim(b))),
            }
        }
    }
}

#[via_fn]
proof fn header_block_decreases(s: Seq<u8>, pos: int, h: Map<Seq<char>, Seq<char>>) {
    if 0 <= pos < s.len() {
        lemma_line_end(s, pos);
    }
}

/// The declared body length: the `Content-Length` header read as a
/// number, 0 when absent or not a number.
pub open spec fn content_length(h: Map<Seq<char>, Seq<char>>) -> nat {
    if h.contains_key("Content-Length"@) {
        match parse_usize(h["Content-Length"@]) {
            Some(n) => n as nat,
            None => 0,
        }
    } else {
        0
    }
}

/// The first two space-separated fields of a request line; the second is
/// absent when the line has no space.
pub open spec fn line_fields(l: Seq<char>) -> (Seq<char>, Option<Seq<char>>) {
    match split_once(l, ' ') {
        None => (l, None),
        Some((a, rest)) => match split_once(rest, ' ') {
            Some((b, _)) => (a, Some(b)),
            None => (a, Some(rest)),
        },
    }
}

/// Why a request could not be read.
pub enum ParseFailure {
    BadMethod(Seq<char>),
    MissingPath,
    MalformedHeader,
}

/// What a request reads as.
pub struct RequestModel {
    pub method: Method,
    pub endpoint: Seq<char>,
    pub headers: Map<Seq<char>, Seq<char>>,
    pub body: Option<Seq<char>>,
}

/// The request that the bytes `s` encode: a request line with a method and a
/// path, header lines up to a blank line, then a body of `Content-Length`
/// bytes (fewer where the input ends first).
pub open spec fn decode(s: Seq<u8>) -> Result<RequestModel, ParseFailure> {
    let (f0, f1) = line_fields(line_text(s, 0));
    match method_of_upper(upper_of(f0)) {
        None => Err(ParseFailure::BadMethod(upper_of(f0))),
        Some(m) => match f1 {
            None => Err(ParseFailure::MissingPath),
            Some(p) => match header_block(s, next_line(s, 0), Map::empty()) {
                None => Err(ParseFailure::MalformedHeader),
                Some((h, q, _)) => {
                    let n = content_length(h);
                    let end = if q + n < s.len() { q + n } else { s.len() as int };
                    Ok(
                        RequestModel {
                            method: m,
                            endpoint: trim(p),
                            headers: h,
                            body: if n == 0 { None } else { Some(lossy_utf8(s.subrange(q, end))) },
                        },
                    )
                },
            },
        },
    }
}

/// A request line made of a method token, a space, a path, and nothing else
/// or a space and more, reads as that method and the path trimmed, whenever
/// the header lines after it are well formed.
pub proof fn law_request_line(s: Seq<u8>, token: Seq<char>, path: Seq<char>, rest: Seq<char>, m: Method)
    requires
        line_text(s, 0) == token + seq![' '] + path + rest,
        !token.contains(' '),
        !path.contains(' '),
        rest.len() == 0 || rest[0] == ' ',
        method_of_upper(upper_of(token)) == Some(m),
        header_block(s, next_line(s, 0), Map::empty()) is Some,
    ensures
        decode(s) is Ok,
        decode(s)->Ok_0.method == m,
        decode(s)->Ok_0.endpoint == trim(path),
{
    let l = line_text(s, 0);
    let k = token.len() as int;
    lemma_find_char(l, ' ');
    assert(l[k] == ' ');
    assert forall|j: int| 0 <= j < k implies l[j] != ' ' by {
        assert(l[j] == token[j]);
    }
    assert(find_char(l, ' ') == Some(k as nat));
    let after = l.subrange(k + 1, l.len() as int);
    assert(after =~= path + rest);
    lemma_find_char(after, ' ');
    assert forall|j: int| 0 <= j < path.len() implies after[j] != ' ' by {
        assert(after[j] == path[j]);
    }
    assert(l.subrange(0, k) =~= token);
    if rest.len() == 0 {
        assert(after =~= path);
        assert(line_fields(l) == (token, Some(path)));
    } else {
        assert(after[path.len() as int] == ' ');
        assert(find_char(after, ' ') == Some(path.len()));
        assert(after.subrange(0, path.len() as int) =~= path);
        assert(line_fields(l) == (token, Some(path)));
    }
}

/// With `Content-Length` set to the decimal numeral of `n`, or with no such
/// header and `n` zero, a request followed by at least `n` bytes has as body
/// exactly those `n` bytes, decoded; with `n` zero it has none.
pub proof fn law_declared_body(s: Seq<u8>, h: Map<Seq<char>, Seq<char>>, q: int, n: nat)
    requires
        decode(s) is Ok,
        header_block(s, next_line(s, 0), Map::empty()) == Some((h, q, true)),
        (h.contains_key("Content-Length"@) && h["Content-Length"@] == decimal(n)) || (n == 0
            && !h.contains_key("Content-Length"@)),
        n <= usize::MAX,
        q + n <= s.len(),
    ensures
        decode(s)->Ok_0.body == if n == 0 {
            None
        } else {
            Some(lossy_utf8(s.subrange(q, q + n)))
        },
{
    if h.contains_key("Content-Length"@) {
        lemma_parse_decimal(n);
    }
    assert(content_length(h) == n);
}

/// An error in reading a request.
#[derive(Debug)]
pub enum ParseError {
    Method(MethodParseError),
    MissingPath,
    MalformedHeader,
}

/// A request as read from a connection.
#[derive(Debug, Clone)]
pub struct Request {
    pub method: Method,
    pub endpoint: String,
    pub headers: Headers,
    pub body: Option<String>,
}

impl Request {
    /// Whether `self` is the request that `m` describes.
    pub open spec fn models(&self, m: RequestModel) -> bool {
        &&& self.method == m.method
        &&& self.endpoint@ == m.endpoint
        &&& self.headers.wf()
        &&& self.headers.map() == m.headers
        &&& match self.body {
            Some(b) => m.body == Some(b@),
            None => m.body is None,
        }
    }
}

/// Reads the line that starts at `start`: its characters (each byte taken as
/// the character of the same code) and where the next line starts.
pub fn read_line(input: &[u8], start: usize) -> (r: (String, usize))
    requires
        start <= input@.len(),
    ensures
        r.0@ == line_text(input@, start as int),
        r.1 == next_line(input@, start as int),
{
    let ghost s = input@;
    let mut line = String::new();
    let mut i: usize = start;
    while i < input.len()
        invariant
            start <= i <= s.len(),
            s == input@,
            line@ == latin1(s.subrange(start as int, i as int)),
            line_end(s, start as int) == line_end(s, i as int),
        decreases s.len() - i,
    {
        let b = input[i];
        if b == 10u8 {
            return (line, i + 1);
        }
        push_char(&mut line, b as char);
        assert(latin1(s.subrange(start as int, i + 1)) =~= latin1(s.subrange(start as int, i as int)).push(b as char));
        i = i + 1;
    }
    (line, i)
}


/// Reads the header lines from `start` on, up to a blank line or the end of
/// the input: the headers and where the lines after them begin.
pub fn read_headers(input: &[u8], start: usize) -> (r: Option<(Headers, usize)>)
    requires
        start <= input@.len(),
    ensures
        match header_block(input@, start as int, Map::empty()) {
            None => r is None,
            Some((h, q, _)) => r matches Some((hs, p)) && hs.wf() && hs.map() == h && p == q
                && p <= input@.len(),
        },
{
    let ghost s = input@;
    let mut headers = Headers::new();
    let mut pos = start;
    let mut ended = false;
    proof {
        assert(headers.map() =~= Map::<Seq<char>, Seq<char>>::empty());
    }
    while !ended && pos < input.len()
        invariant
            s == input@,
            pos <= s.len(),
            headers.wf(),
            ended ==> header_block(s, start as int, Map::empty()) == Some(
                (headers.map(), pos as int, true),
            ),
            !ended ==> header_block(s, start as int, Map::empty()) == header_block(
                s,
                pos as int,
                headers.map(),
            ),
        decreases s.len() - pos,
    {
        let (l, next) = read_line(input, pos);
        proof {
            lemma_line_end(s, pos as int);
        }
        let t = trim_str(l.as_str());
        if t.is_empty() {
            pos = next;
            ended = true;
        } else {
            match split_once_str(l.as_str(), ':') {
                None => {
                    return None;
                },
                Some((a, b)) => {
                    let name = trim_str(a).to_owned();
                    let value = trim_str(b).to_owned();
                    headers.insert(name, value);
                    pos = next;
                },
            }
        }
    }
    Some((headers, pos))
}

/// The body length that `headers` declare.
pub fn declared_length(headers: &Headers) -> (r: usize)
    requires
        headers.wf(),
    ensures
        r == content_length(headers.map()),
{
    let key = "Content-Length".to_owned();
    proof {
        reveal_strlit("Content-Length");
    }
    match headers.get(&key) {
        Some(v) => match parse_usize_str(v.as_str()) {
            Some(n) => n,
            None => 0,
        },
        None => 0,
    }
}

impl Request {
    /// Reads a request from the bytes of a connection.
    pub fn read(input: &[u8]) -> (r: Result<Request, ParseError>)
        ensures
            match r {
                Ok(req) => decode(input@) is Ok && req.models(decode(input@)->Ok_0),
                Err(ParseError::Method(e)) => decode(input@) == Err::<RequestModel, _>(
                    ParseFailure::BadMethod(e.0@),
                ),
                Err(ParseError::MissingPath) => decode(input@) == Err::<RequestModel, _>(
                    ParseFailure::MissingPath,
                ),
                Err(ParseError::MalformedHeader) => decode(input@) == Err::<RequestModel, _>(
                    ParseFailure::MalformedHeader,
                ),
            },
    {
        let (line, start) = read_line(input, 0);
        let (f0, rest) = match split_once_str(line.as_str(), ' ') {
            Some((a, b)) => (a, Some(b)),
            None => (line.as_str(), None),
        };
        let f1 = match rest {
            None => None,
            Some(r) => match split_once_str(r, ' ') {
                Some((b, _)) => Some(b),
                None => Some(r),
            },
        };
        let method = match Method::parse(f0) {
            Ok(m) => m,
            Err(e) => {
                return Err(ParseError::Method(e));
            },
        };
        let endpoint = match f1 {
            None => {
                return Err(ParseError::MissingPath);
            },
            Some(p) => trim_str(p).to_owned(),
        };
        let (headers, pos) = match read_headers(input, start) {
            None => {
                return Err(ParseError::MalformedHeader);
            },
            Some(hp) => hp,
        };
        let n = declared_length(&headers);
        let body = if n == 0 {
            None
        } else {
            let end = if n < input.len() - pos {
                pos + n
            } else {
                input.len()
            };
            let bytes = slice_subrange(input, pos, end);
            Some(utf8_lossy(bytes))
        };
        Ok(Request { method, endpoint, headers, body })
    }
}

} // verus!
