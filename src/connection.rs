use vstd::prelude::*;
use crate::headers::Headers;
use crate::request::{
    content_length, declared_length, decode, lemma_line_end, line_end, line_text, next_line,
    read_line, Request,
};
use crate::response::Response;
use crate::router::{resolve_in, Router};
use crate::text::{split_once, split_once_str, trim, trim_str};

verus! {

/// What to do with a connection's request.
pub enum Action<'a, H> {
    /// Call the handler on the request and send what it returns.
    Invoke(&'a H, Request),
    /// Send this response.
    Reply(Response),
}

/// Decides how to answer the request in `input`: a request that cannot be
/// read gets `400`; else the route's handler is invoked; with no route the
/// reply is `404`.
pub fn dispatch<'a, H>(routes: &'a Router<H>, input: &[u8]) -> (r: Action<'a, H>)
    requires
        routes.wf(),
    ensures
        match decode(input@) {
            Err(_) => match r {
                Action::Reply(resp) => resp.wf() && resp.spec_status() == 400
                    && resp.spec_headers()@.len() == 0 && resp.spec_body() == "Bad Request"@,
                Action::Invoke(_, _) => false,
            },
            Ok(m) => match resolve_in(routes.table(), m.method, m.endpoint) {
                Some(h) => match r {
                    Action::Invoke(g, req) => *g == h && req.models(m),
                    Action::Reply(_) => false,
                },
                None => match r {
                    Action::Reply(resp) => resp.wf() && resp.spec_status() == 404
                        && resp.spec_headers()@.len() == 0 && resp.spec_body() == "Not Found"@,
                    Action::Invoke(_, _) => false,
                },
            },
        },
{
    match Request::read(input) {
        Err(_) => Action::Reply(Response::bad_request()),
        Ok(req) => match routes.resolve(req.method, &req.endpoint) {
            Some(h) => Action::Invoke(h, req),
            None => Action::Reply(Response::not_found()),
        },
    }
}

/// How many bytes of input the header lines from `pos` on call for, given
/// the headers `h` before them: `None` while the head is not ended by a
/// complete blank line; the end of the body once it is; the end of a line
/// without a colon, since nothing after it is read.
pub open spec fn wanted_from(s: Seq<u8>, pos: int, h: Map<Seq<char>, Seq<char>>) -> Option<int>
    decreases s.len() - pos,
    via wanted_from_decreases
{
    if pos < 0 || pos >= s.len() || line_end(s, pos) >= s.len() {
        None
    } else {
        let l = line_text(s, pos);
        if trim(l).len() == 0 {
            Some(next_line(s, pos) + content_length(h))
        } else {
            match split_once(l, ':') {
                None => Some(next_line(s, pos)),
                Some((a, b)) => wanted_from(s, next_line(s, pos), h.insert(trim(a), trim(b))),
            }
        }
    }
}

#[via_fn]
proof fn wanted_from_decreases(s: Seq<u8>, pos: int, h: Map<Seq<char>, Seq<char>>) {
    if 0 <= pos < s.len() {
        lemma_line_end(s, pos);
    }
}

/// How long the request that starts `s` is, once that can be told.
pub open spec fn wanted(s: Seq<u8>) -> Option<int> {
    if line_end(s, 0) >= s.len() {
        None
    } else {
        wanted_from(s, next_line(s, 0), Map::empty())
    }
}

/// How many bytes the request that begins with `input` takes, capped at
/// `usize::MAX`; `None` while its head is not complete.
pub fn wanted_len(input: &[u8]) -> (r: Option<usize>)
    ensures
        match wanted(input@) {
            None => r is None,
            Some(v) => r == Some(if v > usize::MAX { usize::MAX } else { v as usize }),
        },
{
    let ghost s = input@;
    let (_, start) = read_line(input, 0);
    proof {
        lemma_line_end(s, 0);
    }
    if start == 0 || input[start - 1] != 10u8 {
        return None;
    }
    let mut headers = Headers::new();
    let mut pos = start;
    proof {
        assert(headers.map() =~= Map::<Seq<char>, Seq<char>>::empty());
    }
    while pos < input.len()
        invariant
            s == input@,
            0 < pos <= s.len(),
            headers.wf(),
            wanted(s) == wanted_from(s, pos as int, headers.map()),
        decreases s.len() - pos,
    {
        let (l, next) = read_line(input, pos);
        proof {
            lemma_line_end(s, pos as int);
        }
        if input[next - 1] != 10u8 {
            return None;
        }
        let t = trim_str(l.as_str());
        if t.is_empty() {
            let n = declared_length(&headers);
            if n > usize::MAX - next {
                return Some(usize::MAX);
            }
            return Some(next + n);
        }
        match split_once_str(l.as_str(), ':') {
            None => {
                return Some(next);
            },
            Some((a, b)) => {
                let name = trim_str(a).to_owned();
                let value = trim_str(b).to_owned();
                headers.insert(name, value);
                pos = next;
            },
        }
    }
    None
}

} // verus!
