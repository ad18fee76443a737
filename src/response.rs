use vstd::prelude::*;
use vstd::string::StringExecFns;
use crate::headers::{entries_map, insert_all, lemma_insert_all, Entries, Headers};
use crate::request::{
    header_block, lemma_line_of_text, line_text, next_line, read_headers, read_line,
};
use crate::text::{
    decimal, find_char, latin1, lead_ws, lemma_decimal, lemma_find_char, lemma_parse_decimal, lemma_trim_no_edge,
    lemma_trim_space_before, no_edge_ws, parse_usize, parse_usize_str, push_decimal, split_once,
    split_once_str, trail_ws, trim, trim_str,
};

verus! {

/// One encoded header: `name: value` and a line feed.
pub open spec fn header_line(p: (Seq<char>, Seq<char>)) -> Seq<char> {
    p.0 + ": "@ + p.1 + "\n"@
}

/// The header lines of an encoded response, one for each entry.
pub open spec fn header_lines(e: Entries) -> Seq<char>
    decreases e.len(),
{
    if e.len() == 0 {
        Seq::empty()
    } else {
        header_lines(e.drop_last()) + header_line(e.last())
    }
}

proof fn lemma_header_lines_first(e: Entries)
    requires
        e.len() > 0,
    ensures
        header_lines(e) == header_line(e[0]) + header_lines(e.drop_first()),
    decreases e.len(),
{
    if e.len() == 1 {
        assert(e.drop_last() =~= Seq::<(Seq<char>, Seq<char>)>::empty());
        assert(e.drop_first() =~= Seq::<(Seq<char>, Seq<char>)>::empty());
        assert(header_lines(e.drop_first()) == Seq::<char>::empty());
        assert(header_lines(e.drop_last()) == Seq::<char>::empty());
        assert(header_lines(e) =~= header_line(e[0]) + header_lines(e.drop_first()));
    } else {
        lemma_header_lines_first(e.drop_last());
        assert(e.drop_last().drop_first() =~= e.drop_first().drop_last());
        assert(e.drop_first().last() == e.last());
        assert(e.drop_last()[0] == e[0]);
        assert(header_lines(e) =~= header_line(e[0]) + header_lines(e.drop_first()));
    }
}

/// Headers that survive a trip through the wire: each name is non-empty
/// and each name and value has no line feed and no whitespace at either end;
/// names have no colon.
pub open spec fn sendable(e: Entries) -> bool {
    forall|i: int| 0 <= i < e.len() ==> {
        let (n, v) = #[trigger] e[i];
        &&& n.len() > 0
        &&& no_edge_ws(n)
        &&& !n.contains(':')
        &&& !n.contains('\n')
        &&& no_edge_ws(v)
        &&& !v.contains('\n')
    }
}

proof fn lemma_header_block_of_text(
    b: Seq<u8>,
    pos: int,
    e: Entries,
    body: Seq<char>,
    h: Map<Seq<char>, Seq<char>>,
)
    requires
        0 <= pos <= b.len(),
        latin1(b).subrange(pos, b.len() as int) == header_lines(e) + "\n"@ + body,
        sendable(e),
    ensures
        header_block(b, pos, h) == Some((insert_all(h, e), b.len() - body.len(), true)),
    decreases e.len(),
{
    reveal_strlit("\n");
    reveal_strlit(": ");
    let t = latin1(b).subrange(pos, b.len() as int);
    assert("\n"@ =~= seq!['\n']);
    if e.len() == 0 {
        assert(t =~= Seq::<char>::empty() + seq!['\n'] + body);
        lemma_line_of_text(b, pos, Seq::empty(), body);
        assert(trim(Seq::<char>::empty()) =~= Seq::<char>::empty());
    } else {
        lemma_header_lines_first(e);
        let (n, v) = e[0];
        let e1 = e.drop_first();
        let x = n + ": "@ + v;
        let y = header_lines(e1) + "\n"@ + body;
        assert(t =~= x + seq!['\n'] + y);
        assert(!x.contains('\n')) by {
            if x.contains('\n') {
                let j = choose|j: int| 0 <= j < x.len() && x[j] == '\n';
                if j < n.len() {
                    assert(n[j] == '\n');
                } else if j >= n.len() + 2 {
                    assert(v[j - n.len() - 2] == '\n');
                }
            }
        }
        lemma_line_of_text(b, pos, x, y);
        let next = pos + x.len() + 1;
        // The line is not blank: it starts with the name.
        assert(x[0] == n[0]);
        assert(lead_ws(x) == 0);
        if v.len() > 0 {
            assert(x.last() == v.last());
            assert(trail_ws(x) == 0);
        } else {
            assert(x.drop_last() =~= n + seq![':']);
            assert(trail_ws(x.drop_last()) == 0);
            assert(trail_ws(x) == 1);
        }
        assert(trim(x).len() > 0);
        // It splits at the colon after the name.
        lemma_find_char(x, ':');
        assert(x[n.len() as int] == ':');
        assert forall|j: int| 0 <= j < n.len() implies x[j] != ':' by {
            assert(x[j] == n[j]);
        }
        assert(find_char(x, ':') == Some(n.len()));
        assert(x.subrange(0, n.len() as int) =~= n);
        assert(x.subrange(n.len() as int + 1, x.len() as int) =~= seq![' '] + v);
        lemma_trim_no_edge(n);
        lemma_trim_space_before(v);
        assert(split_once(x, ':') == Some((n, seq![' '] + v)));
        // The rest are the other headers.
        assert(latin1(b).subrange(next, b.len() as int) =~= header_lines(e1) + "\n"@ + body) by {
            assert forall|j: int| 0 <= j < b.len() - next implies latin1(b).subrange(
                next,
                b.len() as int,
            )[j] == y[j] by {
                assert(t[x.len() + 1 + j] == y[j]);
            }
        }
        assert forall|i: int| 0 <= i < e1.len() implies {
            let (n1, v1) = #[trigger] e1[i];
            &&& n1.len() > 0
            &&& no_edge_ws(n1)
            &&& !n1.contains(':')
            &&& !n1.contains('\n')
            &&& no_edge_ws(v1)
            &&& !v1.contains('\n')
        } by {
            assert(e1[i] == e[i + 1]);
        }
        lemma_header_block_of_text(b, next, e1, body, h.insert(n, v));
    }
}

/// Encoding a response and reading its head back gives its status, its
/// headers, and the position where its body starts, when the text goes on
/// the wire byte for character and its headers are sendable.
pub proof fn law_response_round_trip(r: Response, b: Seq<u8>)
    requires
        r.wf(),
        sendable(r.spec_headers()@),
        latin1(b) == encode(r.spec_status() as nat, r.spec_headers()@, r.spec_body()),
    ensures
        decode_head(b) == Some((r.spec_status(), r.spec_headers().map(), b.len() - r.spec_body().len())),
{
    reveal_strlit("\n");
    reveal_strlit("HTTP/1.1 ");
    reveal_strlit("HTTP/1.1");
    let n = r.spec_status() as nat;
    let e = r.spec_headers()@;
    let body = r.spec_body();
    let d = decimal(n);
    lemma_decimal(n);
    let x = "HTTP/1.1 "@ + d;
    let y = header_lines(e) + "\n"@ + body;
    assert("\n"@ =~= seq!['\n']);
    assert(latin1(b).subrange(0, b.len() as int) =~= latin1(b));
    assert(latin1(b) =~= x + seq!['\n'] + y);
    assert(!x.contains('\n')) by {
        if x.contains('\n') {
            let j = choose|j: int| 0 <= j < x.len() && x[j] == '\n';
            assert(d[j - 9] == '\n');
        }
    }
    lemma_line_of_text(b, 0, x, y);
    lemma_find_char(x, ' ');
    assert(x[8] == ' ');
    assert(find_char(x, ' ') == Some(8nat));
    assert(x.subrange(0, 8) =~= "HTTP/1.1"@);
    assert(x.subrange(9, x.len() as int) =~= d);
    assert(split_once(x, ' ') == Some(("HTTP/1.1"@, d)));
    lemma_parse_decimal(n);
    assert(latin1(b).subrange(x.len() as int + 1, b.len() as int) =~= y) by {
        assert forall|j: int| 0 <= j < y.len() implies latin1(b).subrange(x.len() as int + 1, b.len() as int)[j]
            == y[j] by {
            assert(latin1(b)[x.len() + 1 + j] == (x + seq!['\n'] + y)[x.len() + 1 + j]);
        }
    }
    lemma_header_block_of_text(b, x.len() as int + 1, e, body, Map::empty());
    lemma_insert_all(Map::empty(), e);
    assert(Map::<Seq<char>, Seq<char>>::empty().union_prefer_right(entries_map(e)) =~= entries_map(e));
}

/// The text of a response: status line, header lines, a blank line, body.
pub open spec fn encode(status: nat, e: Entries, body: Seq<char>) -> Seq<char> {
    "HTTP/1.1 "@ + decimal(status) + "\n"@ + header_lines(e) + "\n"@ + body
}

/// What a client reads from the head of a response: the status, the
/// headers, and where the body begins. The status line is `HTTP/1.1`, a
/// space, and the status as a decimal number.
pub open spec fn decode_head(s: Seq<u8>) -> Option<(usize, Map<Seq<char>, Seq<char>>, int)> {
    match split_once(line_text(s, 0), ' ') {
        Some((v, st)) => if v == "HTTP/1.1"@ {
            match parse_usize(trim(st)) {
                Some(n) => match header_block(s, next_line(s, 0), Map::empty()) {
                    Some((h, q, _)) => Some((n, h, q)),
                    None => None,
                },
                None => None,
            }
        } else {
            None
        },
        None => None,
    }
}

/// A response produced by a handler.
#[derive(Debug, Clone)]
pub struct Response {
    status: usize,
    headers: Headers,
    body: String,
}

impl Response {
    pub closed spec fn spec_status(&self) -> usize {
        self.status
    }

    pub closed spec fn spec_headers(&self) -> Headers {
        self.headers
    }

    pub closed spec fn spec_body(&self) -> Seq<char> {
        self.body@
    }

    pub open spec fn wf(&self) -> bool {
        self.spec_headers().wf()
    }

    /// A response with the given status and body and no headers.
    pub fn new(status: usize, body: String) -> (r: Response)
        ensures
            r.wf(),
            r.spec_status() == status,
            r.spec_headers()@.len() == 0,
            r.spec_headers().map() == Map::<Seq<char>, Seq<char>>::empty(),
            r.spec_body() == body@,
    {
        Response { status, headers: Headers::new(), body }
    }

    /// The same response with header `key` set to `val`.
    pub fn with_header(self, key: String, val: String) -> (r: Response)
        requires
            self.wf(),
        ensures
            r.wf(),
            r.spec_status() == self.spec_status(),
            r.spec_headers().map() == self.spec_headers().map().insert(key@, val@),
            r.spec_body() == self.spec_body(),
    {
        let mut headers = self.headers;
        headers.insert(key, val);
        Response { status: self.status, headers, body: self.body }
    }

    /// The reply when no route matches: `404`, body `Not Found`.
    pub fn not_found() -> (r: Response)
        ensures
            r.wf(),
            r.spec_status() == 404,
            r.spec_headers()@.len() == 0,
            r.spec_body() == "Not Found"@,
    {
        Response::new(404, "Not Found".to_owned())
    }

    /// The reply to a request that cannot be read: `400`, body `Bad Request`.
    pub fn bad_request() -> (r: Response)
        ensures
            r.wf(),
            r.spec_status() == 400,
            r.spec_headers()@.len() == 0,
            r.spec_body() == "Bad Request"@,
    {
        Response::new(400, "Bad Request".to_owned())
    }

    /// The reply when a handler fails: `500`, body `Internal Server Error`.
    pub fn internal_error() -> (r: Response)
        ensures
            r.wf(),
            r.spec_status() == 500,
            r.spec_headers()@.len() == 0,
            r.spec_body() == "Internal Server Error"@,
    {
        Response::new(500, "Internal Server Error".to_owned())
    }

    pub fn status(&self) -> (r: usize)
        ensures
            r == self.spec_status(),
    {
        self.status
    }

    pub fn headers(&self) -> (r: &Headers)
        ensures
            *r == self.spec_headers(),
    {
        &self.headers
    }

    pub fn body(&self) -> (r: &String)
        ensures
            r@ == self.spec_body(),
    {
        &self.body
    }

    /// Reads the status line and the header lines of a response: the status,
    /// the headers, and where the body begins.
    pub fn read_head(input: &[u8]) -> (r: Option<(usize, Headers, usize)>)
        ensures
            match decode_head(input@) {
                None => r is None,
                Some((n, h, q)) => r matches Some((st, hs, p)) && st == n && hs.wf() && hs.map()
                    == h && p == q,
            },
    {
        let (line, start) = read_line(input, 0);
        let version = "HTTP/1.1".to_owned();
        let (v, st) = match split_once_str(line.as_str(), ' ') {
            Some(parts) => parts,
            None => {
                return None;
            },
        };
        if v.to_owned() != version {
            return None;
        }
        let status = match parse_usize_str(trim_str(st)) {
            Some(n) => n,
            None => {
                return None;
            },
        };
        match read_headers(input, start) {
            Some((headers, pos)) => Some((status, headers, pos)),
            None => None,
        }
    }

    /// The response as it goes on the wire.
    pub fn to_text(&self) -> (r: String)
        ensures
            r@ == encode(self.spec_status() as nat, self.spec_headers()@, self.spec_body()),
    {
        let mut s = "HTTP/1.1 ".to_owned();
        push_decimal(&mut s, self.status);
        s.append("\n");
        let mut i: usize = 0;
        let ghost e = self.headers@;
        while i < self.headers.len()
            invariant
                e == self.headers@,
                i <= e.len(),
                s@ == "HTTP/1.1 "@ + decimal(self.status as nat) + "\n"@ + header_lines(
                    e.subrange(0, i as int),
                ),
            decreases e.len() - i,
        {
            let (k, v) = self.headers.entry(i);
            s.append(k.as_str());
            s.append(": ");
            s.append(v.as_str());
            s.append("\n");
            assert(e.subrange(0, i + 1).drop_last() =~= e.subrange(0, i as int));
            i = i + 1;
        }
        assert(e.subrange(0, i as int) =~= e);
        s.append("\n");
        s.append(self.body.as_str());
        s
    }
}

} // verus!
