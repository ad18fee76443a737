use vstd::prelude::*;
use crate::method::Method;

verus! {

/// A route: a method and a path, where the path `*` stands for every path
/// that has no route of its own.
pub type RouteKey = (Method, Seq<char>);

pub open spec fn has_key(s: Seq<RouteKey>, k: RouteKey) -> bool {
    exists|i: int| 0 <= i < s.len() && #[trigger] s[i] == k
}

pub open spec fn distinct_keys(s: Seq<RouteKey>) -> bool {
    forall|i: int, j: int| 0 <= i < s.len() && 0 <= j < s.len() && i != j ==> #[trigger] s[i] != #[trigger] s[j]
}

/// The handler found for `method` and `path` in a route table: the one of
/// the exact route, else the one of the method's `*` route, else none.
pub open spec fn resolve_in<H>(t: Map<RouteKey, H>, method: Method, path: Seq<char>) -> Option<H> {
    if t.contains_key((method, path)) {
        Some(t[(method, path)])
    } else if t.contains_key((method, "*"@)) {
        Some(t[(method, "*"@)])
    } else {
        None
    }
}

/// With a route for `path` and a `*` route for the same method, `path`
/// resolves to its own handler, every path without a route of its own
/// resolves to the `*` handler, and other methods resolve as before.
pub proof fn law_exact_route_wins<H>(
    t: Map<RouteKey, H>,
    method: Method,
    path: Seq<char>,
    exact: H,
    fallback: H,
)
    requires
        path != "*"@,
    ensures
        ({
            let routes = t.insert((method, path), exact).insert((method, "*"@), fallback);
            &&& resolve_in(routes, method, path) == Some(exact)
            &&& forall|other: Seq<char>| #![trigger routes.contains_key((method, other))]
                !routes.contains_key((method, other)) ==> resolve_in(routes, method, other)
                    == Some(fallback)
            &&& forall|m: Method, p: Seq<char>| m != method ==> #[trigger] resolve_in(routes, m, p)
                == resolve_in(t, m, p)
        }),
{
}

/// The route table: a handler for each registered method and path.
pub struct Router<H> {
    keys: Vec<(Method, String)>,
    handlers: Vec<H>,
}

impl<H> Router<H> {
    pub closed spec fn key_seq(&self) -> Seq<RouteKey> {
        self.keys@.map_values(|k: (Method, String)| (k.0, k.1@))
    }

    pub closed spec fn wf(&self) -> bool {
        &&& self.keys@.len() == self.handlers@.len()
        &&& distinct_keys(self.key_seq())
    }

    /// The route table as a mapping.
    pub closed spec fn table(&self) -> Map<RouteKey, H> {
        let s = self.key_seq();
        Map::new(
            |k: RouteKey| has_key(s, k),
            |k: RouteKey| self.handlers@[choose|i: int| 0 <= i < s.len() && #[trigger] s[i] == k],
        )
    }

    /// A table with no routes.
    pub fn new() -> (r: Router<H>)
        ensures
            r.wf(),
            r.table() == Map::<RouteKey, H>::empty(),
    {
        let r = Router { keys: Vec::new(), handlers: Vec::new() };
        assert(r.table() =~= Map::<RouteKey, H>::empty());
        r
    }

    fn position(&self, method: Method, path: &String) -> (r: Option<usize>)
        requires
            self.wf(),
        ensures
            match r {
                Some(i) => i < self.key_seq().len() && self.key_seq()[i as int] == (method, path@),
                None => !has_key(self.key_seq(), (method, path@)),
            },
    {
        let mut i: usize = 0;
        while i < self.keys.len()
            invariant
                i <= self.keys@.len(),
                forall|j: int| 0 <= j < i ==> #[trigger] self.key_seq()[j] != (method, path@),
            decreases self.keys@.len() - i,
        {
            if self.keys[i].0 == method && self.keys[i].1 == *path {
                return Some(i);
            }
            i = i + 1;
        }
        None
    }

    /// Routes `method` and `path` to `handler`, replacing an earlier handler
    /// of the same route.
    pub fn register(&mut self, method: Method, path: String, handler: H)
        requires
            old(self).wf(),
        ensures
            final(self).wf(),
            final(self).table() == old(self).table().insert((method, path@), handler),
    {
        let ghost k = (method, path@);
        let ghost s0 = self.key_seq();
        let ghost h0 = self.handlers@;
        let ghost t0 = self.table();
        match self.position(method, &path) {
            Some(i) => {
                self.handlers.set(i, handler);
                proof {
                    let s = self.key_seq();
                    assert(s =~= s0);
                    assert forall|q: RouteKey| #[trigger] has_key(s, q) && q != k
                        implies self.table()[q] == t0[q] by {
                        let j = choose|j: int| 0 <= j < s.len() && #[trigger] s[j] == q;
                        assert(j != i);
                    }
                    assert(self.table() =~= t0.insert(k, handler));
                }
            },
            None => {
                self.keys.push((method, path));
                self.handlers.push(handler);
                proof {
                    let s = self.key_seq();
                    assert(s =~= s0.push(k));
                    assert forall|a: int, b: int| 0 <= a < s.len() && 0 <= b < s.len() && a != b
                        implies #[trigger] s[a] != #[trigger] s[b] by {
                        if a < s0.len() && b < s0.len() {
                            assert(s0[a] == s[a] && s0[b] == s[b]);
                        } else if a < s0.len() {
                            assert(s0[a] == s[a]);
                        } else {
                            assert(s0[b] == s[b]);
                        }
                    }
                    assert forall|q: RouteKey| has_key(s, q) == (has_key(s0, q) || q == k) by {
                        if has_key(s0, q) {
                            let j = choose|j: int| 0 <= j < s0.len() && #[trigger] s0[j] == q;
                            assert(s[j] == q);
                        }
                        if q == k {
                            assert(s[s0.len() as int] == q);
                        }
                        if has_key(s, q) && q != k {
                            let j = choose|j: int| 0 <= j < s.len() && #[trigger] s[j] == q;
                            assert(s0[j] == q);
                        }
                    }
                    assert forall|q: RouteKey| #[trigger] has_key(s, q) && q != k
                        implies self.table()[q] == t0[q] by {
                        let j = choose|j: int| 0 <= j < s.len() && #[trigger] s[j] == q;
                        let j0 = choose|j: int| 0 <= j < s0.len() && #[trigger] s0[j] == q;
                        assert(s[j0] == q);
                    }
                    assert(s[s0.len() as int] == k);
                    assert(self.table() =~= t0.insert(k, handler));
                }
            },
        }
    }

    fn lookup(&self, method: Method, path: &String) -> (r: Option<&H>)
        requires
            self.wf(),
        ensures
            match r {
                Some(h) => self.table().contains_key((method, path@)) && self.table()[(method, path@)] == *h,
                None => !self.table().contains_key((method, path@)),
            },
    {
        match self.position(method, path) {
            Some(i) => {
                proof {
                    let s = self.key_seq();
                    let j = choose|j: int| 0 <= j < s.len() && #[trigger] s[j] == (method, path@);
                    assert(s[i as int] == (method, path@));
                }
                Some(&self.handlers[i])
            },
            None => None,
        }
    }

    /// The handler for `method` and `path`: the exact route wins, then the
    /// method's `*` route.
    pub fn resolve(&self, method: Method, path: &String) -> (r: Option<&H>)
        requires
            self.wf(),
        ensures
            match r {
                Some(h) => resolve_in(self.table(), method, path@) == Some(*h),
                None => resolve_in(self.table(), method, path@) is None,
            },
    {
        match self.lookup(method, path) {
            Some(h) => Some(h),
            None => {
                let star = "*".to_owned();
                self.lookup(method, &star)
            },
        }
    }
}

} // verus!
