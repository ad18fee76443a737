use vstd::prelude::*;

verus! {

/// Header entries as pairs of name and value.
pub type Entries = Seq<(Seq<char>, Seq<char>)>;

pub open spec fn has_name(s: Entries, k: Seq<char>) -> bool {
    exists|i: int| 0 <= i < s.len() && #[trigger] s[i].0 == k
}

/// The mapping that a list of entries with distinct names describes.
pub open spec fn entries_map(s: Entries) -> Map<Seq<char>, Seq<char>> {
    Map::new(
        |k: Seq<char>| has_name(s, k),
        |k: Seq<char>| s[choose|i: int| 0 <= i < s.len() && #[trigger] s[i].0 == k].1,
    )
}

pub open spec fn distinct_names(s: Entries) -> bool {
    forall|i: int, j: int| 0 <= i < s.len() && 0 <= j < s.len() && i != j ==> #[trigger] s[i].0 != #[trigger] s[j].0
}

/// `h` with each entry inserted in turn, front to back.
pub open spec fn insert_all(h: Map<Seq<char>, Seq<char>>, e: Entries) -> Map<Seq<char>, Seq<char>>
    decreases e.len(),
{
    if e.len() == 0 {
        h
    } else {
        insert_all(h.insert(e[0].0, e[0].1), e.drop_first())
    }
}

proof fn lemma_entries_map_first(e: Entries)
    requires
        e.len() > 0,
        distinct_names(e),
    ensures
        distinct_names(e.drop_first()),
        !entries_map(e.drop_first()).contains_key(e[0].0),
        entries_map(e) == entries_map(e.drop_first()).insert(e[0].0, e[0].1),
{
    let e1 = e.drop_first();
    let k0 = e[0].0;
    assert forall|a: int, b: int| 0 <= a < e1.len() && 0 <= b < e1.len() && a != b
        implies #[trigger] e1[a].0 != #[trigger] e1[b].0 by {
        assert(e1[a] == e[a + 1] && e1[b] == e[b + 1]);
    }
    if has_name(e1, k0) {
        let j = choose|j: int| 0 <= j < e1.len() && #[trigger] e1[j].0 == k0;
        assert(e[j + 1].0 == k0);
    }
    assert forall|q: Seq<char>| has_name(e, q) == (q == k0 || has_name(e1, q)) by {
        if has_name(e, q) && q != k0 {
            let j = choose|j: int| 0 <= j < e.len() && #[trigger] e[j].0 == q;
            assert(e1[j - 1].0 == q);
        }
        if has_name(e1, q) {
            let j = choose|j: int| 0 <= j < e1.len() && #[trigger] e1[j].0 == q;
            assert(e[j + 1].0 == q);
        }
        if q == k0 {
            assert(e[0].0 == q);
        }
    }
    assert forall|q: Seq<char>| #[trigger] has_name(e, q)
        implies entries_map(e)[q] == entries_map(e1).insert(k0, e[0].1)[q] by {
        let j = choose|j: int| 0 <= j < e.len() && #[trigger] e[j].0 == q;
        if q == k0 {
            assert(e[0].0 == q);
        } else {
            let j1 = choose|j: int| 0 <= j < e1.len() && #[trigger] e1[j].0 == q;
            assert(e[j1 + 1].0 == q);
            assert(e1[j1] == e[j1 + 1]);
        }
    }
    assert(entries_map(e) =~= entries_map(e1).insert(k0, e[0].1));
}

/// Inserting entries with distinct names in turn gives their mapping.
pub proof fn lemma_insert_all(h: Map<Seq<char>, Seq<char>>, e: Entries)
    requires
        distinct_names(e),
    ensures
        insert_all(h, e) == h.union_prefer_right(entries_map(e)),
    decreases e.len(),
{
    if e.len() == 0 {
        assert(entries_map(e) =~= Map::<Seq<char>, Seq<char>>::empty());
        assert(h.union_prefer_right(entries_map(e)) =~= h);
    } else {
        lemma_entries_map_first(e);
        let e1 = e.drop_first();
        lemma_insert_all(h.insert(e[0].0, e[0].1), e1);
        assert(h.insert(e[0].0, e[0].1).union_prefer_right(entries_map(e1)) =~= h.union_prefer_right(
            entries_map(e),
        ));
    }
}

/// Headers of a request or response: names are unique, compared exactly,
/// and kept in the order in which they were first inserted.
#[derive(Debug, Clone)]
pub struct Headers {
    entries: Vec<(String, String)>,
}

impl View for Headers {
    type V = Entries;

    closed spec fn view(&self) -> Entries {
        self.entries@.map_values(|p: (String, String)| (p.0@, p.1@))
    }
}

impl Headers {
    pub open spec fn wf(&self) -> bool {
        distinct_names(self@)
    }

    /// The headers as a mapping from name to value.
    pub open spec fn map(&self) -> Map<Seq<char>, Seq<char>> {
        entries_map(self@)
    }

    /// No headers.
    pub fn new() -> (r: Headers)
        ensures
            r.wf(),
            r@.len() == 0,
            r.map() == Map::<Seq<char>, Seq<char>>::empty(),
    {
        let r = Headers { entries: Vec::new() };
        assert(r.map() =~= Map::<Seq<char>, Seq<char>>::empty());
        r
    }

    /// Number of headers.
    pub fn len(&self) -> (r: usize)
        ensures
            r == self@.len(),
    {
        self.entries.len()
    }

    /// Name and value of the header at position `i`.
    pub fn entry(&self, i: usize) -> (r: (&String, &String))
        requires
            i < self@.len(),
        ensures
            r.0@ == self@[i as int].0,
            r.1@ == self@[i as int].1,
    {
        (&self.entries[i].0, &self.entries[i].1)
    }

    /// Position of the header called `name`.
    fn position(&self, name: &String) -> (r: Option<usize>)
        requires
            self.wf(),
        ensures
            match r {
                Some(i) => i < self@.len() && self@[i as int].0 == name@,
                None => !has_name(self@, name@),
            },
    {
        let mut i: usize = 0;
        while i < self.entries.len()
            invariant
                i <= self.entries@.len(),
                forall|j: int| 0 <= j < i ==> #[trigger] self@[j].0 != name@,
            decreases self.entries@.len() - i,
        {
            if self.entries[i].0 == *name {
                return Some(i);
            }
            i = i + 1;
        }
        None
    }

    /// The value of the header called `name`.
    pub fn get(&self, name: &String) -> (r: Option<&String>)
        requires
            self.wf(),
        ensures
            match r {
                Some(v) => self.map().contains_key(name@) && self.map()[name@] == v@,
                None => !self.map().contains_key(name@),
            },
    {
        match self.position(name) {
            Some(i) => {
                proof {
                    let s = self@;
                    let j = choose|j: int| 0 <= j < s.len() && #[trigger] s[j].0 == name@;
                    assert(s[i as int].0 == name@);
                }
                Some(&self.entries[i].1)
            },
            None => None,
        }
    }

    /// Sets `name` to `value`, replacing any earlier value.
    pub fn insert(&mut self, name: String, value: String)
        requires
            old(self).wf(),
        ensures
            final(self).wf(),
            final(self).map() == old(self).map().insert(name@, value@),
    {
        let ghost k = name@;
        let ghost v = value@;
        let ghost s0 = self@;
        match self.position(&name) {
            Some(i) => {
                self.entries.set(i, (name, value));
                proof {
                    let s = self@;
                    assert(s =~= s0.update(i as int, (k, v)));
                    assert forall|a: int, b: int| 0 <= a < s.len() && 0 <= b < s.len() && a != b
                        implies #[trigger] s[a].0 != #[trigger] s[b].0 by {
                        assert(s0[a].0 == s[a].0 && s0[b].0 == s[b].0);
                    }
                    assert forall|q: Seq<char>| has_name(s, q) == has_name(s0, q) by {
                        if has_name(s0, q) {
                            let j = choose|j: int| 0 <= j < s0.len() && #[trigger] s0[j].0 == q;
                            assert(s[j].0 == q);
                        }
                        if has_name(s, q) {
                            let j = choose|j: int| 0 <= j < s.len() && #[trigger] s[j].0 == q;
                            assert(s0[j].0 == q);
                        }
                    }
                    assert forall|q: Seq<char>| #[trigger] has_name(s, q) && q != k
                        implies entries_map(s)[q] == entries_map(s0)[q] by {
                        let j = choose|j: int| 0 <= j < s.len() && #[trigger] s[j].0 == q;
                        let j0 = choose|j: int| 0 <= j < s0.len() && #[trigger] s0[j].0 == q;
                        assert(s[j0].0 == q);
                    }
                    assert(s[i as int].0 == k);
                    assert(entries_map(s) =~= entries_map(s0).insert(k, v));
                }
            },
            None => {
                self.entries.push((name, value));
                proof {
                    let s = self@;
                    assert(s =~= s0.push((k, v)));
                    assert forall|a: int, b: int| 0 <= a < s.len() && 0 <= b < s.len() && a != b
                        implies #[trigger] s[a].0 != #[trigger] s[b].0 by {
                        if a < s0.len() && b < s0.len() {
                            assert(s0[a].0 == s[a].0 && s0[b].0 == s[b].0);
                        } else if a < s0.len() {
                            assert(s0[a].0 == s[a].0);
                        } else {
                            assert(s0[b].0 == s[b].0);
                        }
                    }
                    assert forall|q: Seq<char>| has_name(s, q) == (has_name(s0, q) || q == k) by {
                        if has_name(s0, q) {
                            let j = choose|j: int| 0 <= j < s0.len() && #[trigger] s0[j].0 == q;
                            assert(s[j].0 == q);
                        }
                        if q == k {
                            assert(s[s0.len() as int].0 == q);
                        }
                        if has_name(s, q) && q != k {
                            let j = choose|j: int| 0 <= j < s.len() && #[trigger] s[j].0 == q;
                            assert(s0[j].0 == q);
                        }
                    }
                    assert forall|q: Seq<char>| #[trigger] has_name(s, q) && q != k
                        implies entries_map(s)[q] == entries_map(s0)[q] by {
                        let j = choose|j: int| 0 <= j < s.len() && #[trigger] s[j].0 == q;
                        let j0 = choose|j: int| 0 <= j < s0.len() && #[trigger] s0[j].0 == q;
                        assert(s[j0].0 == q);
                    }
                    assert(s[s0.len() as int].0 == k);
                    assert(entries_map(s) =~= entries_map(s0).insert(k, v));
                }
            },
        }
    }
}

} // verus!
