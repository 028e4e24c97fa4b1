use vstd::prelude::*;

verus! {

/// The abstract content of a term table: each distinct term with its count,
/// in the order in which the terms were first seen.
pub type TermCounts = Seq<(Seq<char>, nat)>;

/// The views of a sequence of strings.
pub open spec fn views(v: Seq<String>) -> Seq<Seq<char>> {
    v.map_values(|s: String| s@)
}

pub open spec fn has_term(table: TermCounts, t: Seq<char>) -> bool {
    exists|i: int| 0 <= i < table.len() && #[trigger] table[i].0 == t
}

pub open spec fn distinct_terms(table: TermCounts) -> bool {
    forall|i: int, j: int|
        0 <= i < table.len() && 0 <= j < table.len() && i != j ==> #[trigger] table[i].0
            != #[trigger] table[j].0
}

pub open spec fn counts_positive(table: TermCounts) -> bool {
    forall|i: int| 0 <= i < table.len() ==> #[trigger] table[i].1 >= 1
}

/// One more occurrence; a count that has reached the largest `u64` stays there.
pub open spec fn bump(c: nat) -> nat {
    if c < u64::MAX {
        c + 1
    } else {
        c
    }
}

/// The table after one occurrence of `t`: a term seen for the first time is
/// stored with count 1, a known term has its count raised by one.
pub open spec fn add_term(table: TermCounts, t: Seq<char>) -> TermCounts {
    if has_term(table, t) {
        let i = choose|i: int| 0 <= i < table.len() && #[trigger] table[i].0 == t;
        table.update(i, (t, bump(table[i].1)))
    } else {
        table.push((t, 1))
    }
}

/// The table after each term of `ts`, in order.
pub open spec fn add_terms(table: TermCounts, ts: Seq<Seq<char>>) -> TermCounts
    decreases ts.len(),
{
    if ts.len() == 0 {
        table
    } else {
        add_term(add_terms(table, ts.drop_last()), ts.last())
    }
}

/// How many entries of the query `q` (with repetitions) are terms of `table`.
pub open spec fn match_count(table: TermCounts, q: Seq<Seq<char>>) -> nat
    decreases q.len(),
{
    if q.len() == 0 {
        0
    } else {
        match_count(table, q.drop_last()) + if has_term(table, q.last()) {
            1nat
        } else {
            0nat
        }
    }
}

pub open spec fn count_in(table: TermCounts, t: Seq<char>) -> Option<nat> {
    if has_term(table, t) {
        let i = choose|i: int| 0 <= i < table.len() && #[trigger] table[i].0 == t;
        Some(table[i].1)
    } else {
        None
    }
}

proof fn lemma_match_count_bound(table: TermCounts, q: Seq<Seq<char>>)
    ensures
        match_count(table, q) <= q.len(),
    decreases q.len(),
{
    if q.len() > 0 {
        lemma_match_count_bound(table, q.drop_last());
    }
}

/// One term with the number of times it was recorded.
pub struct TermCount {
    pub term: String,
    pub count: u64,
}

/// The terms recorded under one label, with their counts.
pub struct TermTable {
    entries: Vec<TermCount>,
}

impl View for TermTable {
    type V = TermCounts;

    closed spec fn view(&self) -> TermCounts {
        self.entries@.map_values(|e: TermCount| (e.term@, e.count as nat))
    }
}

impl TermTable {
    pub open spec fn wf(&self) -> bool {
        distinct_terms(self@) && counts_positive(self@)
    }

    pub fn new() -> (r: TermTable)
        ensures
            r@ == Seq::<(Seq<char>, nat)>::empty(),
            r.wf(),
    {
        let r = TermTable { entries: Vec::new() };
        assert(r@ =~= Seq::<(Seq<char>, nat)>::empty());
        r
    }

    /// The number of distinct terms.
    pub fn len(&self) -> (r: usize)
        ensures
            r == self@.len(),
    {
        self.entries.len()
    }

    fn find(&self, tx: &String) -> (r: Option<usize>)
        ensures
            match r {
                Some(i) => i < self@.len() && self@[i as int].0 == tx@,
                None => !has_term(self@, tx@),
            },
    {
        let n = self.entries.len();
        let mut i: usize = 0;
        while i < n
            invariant
                n == self@.len(),
                i <= n,
                forall|j: int| 0 <= j < i ==> self@[j].0 != tx@,
            decreases n - i,
        {
            if self.entries[i].term == *tx {
                return Some(i);
            }
            i = i + 1;
        }
        None
    }

    /// The count recorded for `t`, if `t` is a term of the table.
    pub fn count_of(&self, t: &String) -> (r: Option<u64>)
        requires
            self.wf(),
        ensures
            r == (match count_in(self@, t@) {
                Some(c) => Some(c as u64),
                None => None::<u64>,
            }),
    {
        match self.find(t) {
            Some(i) => {
                proof {
                    let k = choose|k: int| 0 <= k < self@.len() && #[trigger] self@[k].0 == t@;
                    assert(self@[k].0 == self@[i as int].0);
                }
                Some(self.entries[i].count)
            },
            None => None,
        }
    }

    /// Records one occurrence of `t`.
    pub fn add(&mut self, t: &String)
        requires
            old(self).wf(),
        ensures
            final(self).wf(),
            final(self)@ == add_term(old(self)@, t@),
    {
        match self.find(t) {
            Some(i) => {
                let c = self.entries[i].count;
                let nc = if c < u64::MAX {
                    c + 1
                } else {
                    c
                };
                self.entries.set(i, TermCount { term: t.clone(), count: nc });
                proof {
                    let old_v = old(self)@;
                    let k = choose|k: int| 0 <= k < old_v.len() && #[trigger] old_v[k].0 == t@;
                    assert(old_v[k].0 == old_v[i as int].0);
                    assert(self@ =~= old_v.update(i as int, (t@, bump(old_v[i as int].1))));
                    assert forall|a: int, b: int|
                        0 <= a < self@.len() && 0 <= b < self@.len() && a != b implies
                        #[trigger] self@[a].0 != #[trigger] self@[b].0 by {
                        assert(self@[a].0 == old_v[a].0);
                        assert(self@[b].0 == old_v[b].0);
                    }
                    assert forall|a: int| 0 <= a < self@.len() implies #[trigger] self@[a].1 >= 1 by {
                        assert(a != i ==> self@[a].1 == old_v[a].1);
                    }
                }
            },
            None => {
                self.entries.push(TermCount { term: t.clone(), count: 1 });
                proof {
                    let old_v = old(self)@;
                    assert(self@ =~= old_v.push((t@, 1)));
                    assert forall|a: int, b: int|
                        0 <= a < self@.len() && 0 <= b < self@.len() && a != b implies
                        #[trigger] self@[a].0 != #[trigger] self@[b].0 by {
                        if a < old_v.len() && b < old_v.len() {
                            assert(self@[a].0 == old_v[a].0);
                            assert(self@[b].0 == old_v[b].0);
                        } else if a < old_v.len() {
                            assert(old_v[a].0 != t@);
                        } else {
                            assert(old_v[b].0 != t@);
                        }
                    }
                    assert forall|a: int| 0 <= a < self@.len() implies #[trigger] self@[a].1 >= 1 by {
                        if a < old_v.len() {
                            assert(self@[a].1 == old_v[a].1);
                        }
                    }
                }
            },
        }
    }

    /// Records one occurrence of each term of `ts`, in order.
    pub fn add_all(&mut self, ts: &Vec<String>)
        requires
            old(self).wf(),
        ensures
            final(self).wf(),
            final(self)@ == add_terms(old(self)@, views(ts@)),
    {
        let n = ts.len();
        let mut i: usize = 0;
        while i < n
            invariant
                n == ts@.len(),
                i <= n,
                self.wf(),
                self@ == add_terms(old(self)@, views(ts@).take(i as int)),
            decreases n - i,
        {
            self.add(&ts[i]);
            proof {
                let q = views(ts@).take(i + 1);
                assert(q.drop_last() =~= views(ts@).take(i as int));
                assert(q.last() == ts@[i as int]@);
            }
            i = i + 1;
        }
        assert(views(ts@).take(n as int) =~= views(ts@));
    }

    /// How many entries of the query `q` are terms of the table.
    pub fn count_matches(&self, q: &Vec<String>) -> (r: usize)
        ensures
            r == match_count(self@, views(q@)),
    {
        let n = q.len();
        let mut i: usize = 0;
        let mut k: usize = 0;
        while i < n
            invariant
                n == q@.len(),
                i <= n,
                k == match_count(self@, views(q@).take(i as int)),
            decreases n - i,
        {
            proof {
                let p = views(q@).take(i + 1);
                assert(p.drop_last() =~= views(q@).take(i as int));
                assert(p.last() == q@[i as int]@);
                lemma_match_count_bound(self@, views(q@).take(i as int));
            }
            match self.find(&q[i]) {
                Some(_) => {
                    k = k + 1;
                },
                None => {},
            }
            i = i + 1;
        }
        assert(views(q@).take(n as int) =~= views(q@));
        k
    }
}

} // verus!
