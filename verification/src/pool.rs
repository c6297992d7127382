//! The bounded document pool: a fixed-capacity, least-recently-used cache
//! from a document identifier (its resolved path) to an opened handle. The
//! pool is the only owner of handles; every access goes through it, a hit or
//! an insertion refreshes recency, and an insertion past capacity evicts the
//! least recently used entry.
use crate::strutil::str_eq;
use vstd::prelude::*;

verus! {

/// How many documents the pool keeps open at once: enough for split screen
/// plus preloading.
pub const POOL_CAPACITY: usize = 4;

/// A fixed-capacity LRU cache of document handles, most recently used
/// first.
pub struct DocumentPool<V> {
    entries: Vec<(String, V)>,
}

/// The recency-ordered contents of a pool: identifier and handle, most
/// recently used first.
pub open spec fn pool_view<V>(entries: Seq<(String, V)>) -> Seq<(Seq<char>, V)> {
    entries.map_values(|e: (String, V)| (e.0@, e.1))
}

/// A well-formed pool: within capacity, and no identifier twice.
pub open spec fn pool_wf<V>(s: Seq<(Seq<char>, V)>) -> bool {
    s.len() <= POOL_CAPACITY && (forall|i: int, j: int|
        0 <= i < j < s.len() ==> s[i].0 != s[j].0)
}

/// Whether the pool holds an entry for identifier `k`.
pub open spec fn pool_contains<V>(s: Seq<(Seq<char>, V)>, k: Seq<char>) -> bool {
    exists|i: int| 0 <= i < s.len() && s[i].0 == k
}

/// The position of identifier `k` in recency order.
pub open spec fn pool_index_of<V>(s: Seq<(Seq<char>, V)>, k: Seq<char>) -> int {
    choose|i: int| 0 <= i < s.len() && s[i].0 == k
}

/// The contents after a hit on position `i`: that entry moves to the front,
/// everything else keeps its relative order.
pub open spec fn spec_promote<V>(s: Seq<(Seq<char>, V)>, i: int) -> Seq<(Seq<char>, V)> {
    seq![s[i]] + s.subrange(0, i) + s.subrange(i + 1, s.len() as int)
}

/// The contents after inserting `(k, v)`: an existing entry for `k` is
/// replaced and moved to the front; otherwise the new entry goes to the
/// front, and if the pool was full the least recently used entry (the last)
/// leaves.
pub open spec fn spec_insert<V>(s: Seq<(Seq<char>, V)>, k: Seq<char>, v: V) -> Seq<
    (Seq<char>, V),
> {
    if pool_contains(s, k) {
        seq![(k, v)] + s.remove(pool_index_of(s, k))
    } else if s.len() < POOL_CAPACITY {
        seq![(k, v)] + s
    } else {
        seq![(k, v)] + s.drop_last()
    }
}

/// Inserting never takes a well-formed pool past its capacity, and keeps
/// identifiers unique: the pool never holds more than `POOL_CAPACITY` live
/// handles, however many insertions are made.
pub proof fn lemma_insert_preserves_wf<V>(s: Seq<(Seq<char>, V)>, k: Seq<char>, v: V)
    requires
        pool_wf(s),
    ensures
        pool_wf(spec_insert(s, k, v)),
        spec_insert(s, k, v).len() <= POOL_CAPACITY,
{
    let r = spec_insert(s, k, v);
    if pool_contains(s, k) {
        let i = pool_index_of(s, k);
        assert(0 <= i < s.len() && s[i].0 == k);
        let t = s.remove(i);
        assert forall|a: int, b: int| 0 <= a < b < r.len() implies r[a].0 != r[b].0 by {
            if a == 0 {
                if b - 1 < i {
                    assert(t[b - 1] == s[b - 1]);
                } else {
                    assert(t[b - 1] == s[b]);
                }
            } else {
                if a - 1 < i {
                    assert(t[a - 1] == s[a - 1]);
                } else {
                    assert(t[a - 1] == s[a]);
                }
                if b - 1 < i {
                    assert(t[b - 1] == s[b - 1]);
                } else {
                    assert(t[b - 1] == s[b]);
                }
            }
        }
    } else if s.len() < POOL_CAPACITY {
        assert forall|a: int, b: int| 0 <= a < b < r.len() implies r[a].0 != r[b].0 by {
            if a == 0 {
                assert(r[b] == s[b - 1]);
                assert(!(s[b - 1].0 == k));
            }
        }
    } else {
        assert forall|a: int, b: int| 0 <= a < b < r.len() implies r[a].0 != r[b].0 by {
            if a == 0 {
                assert(r[b] == s[b - 1]);
                assert(!(s[b - 1].0 == k));
            }
        }
    }
}

/// The contents after a whole sequence of insertions, applied in order.
pub open spec fn spec_insert_all<V>(
    s: Seq<(Seq<char>, V)>,
    ops: Seq<(Seq<char>, V)>,
) -> Seq<(Seq<char>, V)>
    decreases ops.len(),
{
    if ops.len() == 0 {
        s
    } else {
        spec_insert_all(spec_insert(s, ops[0].0, ops[0].1), ops.drop_first())
    }
}

/// However many documents are opened one after another — in particular,
/// more distinct identifiers than the capacity — the pool stays well
/// formed and never holds more than `POOL_CAPACITY` live handles.
pub proof fn lemma_pool_bounded_for_all_sequences<V>(
    s: Seq<(Seq<char>, V)>,
    ops: Seq<(Seq<char>, V)>,
)
    requires
        pool_wf(s),
    ensures
        pool_wf(spec_insert_all(s, ops)),
        spec_insert_all(s, ops).len() <= POOL_CAPACITY,
    decreases ops.len(),
{
    if ops.len() > 0 {
        lemma_insert_preserves_wf(s, ops[0].0, ops[0].1);
        lemma_pool_bounded_for_all_sequences(spec_insert(s, ops[0].0, ops[0].1), ops.drop_first());
    }
}

/// When a full pool receives a fresh identifier, the entry that leaves is
/// exactly the least recently used one — the last in recency order — and
/// every other entry survives, shifted behind the new front entry.
pub proof fn lemma_insert_evicts_lru<V>(s: Seq<(Seq<char>, V)>, k: Seq<char>, v: V)
    requires
        pool_wf(s),
        !pool_contains(s, k),
        s.len() == POOL_CAPACITY,
    ensures
        spec_insert(s, k, v) =~= seq![(k, v)] + s.drop_last(),
        spec_insert(s, k, v).len() == POOL_CAPACITY,
        forall|i: int|
            0 <= i < s.len() - 1 ==> #[trigger] spec_insert(s, k, v)[i + 1] == s[i],
        !pool_contains(spec_insert(s, k, v), s.last().0),
{
    let r = spec_insert(s, k, v);
    assert forall|i: int| 0 <= i < s.len() - 1 implies #[trigger] r[i + 1] == s[i] by {
        assert(s.drop_last()[i] == s[i]);
    }
    if pool_contains(r, s.last().0) {
        let i = choose|i: int| 0 <= i < r.len() && r[i].0 == s.last().0;
        if i == 0 {
            assert(s[s.len() - 1].0 == k);
        } else {
            assert(r[i] == s[i - 1]);
            assert(s[i - 1].0 != s[s.len() - 1].0);
        }
    }
}

/// Promotion reorders the contents without adding, dropping, or changing an
/// entry, so a hit keeps the pool well formed.
pub proof fn lemma_promote_preserves_wf<V>(s: Seq<(Seq<char>, V)>, i: int)
    requires
        pool_wf(s),
        0 <= i < s.len(),
    ensures
        pool_wf(spec_promote(s, i)),
        spec_promote(s, i).len() == s.len(),
        spec_promote(s, i).to_multiset() == s.to_multiset(),
{
    let r = spec_promote(s, i);
    assert forall|a: int, b: int| 0 <= a < b < r.len() implies r[a].0 != r[b].0 by {
        if a == 0 {
            if b <= i {
                assert(r[b] == s[b - 1]);
            } else {
                assert(r[b] == s[b]);
            }
        } else {
            if a <= i {
                assert(r[a] == s[a - 1]);
            } else {
                assert(r[a] == s[a]);
            }
            if b <= i {
                assert(r[b] == s[b - 1]);
            } else {
                assert(r[b] == s[b]);
            }
        }
    }
    assert(r =~= seq![s[i]] + s.subrange(0, i) + s.subrange(i + 1, s.len() as int));
    lemma_promote_multiset(s, i);
}

proof fn lemma_promote_multiset<V>(s: Seq<(Seq<char>, V)>, i: int)
    requires
        0 <= i < s.len(),
    ensures
        spec_promote(s, i).to_multiset() == s.to_multiset(),
{
    let r = spec_promote(s, i);
    let head = seq![s[i]];
    let pre = s.subrange(0, i);
    let post = s.subrange(i + 1, s.len() as int);
    vstd::seq_lib::lemma_seq_union_to_multiset_commutative(head, pre);
    assert((head + pre) + post =~= r);
    assert((pre + head) + post =~= s);
    (head + pre).to_multiset_ensures();
    (pre + head).to_multiset_ensures();
    vstd::seq_lib::lemma_multiset_commutative(head + pre, post);
    vstd::seq_lib::lemma_multiset_commutative(pre + head, post);
}

impl<V> DocumentPool<V> {
    /// The recency-ordered contents, most recently used first.
    pub closed spec fn view(&self) -> Seq<(Seq<char>, V)> {
        pool_view(self.entries@)
    }

    /// Within capacity, and no identifier twice.
    pub open spec fn wf(&self) -> bool {
        pool_wf(self.view())
    }

    /// Creates an empty pool.
    pub fn new() -> (r: DocumentPool<V>)
        ensures
            r.wf(),
            r.view() == Seq::<(Seq<char>, V)>::empty(),
    {
        let r = DocumentPool { entries: Vec::new() };
        proof {
            assert(r.view() =~= Seq::<(Seq<char>, V)>::empty());
        }
        r
    }

    /// How many documents are open in the pool.
    pub fn len(&self) -> (r: usize)
        ensures
            r == self.view().len(),
    {
        self.entries.len()
    }

    /// Position of `path` in recency order, if the pool holds it.
    fn find(&self, path: &str) -> (r: Option<usize>)
        ensures
            match r {
                Some(i) => i < self.view().len() && self.view()[i as int].0 == path@,
                None => !pool_contains(self.view(), path@),
            },
    {
        let n = self.entries.len();
        let mut i: usize = 0;
        while i < n
            invariant
                n == self.entries@.len(),
                i <= n,
                forall|j: int| 0 <= j < i ==> pool_view(self.entries@)[j].0 != path@,
            decreases n - i,
        {
            if str_eq(self.entries[i].0.as_str(), path) {
                return Some(i);
            }
            i = i + 1;
        }
        None
    }

    /// Refreshes recency for `path` if the pool holds it, and says whether
    /// it does. On a hit the entry moves to the front; on a miss nothing
    /// changes.
    pub fn touch(&mut self, path: &str) -> (hit: bool)
        requires
            old(self).wf(),
        ensures
            final(self).wf(),
            hit == pool_contains(old(self).view(), path@),
            !hit ==> final(self).view() == old(self).view(),
            hit ==> exists|i: int|
                0 <= i < old(self).view().len() && old(self).view()[i].0 == path@
                    && final(self).view() =~= spec_promote(old(self).view(), i),
            hit ==> final(self).view().len() > 0 && final(self).view()[0].0 == path@,
    {
        let found = self.find(path);
        match found {
            None => false,
            Some(i) => {
                let ghost s0 = self.view();
                let e = self.entries.remove(i);
                self.entries.insert(0, e);
                proof {
                    assert(self.view() =~= spec_promote(s0, i as int));
                    lemma_promote_preserves_wf(s0, i as int);
                }
                true
            },
        }
    }

    /// Borrow of the most recently used handle.
    pub fn front(&self) -> (r: &V)
        requires
            self.view().len() > 0,
        ensures
            *r == self.view()[0].1,
    {
        &self.entries[0].1
    }

    /// Identifier of the most recently used entry.
    pub fn front_path(&self) -> (r: &String)
        requires
            self.view().len() > 0,
        ensures
            r@ == self.view()[0].0,
    {
        &self.entries[0].0
    }

    /// Puts `(path, v)` at the front of the pool. An entry already held for
    /// `path` is replaced and returned; otherwise, if the pool is full, the
    /// least recently used entry is evicted and returned so its resources
    /// can be released.
    pub fn insert(&mut self, path: String, v: V) -> (out: Option<(String, V)>)
        requires
            old(self).wf(),
        ensures
            final(self).wf(),
            final(self).view() =~= spec_insert(old(self).view(), path@, v),
            final(self).view().len() <= POOL_CAPACITY,
            final(self).view().len() > 0 && final(self).view()[0].0 == path@
                && final(self).view()[0].1 == v,
            match out {
                Some(e) => {
                    (pool_contains(old(self).view(), path@) && e.0@ == path@) || (!pool_contains(
                        old(self).view(),
                        path@,
                    ) && old(self).view().len() == POOL_CAPACITY && e.0@ == old(
                        self,
                    ).view().last().0 && e.1 == old(self).view().last().1)
                },
                None => !pool_contains(old(self).view(), path@) && old(self).view().len()
                    < POOL_CAPACITY,
            },
    {
        let ghost s0 = self.view();
        proof {
            lemma_insert_preserves_wf(s0, path@, v);
        }
        let found = self.find(path.as_str());
        match found {
            Some(i) => {
                let old_entry = self.entries.remove(i);
                self.entries.insert(0, (path, v));
                proof {
                    let ghost w = pool_index_of(s0, path@);
                    assert(s0[w].0 == path@);
                    assert(s0[i as int].0 == path@);
                    assert(w == i as int);
                    assert(self.view() =~= spec_insert(s0, path@, v));
                }
                Some(old_entry)
            },
            None => {
                let evicted: Option<(String, V)> = if self.entries.len() >= POOL_CAPACITY {
                    let last = self.entries.pop().unwrap();
                    Some(last)
                } else {
                    None
                };
                self.entries.insert(0, (path, v));
                proof {
                    if s0.len() >= POOL_CAPACITY {
                        assert(self.view() =~= seq![(path@, v)] + s0.drop_last());
                        assert(self.view() =~= spec_insert(s0, path@, v));
                    } else {
                        assert(self.view() =~= seq![(path@, v)] + s0);
                        assert(self.view() =~= spec_insert(s0, path@, v));
                    }
                }
                evicted
            },
        }
    }
}

} // verus!
