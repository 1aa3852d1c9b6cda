//! The abstract state of a cache table, the state each operation leads to,
//! and the facts about recency orders that the operations rest on.
use crate::cache::{CacheEntry, Permission};
use vstd::prelude::*;

verus! {

/// The abstract state of a table: the addresses from most to least recently
/// touched, the entry at each address, and the capacity.
pub ghost struct CacheModel {
    pub recency: Seq<i32>,
    pub contents: Map<i32, CacheEntry>,
    pub capacity: nat,
}

/// The recency order without `a`: every other address in its former order.
pub open spec fn without(recency: Seq<i32>, a: i32) -> Seq<i32> {
    recency.filter(|x: i32| x != a)
}

/// The recency order after `a` is touched: `a` first, then every other
/// address in its former order.
pub open spec fn touched(recency: Seq<i32>, a: i32) -> Seq<i32> {
    seq![a] + without(recency, a)
}

impl CacheModel {
    /// An empty table of capacity `capacity`.
    pub open spec fn empty(capacity: nat) -> CacheModel {
        CacheModel { recency: Seq::empty(), contents: Map::empty(), capacity }
    }

    /// The table's invariants: each address of the map stands exactly once in
    /// the recency order and nothing else does, no more entries than the
    /// capacity, and each entry filed under its own address.
    pub open spec fn wf(self) -> bool {
        &&& self.capacity > 0
        &&& self.recency.no_duplicates()
        &&& forall|a: i32| self.recency.contains(a) <==> self.contents.contains_key(a)
        &&& self.recency.len() == self.contents.len()
        &&& self.contents.dom().finite()
        &&& self.recency.len() <= self.capacity
        &&& forall|a: i32| #[trigger] self.contents.contains_key(a) ==> self.contents[a].address == a
    }

    /// The entry at `a`, if any.
    pub open spec fn lookup(self, a: i32) -> Option<CacheEntry> {
        if self.contents.contains_key(a) {
            Some(self.contents[a])
        } else {
            None
        }
    }

    /// The state after a lookup of `a`: a present address becomes the most
    /// recently used; otherwise nothing changes.
    pub open spec fn after_get(self, a: i32) -> CacheModel {
        if self.contents.contains_key(a) {
            CacheModel { recency: touched(self.recency, a), ..self }
        } else {
            self
        }
    }

    /// Whether inserting `e` must first evict the least recently used line:
    /// its address is new and the table is full.
    pub open spec fn evicts_for(self, e: CacheEntry) -> bool {
        !self.contents.contains_key(e.address) && self.recency.len() >= self.capacity
            && self.recency.len() > 0
    }

    /// The entry that inserting `e` evicts, if any: the one at the back of
    /// the recency order.
    pub open spec fn evicted_by(self, e: CacheEntry) -> Option<CacheEntry> {
        if self.evicts_for(e) {
            Some(self.contents[self.recency.last()])
        } else {
            None
        }
    }

    /// The state after inserting `e`: an entry at the same address is
    /// replaced, else the least recently used line is evicted when the table
    /// is full; either way `e` ends up the most recently used.
    pub open spec fn inserted(self, e: CacheEntry) -> CacheModel {
        if self.evicts_for(e) {
            CacheModel {
                recency: seq![e.address] + self.recency.drop_last(),
                contents: self.contents.remove(self.recency.last()).insert(e.address, e),
                capacity: self.capacity,
            }
        } else {
            CacheModel {
                recency: touched(self.recency, e.address),
                contents: self.contents.insert(e.address, e),
                capacity: self.capacity,
            }
        }
    }

    /// The state after removing the line at `a`, if any.
    pub open spec fn removed(self, a: i32) -> CacheModel {
        CacheModel {
            recency: without(self.recency, a),
            contents: self.contents.remove(a),
            capacity: self.capacity,
        }
    }

    /// The state after setting the permission of the line at `a` to `p`,
    /// which then becomes the most recently used. Nothing changes when `a`
    /// is absent.
    pub open spec fn with_permission(self, a: i32, p: Permission) -> CacheModel {
        if self.contents.contains_key(a) {
            CacheModel {
                recency: touched(self.recency, a),
                contents: self.contents.insert(a, CacheEntry { permission: p, ..self.contents[a] }),
                capacity: self.capacity,
            }
        } else {
            self
        }
    }
}


/// Dropping an address that does not occur changes nothing.
pub proof fn lemma_without_absent(s: Seq<i32>, a: i32)
    requires
        !s.contains(a),
    ensures
        without(s, a) == s,
    decreases s.len(),
{
    reveal(Seq::filter);
    if s.len() > 0 {
        assert(!s.drop_last().contains(a)) by {
            if s.drop_last().contains(a) {
                let j = choose|j: int| 0 <= j < s.drop_last().len() && s.drop_last()[j] == a;
                assert(s[j] == a);
            }
        }
        lemma_without_absent(s.drop_last(), a);
        assert(s.last() != a) by {
            assert(s[s.len() - 1] == s.last());
        }
        assert(s.drop_last().push(s.last()) =~= s);
    }
}

/// In a sequence without duplicates, dropping an address is removing the one
/// place where it stands.
pub proof fn lemma_without_at(s: Seq<i32>, a: i32, i: int)
    requires
        s.no_duplicates(),
        0 <= i < s.len(),
        s[i] == a,
    ensures
        without(s, a) == s.remove(i),
    decreases s.len(),
{
    reveal(Seq::filter);
    let d = s.drop_last();
    if i == s.len() - 1 {
        assert(!d.contains(a)) by {
            if d.contains(a) {
                let j = choose|j: int| 0 <= j < d.len() && d[j] == a;
                assert(s[j] == a);
            }
        }
        lemma_without_absent(d, a);
        assert(d =~= s.remove(i));
    } else {
        assert(d.no_duplicates()) by {
            assert forall|p: int, q: int| 0 <= p < d.len() && 0 <= q < d.len() && p != q
                implies d[p] != d[q] by {
                assert(d[p] == s[p] && d[q] == s[q]);
            }
        }
        assert(d[i] == a);
        lemma_without_at(d, a, i);
        assert(s.last() != a) by {
            assert(s[s.len() - 1] == s.last());
        }
        assert(d.remove(i).push(s.last()) =~= s.remove(i));
    }
}

/// What is left once the one place of `a` is removed: no duplicates, no `a`,
/// every other address still there.
pub proof fn lemma_dropped(s: Seq<i32>, a: i32, i: int)
    requires
        s.no_duplicates(),
        0 <= i < s.len(),
        s[i] == a,
    ensures
        s.remove(i).no_duplicates(),
        !s.remove(i).contains(a),
        forall|x: i32| x != a ==> (s.remove(i).contains(x) <==> s.contains(x)),
{
    let rest = s.remove(i);
    assert(!rest.contains(a)) by {
        if rest.contains(a) {
            let j = choose|j: int| 0 <= j < rest.len() && rest[j] == a;
            if j < i {
                assert(s[j] == a);
            } else {
                assert(s[j + 1] == a);
            }
        }
    }
    assert forall|p: int, q: int| 0 <= p < rest.len() && 0 <= q < rest.len() && p != q
        implies rest[p] != rest[q] by {
        let pp = if p < i { p } else { p + 1 };
        let qq = if q < i { q } else { q + 1 };
        assert(rest[p] == s[pp] && rest[q] == s[qq]);
    }
    assert forall|x: i32| x != a implies (rest.contains(x) <==> s.contains(x)) by {
        if rest.contains(x) {
            let j = choose|j: int| 0 <= j < rest.len() && rest[j] == x;
            let jj = if j < i { j } else { j + 1 };
            assert(s[jj] == x);
        }
        if s.contains(x) {
            let j = choose|j: int| 0 <= j < s.len() && s[j] == x;
            assert(j != i);
            let jj = if j < i { j } else { j - 1 };
            assert(rest[jj] == x);
        }
    }
}

/// Touching keeps the order free of duplicates, adds `a` if it was missing,
/// and keeps every other address.
pub proof fn lemma_touched(s: Seq<i32>, a: i32)
    requires
        s.no_duplicates(),
    ensures
        touched(s, a).no_duplicates(),
        touched(s, a)[0] == a,
        forall|x: i32| touched(s, a).contains(x) <==> (s.contains(x) || x == a),
        touched(s, a).len() == if s.contains(a) { s.len() } else { s.len() + 1 },
{
    if s.contains(a) {
        let i = choose|i: int| 0 <= i < s.len() && s[i] == a;
        lemma_without_at(s, a, i);
        lemma_dropped(s, a, i);
    } else {
        lemma_without_absent(s, a);
    }
    lemma_prepend(without(s, a), a);
}

/// Putting a new address in front of an order without duplicates.
pub proof fn lemma_prepend(rest: Seq<i32>, a: i32)
    requires
        rest.no_duplicates(),
        !rest.contains(a),
    ensures
        (seq![a] + rest).no_duplicates(),
        forall|x: i32| (seq![a] + rest).contains(x) <==> (rest.contains(x) || x == a),
{
    let t = seq![a] + rest;
    assert forall|p: int, q: int| 0 <= p < t.len() && 0 <= q < t.len() && p != q
        implies t[p] != t[q] by {
        if p > 0 && q > 0 {
            assert(t[p] == rest[p - 1] && t[q] == rest[q - 1]);
        } else if p == 0 {
            assert(t[q] == rest[q - 1]);
        } else {
            assert(t[p] == rest[p - 1]);
        }
    }
    assert forall|x: i32| t.contains(x) <==> (rest.contains(x) || x == a) by {
        if x != a && t.contains(x) {
            let j = choose|j: int| 0 <= j < t.len() && t[j] == x;
            assert(rest[j - 1] == x);
        }
        if x != a && rest.contains(x) {
            let j = choose|j: int| 0 <= j < rest.len() && rest[j] == x;
            assert(t[j + 1] == x);
        }
        if x == a {
            assert(t[0] == a);
        }
    }
}

/// Inserting keeps a table well formed.
pub proof fn lemma_inserted_wf(m: CacheModel, e: CacheEntry)
    requires
        m.wf(),
    ensures
        m.inserted(e).wf(),
{
    let s = m.recency;
    let c = m.contents;
    let a = e.address;
    let n = m.inserted(e);
    if m.evicts_for(e) {
        let i = s.len() - 1;
        let d = s.drop_last();
        assert(s[i] == s.last());
        assert(d =~= s.remove(i));
        lemma_dropped(s, s.last(), i);
        assert(!d.contains(a)) by {
            if d.contains(a) {
                assert(s.contains(a));
            }
        }
        lemma_prepend(d, a);
        assert(s.contains(s.last()));
        assert(c.contains_key(s.last()));
        assert forall|x: i32| n.recency.contains(x) <==> n.contents.contains_key(x) by {
            if x != a && x != s.last() {
                assert(s.contains(x) <==> c.contains_key(x));
            }
        }
    } else {
        lemma_touched(s, a);
        assert forall|x: i32| n.recency.contains(x) <==> n.contents.contains_key(x) by {
            if x != a {
                assert(s.contains(x) <==> c.contains_key(x));
            }
        }
    }
}

/// Removing keeps a table well formed.
pub proof fn lemma_removed_wf(m: CacheModel, a: i32)
    requires
        m.wf(),
    ensures
        m.removed(a).wf(),
        !m.contents.contains_key(a) ==> m.removed(a) == m,
{
    let s = m.recency;
    let n = m.removed(a);
    if m.contents.contains_key(a) {
        assert(s.contains(a));
        let i = choose|i: int| 0 <= i < s.len() && s[i] == a;
        lemma_without_at(s, a, i);
        lemma_dropped(s, a, i);
        assert forall|x: i32| n.recency.contains(x) <==> n.contents.contains_key(x) by {
            if x != a {
                assert(s.contains(x) <==> m.contents.contains_key(x));
            }
        }
    } else {
        lemma_without_absent(s, a);
        assert(n.contents =~= m.contents);
    }
}

/// A lookup keeps a table well formed.
pub proof fn lemma_after_get_wf(m: CacheModel, a: i32)
    requires
        m.wf(),
    ensures
        m.after_get(a).wf(),
{
    if m.contents.contains_key(a) {
        lemma_touched(m.recency, a);
        assert forall|x: i32| m.after_get(a).recency.contains(x) <==> m.contents.contains_key(x) by {
            if x != a {
                assert(m.recency.contains(x) <==> m.contents.contains_key(x));
            }
        }
    }
}

/// Setting a permission keeps a table well formed.
pub proof fn lemma_with_permission_wf(m: CacheModel, a: i32, p: Permission)
    requires
        m.wf(),
    ensures
        m.with_permission(a, p).wf(),
{
    if m.contents.contains_key(a) {
        let n = m.with_permission(a, p);
        lemma_touched(m.recency, a);
        assert forall|x: i32| n.recency.contains(x) <==> n.contents.contains_key(x) by {
            if x != a {
                assert(m.recency.contains(x) <==> m.contents.contains_key(x));
            }
        }
    }
}

} // verus!
