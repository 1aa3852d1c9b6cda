//! Laws that the table's operations obey, stated over its abstract state.
use crate::cache::{CacheEntry, Permission};
use crate::model::{lemma_inserted_wf, lemma_removed_wf, lemma_touched, lemma_with_permission_wf, CacheModel};
use vstd::prelude::*;

verus! {

/// The state after inserting `es` in order.
pub open spec fn inserted_all(m: CacheModel, es: Seq<CacheEntry>) -> CacheModel
    decreases es.len(),
{
    if es.len() == 0 {
        m
    } else {
        inserted_all(m, es.drop_last()).inserted(es.last())
    }
}

/// Whether no two of `es` share an address.
pub open spec fn distinct_addresses(es: Seq<CacheEntry>) -> bool {
    forall|i: int, j: int| 0 <= i < es.len() && 0 <= j < es.len() && i != j ==> es[i].address != es[j].address
}

/// Inserting entries at distinct addresses into an empty table: while they
/// fit, nothing is evicted and the table holds all of them; past that, it
/// holds exactly `capacity` lines.
pub proof fn lemma_fill_to_capacity(capacity: nat, es: Seq<CacheEntry>)
    requires
        capacity > 0,
        distinct_addresses(es),
    ensures
        inserted_all(CacheModel::empty(capacity), es).wf(),
        inserted_all(CacheModel::empty(capacity), es).capacity == capacity,
        inserted_all(CacheModel::empty(capacity), es).contents.len() == if es.len() <= capacity {
            es.len()
        } else {
            capacity
        },
        es.len() <= capacity ==> forall|i: int|
            0 <= i < es.len() ==> #[trigger] inserted_all(CacheModel::empty(capacity), es.take(i)).evicted_by(es[i])
                == None::<CacheEntry>,
    decreases es.len(),
{
    let m0 = CacheModel::empty(capacity);
    assert(m0.contents.dom() =~= Set::<i32>::empty());
    if es.len() == 0 {
        assert(m0.contents.len() == 0);
    } else {
        let p = es.drop_last();
        let e = es.last();
        assert(p.len() == es.len() - 1);
        assert(distinct_addresses(p)) by {
            assert forall|i: int, j: int| 0 <= i < p.len() && 0 <= j < p.len() && i != j
                implies p[i].address != p[j].address by {
                assert(p[i] == es[i] && p[j] == es[j]);
            }
        }
        lemma_fill_to_capacity(capacity, p);
        lemma_held_were_inserted(capacity, p);
        let m = inserted_all(m0, p);
        lemma_inserted_wf(m, e);
        assert(!m.contents.contains_key(e.address)) by {
            if m.contents.contains_key(e.address) {
                let j = choose|j: int| 0 <= j < p.len() && p[j].address == e.address;
                assert(es[j] == p[j]);
                assert(es[es.len() - 1] == e);
            }
        }
        let n = m.inserted(e);
        assert(m.recency.len() == if p.len() <= capacity { p.len() } else { capacity });
        if m.evicts_for(e) {
            assert(n.recency.len() == m.recency.len());
        } else {
            lemma_touched(m.recency, e.address);
            assert(m.recency.contains(e.address) <==> m.contents.contains_key(e.address));
            assert(n.recency.len() == m.recency.len() + 1);
        }
        if es.len() <= capacity {
            assert forall|i: int| 0 <= i < es.len() implies #[trigger] inserted_all(m0, es.take(i)).evicted_by(es[i])
                == None::<CacheEntry> by {
                if i < p.len() {
                    assert(es.take(i) =~= p.take(i));
                    assert(es[i] == p[i]);
                    assert(inserted_all(m0, p.take(i)).evicted_by(p[i]) == None::<CacheEntry>);
                } else {
                    assert(es.take(i) =~= p);
                    assert(es[i] == e);
                    assert(!m.evicts_for(e));
                }
            }
        }
    }
}

/// Every address held after inserting `es` into an empty table is the
/// address of one of `es`.
proof fn lemma_held_were_inserted(capacity: nat, es: Seq<CacheEntry>)
    ensures
        forall|a: i32| #[trigger] inserted_all(CacheModel::empty(capacity), es).contents.contains_key(a)
            ==> exists|j: int| 0 <= j < es.len() && es[j].address == a,
    decreases es.len(),
{
    if es.len() > 0 {
        let p = es.drop_last();
        lemma_held_were_inserted(capacity, p);
        let m = inserted_all(CacheModel::empty(capacity), p);
        assert forall|a: i32| #[trigger] inserted_all(CacheModel::empty(capacity), es).contents.contains_key(a)
            implies exists|j: int| 0 <= j < es.len() && es[j].address == a by {
            if a == es.last().address {
                assert(es[es.len() - 1] == es.last());
            } else {
                assert(m.contents.contains_key(a));
                let j = choose|j: int| 0 <= j < p.len() && p[j].address == a;
                assert(es[j] == p[j]);
            }
        }
    }
}

/// An entry inserted is found by the lookup that follows.
pub proof fn lemma_insert_then_get(m: CacheModel, e: CacheEntry)
    requires
        m.wf(),
    ensures
        m.inserted(e).lookup(e.address) == Some(e),
{
}

/// Inserting at an address already held evicts nothing and keeps the set of
/// addresses held.
pub proof fn lemma_replace_never_evicts(m: CacheModel, e: CacheEntry)
    requires
        m.wf(),
        m.contents.contains_key(e.address),
    ensures
        m.evicted_by(e) == None::<CacheEntry>,
        m.inserted(e).contents.dom() == m.contents.dom(),
        m.inserted(e).contents.len() == m.contents.len(),
{
    assert(m.inserted(e).contents.dom() =~= m.contents.dom());
}

/// Removing an absent address returns nothing and changes nothing; removing a
/// present one drops exactly one line, and a lookup then misses.
pub proof fn lemma_remove_then_get(m: CacheModel, a: i32)
    requires
        m.wf(),
    ensures
        !m.contents.contains_key(a) ==> m.lookup(a) == None::<CacheEntry> && m.removed(a) == m,
        m.contents.contains_key(a) ==> m.removed(a).contents.len() == m.contents.len() - 1,
        m.removed(a).lookup(a) == None::<CacheEntry>,
        m.removed(a).after_get(a) == m.removed(a),
{
    lemma_removed_wf(m, a);
}

/// Setting the permission of a held line makes it the most recently used, so
/// when more than one line is held, the next eviction takes another line.
pub proof fn lemma_update_protects(m: CacheModel, a: i32, p: Permission, e: CacheEntry)
    requires
        m.wf(),
        m.contents.contains_key(a),
        m.recency.len() > 1,
    ensures
        m.with_permission(a, p).recency[0] == a,
        m.with_permission(a, p).evicted_by(e) is Some ==> m.with_permission(a, p).evicted_by(e)->0.address != a,
{
    let u = m.with_permission(a, p);
    lemma_with_permission_wf(m, a, p);
    lemma_touched(m.recency, a);
    assert(m.recency.contains(a));
    assert(u.recency[u.recency.len() - 1] == u.recency.last());
    assert(u.recency.contains(u.recency.last()));
}

} // verus!
