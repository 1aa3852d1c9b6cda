//! The cache table: a map from address to entry, kept in step with a
//! recency order of the same addresses.
use crate::model::{
    lemma_after_get_wf, lemma_inserted_wf, lemma_removed_wf, lemma_with_permission_wf,
    lemma_without_absent, lemma_without_at, touched, CacheModel,
};
use std::collections::HashMap;
use vstd::prelude::*;

verus! {

broadcast use vstd::std_specs::hash::group_hash_axioms;

/// Coherence state of a cached line. The table stores it and reports it; the
/// protocol that drives the table decides which changes are legal.
#[derive(Debug, PartialEq, Eq, Clone, Copy, Structural)]
pub enum Permission {
    Invalid,
    Shared,
    Exclusive,
    Modified,
}

/// One cached line.
#[derive(Debug, PartialEq, Eq, Clone)]
pub struct CacheEntry {
    pub address: i32,
    pub data: String,
    pub dirty: bool,
    pub permission: Permission,
}

/// A fixed-capacity table of cache lines with least-recently-used eviction.
#[derive(Debug, Clone)]
pub struct CacheTable {
    entries: HashMap<i32, CacheEntry>,
    /// Addresses of the entries, most recently used first.
    order: Vec<i32>,
    capacity: usize,
}

impl View for CacheTable {
    type V = CacheModel;

    closed spec fn view(&self) -> CacheModel {
        CacheModel {
            recency: self.order@,
            contents: self.entries@,
            capacity: self.capacity as nat,
        }
    }
}

/// Where `a` stands in `order`, if it does.
fn position(order: &Vec<i32>, a: i32) -> (r: Option<usize>)
    ensures
        match r {
            Some(i) => i < order@.len() && order@[i as int] == a,
            None => !order@.contains(a),
        },
{
    let mut i: usize = 0;
    while i < order.len()
        invariant
            i <= order@.len(),
            forall|j: int| 0 <= j < i ==> order@[j] != a,
        decreases order@.len() - i,
    {
        if order[i] == a {
            return Some(i);
        }
        i = i + 1;
    }
    None
}

/// Makes `a` the most recently used address of `order`.
fn promote(order: &mut Vec<i32>, a: i32)
    requires
        old(order)@.no_duplicates(),
    ensures
        final(order)@ == touched(old(order)@, a),
{
    let ghost s = order@;
    match position(order, a) {
        Some(i) => {
            proof {
                lemma_without_at(s, a, i as int);
            }
            order.remove(i);
        },
        None => {
            proof {
                lemma_without_absent(s, a);
            }
        },
    }
    order.insert(0, a);
    assert(order@ =~= touched(s, a));
}

impl CacheTable {
    /// An empty table that holds at most `capacity` lines. A table of no
    /// lines could hold nothing it is given, so `capacity` must be positive.
    pub fn new(capacity: usize) -> (r: CacheTable)
        requires
            capacity > 0,
        ensures
            r@.wf(),
            r@ == CacheModel::empty(capacity as nat),
    {
        let r = CacheTable { entries: HashMap::with_capacity(capacity), order: Vec::new(), capacity };
        proof {
            assert(r.entries@.dom() =~= Set::<i32>::empty());
        }
        r
    }

    /// The number of lines held.
    pub fn len(&self) -> (r: usize)
        requires
            self@.wf(),
        ensures
            r == self@.contents.len(),
    {
        self.entries.len()
    }

    /// Whether no line is held.
    pub fn is_empty(&self) -> (r: bool)
        requires
            self@.wf(),
        ensures
            r == (self@.contents.len() == 0),
    {
        self.entries.is_empty()
    }

    /// Looks up the line at `address`. A line found becomes the most recently
    /// used; a miss changes nothing.
    pub fn get(&mut self, address: &i32) -> (r: Option<&CacheEntry>)
        requires
            old(self)@.wf(),
        ensures
            final(self)@.wf(),
            final(self)@ == old(self)@.after_get(*address),
            match r {
                Some(e) => old(self)@.lookup(*address) == Some(*e),
                None => old(self)@.lookup(*address) == None::<CacheEntry>,
            },
    {
        if self.entries.contains_key(address) {
            proof {
                lemma_after_get_wf(self@, *address);
            }
            promote(&mut self.order, *address);
            self.entries.get(address)
        } else {
            None
        }
    }

    /// Inserts `entry`, replacing any line at its address. When the address
    /// is new and the table is full, the least recently used line is evicted
    /// first and handed back. Either way `entry` becomes the most recently
    /// used.
    pub fn insert(&mut self, entry: CacheEntry) -> (evicted: Option<CacheEntry>)
        requires
            old(self)@.wf(),
        ensures
            final(self)@.wf(),
            final(self)@ == old(self)@.inserted(entry),
            evicted == old(self)@.evicted_by(entry),
    {
        proof {
            lemma_inserted_wf(self@, entry);
        }
        let address = entry.address;
        if self.entries.contains_key(&address) {
            self.entries.insert(address, entry);
            promote(&mut self.order, address);
            return None;
        }
        let ghost s = self.order@;
        let mut evicted: Option<CacheEntry> = None;
        if self.entries.len() >= self.capacity {
            if let Some(lru) = self.order.pop() {
                evicted = self.entries.remove(&lru);
            }
        }
        proof {
            lemma_without_absent(s, address);
        }
        self.entries.insert(address, entry);
        self.order.insert(0, address);
        assert(self.order@ =~= old(self)@.inserted(entry).recency);
        evicted
    }

    /// Removes the line at `address` and hands it back, if there is one.
    pub fn remove(&mut self, address: &i32) -> (r: Option<CacheEntry>)
        requires
            old(self)@.wf(),
        ensures
            final(self)@.wf(),
            final(self)@ == old(self)@.removed(*address),
            r == old(self)@.lookup(*address),
    {
        proof {
            lemma_removed_wf(self@, *address);
        }
        let ghost s = self.order@;
        match self.entries.remove(address) {
            Some(entry) => {
                let i = position(&self.order, *address).unwrap();
                proof {
                    lemma_without_at(s, *address, i as int);
                }
                self.order.remove(i);
                Some(entry)
            },
            None => {
                proof {
                    lemma_without_absent(s, *address);
                }
                None
            },
        }
    }

    /// Sets the permission of the line at `address`, which then becomes the
    /// most recently used. Returns whether there was such a line; a miss
    /// changes nothing.
    pub fn update_permission(&mut self, address: i32, new_permission: Permission) -> (r: bool)
        requires
            old(self)@.wf(),
        ensures
            final(self)@.wf(),
            final(self)@ == old(self)@.with_permission(address, new_permission),
            r == old(self)@.contents.contains_key(address),
    {
        proof {
            lemma_with_permission_wf(self@, address, new_permission);
        }
        match self.entries.remove(&address) {
            Some(mut entry) => {
                entry.permission = new_permission;
                self.entries.insert(address, entry);
                promote(&mut self.order, address);
                assert(self.entries@ =~= old(self)@.with_permission(address, new_permission).contents);
                true
            },
            None => {
                assert(self.entries@ =~= old(self)@.contents);
                false
            },
        }
    }
}

} // verus!