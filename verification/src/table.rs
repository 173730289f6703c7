//! Small association tables with mathematical map views.
//!
//! The per-terrain bookkeeping keys a handful of collections by node id or
//! by asset handle. They are kept as vectors of key/value pairs with
//! pairwise distinct keys, so iteration order is the insertion order and
//! every operation is specified against a `Map` view.

use vstd::prelude::*;

verus! {

use crate::quadtree::NodeId;

/// The map described by an association list of key/value pairs; a later
/// entry for a key shadows an earlier one.
pub open spec fn pairs_map<K, V>(s: Seq<(K, V)>) -> Map<K, V>
    decreases s.len(),
{
    if s.len() == 0 {
        Map::empty()
    } else {
        pairs_map(s.drop_last()).insert(s.last().0, s.last().1)
    }
}

/// All entries of the association list carry distinct keys.
pub open spec fn distinct_keys<K, V>(s: Seq<(K, V)>) -> bool {
    forall|i: int, j: int| 0 <= i < j < s.len() ==> (#[trigger] s[i]).0 != (#[trigger] s[j]).0
}

pub proof fn lemma_pairs_map_membership<K, V>(s: Seq<(K, V)>, k: K)
    ensures
        pairs_map(s).contains_key(k) <==> exists|i: int|
            0 <= i < s.len() && (#[trigger] s[i]).0 == k,
    decreases s.len(),
{
    if s.len() == 0 {
    } else {
        lemma_pairs_map_membership(s.drop_last(), k);
        if s.last().0 == k {
            assert((s[s.len() - 1]).0 == k);
        } else {
            if pairs_map(s).contains_key(k) {
                let i = choose|i: int|
                    0 <= i < s.drop_last().len() && (#[trigger] s.drop_last()[i]).0 == k;
                assert((s[i]).0 == k);
            }
            if exists|i: int| 0 <= i < s.len() && (#[trigger] s[i]).0 == k {
                let i = choose|i: int| 0 <= i < s.len() && (#[trigger] s[i]).0 == k;
                assert(i < s.len() - 1);
                assert((s.drop_last()[i]).0 == k);
            }
        }
    }
}

pub proof fn lemma_pairs_map_index<K, V>(s: Seq<(K, V)>, i: int)
    requires
        distinct_keys(s),
        0 <= i < s.len(),
    ensures
        pairs_map(s).contains_key(s[i].0),
        pairs_map(s)[s[i].0] == s[i].1,
    decreases s.len(),
{
    if i == s.len() - 1 {
    } else {
        assert(distinct_keys(s.drop_last()));
        lemma_pairs_map_index(s.drop_last(), i);
        assert(s.drop_last()[i] == s[i]);
        assert(s.last().0 != s[i].0);
    }
}

pub proof fn lemma_pairs_map_push<K, V>(s: Seq<(K, V)>, k: K, v: V)
    ensures
        pairs_map(s.push((k, v))) == pairs_map(s).insert(k, v),
{
    assert(s.push((k, v)).drop_last() =~= s);
    assert(s.push((k, v)).last() == (k, v));
}

pub proof fn lemma_pairs_map_update<K, V>(s: Seq<(K, V)>, i: int, v: V)
    requires
        distinct_keys(s),
        0 <= i < s.len(),
    ensures
        pairs_map(s.update(i, (s[i].0, v))) == pairs_map(s).insert(s[i].0, v),
        distinct_keys(s.update(i, (s[i].0, v))),
    decreases s.len(),
{
    let k = s[i].0;
    let t = s.update(i, (k, v));
    assert(distinct_keys(t)) by {
        assert(forall|a: int| 0 <= a < s.len() ==> (#[trigger] t[a]).0 == s[a].0);
    }
    if i == s.len() - 1 {
        assert(t.drop_last() =~= s.drop_last());
        assert(t.last() == (k, v));
        assert(pairs_map(s.drop_last()).insert(k, v) =~= pairs_map(s.drop_last()).insert(
            k,
            s[i].1,
        ).insert(k, v));
    } else {
        assert(t.drop_last() =~= s.drop_last().update(i, (k, v)));
        assert(distinct_keys(s.drop_last()));
        assert(s.drop_last()[i] == s[i]);
        lemma_pairs_map_update(s.drop_last(), i, v);
        assert(t.last() == s.last());
        // the inserts of distinct keys commute
        assert(s.last().0 != k);
        assert(pairs_map(s.drop_last()).insert(k, v).insert(s.last().0, s.last().1)
            =~= pairs_map(s.drop_last()).insert(s.last().0, s.last().1).insert(k, v));
    }
}

pub proof fn lemma_pairs_map_remove<K, V>(s: Seq<(K, V)>, i: int)
    requires
        distinct_keys(s),
        0 <= i < s.len(),
    ensures
        pairs_map(s.remove(i)) == pairs_map(s).remove(s[i].0),
        distinct_keys(s.remove(i)),
    decreases s.len(),
{
    let k = s[i].0;
    let t = s.remove(i);
    assert(distinct_keys(t)) by {
        assert(forall|a: int| 0 <= a < t.len() ==> #[trigger] t[a] == if a < i {
            s[a]
        } else {
            s[a + 1]
        });
    }
    if i == s.len() - 1 {
        assert(t =~= s.drop_last());
        lemma_pairs_map_membership(s.drop_last(), k);
        assert(forall|a: int| 0 <= a < s.drop_last().len() ==> (#[trigger] s.drop_last()[a]).0
            != k);
        assert(!pairs_map(s.drop_last()).contains_key(k));
        assert(pairs_map(s.drop_last()).insert(k, s[i].1).remove(k) =~= pairs_map(
            s.drop_last(),
        ));
    } else {
        assert(t.drop_last() =~= s.drop_last().remove(i));
        assert(distinct_keys(s.drop_last()));
        assert(s.drop_last()[i] == s[i]);
        lemma_pairs_map_remove(s.drop_last(), i);
        assert(t.last() == s.last());
        assert(s.last().0 != k);
        assert(pairs_map(s.drop_last()).remove(k).insert(s.last().0, s.last().1)
            =~= pairs_map(s.drop_last()).insert(s.last().0, s.last().1).remove(k));
    }
}

pub proof fn lemma_pairs_map_len<K, V>(s: Seq<(K, V)>)
    requires
        distinct_keys(s),
    ensures
        pairs_map(s).dom().finite(),
        pairs_map(s).dom().len() == s.len(),
    decreases s.len(),
{
    if s.len() == 0 {
        assert(pairs_map(s).dom() =~= Set::<K>::empty());
    } else {
        assert(distinct_keys(s.drop_last()));
        lemma_pairs_map_len(s.drop_last());
        lemma_pairs_map_membership(s.drop_last(), s.last().0);
        assert(forall|a: int| 0 <= a < s.drop_last().len() ==> (#[trigger] s.drop_last()[a]).0
            != s.last().0);
        assert(!pairs_map(s.drop_last()).contains_key(s.last().0));
        assert(pairs_map(s).dom() =~= pairs_map(s.drop_last()).dom().insert(s.last().0));
    }
}

/// A table keyed by `NodeId`, iterated in insertion order.
pub struct NodeTable<V> {
    entries: Vec<(NodeId, V)>,
}

impl<V: Copy> NodeTable<V> {
    /// The entries in iteration order.
    pub closed spec fn entry_seq(self) -> Seq<(NodeId, V)> {
        self.entries@
    }

    /// The table as a mathematical map.
    pub closed spec fn view(self) -> Map<NodeId, V> {
        pairs_map(self.entries@)
    }

    pub closed spec fn wf(self) -> bool {
        distinct_keys(self.entries@)
    }

    /// Relates the map view to the entry order.
    pub proof fn lemma_entries(self)
        requires
            self.wf(),
        ensures
            self.view().dom().finite(),
            self.view().dom().len() == self.entry_seq().len(),
            distinct_keys(self.entry_seq()),
            forall|i: int| 0 <= i < self.entry_seq().len() ==> self.view().contains_key(
                (#[trigger] self.entry_seq()[i]).0,
            ) && self.view()[self.entry_seq()[i].0] == self.entry_seq()[i].1,
            forall|k: NodeId| self.view().contains_key(k) ==> exists|i: int|
                0 <= i < self.entry_seq().len() && (#[trigger] self.entry_seq()[i]).0 == k,
    {
        lemma_pairs_map_len(self.entries@);
        assert forall|i: int| 0 <= i < self.entry_seq().len() implies self.view().contains_key(
            (#[trigger] self.entry_seq()[i]).0,
        ) && self.view()[self.entry_seq()[i].0] == self.entry_seq()[i].1 by {
            lemma_pairs_map_index(self.entries@, i);
        }
        assert forall|k: NodeId| self.view().contains_key(k) implies exists|i: int|
            0 <= i < self.entry_seq().len() && (#[trigger] self.entry_seq()[i]).0 == k by {
            lemma_pairs_map_membership(self.entries@, k);
            let i = choose|i: int| 0 <= i < self.entries@.len() && (#[trigger] self.entries@[i]).0
                == k;
            assert((self.entry_seq()[i]).0 == k);
        }
    }

    pub fn new() -> (t: Self)
        ensures
            t.wf(),
            t.view() == Map::<NodeId, V>::empty(),
            t.entry_seq() == Seq::<(NodeId, V)>::empty(),
    {
        NodeTable { entries: Vec::new() }
    }

    pub fn len(&self) -> (n: usize)
        ensures
            n == self.entry_seq().len(),
    {
        self.entries.len()
    }

    pub fn entry_at(&self, i: usize) -> (e: (NodeId, V))
        requires
            i < self.entry_seq().len(),
        ensures
            e == self.entry_seq()[i as int],
    {
        self.entries[i]
    }

    /// The index of the entry for `k`, if the table holds one.
    fn position_of(&self, k: NodeId) -> (r: Option<usize>)
        requires
            self.wf(),
        ensures
            match r {
                Some(i) => i < self.entry_seq().len() && self.entry_seq()[i as int].0 == k
                    && self.view().contains_key(k),
                None => !self.view().contains_key(k),
            },
    {
        let n = self.entries.len();
        let mut i: usize = 0;
        while i < n
            invariant
                n == self.entry_seq().len(),
                i <= n,
                self.wf(),
                forall|a: int| 0 <= a < i ==> (#[trigger] self.entry_seq()[a]).0 != k,
            decreases n - i,
        {
            if self.entries[i].0 == k {
                proof {
                    lemma_pairs_map_index(self.entries@, i as int);
                }
                return Some(i);
            }
            i += 1;
        }
        proof {
            lemma_pairs_map_membership(self.entries@, k);
        }
        None
    }

    pub fn contains(&self, k: NodeId) -> (b: bool)
        requires
            self.wf(),
        ensures
            b == self.view().contains_key(k),
    {
        self.position_of(k).is_some()
    }

    pub fn get(&self, k: NodeId) -> (r: Option<V>)
        requires
            self.wf(),
        ensures
            match r {
                Some(v) => self.view().contains_key(k) && v == self.view()[k],
                None => !self.view().contains_key(k),
            },
    {
        match self.position_of(k) {
            Some(i) => {
                proof {
                    lemma_pairs_map_index(self.entries@, i as int);
                }
                Some(self.entries[i].1)
            },
            None => None,
        }
    }

    /// Inserts or replaces the value for `k`.
    pub fn insert(&mut self, k: NodeId, v: V)
        requires
            old(self).wf(),
        ensures
            final(self).wf(),
            final(self).view() == old(self).view().insert(k, v),
            final(self).entry_seq().len() == old(self).entry_seq().len() + (
            if old(self).view().contains_key(k) {
                0int
            } else {
                1int
            }),
            forall|a: int| 0 <= a < old(self).entry_seq().len()
                ==> (#[trigger] final(self).entry_seq()[a]).0 == old(self).entry_seq()[a].0,
            forall|a: int| 0 <= a < old(self).entry_seq().len() && old(self).entry_seq()[a].0 != k
                ==> #[trigger] final(self).entry_seq()[a] == old(self).entry_seq()[a],
            forall|a: int| 0 <= a < old(self).entry_seq().len() && old(self).entry_seq()[a].0 == k
                ==> #[trigger] final(self).entry_seq()[a] == (k, v),
            !old(self).view().contains_key(k)
                ==> final(self).entry_seq() == old(self).entry_seq().push((k, v)),
    {
        match self.position_of(k) {
            Some(i) => {
                proof {
                    lemma_pairs_map_update(self.entries@, i as int, v);
                }
                self.entries[i] = (k, v);
            },
            None => {
                proof {
                    lemma_pairs_map_push(self.entries@, k, v);
                    lemma_pairs_map_membership(self.entries@, k);
                }
                self.entries.push((k, v));
                assert(distinct_keys(self.entries@)) by {
                    assert(forall|a: int| 0 <= a < old(self).entry_seq().len()
                        ==> #[trigger] self.entries@[a] == old(self).entry_seq()[a]);
                }
            },
        }
    }

    pub fn remove(&mut self, k: NodeId) -> (r: Option<V>)
        requires
            old(self).wf(),
        ensures
            final(self).wf(),
            match r {
                Some(v) => old(self).view().contains_key(k) && v == old(self).view()[k]
                    && final(self).view() == old(self).view().remove(k)
                    && final(self).entry_seq().len() == old(self).entry_seq().len() - 1,
                None => !old(self).view().contains_key(k) && *final(self) == *old(self),
            },
    {
        match self.position_of(k) {
            Some(i) => {
                proof {
                    lemma_pairs_map_index(self.entries@, i as int);
                    lemma_pairs_map_remove(self.entries@, i as int);
                }
                let (_, v) = self.entries.remove(i);
                Some(v)
            },
            None => None,
        }
    }

    /// Removes the entry for a key the table is known to hold.
    pub fn remove_existing(&mut self, k: NodeId) -> (v: V)
        requires
            old(self).wf(),
            old(self).view().contains_key(k),
        ensures
            final(self).wf(),
            v == old(self).view()[k],
            final(self).view() == old(self).view().remove(k),
            final(self).entry_seq().len() == old(self).entry_seq().len() - 1,
    {
        match self.remove(k) {
            Some(v) => v,
            None => unreached(),
        }
    }
}

/// A table routing asset handles to the node waiting on them, iterated in
/// insertion order.
pub struct HandleTable {
    entries: Vec<(u64, NodeId)>,
}

impl HandleTable {
    /// The table as a mathematical map.
    pub closed spec fn view(self) -> Map<u64, NodeId> {
        pairs_map(self.entries@)
    }

    pub closed spec fn wf(self) -> bool {
        distinct_keys(self.entries@)
    }

    pub closed spec fn entry_count(self) -> nat {
        self.entries@.len()
    }

    pub fn new() -> (t: Self)
        ensures
            t.wf(),
            t.view() == Map::<u64, NodeId>::empty(),
    {
        HandleTable { entries: Vec::new() }
    }

    fn position_of(&self, h: u64) -> (r: Option<usize>)
        requires
            self.wf(),
        ensures
            match r {
                Some(i) => i < self.entries@.len() && self.entries@[i as int].0 == h
                    && self.view().contains_key(h),
                None => !self.view().contains_key(h),
            },
    {
        let n = self.entries.len();
        let mut i: usize = 0;
        while i < n
            invariant
                n == self.entries@.len(),
                i <= n,
                self.wf(),
                forall|a: int| 0 <= a < i ==> (#[trigger] self.entries@[a]).0 != h,
            decreases n - i,
        {
            if self.entries[i].0 == h {
                proof {
                    lemma_pairs_map_index(self.entries@, i as int);
                }
                return Some(i);
            }
            i += 1;
        }
        proof {
            lemma_pairs_map_membership(self.entries@, h);
        }
        None
    }

    pub fn contains(&self, h: u64) -> (b: bool)
        requires
            self.wf(),
        ensures
            b == self.view().contains_key(h),
    {
        self.position_of(h).is_some()
    }

    /// Registers a handle that was never registered before.
    pub fn insert_fresh(&mut self, h: u64, id: NodeId)
        requires
            old(self).wf(),
            !old(self).view().contains_key(h),
        ensures
            final(self).wf(),
            final(self).view() == old(self).view().insert(h, id),
    {
        proof {
            lemma_pairs_map_push(self.entries@, h, id);
            lemma_pairs_map_membership(self.entries@, h);
        }
        self.entries.push((h, id));
        assert(distinct_keys(self.entries@)) by {
            assert(forall|a: int| 0 <= a < old(self).entries@.len()
                ==> #[trigger] self.entries@[a] == old(self).entries@[a]);
        }
    }

    pub fn remove(&mut self, h: u64) -> (r: Option<NodeId>)
        requires
            old(self).wf(),
        ensures
            final(self).wf(),
            match r {
                Some(id) => old(self).view().contains_key(h) && id == old(self).view()[h]
                    && final(self).view() == old(self).view().remove(h)
                    && final(self).entry_count() == old(self).entry_count() - 1,
                None => !old(self).view().contains_key(h) && *final(self) == *old(self),
            },
    {
        match self.position_of(h) {
            Some(i) => {
                proof {
                    lemma_pairs_map_index(self.entries@, i as int);
                    lemma_pairs_map_remove(self.entries@, i as int);
                }
                let (_, id) = self.entries.remove(i);
                Some(id)
            },
            None => None,
        }
    }

    /// Some handle still routed to `id`, if any is left.
    fn find_with_value(&self, id: NodeId) -> (r: Option<u64>)
        requires
            self.wf(),
        ensures
            match r {
                Some(h) => self.view().contains_key(h) && self.view()[h] == id,
                None => forall|h: u64| self.view().contains_key(h) ==> self.view()[h] != id,
            },
    {
        let n = self.entries.len();
        let mut i: usize = 0;
        while i < n
            invariant
                n == self.entries@.len(),
                i <= n,
                self.wf(),
                forall|a: int| 0 <= a < i ==> (#[trigger] self.entries@[a]).1 != id,
            decreases n - i,
        {
            if self.entries[i].1 == id {
                proof {
                    lemma_pairs_map_index(self.entries@, i as int);
                }
                return Some(self.entries[i].0);
            }
            i += 1;
        }
        proof {
            assert forall|h: u64| self.view().contains_key(h) implies self.view()[h] != id by {
                lemma_pairs_map_membership(self.entries@, h);
                let a = choose|a: int| 0 <= a < self.entries@.len()
                    && (#[trigger] self.entries@[a]).0 == h;
                lemma_pairs_map_index(self.entries@, a);
            }
        }
        None
    }

    /// Drops every handle still routed to `id`.
    pub fn purge_value(&mut self, id: NodeId)
        requires
            old(self).wf(),
        ensures
            final(self).wf(),
            forall|h: u64| #[trigger] final(self).view().contains_key(h) <==> old(
                self,
            ).view().contains_key(h) && old(self).view()[h] != id,
            forall|h: u64| #[trigger] final(self).view().contains_key(h)
                ==> final(self).view()[h] == old(self).view()[h],
    {
        loop
            invariant
                self.wf(),
                forall|h: u64| #[trigger] self.view().contains_key(h) ==> old(self).view().contains_key(h) && self.view()[h] == old(self).view()[h],
                forall|h: u64| old(self).view().contains_key(h) && old(self).view()[h] != id
                    ==> #[trigger] self.view().contains_key(h),
            decreases self.entry_count(),
        {
            let ghost prev = *self;
            match self.find_with_value(id) {
                Some(h) => {
                    self.remove(h);
                    proof {
                        assert forall|h2: u64| #[trigger] self.view().contains_key(h2) implies old(self).view().contains_key(h2) && self.view()[h2] == old(self).view()[h2] by {
                            assert(prev.view().contains_key(h2));
                        }
                        assert forall|h2: u64| old(self).view().contains_key(h2) && old(self).view()[h2] != id implies #[trigger] self.view().contains_key(h2) by {
                            assert(prev.view().contains_key(h2));
                            assert(prev.view()[h2] != id);
                            assert(h2 != h);
                        }
                    }
                },
                None => {
                    proof {
                        assert forall|h2: u64| old(self).view().contains_key(h2) && old(self).view()[h2] != id implies self.view().contains_key(h2) by {
                        }
                        assert forall|h2: u64| self.view().contains_key(h2) implies old(self).view().contains_key(h2) && old(self).view()[h2] != id by {
                            assert(self.view()[h2] != id);
                        }
                    }
                    return ;
                },
            }
        }
    }
}

} // verus!
