use vstd::prelude::*;
use crate::agg::{Aggregate, AggModel, agg_wf, agg_init, agg_obs, agg_merge, lemma_agg_wf};
use crate::value::VALUE_LIMIT;

verus! {

/// One key with its running aggregate.
pub struct Entry {
    pub key: Vec<u8>,
    pub agg: Aggregate,
}

/// A mapping from key to aggregate, held as a list of entries with
/// pairwise distinct keys.
pub struct Mapping {
    pub entries: Vec<Entry>,
}

/// The map denoted by a list of entries; a later entry for the same key
/// would win, but well-formed lists have distinct keys.
pub open spec fn map_of(es: Seq<Entry>) -> Map<Seq<u8>, AggModel>
    decreases es.len(),
{
    if es.len() == 0 {
        Map::empty()
    } else {
        map_of(es.drop_last()).insert(es.last().key@, es.last().agg@)
    }
}

/// Entry lists are well formed when their keys are pairwise distinct and
/// every aggregate is well formed.
pub open spec fn entries_wf(es: Seq<Entry>) -> bool {
    &&& forall|i: int, j: int| 0 <= i < j < es.len() ==> (#[trigger] es[i].key@) != (#[trigger] es[j].key@)
    &&& forall|i: int| 0 <= i < es.len() ==> agg_wf((#[trigger] es[i]).agg@)
}

/// Every aggregate of a well-formed aggregate map is well formed.
pub open spec fn map_model_wf(m: Map<Seq<u8>, AggModel>) -> bool {
    forall|k: Seq<u8>| #[trigger] m.dom().contains(k) ==> agg_wf(m[k])
}

/// The count recorded for `k`, or zero when `k` is absent.
pub open spec fn count_of(m: Map<Seq<u8>, AggModel>, k: Seq<u8>) -> nat {
    if m.dom().contains(k) {
        m[k].count
    } else {
        0
    }
}

/// Folding one observation of `k` into an aggregate map.
pub open spec fn map_step(m: Map<Seq<u8>, AggModel>, k: Seq<u8>, v: int) -> Map<Seq<u8>, AggModel> {
    if m.dom().contains(k) {
        m.insert(k, agg_obs(m[k], v))
    } else {
        m.insert(k, agg_init(v))
    }
}

/// The merge of two aggregate maps: keys of both sides combine
/// elementwise, keys of one side carry through unchanged.
pub open spec fn map_merge(
    m1: Map<Seq<u8>, AggModel>,
    m2: Map<Seq<u8>, AggModel>,
) -> Map<Seq<u8>, AggModel> {
    Map::new(
        |k: Seq<u8>| m1.dom().contains(k) || m2.dom().contains(k),
        |k: Seq<u8>|
            if m1.dom().contains(k) && m2.dom().contains(k) {
                agg_merge(m1[k], m2[k])
            } else if m2.dom().contains(k) {
                m2[k]
            } else {
                m1[k]
            },
    )
}

/// Merging aggregate maps is commutative.
pub proof fn lemma_map_merge_comm(m1: Map<Seq<u8>, AggModel>, m2: Map<Seq<u8>, AggModel>)
    ensures
        map_merge(m1, m2) == map_merge(m2, m1),
{
    assert(map_merge(m1, m2) =~= map_merge(m2, m1));
}

/// Merging aggregate maps is associative.
pub proof fn lemma_map_merge_assoc(
    m1: Map<Seq<u8>, AggModel>,
    m2: Map<Seq<u8>, AggModel>,
    m3: Map<Seq<u8>, AggModel>,
)
    ensures
        map_merge(map_merge(m1, m2), m3) == map_merge(m1, map_merge(m2, m3)),
{
    assert(map_merge(map_merge(m1, m2), m3) =~= map_merge(m1, map_merge(m2, m3)));
}

/// The empty map is the identity of merge.
pub proof fn lemma_map_merge_empty(m: Map<Seq<u8>, AggModel>)
    ensures
        map_merge(Map::empty(), m) == m,
        map_merge(m, Map::empty()) == m,
{
    assert(map_merge(Map::empty(), m) =~= m);
    assert(map_merge(m, Map::empty()) =~= m);
}

/// Merge preserves well-formedness and adds counts per key.
pub proof fn lemma_map_merge_wf(m1: Map<Seq<u8>, AggModel>, m2: Map<Seq<u8>, AggModel>)
    requires
        map_model_wf(m1),
        map_model_wf(m2),
    ensures
        map_model_wf(map_merge(m1, m2)),
        forall|k: Seq<u8>|
            count_of(map_merge(m1, m2), k) == count_of(m1, k) + #[trigger] count_of(m2, k),
{
    assert forall|k: Seq<u8>| #[trigger] map_merge(m1, m2).dom().contains(k)
        implies agg_wf(map_merge(m1, m2)[k]) by {
        lemma_agg_wf(
            if m1.dom().contains(k) { m1[k] } else { m2[k] },
            if m2.dom().contains(k) { m2[k] } else { m1[k] },
            0,
        );
    }
}

/// An observation folded into the right side of a merge may instead be
/// folded into the merged map.
pub proof fn lemma_map_merge_step(
    m1: Map<Seq<u8>, AggModel>,
    m2: Map<Seq<u8>, AggModel>,
    k: Seq<u8>,
    v: int,
)
    ensures
        map_merge(m1, map_step(m2, k, v)) == map_step(map_merge(m1, m2), k, v),
{
    crate::agg::lemma_agg_merge_init(m1[k], v);
    crate::agg::lemma_agg_merge_obs(m1[k], m2[k], v);
    assert(map_merge(m1, map_step(m2, k, v)) =~= map_step(map_merge(m1, m2), k, v));
}

/// `map_of` lists exactly the entry keys, maps each to its aggregate, and
/// has a finite domain.
pub proof fn lemma_map_of(es: Seq<Entry>)
    requires
        forall|i: int, j: int| 0 <= i < j < es.len() ==> (#[trigger] es[i].key@) != (#[trigger] es[j].key@),
    ensures
        forall|i: int| 0 <= i < es.len() ==> map_of(es).dom().contains((#[trigger] es[i]).key@),
        forall|k: Seq<u8>|
            #[trigger] map_of(es).dom().contains(k) ==> exists|i: int|
                0 <= i < es.len() && (#[trigger] es[i]).key@ == k,
        forall|i: int| 0 <= i < es.len() ==> map_of(es)[(#[trigger] es[i]).key@] == es[i].agg@,
        map_of(es).dom().finite(),
    decreases es.len(),
{
    if es.len() > 0 {
        let t = es.drop_last();
        assert forall|p: int, q: int| 0 <= p < q < t.len()
            implies (#[trigger] t[p].key@) != (#[trigger] t[q].key@) by {
            assert(t[p] == es[p]);
            assert(t[q] == es[q]);
        }
        lemma_map_of(t);
        assert forall|i: int| 0 <= i < es.len()
            implies map_of(es)[(#[trigger] es[i]).key@] == es[i].agg@ by {
            if i < es.len() - 1 {
                assert(es[i].key@ != es.last().key@);
                assert(t[i] == es[i]);
            }
        }
        assert forall|i: int| 0 <= i < es.len()
            implies map_of(es).dom().contains((#[trigger] es[i]).key@) by {
            if i < es.len() - 1 {
                assert(t[i] == es[i]);
            }
        }
        assert forall|k: Seq<u8>| #[trigger] map_of(es).dom().contains(k)
            implies exists|i: int| 0 <= i < es.len() && (#[trigger] es[i]).key@ == k by {
            if k != es.last().key@ {
                let i = choose|i: int| 0 <= i < t.len() && (#[trigger] t[i]).key@ == k;
                assert(es[i].key@ == k);
            } else {
                assert(es[es.len() - 1].key@ == k);
            }
        }
    }
}

/// Replacing the aggregate of the entry at `i` updates the map at that
/// entry's key alone.
pub proof fn lemma_map_of_update(es: Seq<Entry>, i: int, e: Entry)
    requires
        forall|p: int, q: int| 0 <= p < q < es.len() ==> (#[trigger] es[p].key@) != (#[trigger] es[q].key@),
        0 <= i < es.len(),
        e.key@ == es[i].key@,
    ensures
        map_of(es.update(i, e)) == map_of(es).insert(e.key@, e.agg@),
    decreases es.len(),
{
    let u = es.update(i, e);
    if i == es.len() - 1 {
        assert(u.drop_last() =~= es.drop_last());
        assert(u.last() == e);
        assert(map_of(u) == map_of(es.drop_last()).insert(e.key@, e.agg@));
        assert(map_of(es) == map_of(es.drop_last()).insert(es.last().key@, es.last().agg@));
        assert(map_of(u) =~= map_of(es).insert(e.key@, e.agg@));
    } else {
        let t = es.drop_last();
        assert(u.drop_last() =~= t.update(i, e));
        assert(t[i] == es[i]);
        assert forall|p: int, q: int| 0 <= p < q < t.len()
            implies (#[trigger] t[p].key@) != (#[trigger] t[q].key@) by {
            assert(t[p] == es[p]);
            assert(t[q] == es[q]);
        }
        lemma_map_of_update(t, i, e);
        assert(u.last() == es.last());
        assert(e.key@ != es.last().key@);
        assert(map_of(u) == map_of(t).insert(e.key@, e.agg@).insert(es.last().key@, es.last().agg@));
        assert(map_of(u) =~= map_of(es).insert(e.key@, e.agg@));
    }
}

/// Compares two keys byte for byte.
pub fn keys_eq(a: &Vec<u8>, b: &Vec<u8>) -> (r: bool)
    ensures
        r <==> a@ == b@,
{
    if a.len() != b.len() {
        return false;
    }
    let mut j: usize = 0;
    while j < a.len()
        invariant
            j <= a.len(),
            a.len() == b.len(),
            forall|t: int| 0 <= t < j ==> a@[t] == b@[t],
        decreases a.len() - j,
    {
        if a[j] != b[j] {
            return false;
        }
        j = j + 1;
    }
    proof {
        assert(a@ =~= b@);
    }
    true
}

/// Copies a key into an owned buffer.
pub fn copy_key(a: &Vec<u8>) -> (r: Vec<u8>)
    ensures
        r@ == a@,
{
    let mut r: Vec<u8> = Vec::new();
    let mut j: usize = 0;
    while j < a.len()
        invariant
            j <= a.len(),
            r@ =~= a@.take(j as int),
        decreases a.len() - j,
    {
        r.push(a[j]);
        j = j + 1;
        proof {
            assert(r@ =~= a@.take(j as int));
        }
    }
    proof {
        assert(a@.take(a@.len() as int) =~= a@);
    }
    r
}

impl View for Mapping {
    type V = Map<Seq<u8>, AggModel>;

    open spec fn view(&self) -> Map<Seq<u8>, AggModel> {
        map_of(self.entries@)
    }
}

impl Mapping {
    /// Keys pairwise distinct, every aggregate well formed.
    pub open spec fn wf(&self) -> bool {
        entries_wf(self.entries@)
    }

    /// The empty mapping.
    pub fn new() -> (r: Mapping)
        ensures
            r.wf(),
            r@ == Map::<Seq<u8>, AggModel>::empty(),
            r.entries@.len() == 0,
    {
        Mapping { entries: Vec::new() }
    }

    /// A well-formed mapping denotes a well-formed, finite map whose
    /// counts are all bounded by the entry count's ceiling.
    pub proof fn lemma_view_wf(&self)
        requires
            self.wf(),
        ensures
            map_model_wf(self@),
            self@.dom().finite(),
    {
        lemma_map_of(self.entries@);
    }

    /// The position of `key`, if present.
    pub fn find(&self, key: &Vec<u8>) -> (r: Option<usize>)
        ensures
            r matches Some(i) ==> i < self.entries@.len() && self.entries@[i as int].key@ == key@,
            r is None ==> forall|t: int| 0 <= t < self.entries@.len()
                ==> (#[trigger] self.entries@[t]).key@ != key@,
    {
        let mut j: usize = 0;
        while j < self.entries.len()
            invariant
                j <= self.entries@.len(),
                forall|t: int| 0 <= t < j ==> (#[trigger] self.entries@[t]).key@ != key@,
            decreases self.entries@.len() - j,
        {
            if keys_eq(&self.entries[j].key, key) {
                return Some(j);
            }
            j = j + 1;
        }
        None
    }

    /// The aggregate recorded for `key`, if any.
    pub fn get(&self, key: &Vec<u8>) -> (r: Option<&Aggregate>)
        requires
            self.wf(),
        ensures
            r matches Some(a) ==> self@.dom().contains(key@) && a@ == self@[key@],
            r is None ==> !self@.dom().contains(key@),
    {
        proof {
            lemma_map_of(self.entries@);
        }
        match self.find(key) {
            Some(i) => Some(&self.entries[i].agg),
            None => {
                proof {
                    if self@.dom().contains(key@) {
                        let i = choose|i: int|
                            0 <= i < self.entries@.len() && (#[trigger] self.entries@[i]).key@ == key@;
                    }
                }
                None
            },
        }
    }

    /// How many distinct keys the mapping holds.
    pub fn key_count(&self) -> (r: usize)
        requires
            self.wf(),
        ensures
            r == self.entries@.len(),
            r == 0 ==> self@ == Map::<Seq<u8>, AggModel>::empty(),
    {
        proof {
            if self.entries@.len() == 0 {
                assert(self@ =~= Map::<Seq<u8>, AggModel>::empty());
            }
        }
        self.entries.len()
    }

    /// Folds one observation of `key` into the mapping.
    pub fn observe(&mut self, key: Vec<u8>, v: i64)
        requires
            old(self).wf(),
            -VALUE_LIMIT <= v <= VALUE_LIMIT,
            forall|k: Seq<u8>| count_of(old(self)@, k) < u64::MAX,
        ensures
            final(self).wf(),
            final(self)@ == map_step(old(self)@, key@, v as int),
    {
        proof {
            lemma_map_of(self.entries@);
        }
        match self.find(&key) {
            Some(i) => {
                proof {
                    assert(count_of(self@, key@) == self@[key@].count);
                }
                let mut a = self.entries[i].agg;
                a.observe(v);
                let ghost es = self.entries@;
                let e = Entry { key, agg: a };
                proof {
                    lemma_map_of_update(es, i as int, e);
                }
                self.entries[i] = e;
                proof {
                    assert forall|p: int, q: int|
                        0 <= p < q < self.entries@.len()
                        implies (#[trigger] self.entries@[p].key@) != (#[trigger] self.entries@[q].key@) by {
                        assert(es[p].key@ == self.entries@[p].key@);
                        assert(es[q].key@ == self.entries@[q].key@);
                    }
                }
            },
            None => {
                let ghost es = self.entries@;
                let e = Entry { key, agg: Aggregate::init(v) };
                self.entries.push(e);
                proof {
                    assert(self.entries@.drop_last() =~= es);
                    assert(self.entries@.last() == e);
                    assert(!old(self)@.dom().contains(e.key@));
                    assert(self@ == map_step(old(self)@, e.key@, v as int));
                    assert forall|p: int, q: int|
                        0 <= p < q < self.entries@.len()
                        implies (#[trigger] self.entries@[p].key@) != (#[trigger] self.entries@[q].key@) by {
                        if q < self.entries@.len() - 1 {
                            assert(es[p].key@ == self.entries@[p].key@);
                            assert(es[q].key@ == self.entries@[q].key@);
                        } else {
                            assert(es[p] == self.entries@[p]);
                        }
                    }
                }
            },
        }
    }

    /// Merges every entry of `other` into this mapping.
    pub fn merge_from(&mut self, other: &Mapping)
        requires
            old(self).wf(),
            other.wf(),
            forall|k: Seq<u8>|
                count_of(old(self)@, k) + #[trigger] count_of(other@, k) <= u64::MAX,
        ensures
            final(self).wf(),
            final(self)@ == map_merge(old(self)@, other@),
    {
        let ghost m0 = self@;
        let ghost os = other.entries@;
        proof {
            lemma_map_of(os);
            lemma_map_merge_empty(m0);
            assert(map_of(os.take(0)) =~= Map::<Seq<u8>, AggModel>::empty());
        }
        let mut j: usize = 0;
        while j < other.entries.len()
            invariant
                j <= os.len(),
                os == other.entries@,
                other.wf(),
                self.wf(),
                self@ == map_merge(m0, map_of(os.take(j as int))),
                forall|k: Seq<u8>|
                    count_of(m0, k) + #[trigger] count_of(other@, k) <= u64::MAX,
                forall|k: Seq<u8>|
                    #[trigger] count_of(map_of(os.take(j as int)), k) <= count_of(map_of(os), k),
            decreases os.len() - j,
        {
            let e = &other.entries[j];
            let ghost mj = map_of(os.take(j as int));
            proof {
                lemma_map_of(os);
                lemma_map_of(os.take(j as int));
                lemma_map_of(self.entries@);
                self.lemma_view_wf();
                assert(count_of(map_of(os), os[j as int].key@) == count_of(other@, os[j as int].key@));
                // the key of entry j is not among the first j keys
                assert forall|t: int| 0 <= t < j implies (#[trigger] os.take(j as int)[t]).key@ != os[j as int].key@ by {
                    assert(os[t].key@ != os[j as int].key@);
                }
                if mj.dom().contains(os[j as int].key@) {
                    let t = choose|t: int|
                        0 <= t < os.take(j as int).len()
                            && (#[trigger] os.take(j as int)[t]).key@ == os[j as int].key@;
                }
                assert(!mj.dom().contains(os[j as int].key@));
                assert(map_of(os)[os[j as int].key@] == os[j as int].agg@);
                assert(count_of(map_of(os), os[j as int].key@) == os[j as int].agg@.count);
                assert(agg_wf(os[j as int].agg@));
                assert(os.take(j + 1 as int).drop_last() =~= os.take(j as int));
                assert(os.take(j + 1 as int).last() == os[j as int]);
                assert(map_of(os.take(j + 1 as int))
                    == mj.insert(os[j as int].key@, os[j as int].agg@));
            }
            let k2 = copy_key(&e.key);
            match self.find(&k2) {
                Some(i) => {
                    proof {
                        assert(self@[k2@].count == count_of(self@, k2@));
                        assert(count_of(self@, k2@) == count_of(m0, k2@) + count_of(mj, k2@));
                        assert(count_of(mj, k2@) == 0);
                    }
                    let mut a = self.entries[i].agg;
                    a.merge(&e.agg);
                    let ghost es = self.entries@;
                    let ne = Entry { key: k2, agg: a };
                    proof {
                        lemma_map_of_update(es, i as int, ne);
                    }
                    self.entries[i] = ne;
                    proof {
                        assert forall|p: int, q: int|
                            0 <= p < q < self.entries@.len()
                            implies (#[trigger] self.entries@[p].key@) != (#[trigger] self.entries@[q].key@) by {
                            assert(es[p].key@ == self.entries@[p].key@);
                            assert(es[q].key@ == self.entries@[q].key@);
                        }
                        assert forall|t: int| 0 <= t < self.entries@.len()
                            implies agg_wf((#[trigger] self.entries@[t]).agg@) by {
                            if t != i as int {
                                assert(self.entries@[t] == es[t]);
                            }
                        }
                        assert(!mj.dom().contains(k2@));
                        assert(m0.dom().contains(k2@));
                        assert(ne.agg@ == agg_merge(m0[k2@], os[j as int].agg@));
                        assert(self@ == map_merge(m0, mj).insert(k2@, ne.agg@));
                        assert(self@ =~= map_merge(m0, mj.insert(k2@, os[j as int].agg@)));
                    }
                },
                None => {
                    let ghost es = self.entries@;
                    let ne = Entry { key: k2, agg: e.agg };
                    self.entries.push(ne);
                    proof {
                        assert(self.entries@.drop_last() =~= es);
                        assert(self.entries@.last() == ne);
                        assert forall|p: int, q: int|
                            0 <= p < q < self.entries@.len()
                            implies (#[trigger] self.entries@[p].key@) != (#[trigger] self.entries@[q].key@) by {
                            if q < self.entries@.len() - 1 {
                                assert(es[p].key@ == self.entries@[p].key@);
                                assert(es[q].key@ == self.entries@[q].key@);
                            } else {
                                assert(es[p] == self.entries@[p]);
                            }
                        }
                        assert forall|t: int| 0 <= t < self.entries@.len()
                            implies agg_wf((#[trigger] self.entries@[t]).agg@) by {
                            if t < self.entries@.len() - 1 {
                                assert(self.entries@[t] == es[t]);
                            }
                        }
                        if map_of(es).dom().contains(k2@) {
                            let t = choose|t: int|
                                0 <= t < es.len() && (#[trigger] es[t]).key@ == k2@;
                        }
                        assert(!map_of(es).dom().contains(k2@));
                        assert(!m0.dom().contains(k2@));
                        assert(!mj.dom().contains(k2@));
                        assert(self@ == map_merge(m0, mj).insert(k2@, ne.agg@));
                        assert(self@ =~= map_merge(m0, mj.insert(k2@, os[j as int].agg@)));
                    }
                },
            }
            proof {
                assert(self@ == map_merge(m0, map_of(os.take(j + 1 as int))));
                assert forall|k: Seq<u8>|
                    count_of(map_of(os.take(j + 1 as int)), k)
                        <= #[trigger] count_of(map_of(os), k) by {
                    if k != os[j as int].key@ {
                        assert(count_of(map_of(os.take(j + 1 as int)), k) == count_of(mj, k));
                    }
                }
            }
            j = j + 1;
        }
        proof {
            assert(os.take(os.len() as int) =~= os);
        }
    }
}

} // verus!
