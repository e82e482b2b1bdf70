//! The persistence facade: byte-string keys to byte-string values, with point
//! lookups and prefix scans.
use vstd::prelude::*;
use crate::bytes::{bytes_eq, has_prefix, starts_with, to_vec};
use crate::entries::{
    keep_keys, lemma_absent_key, lemma_keep_keys_from, lemma_keep_keys_map, lemma_keep_keys_unique,
    lemma_last_entry, pairs_to_map, pairs_view, unique_keys, Pair,
};

verus! {

/// The keys that start with `prefix`.
pub open spec fn keys_with_prefix(prefix: Seq<u8>) -> Set<Seq<u8>> {
    Set::new(|k: Seq<u8>| has_prefix(k, prefix))
}

/// The stored entries, one per key.
pub struct PersistenceStore {
    entries: Vec<(Vec<u8>, Vec<u8>)>,
}

impl View for PersistenceStore {
    type V = Map<Seq<u8>, Seq<u8>>;

    closed spec fn view(&self) -> Map<Seq<u8>, Seq<u8>> {
        pairs_to_map(pairs_view(self.entries@))
    }
}

/// Copies of the entries of `ps` whose key satisfies the test: not equal to
/// `key` when `prefix_mode` is false, starting with `key` when it is true.
fn select(ps: &Vec<(Vec<u8>, Vec<u8>)>, key: &[u8], prefix_mode: bool) -> (r: Vec<(Vec<u8>, Vec<u8>)>)
    ensures
        pairs_view(r@) == keep_keys(pairs_view(ps@), select_test(key@, prefix_mode)),
{
    let ghost f = select_test(key@, prefix_mode);
    let ghost all = pairs_view(ps@);
    let mut out: Vec<(Vec<u8>, Vec<u8>)> = Vec::new();
    let mut i: usize = 0;
    assert(all.subrange(0, 0) =~= Seq::<Pair>::empty());
    assert(pairs_view(out@) =~= Seq::<Pair>::empty());
    while i < ps.len()
        invariant
            i <= ps@.len(),
            all == pairs_view(ps@),
            f == select_test(key@, prefix_mode),
            pairs_view(out@) == keep_keys(all.subrange(0, i as int), f),
        decreases ps@.len() - i,
    {
        let k = &ps[i].0;
        let keep = if prefix_mode {
            starts_with(k.as_slice(), key)
        } else {
            !bytes_eq(k.as_slice(), key)
        };
        assert(all[i as int] == (k@, ps@[i as int].1@));
        assert(all.subrange(0, i + 1).drop_last() =~= all.subrange(0, i as int));
        assert(all.subrange(0, i + 1).last() == all[i as int]);
        if keep {
            let ghost before = out@;
            out.push((to_vec(k.as_slice()), to_vec(ps[i].1.as_slice())));
            assert(pairs_view(out@) =~= pairs_view(before).push(all[i as int]));
        }
        i = i + 1;
    }
    assert(all.subrange(0, ps@.len() as int) =~= all);
    out
}

/// The key test that `select` applies.
pub open spec fn select_test(key: Seq<u8>, prefix_mode: bool) -> spec_fn(Seq<u8>) -> bool {
    if prefix_mode {
        |k: Seq<u8>| has_prefix(k, key)
    } else {
        |k: Seq<u8>| k != key
    }
}

impl PersistenceStore {
    /// The entries that `get_subset(prefix)` hands out, in its order.
    pub closed spec fn subset_list(&self, prefix: Seq<u8>) -> Seq<Pair> {
        keep_keys(pairs_view(self.entries@), select_test(prefix, true))
    }

    /// What `get_subset` hands out is exactly the stored entries under the
    /// prefix, each key once.
    pub proof fn lemma_subset_list(&self, prefix: Seq<u8>)
        requires
            self.wf(),
        ensures
            pairs_to_map(self.subset_list(prefix)) == self@.restrict(keys_with_prefix(prefix)),
            unique_keys(self.subset_list(prefix)),
            forall|i: int| 0 <= i < self.subset_list(prefix).len() ==> {
                let e = #[trigger] self.subset_list(prefix)[i];
                &&& has_prefix(e.0, prefix)
                &&& self@.contains_key(e.0)
                &&& self@[e.0] == e.1
            },
            forall|k: Seq<u8>| #[trigger] self@.contains_key(k) && has_prefix(k, prefix) ==> exists|i: int|
                0 <= i < self.subset_list(prefix).len() && self.subset_list(prefix)[i].0 == k,
    {
        let f = select_test(prefix, true);
        lemma_keep_keys_map(pairs_view(self.entries@), f);
        lemma_keep_keys_unique(pairs_view(self.entries@), f);
        assert(Set::new(f) =~= keys_with_prefix(prefix));
        let ps = self.subset_list(prefix);
        assert forall|i: int| 0 <= i < ps.len() implies {
            let e = #[trigger] ps[i];
            &&& has_prefix(e.0, prefix)
            &&& self@.contains_key(e.0)
            &&& self@[e.0] == e.1
        } by {
            lemma_last_entry(ps, i);
            assert(keys_with_prefix(prefix).contains(ps[i].0));
        }
        assert forall|k: Seq<u8>| #[trigger] self@.contains_key(k) && has_prefix(k, prefix) implies exists|i: int|
            0 <= i < ps.len() && ps[i].0 == k by {
            assert(pairs_to_map(ps).contains_key(k));
            if forall|i: int| 0 <= i < ps.len() ==> #[trigger] ps[i].0 != k {
                lemma_absent_key(ps, k);
            }
        }
    }

    /// No key is stored twice.
    pub closed spec fn wf(&self) -> bool {
        unique_keys(pairs_view(self.entries@))
    }

    pub fn new() -> (r: PersistenceStore)
        ensures
            r.wf(),
            r@ == Map::<Seq<u8>, Seq<u8>>::empty(),
    {
        let r = PersistenceStore { entries: Vec::new() };
        assert(pairs_view(r.entries@) =~= Seq::<Pair>::empty());
        r
    }

    /// Stores `value` under `key`, replacing what was there.
    pub fn set(&mut self, key: &[u8], value: &[u8])
        requires
            old(self).wf(),
        ensures
            final(self).wf(),
            final(self)@ == old(self)@.insert(key@, value@),
    {
        let ghost f = select_test(key@, false);
        let ghost all = pairs_view(self.entries@);
        let mut kept = select(&self.entries, key, false);
        proof {
            lemma_keep_keys_map(all, f);
            lemma_keep_keys_unique(all, f);
            lemma_keep_keys_from(all, f);
        }
        let ghost before = pairs_view(kept@);
        kept.push((to_vec(key), to_vec(value)));
        assert(pairs_view(kept@) =~= before.push((key@, value@)));
        assert(pairs_view(kept@).drop_last() =~= before);
        self.entries = kept;
        proof {
            let ps = pairs_view(self.entries@);
            assert forall|i: int, j: int| 0 <= i < j < ps.len() implies #[trigger] ps[i].0 != #[trigger] ps[j].0 by {
                if j == ps.len() - 1 {
                    assert(f(before[i].0));
                    assert(ps[i] == before[i]);
                } else {
                    assert(ps[i] == before[i] && ps[j] == before[j]);
                }
            }
            assert(Set::new(f).contains(key@) == false);
            assert(self@ =~= old(self)@.insert(key@, value@));
        }
    }

    /// Removes the entry for `key`, if there is one.
    pub fn remove(&mut self, key: &[u8])
        requires
            old(self).wf(),
        ensures
            final(self).wf(),
            final(self)@ == old(self)@.remove(key@),
    {
        let ghost f = select_test(key@, false);
        let ghost all = pairs_view(self.entries@);
        let kept = select(&self.entries, key, false);
        proof {
            lemma_keep_keys_map(all, f);
            lemma_keep_keys_unique(all, f);
        }
        self.entries = kept;
        assert(self@ =~= old(self)@.remove(key@));
    }

    /// The value stored under `key`; `None` where there is none, which is a
    /// normal outcome.
    pub fn get(&self, key: &[u8]) -> (r: Option<Vec<u8>>)
        requires
            self.wf(),
        ensures
            r is Some <==> self@.contains_key(key@),
            r matches Some(v) ==> v@ == self@[key@],
    {
        let ghost all = pairs_view(self.entries@);
        let mut i: usize = 0;
        while i < self.entries.len()
            invariant
                i <= self.entries@.len(),
                all == pairs_view(self.entries@),
                unique_keys(all),
                forall|j: int| 0 <= j < i ==> #[trigger] all[j].0 != key@,
            decreases self.entries@.len() - i,
        {
            assert(all[i as int] == (self.entries@[i as int].0@, self.entries@[i as int].1@));
            if bytes_eq(self.entries[i].0.as_slice(), key) {
                proof {
                    lemma_last_entry(all, i as int);
                }
                return Some(to_vec(self.entries[i].1.as_slice()));
            }
            i = i + 1;
        }
        proof {
            lemma_absent_key(all, key@);
        }
        None
    }

    /// Every entry whose key starts with `prefix`, each key once, in no
    /// promised order.
    pub fn get_subset(&self, prefix: &[u8]) -> (r: Vec<(Vec<u8>, Vec<u8>)>)
        requires
            self.wf(),
        ensures
            pairs_to_map(pairs_view(r@)) == self@.restrict(keys_with_prefix(prefix@)),
            unique_keys(pairs_view(r@)),
            pairs_view(r@) == self.subset_list(prefix@),
    {
        let ghost f = select_test(prefix@, true);
        let ghost all = pairs_view(self.entries@);
        let r = select(&self.entries, prefix, true);
        proof {
            lemma_keep_keys_map(all, f);
            lemma_keep_keys_unique(all, f);
            assert(Set::new(f) =~= keys_with_prefix(prefix@));
        }
        r
    }
}

} // verus!
