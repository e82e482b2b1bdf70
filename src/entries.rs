//! Ordered lists of (key, value) byte-string entries, and what they mean as
//! mappings.
use vstd::prelude::*;
use crate::bytes::bytes_eq;

verus! {

/// A header entry as plain values: (name, value).
pub type Pair = (Seq<u8>, Seq<u8>);

/// The plain-value view of a list of header entries.
pub open spec fn pairs_view(v: Seq<(Vec<u8>, Vec<u8>)>) -> Seq<Pair> {
    v.map_values(|p: (Vec<u8>, Vec<u8>)| (p.0@, p.1@))
}

/// What the entries mean as a mapping: a later entry for a name replaces an earlier one.
pub open spec fn pairs_to_map(ps: Seq<Pair>) -> Map<Seq<u8>, Seq<u8>>
    decreases ps.len(),
{
    if ps.len() == 0 {
        Map::empty()
    } else {
        pairs_to_map(ps.drop_last()).insert(ps.last().0, ps.last().1)
    }
}

/// The entries of `ps` whose key satisfies `f`, in order.
pub open spec fn keep_keys(ps: Seq<Pair>, f: spec_fn(Seq<u8>) -> bool) -> Seq<Pair>
    decreases ps.len(),
{
    if ps.len() == 0 {
        ps
    } else {
        let rest = keep_keys(ps.drop_last(), f);
        if f(ps.last().0) {
            rest.push(ps.last())
        } else {
            rest
        }
    }
}

/// No key occurs twice in `ps`.
pub open spec fn unique_keys(ps: Seq<Pair>) -> bool {
    forall|i: int, j: int| 0 <= i < j < ps.len() ==> #[trigger] ps[i].0 != #[trigger] ps[j].0
}

/// Keeping the entries whose key satisfies `f` keeps exactly that part of the mapping.
pub proof fn lemma_keep_keys_map(ps: Seq<Pair>, f: spec_fn(Seq<u8>) -> bool)
    ensures
        pairs_to_map(keep_keys(ps, f)) == pairs_to_map(ps).restrict(Set::new(f)),
    decreases ps.len(),
{
    if ps.len() == 0 {
        assert(pairs_to_map(ps).restrict(Set::new(f)) =~= Map::empty());
    } else {
        lemma_keep_keys_map(ps.drop_last(), f);
        let rest = keep_keys(ps.drop_last(), f);
        let (k, v) = ps.last();
        if f(k) {
            assert(rest.push(ps.last()).drop_last() =~= rest);
            assert(pairs_to_map(keep_keys(ps, f)) =~= pairs_to_map(ps).restrict(Set::new(f)));
        } else {
            assert(pairs_to_map(keep_keys(ps, f)) =~= pairs_to_map(ps).restrict(Set::new(f)));
        }
    }
}

/// Every entry that `keep_keys` keeps is an entry of `ps`.
pub proof fn lemma_keep_keys_from(ps: Seq<Pair>, f: spec_fn(Seq<u8>) -> bool)
    ensures
        forall|i: int| 0 <= i < keep_keys(ps, f).len() ==> ps.contains(#[trigger] keep_keys(ps, f)[i]),
        forall|i: int| 0 <= i < keep_keys(ps, f).len() ==> f(#[trigger] keep_keys(ps, f)[i].0),
    decreases ps.len(),
{
    if ps.len() > 0 {
        lemma_keep_keys_from(ps.drop_last(), f);
        let rest = keep_keys(ps.drop_last(), f);
        assert forall|i: int| 0 <= i < keep_keys(ps, f).len() implies ps.contains(
            #[trigger] keep_keys(ps, f)[i],
        ) by {
            if i < rest.len() {
                let j = choose|j: int| 0 <= j < ps.drop_last().len() && ps.drop_last()[j] == rest[i];
                assert(ps[j] == rest[i]);
            } else {
                assert(ps[ps.len() - 1] == ps.last());
            }
        }
    }
}

/// Keeping some entries of a list without repeated keys repeats none.
pub proof fn lemma_keep_keys_unique(ps: Seq<Pair>, f: spec_fn(Seq<u8>) -> bool)
    requires
        unique_keys(ps),
    ensures
        unique_keys(keep_keys(ps, f)),
    decreases ps.len(),
{
    if ps.len() > 0 {
        let init = ps.drop_last();
        assert(unique_keys(init)) by {
            assert forall|i: int, j: int| 0 <= i < j < init.len() implies #[trigger] init[i].0
                != #[trigger] init[j].0 by {
                assert(init[i] == ps[i] && init[j] == ps[j]);
            }
        }
        lemma_keep_keys_unique(init, f);
        lemma_keep_keys_from(init, f);
        let rest = keep_keys(init, f);
        if f(ps.last().0) {
            let out = rest.push(ps.last());
            assert forall|i: int, j: int| 0 <= i < j < out.len() implies #[trigger] out[i].0
                != #[trigger] out[j].0 by {
                if j == out.len() - 1 {
                    assert(init.contains(rest[i]));
                    let m = choose|m: int| 0 <= m < init.len() && init[m] == rest[i];
                    assert(ps[m] == init[m]);
                    assert(ps[ps.len() - 1] == ps.last());
                } else {
                    assert(out[i] == rest[i] && out[j] == rest[j]);
                }
            }
        }
    }
}

/// A key that no entry has is not in the mapping.
pub proof fn lemma_absent_key(ps: Seq<Pair>, k: Seq<u8>)
    requires
        forall|j: int| 0 <= j < ps.len() ==> #[trigger] ps[j].0 != k,
    ensures
        !pairs_to_map(ps).contains_key(k),
    decreases ps.len(),
{
    if ps.len() > 0 {
        let init = ps.drop_last();
        assert forall|j: int| 0 <= j < init.len() implies #[trigger] init[j].0 != k by {
            assert(init[j] == ps[j]);
        }
        lemma_absent_key(init, k);
        assert(ps[ps.len() - 1] == ps.last());
    }
}

/// The last entry with a given key gives that key's value in the mapping.
pub proof fn lemma_last_entry(ps: Seq<Pair>, i: int)
    requires
        0 <= i < ps.len(),
        forall|j: int| i < j < ps.len() ==> #[trigger] ps[j].0 != ps[i].0,
    ensures
        pairs_to_map(ps).contains_key(ps[i].0),
        pairs_to_map(ps)[ps[i].0] == ps[i].1,
    decreases ps.len(),
{
    let init = ps.drop_last();
    if i < ps.len() - 1 {
        assert forall|j: int| i < j < init.len() implies #[trigger] init[j].0 != init[i].0 by {
            assert(init[j] == ps[j]);
        }
        lemma_last_entry(init, i);
        assert(ps[ps.len() - 1] == ps.last());
        assert(init[i] == ps[i]);
    }
}

/// The value that the mapping of `ps` gives `key`, if any.
pub fn last_value<'a>(ps: &'a Vec<(Vec<u8>, Vec<u8>)>, key: &[u8]) -> (r: Option<&'a Vec<u8>>)
    ensures
        r is Some <==> pairs_to_map(pairs_view(ps@)).contains_key(key@),
        r matches Some(v) ==> v@ == pairs_to_map(pairs_view(ps@))[key@],
{
    let ghost all = pairs_view(ps@);
    let mut i: usize = ps.len();
    while i > 0
        invariant
            i <= ps@.len(),
            all == pairs_view(ps@),
            forall|j: int| i <= j < all.len() ==> #[trigger] all[j].0 != key@,
        decreases i,
    {
        i = i - 1;
        assert(all[i as int] == (ps@[i as int].0@, ps@[i as int].1@));
        if bytes_eq(ps[i].0.as_slice(), key) {
            proof {
                lemma_last_entry(all, i as int);
            }
            return Some(&ps[i].1);
        }
    }
    proof {
        lemma_absent_key(all, key@);
    }
    None
}

} // verus!
