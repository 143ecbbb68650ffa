//! An in-memory associative container mapping byte-sequence keys to
//! byte-sequence values, using separate chaining for collision resolution
//! and automatic capacity growth to bound average lookup cost.
//!
//! The table is specified against a mathematical view: a finite map from
//! key sequences to value sequences. Every public operation states how it
//! reads or rewrites that map.

use vstd::prelude::*;

mod chain;
mod hash;
pub mod iterator;
pub mod laws;
pub mod primitives;
mod render;

use chain::{
    cells_get, cells_keys, cells_pairs, cells_total, cells_wf, chain_collect_rev, chain_find,
    chain_get, chain_keys, chain_pairs, chain_rehash, chain_remove, chain_update, chain_wf,
    lemma_cells_keys_len, lemma_cells_keys_membership, lemma_cells_keys_nodup,
    lemma_cells_pairs_keys, lemma_cells_pairs_membership, lemma_cells_total_update,
    lemma_chain_get_keys, lemma_chain_get_pairs, lemma_chain_pairs_keys, lemma_reverse_concat,
    pairs_view, Entry,
};
use hash::{bucket_index, bucket_of};
use iterator::ByteBoxIterator;
use primitives::BytesPrimitives;

verus! {

/// Numerator of the load-factor threshold: the table grows when
/// `count / capacity` reaches 3/4.
pub const LOAD_NUM: usize = 3;

/// Denominator of the load-factor threshold.
pub const LOAD_DEN: usize = 4;

/// A hash table storing byte-sequence keys and values, with separate
/// chaining and a doubling growth policy.
pub struct ByteBox {
    /// One optional chain head per bucket; the length is the capacity.
    pub(crate) cells: Vec<Option<Box<Entry>>>,
    /// The current bucket-array length.
    pub(crate) alloc: usize,
    /// The number of distinct stored keys.
    pub(crate) len: usize,
}

impl View for ByteBox {
    type V = Map<Seq<u8>, Seq<u8>>;

    /// The table as a map: each key is looked up in the bucket it hashes
    /// to under the current capacity.
    closed spec fn view(&self) -> Map<Seq<u8>, Seq<u8>> {
        Map::new(
            |k: Seq<u8>| cells_get(self.cells@, k) is Some,
            |k: Seq<u8>| cells_get(self.cells@, k)->Some_0,
        )
    }
}

impl ByteBox {
    /// The current capacity (number of buckets).
    pub closed spec fn spec_allocation(&self) -> nat {
        self.alloc as nat
    }

    /// All stored pairs in iteration order: ascending bucket index, and
    /// within a bucket, head to tail.
    pub closed spec fn pairs(&self) -> Seq<(Seq<u8>, Seq<u8>)> {
        cells_pairs(self.cells@)
    }

    /// Internal invariant: the bucket array has the stated capacity,
    /// every entry sits in the bucket its key hashes to, no key occurs
    /// twice, the count equals the number of reachable entries, and the
    /// load factor is kept below the threshold (up to the one entry the
    /// current insertion may have added) whenever doubling is possible.
    pub closed spec fn well_formed(&self) -> bool {
        &&& self.cells@.len() == self.alloc as int
        &&& self.alloc >= 1
        &&& cells_wf(self.cells@, self.alloc as int)
        &&& self.len as nat == cells_total(self.cells@)
        &&& (4 * (self.len as int) <= 3 * (self.alloc as int) + 4 || self.alloc > usize::MAX
            / 2)
    }

    /// Creates a `ByteBox` with the default initial capacity of 16.
    pub fn new() -> (t: ByteBox)
        ensures
            t.well_formed(),
            t@ == Map::<Seq<u8>, Seq<u8>>::empty(),
            t.spec_allocation() == 16,
    {
        Self::prealloc(16)
    }

    /// Creates a `ByteBox` with the given initial capacity. A requested
    /// capacity of zero is raised to the documented minimum of one
    /// bucket: a zero-bucket table is rejected by construction.
    pub fn prealloc(size: usize) -> (t: ByteBox)
        ensures
            t.well_formed(),
            t@ == Map::<Seq<u8>, Seq<u8>>::empty(),
            t.spec_allocation() == if size == 0 {
                1nat
            } else {
                size as nat
            },
    {
        let cap: usize = if size == 0 {
            1
        } else {
            size
        };
        let cells = make_cells(cap);
        let t = ByteBox { cells, alloc: cap, len: 0 };
        proof {
            chain::lemma_cells_total_none(t.cells@);
            assert(t@ =~= Map::<Seq<u8>, Seq<u8>>::empty()) by {
                assert forall|k: Seq<u8>| !(cells_get(t.cells@, k) is Some) by {
                    assert(t.cells@[bucket_index(k, t.cells@.len() as int)] is None);
                }
            }
        }
        t
    }

    /// The number of key-value pairs stored in the table.
    pub fn len(&self) -> (n: usize)
        requires
            self.well_formed(),
        ensures
            n as nat == self@.dom().len(),
    {
        proof {
            self.lemma_dom();
        }
        self.len
    }

    /// The current allocation size (number of buckets).
    pub fn allocation(&self) -> (n: usize)
        ensures
            n as nat == self.spec_allocation(),
    {
        self.alloc
    }

    /// Retrieves the value stored under `key`, if any. No mutation.
    pub fn get(&self, key: &[u8]) -> (r: Option<&[u8]>)
        requires
            self.well_formed(),
        ensures
            match r {
                Some(v) => self@.contains_key(key@) && v@ == self@[key@],
                None => !self@.contains_key(key@),
            },
    {
        let idx = bucket_of(key, self.alloc);
        let r = chain_find(&self.cells[idx], key);
        match r {
            Some(v) => Some(v.as_slice()),
            None => None,
        }
    }

    /// Doubles the capacity and redistributes every entry to its bucket
    /// under the new capacity, moving nodes one by one; no key or value
    /// is copied. The stored map is unchanged.
    fn resize(&mut self)
        requires
            old(self).well_formed(),
            old(self).alloc <= usize::MAX / 2,
        ensures
            final(self).well_formed(),
            final(self)@ == old(self)@,
            final(self).alloc == 2 * old(self).alloc,
            final(self).len == old(self).len,
    {
        let ghost orig = self.cells@;
        let ghost cap0 = self.alloc as int;
        let new_cap = self.alloc * 2;
        let mut new_cells = make_cells(new_cap);
        proof {
            chain::lemma_cells_total_none(new_cells@);
            assert forall|k: Seq<u8>| #[trigger] cells_get(new_cells@, k) is None by {
                assert(new_cells@[bucket_index(k, new_cells@.len() as int)] is None);
            }
        }
        let mut i: usize = 0;
        while i < self.cells.len()
            invariant
                self.alloc == old(self).alloc,
                self.len == old(self).len,
                cap0 == self.alloc as int,
                self.alloc >= 1,
                new_cap == 2 * self.alloc,
                self.cells@.len() == orig.len(),
                orig.len() == cap0,
                i <= orig.len(),
                cells_wf(orig, cap0),
                forall|j: int| i <= j < orig.len() ==> self.cells@[j] == orig[j],
                forall|j: int| 0 <= j < i ==> self.cells@[j] is None,
                new_cells@.len() == new_cap as int,
                cells_wf(new_cells@, new_cap as int),
                forall|k: Seq<u8>|
                    #[trigger] cells_get(new_cells@, k) == if bucket_index(k, cap0) < i {
                        cells_get(orig, k)
                    } else {
                        None::<Seq<u8>>
                    },
                cells_total(new_cells@) + cells_total(self.cells@) == cells_total(orig),
            decreases orig.len() - i,
        {
            let ghost cur = self.cells@;
            let slot = &mut self.cells[i];
            let chain = slot.take();
            proof {
                assert(chain == orig[i as int]);
                assert(self.cells@ == cur.update(i as int, None::<Box<Entry>>));
                lemma_cells_total_update(cur, i as int, None::<Box<Entry>>);
                assert(chain_wf(orig[i as int], i as int, cap0));
                assert forall|k: Seq<u8>|
                    chain_get(chain, k) is Some implies #[trigger] cells_get(
                    new_cells@,
                    k,
                ) is None by {
                    lemma_chain_get_keys(chain, k);
                    let j = choose|j: int|
                        0 <= j < chain_keys(chain).len() && chain_keys(chain)[j] == k;
                    assert(bucket_index(k, cap0) == i as int);
                }
            }
            chain_rehash(chain, &mut new_cells);
            proof {
                assert forall|k: Seq<u8>|
                    #[trigger] cells_get(new_cells@, k) == (if bucket_index(k, cap0) < i + 1 {
                        cells_get(orig, k)
                    } else {
                        None::<Seq<u8>>
                    }) by {
                    let b = bucket_index(k, cap0);
                    if b != i as int {
                        assert(chain_get(chain, k) is None) by {
                            lemma_chain_get_keys(chain, k);
                            if chain_keys(chain).contains(k) {
                                let j = choose|j: int|
                                    0 <= j < chain_keys(chain).len() && chain_keys(chain)[j] == k;
                                assert(bucket_index(k, cap0) == i as int);
                            }
                        }
                    }
                }
            }
            i = i + 1;
        }
        proof {
            chain::lemma_cells_total_none(self.cells@);
        }
        self.cells = new_cells;
        self.alloc = new_cap;
        proof {
            assert forall|k: Seq<u8>| #[trigger]
                cells_get(self.cells@, k) == cells_get(orig, k) by {
                assert(0 <= bucket_index(k, cap0) < cap0);
            }
            assert(self@ =~= old(self)@);
        }
    }

    /// Inserts a key-value pair, overwriting in place the value of a key
    /// already present. Returns true exactly when the key was previously
    /// absent. Before the bucket is located, the load factor is compared
    /// against the threshold and the table grows first when it is at or
    /// above it (also when the insertion turns out to be an overwrite);
    /// growth is skipped at the machine limit on the bucket count.
    pub fn insert(&mut self, key: &[u8], value: &[u8]) -> (is_new: bool)
        requires
            old(self).well_formed(),
            old(self)@.dom().len() < usize::MAX as nat,
        ensures
            final(self).well_formed(),
            final(self)@ == old(self)@.insert(key@, value@),
            is_new == !old(self)@.contains_key(key@),
            final(self).spec_allocation() == if 4 * old(self)@.dom().len() >= 3 * old(
                self,
            ).spec_allocation() && old(self).spec_allocation() <= (usize::MAX / 2) as nat {
                2 * old(self).spec_allocation()
            } else {
                old(self).spec_allocation()
            },
    {
        proof {
            self.lemma_dom();
        }
        let grow = (self.len as u128) * (LOAD_DEN as u128) >= (self.alloc as u128) * (LOAD_NUM
            as u128);
        if grow && self.alloc <= usize::MAX / 2 {
            self.resize();
        }
        let ghost mid = *self;
        proof {
            assert(4 * (mid.len as int) <= 3 * (mid.alloc as int) || mid.alloc > usize::MAX / 2);
        }
        let idx = bucket_of(key, self.alloc);
        let ghost cur = self.cells@;
        let slot = &mut self.cells[idx];
        let found = chain_update(slot, key, value);
        if found {
            proof {
                let newchain = self.cells@[idx as int];
                assert(self.cells@ == cur.update(idx as int, newchain));
                lemma_cells_total_update(cur, idx as int, newchain);
                assert(chain_wf(newchain, idx as int, mid.alloc as int)) by {
                    assert(chain_wf(cur[idx as int], idx as int, mid.alloc as int));
                }
                assert(cells_wf(self.cells@, self.alloc as int)) by {
                    assert forall|j: int| 0 <= j < self.cells@.len() implies chain_wf(
                        #[trigger] self.cells@[j],
                        j,
                        self.alloc as int,
                    ) by {
                        if j != idx as int {
                            assert(self.cells@[j] == cur[j]);
                        }
                    }
                }
                assert(self@ =~= mid@.insert(key@, value@)) by {
                    assert forall|k: Seq<u8>|
                        #[trigger] cells_get(self.cells@, k) == if k == key@ {
                            Some(value@)
                        } else {
                            cells_get(cur, k)
                        } by {
                        let b = bucket_index(k, self.alloc as int);
                        if b != idx as int {
                            assert(self.cells@[b] == cur[b]);
                        }
                    }
                }
                assert(mid@.contains_key(key@));
            }
            false
        } else {
            let tail = slot.take();
            *slot = Some(
                Box::new(
                    Entry {
                        key: vstd::slice::slice_to_vec(key),
                        value: vstd::slice::slice_to_vec(value),
                        next: tail,
                    },
                ),
            );
            self.len = self.len + 1;
            proof {
                let newchain = self.cells@[idx as int];
                assert(self.cells@ == cur.update(idx as int, newchain));
                assert(chain_keys(newchain) == seq![key@] + chain_keys(cur[idx as int]));
                lemma_cells_total_update(cur, idx as int, newchain);
                lemma_chain_get_keys(cur[idx as int], key@);
                assert(chain_wf(newchain, idx as int, mid.alloc as int)) by {
                    let oldkeys = chain_keys(cur[idx as int]);
                    assert(chain_wf(cur[idx as int], idx as int, mid.alloc as int));
                    assert forall|j: int|
                        0 <= j < chain_keys(newchain).len() implies bucket_index(
                        #[trigger] chain_keys(newchain)[j],
                        mid.alloc as int,
                    ) == idx as int by {
                        if j > 0 {
                            assert(chain_keys(newchain)[j] == oldkeys[j - 1]);
                        }
                    }
                    assert(chain_keys(newchain).no_duplicates()) by {
                        assert forall|a: int, b: int|
                            0 <= a < b < chain_keys(newchain).len() implies chain_keys(
                            newchain,
                        )[a] != chain_keys(newchain)[b] by {
                            if a == 0 {
                                assert(chain_keys(newchain)[b] == oldkeys[b - 1]);
                                assert(oldkeys.contains(oldkeys[b - 1]));
                            } else {
                                assert(chain_keys(newchain)[a] == oldkeys[a - 1]);
                                assert(chain_keys(newchain)[b] == oldkeys[b - 1]);
                            }
                        }
                    }
                }
                assert(cells_wf(self.cells@, self.alloc as int)) by {
                    assert forall|j: int| 0 <= j < self.cells@.len() implies chain_wf(
                        #[trigger] self.cells@[j],
                        j,
                        self.alloc as int,
                    ) by {
                        if j != idx as int {
                            assert(self.cells@[j] == cur[j]);
                        }
                    }
                }
                assert(self@ =~= mid@.insert(key@, value@)) by {
                    assert forall|k: Seq<u8>|
                        #[trigger] cells_get(self.cells@, k) == if k == key@ {
                            Some(value@)
                        } else {
                            cells_get(cur, k)
                        } by {
                        let b = bucket_index(k, self.alloc as int);
                        if b != idx as int {
                            assert(self.cells@[b] == cur[b]);
                        } else if k != key@ {
                            assert(chain_get(newchain, k) == chain_get(cur[idx as int], k));
                        }
                    }
                }
                assert(!mid@.contains_key(key@));
            }
            true
        }
    }

    /// Inserts a key together with the decimal-text bytes of a primitive
    /// numeric value, through the [`BytesPrimitives`] adapter.
    pub fn insert_primitive<T: BytesPrimitives>(&mut self, key: &[u8], value: T)
        requires
            old(self).well_formed(),
            old(self)@.dom().len() < usize::MAX as nat,
        ensures
            final(self).well_formed(),
            final(self)@ == old(self)@.insert(key@, value.bytes_spec()),
    {
        let bytes = value.to_bytes();
        self.insert(key, bytes.as_slice());
    }

    /// Removes the entry stored under `key`, if any, handing the removed
    /// value to the caller. Without a match, the table is unchanged.
    pub fn remove(&mut self, key: &[u8]) -> (r: Option<Vec<u8>>)
        requires
            old(self).well_formed(),
        ensures
            final(self).well_formed(),
            final(self)@ == old(self)@.remove(key@),
            match r {
                Some(v) => old(self)@.contains_key(key@) && v@ == old(self)@[key@],
                None => !old(self)@.contains_key(key@),
            },
            final(self).spec_allocation() == old(self).spec_allocation(),
    {
        let idx = bucket_of(key, self.alloc);
        let ghost cur = self.cells@;
        proof {
            assert(chain_wf(cur[idx as int], idx as int, self.alloc as int));
        }
        let slot = &mut self.cells[idx];
        let r = chain_remove(slot, key);
        proof {
            let newchain = self.cells@[idx as int];
            assert(self.cells@ == cur.update(idx as int, newchain));
            lemma_cells_total_update(cur, idx as int, newchain);
            assert(chain_wf(newchain, idx as int, old(self).alloc as int)) by {
                assert forall|j: int|
                    0 <= j < chain_keys(newchain).len() implies bucket_index(
                    #[trigger] chain_keys(newchain)[j],
                    old(self).alloc as int,
                ) == idx as int by {
                    assert(chain_keys(newchain).contains(chain_keys(newchain)[j]));
                    assert(chain_keys(cur[idx as int]).contains(chain_keys(newchain)[j]));
                }
            }
            assert(cells_wf(self.cells@, self.alloc as int)) by {
                assert forall|j: int| 0 <= j < self.cells@.len() implies chain_wf(
                    #[trigger] self.cells@[j],
                    j,
                    self.alloc as int,
                ) by {
                    if j != idx as int {
                        assert(self.cells@[j] == cur[j]);
                    }
                }
            }
            assert(self@ =~= old(self)@.remove(key@)) by {
                assert forall|k: Seq<u8>|
                    #[trigger] cells_get(self.cells@, k) == if k == key@ {
                        None::<Seq<u8>>
                    } else {
                        cells_get(cur, k)
                    } by {
                    let b = bucket_index(k, self.alloc as int);
                    if b != idx as int {
                        assert(self.cells@[b] == cur[b]);
                        if k == key@ {
                            assert(false);
                        }
                    }
                }
            }
        }
        if r.is_some() {
            self.len = self.len - 1;
        }
        r
    }

    /// Discards every chain and resets every bucket slot to empty; the
    /// capacity is retained so that reuse allocates nothing.
    pub fn clear(&mut self)
        requires
            old(self).well_formed(),
        ensures
            final(self).well_formed(),
            final(self)@ == Map::<Seq<u8>, Seq<u8>>::empty(),
            final(self).spec_allocation() == old(self).spec_allocation(),
    {
        let mut i: usize = 0;
        while i < self.cells.len()
            invariant
                self.cells@.len() == old(self).cells@.len(),
                self.alloc == old(self).alloc,
                self.len == old(self).len,
                i <= self.cells@.len(),
                forall|j: int| 0 <= j < i ==> self.cells@[j] is None,
            decreases self.cells@.len() - i,
        {
            let slot = &mut self.cells[i];
            *slot = None;
            i = i + 1;
        }
        self.len = 0;
        proof {
            chain::lemma_cells_total_none(self.cells@);
            assert(cells_wf(self.cells@, self.alloc as int)) by {
                assert forall|j: int| 0 <= j < self.cells@.len() implies chain_wf(
                    #[trigger] self.cells@[j],
                    j,
                    self.alloc as int,
                ) by {
                    assert(chain_keys(self.cells@[j]) == Seq::<Seq<u8>>::empty());
                }
            }
            assert(self@ =~= Map::<Seq<u8>, Seq<u8>>::empty()) by {
                assert forall|k: Seq<u8>| !(#[trigger] cells_get(self.cells@, k) is Some) by {
                    assert(self.cells@[bucket_index(k, self.cells@.len() as int)] is None);
                }
            }
        }
    }

    /// Produces an iterator over a snapshot of the stored pairs. It
    /// yields, in ascending bucket order and head-to-tail within each
    /// bucket, every stored pair exactly once.
    pub fn iter(&self) -> (it: ByteBoxIterator)
        ensures
            it@ == self.pairs(),
    {
        let ghost s = self.cells@;
        let mut out: Vec<(Vec<u8>, Vec<u8>)> = Vec::new();
        let mut i: usize = self.cells.len();
        proof {
            assert(s.subrange(0, s.len() as int) =~= s);
            assert(cells_pairs(s).reverse() =~= pairs_view(out@) + cells_pairs(
                s.subrange(0, i as int),
            ).reverse());
        }
        while i > 0
            invariant
                i <= s.len(),
                s == self.cells@,
                cells_pairs(s).reverse() == pairs_view(out@) + cells_pairs(
                    s.subrange(0, i as int),
                ).reverse(),
            decreases i,
        {
            i = i - 1;
            let ghost before = out@;
            chain_collect_rev(&self.cells[i], &mut out);
            proof {
                let pre = s.subrange(0, i as int);
                let prei = s.subrange(0, i + 1);
                assert(prei.drop_last() =~= pre);
                assert(prei.last() == s[i as int]);
                assert(cells_pairs(prei) == cells_pairs(pre) + chain_pairs(s[i as int]));
                lemma_reverse_concat(cells_pairs(pre), chain_pairs(s[i as int]));
                assert(pairs_view(out@) + cells_pairs(pre).reverse() =~= (pairs_view(before)
                    + chain_pairs(s[i as int]).reverse()) + cells_pairs(pre).reverse());
                assert((pairs_view(before) + chain_pairs(s[i as int]).reverse()) + cells_pairs(
                    pre,
                ).reverse() =~= pairs_view(before) + cells_pairs(prei).reverse());
            }
        }
        proof {
            assert(s.subrange(0, 0) =~= Seq::<Option<Box<Entry>>>::empty());
            assert(cells_pairs(s.subrange(0, 0)).reverse() =~= Seq::<(Seq<u8>, Seq<u8>)>::empty());
            assert(cells_pairs(s).reverse() =~= pairs_view(out@));
        }
        let it = ByteBoxIterator::from_rev_pairs(out);
        proof {
            assert(cells_pairs(s).reverse().reverse() =~= cells_pairs(s));
        }
        it
    }

    /// The stored map is finite: only finitely many keys are present.
    pub proof fn lemma_dom_finite(&self)
        requires
            self.well_formed(),
        ensures
            self@.dom().finite(),
    {
        self.lemma_dom();
    }

    /// Growth keeps pace with the content: as long as the capacity can
    /// still double, the number of stored keys stays at or below the 3/4
    /// load-factor threshold, up to the one entry the latest insertion
    /// added. After inserting N distinct keys the capacity is therefore
    /// at least (4N - 4) / 3.
    pub proof fn lemma_load_factor(&self)
        requires
            self.well_formed(),
        ensures
            4 * self@.dom().len() <= 3 * self.spec_allocation() + 4 || self.spec_allocation() > (
            usize::MAX / 2) as nat,
    {
        self.lemma_dom();
    }

    /// Iteration completeness: the pair sequence that the iterator walks
    /// has exactly as many pairs as there are stored keys, contains
    /// precisely the stored pairs, and repeats no key.
    pub proof fn lemma_iteration_complete(&self)
        requires
            self.well_formed(),
        ensures
            self.pairs().len() == self@.dom().len(),
            forall|k: Seq<u8>, v: Seq<u8>|
                self@.contains_pair(k, v) <==> #[trigger] self.pairs().contains((k, v)),
            forall|i: int, j: int|
                0 <= i < j < self.pairs().len() ==> (#[trigger] self.pairs()[i]).0 != (
                #[trigger] self.pairs()[j]).0,
    {
        let s = self.cells@;
        let cap = self.alloc as int;
        self.lemma_dom();
        lemma_cells_pairs_keys(s);
        lemma_cells_keys_len(s);
        lemma_cells_keys_nodup(s, cap);
        assert forall|k: Seq<u8>, v: Seq<u8>|
            self@.contains_pair(k, v) <==> #[trigger] self.pairs().contains((k, v)) by {
            lemma_cells_pairs_membership(s, (k, v));
            if self@.contains_pair(k, v) {
                let b = bucket_index(k, cap);
                assert(chain_wf(s[b], b, cap));
                lemma_chain_get_pairs(s[b], k, v);
                assert(chain_pairs(s[b]).contains((k, v)));
            }
            if self.pairs().contains((k, v)) {
                let i = choose|i: int|
                    0 <= i < s.len() && chain_pairs(#[trigger] s[i]).contains((k, v));
                assert(chain_wf(s[i], i, cap));
                lemma_chain_pairs_keys(s[i]);
                let j = choose|j: int|
                    0 <= j < chain_pairs(s[i]).len() && chain_pairs(s[i])[j] == (k, v);
                assert(chain_keys(s[i])[j] == k);
                assert(bucket_index(k, cap) == i);
                lemma_chain_get_pairs(s[i], k, v);
            }
        }
    }

    /// The table's domain is exactly the set of keys reachable across all
    /// chains; its cardinality is the stored count.
    proof fn lemma_dom(&self)
        requires
            self.well_formed(),
        ensures
            self@.dom() =~= cells_keys(self.cells@).to_set(),
            self@.dom().finite(),
            self@.dom().len() == self.len as nat,
    {
        broadcast use vstd::seq_lib::seq_to_set_is_finite;

        let s = self.cells@;
        let cap = self.alloc as int;
        assert forall|k: Seq<u8>| self@.dom().contains(k) implies cells_keys(s).to_set().contains(
            k,
        ) by {
            let b = bucket_index(k, cap);
            lemma_chain_get_keys(s[b], k);
            lemma_cells_keys_membership(s, k);
        }
        assert forall|k: Seq<u8>| cells_keys(s).to_set().contains(k) implies self@.dom().contains(
            k,
        ) by {
            lemma_cells_keys_membership(s, k);
            let i = choose|i: int| 0 <= i < s.len() && chain_keys(#[trigger] s[i]).contains(k);
            assert(chain_wf(s[i], i, cap));
            let j = choose|j: int| 0 <= j < chain_keys(s[i]).len() && chain_keys(s[i])[j] == k;
            assert(bucket_index(k, cap) == i);
            lemma_chain_get_keys(s[i], k);
        }
        assert(self@.dom() =~= cells_keys(s).to_set());
        lemma_cells_keys_nodup(s, cap);
        cells_keys(s).unique_seq_to_set();
        lemma_cells_keys_len(s);
    }
}

/// Builds a bucket array of `cap` empty buckets.
fn make_cells(cap: usize) -> (cells: Vec<Option<Box<Entry>>>)
    ensures
        cells@.len() == cap as int,
        forall|i: int| 0 <= i < cap as int ==> cells@[i] is None,
{
    let mut cells: Vec<Option<Box<Entry>>> = Vec::new();
    let mut i: usize = 0;
    while i < cap
        invariant
            i <= cap,
            cells@.len() == i as int,
            forall|j: int| 0 <= j < i as int ==> cells@[j] is None,
        decreases cap - i,
    {
        cells.push(None);
        i = i + 1;
    }
    cells
}

} // verus!
