//! Entry chains: singly linked, owned sequences of key/value nodes that
//! share one bucket, together with the spec functions that describe their
//! contents and the verified operations that walk and rewrite them.

use vstd::prelude::*;
use crate::hash::bucket_index;

verus! {

/// One stored pair: an owned key (used as identity), an owned value, and
/// exclusive ownership of the next entry in the same bucket, if any.
pub(crate) struct Entry {
    pub(crate) key: Vec<u8>,
    pub(crate) value: Vec<u8>,
    pub(crate) next: Option<Box<Entry>>,
}

/// The value stored under `k` in a chain: the value of the first entry
/// whose key equals `k`, scanning from the head.
pub(crate) open spec fn chain_get(o: Option<Box<Entry>>, k: Seq<u8>) -> Option<Seq<u8>>
    decreases o,
{
    match o {
        None => None,
        Some(e) => if e.key@ == k {
            Some(e.value@)
        } else {
            chain_get(e.next, k)
        },
    }
}

/// The keys of a chain, head first.
pub(crate) open spec fn chain_keys(o: Option<Box<Entry>>) -> Seq<Seq<u8>>
    decreases o,
{
    match o {
        None => Seq::empty(),
        Some(e) => seq![e.key@] + chain_keys(e.next),
    }
}

/// The (key, value) pairs of a chain, head first.
pub(crate) open spec fn chain_pairs(o: Option<Box<Entry>>) -> Seq<(Seq<u8>, Seq<u8>)>
    decreases o,
{
    match o {
        None => Seq::empty(),
        Some(e) => seq![(e.key@, e.value@)] + chain_pairs(e.next),
    }
}

/// The number of entries in a chain.
pub(crate) open spec fn chain_len(o: Option<Box<Entry>>) -> nat {
    chain_keys(o).len()
}

/// Well-formedness of the chain that sits in bucket `i` of a table with
/// `cap` buckets: every key belongs to that bucket, and no two entries
/// share a key.
pub(crate) open spec fn chain_wf(o: Option<Box<Entry>>, i: int, cap: int) -> bool {
    &&& forall|j: int|
        0 <= j < chain_keys(o).len() ==> bucket_index(#[trigger] chain_keys(o)[j], cap) == i
    &&& chain_keys(o).no_duplicates()
}

/// A key is stored in a chain exactly when it occurs among the chain's keys.
pub(crate) proof fn lemma_chain_get_keys(o: Option<Box<Entry>>, k: Seq<u8>)
    ensures
        (chain_get(o, k) is Some) <==> chain_keys(o).contains(k),
    decreases o,
{
    match o {
        None => {
            assert(!chain_keys(o).contains(k));
        }
        Some(e) => {
            lemma_chain_get_keys(e.next, k);
            if e.key@ == k {
                assert(chain_keys(o)[0] == k);
            } else {
                if chain_keys(e.next).contains(k) {
                    let j = choose|j: int|
                        0 <= j < chain_keys(e.next).len() && chain_keys(e.next)[j] == k;
                    assert(chain_keys(o)[j + 1] == k);
                }
                if chain_keys(o).contains(k) {
                    let j = choose|j: int| 0 <= j < chain_keys(o).len() && chain_keys(o)[j] == k;
                    assert(j != 0);
                    assert(chain_keys(e.next)[j - 1] == k);
                }
            }
        }
    }
}

/// The pairs and the keys of a chain line up index by index.
pub(crate) proof fn lemma_chain_pairs_keys(o: Option<Box<Entry>>)
    ensures
        chain_pairs(o).len() == chain_keys(o).len(),
        forall|j: int|
            0 <= j < chain_keys(o).len() ==> (#[trigger] chain_pairs(o)[j]).0 == chain_keys(o)[j],
    decreases o,
{
    match o {
        None => {}
        Some(e) => {
            lemma_chain_pairs_keys(e.next);
        }
    }
}

/// Compares two byte strings for equality.
pub(crate) fn bytes_eq(a: &[u8], b: &[u8]) -> (r: bool)
    ensures
        r <==> a@ == b@,
{
    if a.len() != b.len() {
        return false;
    }
    let mut i: usize = 0;
    while i < a.len()
        invariant
            i <= a@.len(),
            a@.len() == b@.len(),
            forall|j: int| 0 <= j < i ==> a@[j] == b@[j],
        decreases a@.len() - i,
    {
        if a[i] != b[i] {
            return false;
        }
        i = i + 1;
    }
    proof {
        assert(a@ =~= b@);
    }
    true
}

/// Scans a chain for `key` and returns a reference to its value, if stored.
pub(crate) fn chain_find<'a>(o: &'a Option<Box<Entry>>, key: &[u8]) -> (r: Option<&'a Vec<u8>>)
    ensures
        match r {
            Some(v) => chain_get(*o, key@) == Some::<Seq<u8>>(v@),
            None => chain_get(*o, key@) is None,
        },
    decreases *o,
{
    match o {
        None => None,
        Some(e) => {
            if bytes_eq(e.key.as_slice(), key) {
                Some(&e.value)
            } else {
                chain_find(&e.next, key)
            }
        }
    }
}

/// Overwrites in place the value of the entry whose key equals `key`, if
/// one exists; reports whether it did. The chain's keys are unchanged.
pub(crate) fn chain_update(o: &mut Option<Box<Entry>>, key: &[u8], value: &[u8]) -> (found: bool)
    ensures
        found == (chain_get(*old(o), key@) is Some),
        chain_keys(*final(o)) == chain_keys(*old(o)),
        forall|k: Seq<u8>| k != key@ ==> chain_get(*final(o), k) == chain_get(*old(o), k),
        found ==> chain_get(*final(o), key@) == Some::<Seq<u8>>(value@),
        !found ==> *final(o) == *old(o),
    decreases *old(o),
{
    match o.take() {
        None => false,
        Some(mut e) => {
            if bytes_eq(e.key.as_slice(), key) {
                e.value = vstd::slice::slice_to_vec(value);
                *o = Some(e);
                proof {
                    assert forall|k: Seq<u8>| k != key@ implies chain_get(*o, k) == chain_get(
                        *old(o),
                        k,
                    ) by {
                        assert(chain_get(*o, k) == chain_get((*o)->Some_0.next, k));
                    }
                }
                true
            } else {
                let found = chain_update(&mut e.next, key, value);
                *o = Some(e);
                proof {
                    assert forall|k: Seq<u8>| k != key@ implies chain_get(*o, k) == chain_get(
                        *old(o),
                        k,
                    ) by {
                        if (*o)->Some_0.key@ != k {
                            assert(chain_get(*o, k) == chain_get((*o)->Some_0.next, k));
                        }
                    }
                }
                found
            }
        }
    }
}

/// Unlinks the first entry whose key equals `key`, if any, handing its
/// value to the caller. The predecessor (or the bucket slot, for the chain
/// head) takes ownership of the removed entry's successor.
pub(crate) fn chain_remove(o: &mut Option<Box<Entry>>, key: &[u8]) -> (removed: Option<Vec<u8>>)
    requires
        chain_keys(*old(o)).no_duplicates(),
    ensures
        match removed {
            Some(v) => chain_get(*old(o), key@) == Some::<Seq<u8>>(v@),
            None => chain_get(*old(o), key@) is None,
        },
        chain_get(*final(o), key@) is None,
        forall|k: Seq<u8>| k != key@ ==> chain_get(*final(o), k) == chain_get(*old(o), k),
        forall|k: Seq<u8>|
            chain_keys(*final(o)).contains(k) ==> chain_keys(*old(o)).contains(k),
        chain_keys(*final(o)).no_duplicates(),
        chain_len(*final(o)) + (if removed is Some {
            1int
        } else {
            0int
        }) == chain_len(*old(o)),
    decreases *old(o),
{
    match o.take() {
        None => None,
        Some(e) => {
            let boxed = *e;
            let e_key = boxed.key;
            let e_value = boxed.value;
            let mut e_next = boxed.next;
            if bytes_eq(e_key.as_slice(), key) {
                *o = e_next;
                proof {
                    lemma_chain_get_keys(*o, key@);
                    assert(chain_keys(*old(o)).contains(key@)) by {
                        assert(chain_keys(*old(o))[0] == key@);
                    }
                    assert forall|k: Seq<u8>| chain_keys(*o).contains(k) implies chain_keys(
                        *old(o),
                    ).contains(k) by {
                        let j = choose|j: int|
                            0 <= j < chain_keys(*o).len() && chain_keys(*o)[j] == k;
                        assert(chain_keys(*old(o))[j + 1] == k);
                    }
                    assert(chain_keys(*o).no_duplicates()) by {
                        assert forall|i: int, j: int|
                            0 <= i < j < chain_keys(*o).len() implies chain_keys(*o)[i]
                            != chain_keys(*o)[j] by {
                            assert(chain_keys(*old(o))[i + 1] == chain_keys(*o)[i]);
                            assert(chain_keys(*old(o))[j + 1] == chain_keys(*o)[j]);
                        }
                    }
                    assert(chain_get(*o, key@) is None) by {
                        if chain_keys(*o).contains(key@) {
                            let j = choose|j: int|
                                0 <= j < chain_keys(*o).len() && chain_keys(*o)[j] == key@;
                            assert(chain_keys(*old(o))[j + 1] == key@);
                            assert(chain_keys(*old(o))[0] == key@);
                        }
                    }
                }
                Some(e_value)
            } else {
                proof {
                    let tail0 = old(o)->Some_0.next;
                    assert(chain_keys(tail0).no_duplicates()) by {
                        assert forall|i: int, j: int|
                            0 <= i < j < chain_keys(tail0).len() implies chain_keys(tail0)[i]
                            != chain_keys(tail0)[j] by {
                            assert(chain_keys(*old(o))[i + 1] == chain_keys(tail0)[i]);
                            assert(chain_keys(*old(o))[j + 1] == chain_keys(tail0)[j]);
                        }
                    }
                }
                let removed = chain_remove(&mut e_next, key);
                *o = Some(Box::new(Entry { key: e_key, value: e_value, next: e_next }));
                proof {
                    let tail0 = old(o)->Some_0.next;
                    let tail1 = (*o)->Some_0.next;
                    assert forall|k: Seq<u8>| k != key@ implies chain_get(*o, k) == chain_get(
                        *old(o),
                        k,
                    ) by {
                        if (*o)->Some_0.key@ != k {
                            assert(chain_get(*o, k) == chain_get(tail1, k));
                            assert(chain_get(*old(o), k) == chain_get(tail0, k));
                        }
                    }
                    assert forall|k: Seq<u8>| chain_keys(*o).contains(k) implies chain_keys(
                        *old(o),
                    ).contains(k) by {
                        let j = choose|j: int|
                            0 <= j < chain_keys(*o).len() && chain_keys(*o)[j] == k;
                        if j == 0 {
                            assert(chain_keys(*old(o))[0] == k);
                        } else {
                            assert(chain_keys(tail1)[j - 1] == k);
                            assert(chain_keys(tail1).contains(k));
                            assert(chain_keys(tail0).contains(k));
                            let j0 = choose|j0: int|
                                0 <= j0 < chain_keys(tail0).len() && chain_keys(tail0)[j0] == k;
                            assert(chain_keys(*old(o))[j0 + 1] == k);
                        }
                    }
                    assert(chain_keys(*o).no_duplicates()) by {
                        assert forall|i: int, j: int|
                            0 <= i < j < chain_keys(*o).len() implies chain_keys(*o)[i]
                            != chain_keys(*o)[j] by {
                            if i == 0 {
                                assert(chain_keys(tail1)[j - 1] == chain_keys(*o)[j]);
                                assert(chain_keys(tail1).contains(chain_keys(*o)[j]));
                                assert(chain_keys(tail0).contains(chain_keys(*o)[j]));
                                let j0 = choose|j0: int|
                                    0 <= j0 < chain_keys(tail0).len() && chain_keys(tail0)[j0]
                                        == chain_keys(*o)[j];
                                assert(chain_keys(*old(o))[j0 + 1] == chain_keys(*o)[j]);
                                assert(chain_keys(*old(o))[0] == chain_keys(*o)[0]);
                            } else {
                                assert(chain_keys(tail1)[i - 1] == chain_keys(*o)[i]);
                                assert(chain_keys(tail1)[j - 1] == chain_keys(*o)[j]);
                            }
                        }
                    }
                    assert(chain_get(*o, key@) == chain_get(tail1, key@));
                }
                removed
            }
        }
    }
}

/// An element occurs in a concatenation exactly when it occurs in one of
/// the parts.
pub(crate) proof fn lemma_concat_contains<A>(a: Seq<A>, b: Seq<A>, x: A)
    ensures
        (a + b).contains(x) <==> a.contains(x) || b.contains(x),
{
    if a.contains(x) {
        let i = choose|i: int| 0 <= i < a.len() && a[i] == x;
        assert((a + b)[i] == x);
    }
    if b.contains(x) {
        let i = choose|i: int| 0 <= i < b.len() && b[i] == x;
        assert((a + b)[a.len() + i] == x);
    }
    if (a + b).contains(x) {
        let i = choose|i: int| 0 <= i < (a + b).len() && (a + b)[i] == x;
        if i < a.len() {
            assert(a[i] == x);
        } else {
            assert(b[i - a.len()] == x);
        }
    }
}

/// A concatenation of two duplicate-free sequences with no common element
/// is duplicate-free.
pub(crate) proof fn lemma_concat_nodup<A>(a: Seq<A>, b: Seq<A>)
    requires
        a.no_duplicates(),
        b.no_duplicates(),
        forall|x: A| !(a.contains(x) && b.contains(x)),
    ensures
        (a + b).no_duplicates(),
{
    assert forall|i: int, j: int| 0 <= i < j < (a + b).len() implies (a + b)[i] != (a + b)[j] by {
        if i < a.len() && j >= a.len() {
            assert(a.contains(a[i]));
            assert(b.contains(b[j - a.len()]));
        }
    }
}

/// Reversing a sequence moves its first element to the end.
pub(crate) proof fn lemma_reverse_cons<A>(x: A, s: Seq<A>)
    ensures
        (seq![x] + s).reverse() == s.reverse().push(x),
{
    assert((seq![x] + s).reverse() =~= s.reverse().push(x));
}

/// Reversing a concatenation reverses the parts and swaps them.
pub(crate) proof fn lemma_reverse_concat<A>(a: Seq<A>, b: Seq<A>)
    ensures
        (a + b).reverse() == b.reverse() + a.reverse(),
{
    assert((a + b).reverse() =~= b.reverse() + a.reverse());
}

/// The element views of a sequence of owned pairs.
pub(crate) open spec fn pairs_view(s: Seq<(Vec<u8>, Vec<u8>)>) -> Seq<(Seq<u8>, Seq<u8>)> {
    s.map_values(|p: (Vec<u8>, Vec<u8>)| (p.0@, p.1@))
}

/// Appends the pairs of a chain to `out` deepest entry first, so that
/// popping from `out` afterwards yields the chain head first.
pub(crate) fn chain_collect_rev(o: &Option<Box<Entry>>, out: &mut Vec<(Vec<u8>, Vec<u8>)>)
    ensures
        pairs_view(final(out)@) == pairs_view(old(out)@) + chain_pairs(*o).reverse(),
    decreases *o,
{
    match o {
        None => {
            proof {
                assert(pairs_view(out@) =~= pairs_view(out@) + chain_pairs(*o).reverse());
            }
        }
        Some(e) => {
            chain_collect_rev(&e.next, out);
            let k = vstd::slice::slice_to_vec(e.key.as_slice());
            let v = vstd::slice::slice_to_vec(e.value.as_slice());
            let ghost mid = out@;
            out.push((k, v));
            proof {
                assert(out@ == mid.push((k, v)));
                assert(pairs_view(out@) =~= pairs_view(mid).push((k@, v@)));
                assert(chain_pairs(*o) == seq![(e.key@, e.value@)] + chain_pairs(e.next));
                lemma_reverse_cons((e.key@, e.value@), chain_pairs(e.next));
                assert(pairs_view(out@) =~= pairs_view(old(out)@) + chain_pairs(*o).reverse());
            }
        }
    }
}

/// The bucket array as a sequence of optional chain heads: the value
/// stored under `k`, looked up in the bucket that `k` hashes to.
pub(crate) open spec fn cells_get(s: Seq<Option<Box<Entry>>>, k: Seq<u8>) -> Option<Seq<u8>> {
    chain_get(s[bucket_index(k, s.len() as int)], k)
}

/// All pairs of a bucket array, in ascending bucket order, each chain head
/// first.
pub(crate) open spec fn cells_pairs(s: Seq<Option<Box<Entry>>>) -> Seq<(Seq<u8>, Seq<u8>)>
    decreases s.len(),
{
    if s.len() == 0 {
        Seq::empty()
    } else {
        cells_pairs(s.drop_last()) + chain_pairs(s.last())
    }
}

/// All keys of a bucket array, in the same order as `cells_pairs`.
pub(crate) open spec fn cells_keys(s: Seq<Option<Box<Entry>>>) -> Seq<Seq<u8>>
    decreases s.len(),
{
    if s.len() == 0 {
        Seq::empty()
    } else {
        cells_keys(s.drop_last()) + chain_keys(s.last())
    }
}

/// The total number of entries reachable across all chains.
pub(crate) open spec fn cells_total(s: Seq<Option<Box<Entry>>>) -> nat
    decreases s.len(),
{
    if s.len() == 0 {
        0
    } else {
        cells_total(s.drop_last()) + chain_len(s.last())
    }
}

/// Every chain of the bucket array is well-formed for a table of `cap`
/// buckets.
pub(crate) open spec fn cells_wf(s: Seq<Option<Box<Entry>>>, cap: int) -> bool {
    forall|i: int| 0 <= i < s.len() ==> chain_wf(#[trigger] s[i], i, cap)
}

/// Replacing one chain changes the entry total by the difference of the
/// two chain lengths.
pub(crate) proof fn lemma_cells_total_update(
    s: Seq<Option<Box<Entry>>>,
    i: int,
    c: Option<Box<Entry>>,
)
    requires
        0 <= i < s.len(),
    ensures
        cells_total(s.update(i, c)) + chain_len(s[i]) == cells_total(s) + chain_len(c),
    decreases s.len(),
{
    let t = s.update(i, c);
    if i == s.len() - 1 {
        assert(t.drop_last() =~= s.drop_last());
        assert(t.last() == c);
    } else {
        assert(t.drop_last() =~= s.drop_last().update(i, c));
        assert(t.last() == s.last());
        lemma_cells_total_update(s.drop_last(), i, c);
    }
}

/// A key occurs in the bucket array's keys exactly when it occurs in some
/// chain.
pub(crate) proof fn lemma_cells_keys_membership(s: Seq<Option<Box<Entry>>>, k: Seq<u8>)
    ensures
        cells_keys(s).contains(k) <==> exists|i: int|
            0 <= i < s.len() && chain_keys(#[trigger] s[i]).contains(k),
    decreases s.len(),
{
    if s.len() > 0 {
        lemma_cells_keys_membership(s.drop_last(), k);
        lemma_concat_contains(cells_keys(s.drop_last()), chain_keys(s.last()), k);
        if cells_keys(s).contains(k) {
            if chain_keys(s.last()).contains(k) {
                assert(chain_keys(s[s.len() - 1]).contains(k));
            } else {
                let i = choose|i: int|
                    0 <= i < s.drop_last().len() && chain_keys(
                        #[trigger] s.drop_last()[i],
                    ).contains(k);
                assert(chain_keys(s[i]).contains(k));
            }
        }
        if exists|i: int| 0 <= i < s.len() && chain_keys(#[trigger] s[i]).contains(k) {
            let i = choose|i: int| 0 <= i < s.len() && chain_keys(#[trigger] s[i]).contains(k);
            if i < s.len() - 1 {
                assert(chain_keys(s.drop_last()[i]).contains(k));
            }
        }
    }
}

/// Under per-bucket well-formedness, no key occurs twice across the whole
/// bucket array.
pub(crate) proof fn lemma_cells_keys_nodup(s: Seq<Option<Box<Entry>>>, cap: int)
    requires
        forall|i: int| 0 <= i < s.len() ==> chain_wf(#[trigger] s[i], i, cap),
    ensures
        cells_keys(s).no_duplicates(),
    decreases s.len(),
{
    if s.len() > 0 {
        let prefix = s.drop_last();
        assert(forall|i: int| 0 <= i < prefix.len() ==> chain_wf(#[trigger] prefix[i], i, cap))
            by {
            assert(forall|i: int| 0 <= i < prefix.len() ==> prefix[i] == s[i]);
        }
        lemma_cells_keys_nodup(prefix, cap);
        assert(chain_wf(s[s.len() - 1], s.len() - 1, cap));
        assert forall|x: Seq<u8>| !(cells_keys(prefix).contains(x) && chain_keys(
            s.last(),
        ).contains(x)) by {
            if cells_keys(prefix).contains(x) && chain_keys(s.last()).contains(x) {
                lemma_cells_keys_membership(prefix, x);
                let i = choose|i: int|
                    0 <= i < prefix.len() && chain_keys(#[trigger] prefix[i]).contains(x);
                assert(chain_wf(s[i], i, cap));
                let ji = choose|j: int|
                    0 <= j < chain_keys(s[i]).len() && chain_keys(s[i])[j] == x;
                let jl = choose|j: int|
                    0 <= j < chain_keys(s.last()).len() && chain_keys(s.last())[j] == x;
                assert(bucket_index(x, cap) == i);
                assert(bucket_index(x, cap) == s.len() - 1);
            }
        }
        lemma_concat_nodup(cells_keys(prefix), chain_keys(s.last()));
    }
}

/// Detaches the entries of `chain` one by one and prepends each to the
/// bucket of its key in `new_cells`, whose capacity is its length.
pub(crate) fn chain_rehash(chain: Option<Box<Entry>>, new_cells: &mut Vec<Option<Box<Entry>>>)
    requires
        old(new_cells)@.len() >= 1,
        chain_keys(chain).no_duplicates(),
        cells_wf(old(new_cells)@, old(new_cells)@.len() as int),
        forall|k: Seq<u8>|
            chain_get(chain, k) is Some ==> #[trigger] cells_get(old(new_cells)@, k) is None,
    ensures
        final(new_cells)@.len() == old(new_cells)@.len(),
        cells_wf(final(new_cells)@, old(new_cells)@.len() as int),
        forall|k: Seq<u8>|
            #[trigger] cells_get(final(new_cells)@, k) == if chain_get(chain, k) is Some {
                chain_get(chain, k)
            } else {
                cells_get(old(new_cells)@, k)
            },
        cells_total(final(new_cells)@) == cells_total(old(new_cells)@) + chain_len(chain),
    decreases chain,
{
    match chain {
        None => {}
        Some(e) => {
            let boxed = *e;
            let e_key = boxed.key;
            let e_value = boxed.value;
            let rest = boxed.next;
            let ghost hk = e_key@;
            proof {
                assert(chain_get(chain, hk) is Some);
                lemma_chain_get_keys(chain, hk);
                assert(chain_keys(rest).no_duplicates()) by {
                    assert forall|i: int, j: int|
                        0 <= i < j < chain_keys(rest).len() implies chain_keys(rest)[i]
                        != chain_keys(rest)[j] by {
                        assert(chain_keys(chain)[i + 1] == chain_keys(rest)[i]);
                        assert(chain_keys(chain)[j + 1] == chain_keys(rest)[j]);
                    }
                }
                assert(!chain_keys(rest).contains(hk)) by {
                    if chain_keys(rest).contains(hk) {
                        let j = choose|j: int|
                            0 <= j < chain_keys(rest).len() && chain_keys(rest)[j] == hk;
                        assert(chain_keys(chain)[j + 1] == hk);
                        assert(chain_keys(chain)[0] == hk);
                    }
                }
                lemma_chain_get_keys(rest, hk);
            }
            let cap = new_cells.len();
            let idx = crate::hash::bucket_of(e_key.as_slice(), cap);
            let ghost before = new_cells@;
            let slot = &mut new_cells[idx];
            let tail = slot.take();
            proof {
                lemma_chain_get_keys(tail, hk);
                assert(cells_get(before, hk) is None);
                assert(chain_get(tail, hk) is None);
            }
            *slot = Some(Box::new(Entry { key: e_key, value: e_value, next: tail }));
            proof {
                let mid = new_cells@;
                assert(mid == before.update(idx as int, mid[idx as int]));
                let newchain = mid[idx as int];
                assert(chain_keys(newchain) == seq![hk] + chain_keys(tail));
                assert(chain_wf(newchain, idx as int, cap as int)) by {
                    assert(chain_wf(before[idx as int], idx as int, cap as int));
                    assert forall|j: int| 0 <= j < chain_keys(newchain).len() implies bucket_index(
                        #[trigger] chain_keys(newchain)[j],
                        cap as int,
                    ) == idx as int by {
                        if j > 0 {
                            assert(chain_keys(newchain)[j] == chain_keys(tail)[j - 1]);
                        }
                    }
                    assert(chain_keys(newchain).no_duplicates()) by {
                        assert forall|i: int, j: int|
                            0 <= i < j < chain_keys(newchain).len() implies chain_keys(
                            newchain,
                        )[i] != chain_keys(newchain)[j] by {
                            if i == 0 {
                                assert(chain_keys(tail)[j - 1] == chain_keys(newchain)[j]);
                                assert(chain_keys(tail).contains(chain_keys(newchain)[j]));
                                lemma_chain_get_keys(tail, chain_keys(newchain)[j]);
                            } else {
                                assert(chain_keys(tail)[i - 1] == chain_keys(newchain)[i]);
                                assert(chain_keys(tail)[j - 1] == chain_keys(newchain)[j]);
                            }
                        }
                    }
                }
                assert(cells_wf(mid, cap as int)) by {
                    assert forall|i: int| 0 <= i < mid.len() implies chain_wf(
                        #[trigger] mid[i],
                        i,
                        cap as int,
                    ) by {
                        if i != idx as int {
                            assert(mid[i] == before[i]);
                        }
                    }
                }
                assert forall|k: Seq<u8>|
                    chain_get(rest, k) is Some implies #[trigger] cells_get(mid, k) is None by {
                    lemma_chain_get_keys(rest, k);
                    assert(chain_keys(chain)[1 + choose|j: int|
                        0 <= j < chain_keys(rest).len() && chain_keys(rest)[j] == k] == k);
                    assert(chain_keys(chain).contains(k));
                    lemma_chain_get_keys(chain, k);
                    assert(chain_get(chain, k) is Some);
                    assert(cells_get(before, k) is None);
                    assert(k != hk);
                    if bucket_index(k, cap as int) == idx as int {
                        assert(chain_get(newchain, k) == chain_get(tail, k));
                        assert(chain_get(tail, k) == chain_get(before[idx as int], k));
                    } else {
                        assert(mid[bucket_index(k, cap as int)] == before[bucket_index(
                            k,
                            cap as int,
                        )]);
                    }
                }
                lemma_cells_total_update(before, idx as int, newchain);
            }
            chain_rehash(rest, new_cells);
            proof {
                let mid = before.update(idx as int, Some(
                    Box::new(Entry { key: e_key, value: e_value, next: tail }),
                ));
                assert forall|k: Seq<u8>|
                    #[trigger] cells_get(final(new_cells)@, k) == if chain_get(chain, k) is Some {
                        chain_get(chain, k)
                    } else {
                        cells_get(before, k)
                    } by {
                    if k == hk {
                        assert(chain_get(rest, k) is None);
                        assert(cells_get(final(new_cells)@, k) == cells_get(mid, k));
                        assert(cells_get(mid, k) == chain_get(mid[idx as int], k));
                        assert(chain_get(mid[idx as int], k) == Some(e_value@));
                        assert(chain_get(chain, k) == Some(e_value@));
                    } else {
                        if chain_get(rest, k) is Some {
                            assert(chain_get(chain, k) == chain_get(rest, k));
                        } else {
                            assert(cells_get(final(new_cells)@, k) == cells_get(mid, k));
                            if bucket_index(k, cap as int) == idx as int {
                                assert(chain_get(mid[idx as int], k) == chain_get(tail, k));
                            } else {
                                assert(mid[bucket_index(k, cap as int)] == before[bucket_index(
                                    k,
                                    cap as int,
                                )]);
                            }
                            assert(chain_get(chain, k) == chain_get(rest, k));
                        }
                    }
                }
            }
        }
    }
}

/// In a chain without duplicate keys, a pair is stored exactly when it
/// occurs among the chain's pairs.
pub(crate) proof fn lemma_chain_get_pairs(o: Option<Box<Entry>>, k: Seq<u8>, v: Seq<u8>)
    requires
        chain_keys(o).no_duplicates(),
    ensures
        (chain_get(o, k) == Some(v)) <==> chain_pairs(o).contains((k, v)),
    decreases o,
{
    lemma_chain_pairs_keys(o);
    match o {
        None => {}
        Some(e) => {
            let tail = e.next;
            assert(chain_keys(tail).no_duplicates()) by {
                assert forall|i: int, j: int|
                    0 <= i < j < chain_keys(tail).len() implies chain_keys(tail)[i]
                    != chain_keys(tail)[j] by {
                    assert(chain_keys(o)[i + 1] == chain_keys(tail)[i]);
                    assert(chain_keys(o)[j + 1] == chain_keys(tail)[j]);
                }
            }
            lemma_chain_get_pairs(tail, k, v);
            lemma_chain_pairs_keys(tail);
            if e.key@ == k {
                if chain_get(o, k) == Some(v) {
                    assert(chain_pairs(o)[0] == (k, v));
                }
                if chain_pairs(o).contains((k, v)) {
                    let j = choose|j: int|
                        0 <= j < chain_pairs(o).len() && chain_pairs(o)[j] == (k, v);
                    if j > 0 {
                        assert(chain_pairs(tail)[j - 1] == (k, v));
                        assert(chain_keys(tail)[j - 1] == k);
                        assert(chain_keys(o)[j] == k);
                        assert(chain_keys(o)[0] == k);
                    }
                }
            } else {
                if chain_pairs(o).contains((k, v)) {
                    let j = choose|j: int|
                        0 <= j < chain_pairs(o).len() && chain_pairs(o)[j] == (k, v);
                    assert(j != 0);
                    assert(chain_pairs(tail)[j - 1] == (k, v));
                }
                if chain_pairs(tail).contains((k, v)) {
                    let j = choose|j: int|
                        0 <= j < chain_pairs(tail).len() && chain_pairs(tail)[j] == (k, v);
                    assert(chain_pairs(o)[j + 1] == (k, v));
                }
            }
        }
    }
}

/// A pair occurs in the bucket array's pairs exactly when it occurs in
/// some chain.
pub(crate) proof fn lemma_cells_pairs_membership(s: Seq<Option<Box<Entry>>>, p: (Seq<u8>, Seq<u8>))
    ensures
        cells_pairs(s).contains(p) <==> exists|i: int|
            0 <= i < s.len() && chain_pairs(#[trigger] s[i]).contains(p),
    decreases s.len(),
{
    if s.len() > 0 {
        lemma_cells_pairs_membership(s.drop_last(), p);
        lemma_concat_contains(cells_pairs(s.drop_last()), chain_pairs(s.last()), p);
        if cells_pairs(s).contains(p) {
            if chain_pairs(s.last()).contains(p) {
                assert(chain_pairs(s[s.len() - 1]).contains(p));
            } else {
                let i = choose|i: int|
                    0 <= i < s.drop_last().len() && chain_pairs(
                        #[trigger] s.drop_last()[i],
                    ).contains(p);
                assert(chain_pairs(s[i]).contains(p));
            }
        }
        if exists|i: int| 0 <= i < s.len() && chain_pairs(#[trigger] s[i]).contains(p) {
            let i = choose|i: int| 0 <= i < s.len() && chain_pairs(#[trigger] s[i]).contains(p);
            if i < s.len() - 1 {
                assert(chain_pairs(s.drop_last()[i]).contains(p));
            }
        }
    }
}

/// The pairs and the keys of a bucket array line up index by index.
pub(crate) proof fn lemma_cells_pairs_keys(s: Seq<Option<Box<Entry>>>)
    ensures
        cells_pairs(s).len() == cells_keys(s).len(),
        forall|j: int|
            0 <= j < cells_keys(s).len() ==> (#[trigger] cells_pairs(s)[j]).0 == cells_keys(s)[j],
    decreases s.len(),
{
    if s.len() > 0 {
        lemma_cells_pairs_keys(s.drop_last());
        lemma_chain_pairs_keys(s.last());
        let np = cells_pairs(s.drop_last()).len() as int;
        assert forall|j: int| 0 <= j < cells_keys(s).len() implies (
        #[trigger] cells_pairs(s)[j]).0 == cells_keys(s)[j] by {
            if j < np {
                assert(cells_pairs(s)[j] == cells_pairs(s.drop_last())[j]);
                assert(cells_keys(s)[j] == cells_keys(s.drop_last())[j]);
            } else {
                assert(cells_pairs(s)[j] == chain_pairs(s.last())[j - np]);
                assert(cells_keys(s)[j] == chain_keys(s.last())[j - np]);
            }
        }
    }
}

/// A bucket array of empty buckets holds no entries.
pub(crate) proof fn lemma_cells_total_none(s: Seq<Option<Box<Entry>>>)
    requires
        forall|i: int| 0 <= i < s.len() ==> s[i] is None,
    ensures
        cells_total(s) == 0,
    decreases s.len(),
{
    if s.len() > 0 {
        assert(forall|i: int| 0 <= i < s.drop_last().len() ==> s.drop_last()[i] == s[i]);
        lemma_cells_total_none(s.drop_last());
        assert(chain_keys(s.last()) == Seq::<Seq<u8>>::empty());
    }
}

/// The key list and the entry total of a bucket array agree.
pub(crate) proof fn lemma_cells_keys_len(s: Seq<Option<Box<Entry>>>)
    ensures
        cells_keys(s).len() == cells_total(s),
    decreases s.len(),
{
    if s.len() > 0 {
        lemma_cells_keys_len(s.drop_last());
    }
}

} // verus!
