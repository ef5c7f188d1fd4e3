//! The table itself: construction, lookup, insertion, removal and growth.

use crate::bucket::{
    apart, appended, came_from, distinct_keys, holds, index_of, lemma_moved_one,
    lemma_swap_removed, lemma_value_in, placed, position, swap_removed, value_in,
};
use crate::chains::{chains_of_length, lemma_chains_of_length_bound, occupied};
use crate::hash::{bucket_of, hash_u64, lemma_bucket_of_bound};
use crate::iter::{
    flattened, lemma_flattened_all_empty, lemma_flattened_at, lemma_flattened_len_update,
    lemma_flattened_locate, lemma_flattened_take, offset_of, IntoIter, Iter, Keys, Values,
};
use crate::iter_mut::{lemma_same_keys_len, same_keys, value_set, IterMut};
use crate::model::{after_insert, after_remove, insert_succeeds, lookup};
use vstd::arithmetic::power2::{
    lemma2_to64, lemma_pow2_pos, lemma_pow2_strictly_increases, lemma_pow2_unfold, pow2,
};
use vstd::prelude::*;

verus! {

/// Whether `n` is a power of two.
pub open spec fn is_power_of_two(n: int) -> bool {
    exists|e: nat| n == #[trigger] pow2(e)
}

/// Whether `count` entries load `capacity` buckets to more than 70 percent.
pub open spec fn overloaded(count: nat, capacity: nat) -> bool {
    capacity > 0 && (count * 100) / capacity > 70
}

/// The capacity reached from `capacity` by doubling for as long as `count`
/// entries overload it.
pub open spec fn settled_capacity(count: nat, capacity: nat) -> nat
    decreases count * 100 - capacity,
    via settled_capacity_decreases
{
    if overloaded(count, capacity) {
        settled_capacity(count, 2 * capacity)
    } else {
        capacity
    }
}

#[via_fn]
proof fn settled_capacity_decreases(count: nat, capacity: nat) {
    if overloaded(count, capacity) {
        assert(count * 100 >= 71 * capacity) by (nonlinear_arith)
            requires
                capacity > 0,
                (count * 100) / capacity > 70,
        ;
    }
}

/// The capacity after an insertion that brought the number of entries to
/// `count`: the load is looked at only when the bit of value four is set in
/// `count`.
pub open spec fn capacity_after_insert(count: nat, capacity: nat) -> nat {
    if (count / 4) % 2 == 1 {
        settled_capacity(count, capacity)
    } else {
        capacity
    }
}

/// A map from `u64` keys to values of type `V`.
pub struct IntMap<V> {
    /// The buckets; their number is two to the power of `size`.
    cache: Vec<Vec<(u64, V)>>,
    /// The exponent of the capacity.
    size: u32,
    /// The capacity less one: the bits of a hash that choose the bucket.
    mod_mask: u64,
    /// The number of entries.
    count: usize,
    /// The keys that have an entry.
    keys: Ghost<Set<u64>>,
}

impl<V> View for IntMap<V> {
    type V = Map<u64, V>;

    closed spec fn view(&self) -> Map<u64, V> {
        Map::new(
            |k: u64| self.keys@.contains(k),
            |k: u64| value_in(self.cache@[bucket_of(k, self.mod_mask)]@, k),
        )
    }
}

/// An exponent whose power of two fits in `usize` is below the bit width.
proof fn lemma_exponent_fits(e: nat)
    requires
        pow2(e) <= usize::MAX,
    ensures
        e < usize::BITS,
{
    lemma2_to64();
    vstd::arithmetic::power2::lemma2_to64_rest();
    if e > usize::BITS {
        lemma_pow2_strictly_increases(usize::BITS as nat, e);
    }
}

/// Replacing the value of one entry keeps the table well-formed and changes
/// the map at that entry's key only.
proof fn lemma_value_replaced<V>(was: IntMap<V>, now: IntMap<V>, ix: int, i: int, key: u64, v: V)
    requires
        was.wf(),
        now.size == was.size,
        now.mod_mask == was.mod_mask,
        now.count == was.count,
        now.keys@ == was.keys@,
        now.cache@.len() == was.cache@.len(),
        0 <= ix < was.cache@.len(),
        0 <= i < was.cache@[ix]@.len(),
        was.cache@[ix]@[i].0 == key,
        now.cache@[ix]@ == was.cache@[ix]@.update(i, (key, v)),
        forall|b: int| 0 <= b < was.cache@.len() && b != ix ==> #[trigger] now.cache@[b] == was.cache@[b],
    ensures
        now.wf(),
        now@ == was@.insert(key, v),
        now.spec_capacity() == was.spec_capacity(),
{
    let mask = was.mod_mask;
    let model = was@.insert(key, v);
    assert(now.cache@ =~= was.cache@.update(ix, now.cache@[ix]));
    lemma_flattened_len_update(was.cache@, ix, now.cache@[ix]);
    assert(placed(was.cache@[ix]@, ix, mask, was@));
    assert forall|b: int| 0 <= b < now.cache@.len() implies distinct_keys(
        (#[trigger] now.cache@[b])@,
    ) by {
        let old_b = was.cache@[b]@;
        let new_b = now.cache@[b]@;
        assert(distinct_keys(old_b));
        assert forall|p: int, q: int|
            0 <= p < new_b.len() && 0 <= q < new_b.len() && (#[trigger] new_b[p]).0 == (
            #[trigger] new_b[q]).0 implies p == q by {
            assert(new_b[p].0 == old_b[p].0);
            assert(new_b[q].0 == old_b[q].0);
        }
    }
    assert(was@.dom() == was.keys@);
    assert(now@.dom() =~= now.keys@);
    assert forall|k: u64| #[trigger] model.contains_key(k) implies bucket_of(k, mask)
        < now.cache@.len() && holds(now.cache@[bucket_of(k, mask)]@, k) && now@[k] == model[k] by {
        let b = bucket_of(k, mask);
        assert(was@.contains_key(k));
        assert(placed(was.cache@[b]@, b, mask, was@));
        let j = choose|j: int|
            0 <= j < was.cache@[b]@.len() && (#[trigger] was.cache@[b]@[j]).0 == k;
        assert(now.cache@[b]@[j].0 == k);
        lemma_value_in(now.cache@[b]@, j);
        assert(distinct_keys(was.cache@[b]@));
        if b == ix && j != i {
            assert(was.cache@[b]@[j].0 != was.cache@[b]@[i].0);
        }
    }
    assert(model.dom() =~= now@.dom());
    assert(now@ =~= model);
    assert forall|b: int| 0 <= b < now.cache@.len() implies placed(
        (#[trigger] now.cache@[b])@,
        b,
        mask,
        now@,
    ) by {
        let old_b = was.cache@[b]@;
        let new_b = now.cache@[b]@;
        assert(placed(old_b, b, mask, was@));
        assert(distinct_keys(old_b));
        assert forall|j: int| 0 <= j < new_b.len() implies bucket_of((#[trigger] new_b[j]).0, mask)
            == b && now@.contains_key(new_b[j].0) && now@[new_b[j].0] == new_b[j].1 by {
            assert(new_b[j].0 == old_b[j].0);
            if b == ix && j != i {
                assert(old_b[j].0 != old_b[i].0);
            }
        }
    }
}

impl<V> IntMap<V> {
    /// The invariant that holds between growth steps, including while the
    /// table is being built up from no buckets at all.
    spec fn inv(&self) -> bool {
        &&& self.cache@.len() == (if self.size == 0 { 0 } else { pow2(self.size as nat) })
        &&& self.mod_mask == (if self.size == 0 { 0 } else { self.cache@.len() - 1 })
        &&& self.count == flattened(self.cache@).len()
        &&& self.count <= usize::MAX / 4
        &&& self.keys@.finite()
        &&& self.keys@.len() == self.count
        &&& self@.dom() == self.keys@
        &&& forall|i: int|
            0 <= i < self.cache@.len() ==> placed(
                (#[trigger] self.cache@[i])@,
                i,
                self.mod_mask,
                self@,
            )
        &&& forall|i: int| 0 <= i < self.cache@.len() ==> distinct_keys((#[trigger] self.cache@[i])@)
        &&& forall|k: u64| #[trigger]
            self@.contains_key(k) ==> bucket_of(k, self.mod_mask) < self.cache@.len() && holds(
                self.cache@[bucket_of(k, self.mod_mask)]@,
                k,
            )
    }

    /// Well-formedness: the table's invariant, with at least four buckets.
    pub closed spec fn wf(&self) -> bool {
        &&& self.inv()
        &&& self.size >= 2
    }

    /// The bucket array.
    pub closed spec fn buckets(&self) -> Seq<Vec<(u64, V)>> {
        self.cache@
    }

    /// The number of entries that the table keeps count of. In a well-formed
    /// table it is the number of entries in the buckets.
    pub closed spec fn stored_count(&self) -> nat {
        self.count as nat
    }

    /// The number of buckets.
    pub open spec fn spec_capacity(&self) -> nat {
        self.buckets().len()
    }

    /// The entries in traversal order: bucket by bucket.
    pub open spec fn entries(&self) -> Seq<(u64, V)> {
        flattened(self.buckets())
    }

    /// The bucket that `key` is stored in.
    fn calc_index(&self, key: u64) -> (ix: usize)
        requires
            self.mod_mask + 1 == self.cache@.len(),
        ensures
            ix == bucket_of(key, self.mod_mask),
            ix < self.cache@.len(),
    {
        let hash = hash_u64(key);
        let masked = hash & self.mod_mask;
        proof {
            lemma_bucket_of_bound(key, self.mod_mask);
            assert(masked <= self.mod_mask);
            assert(self.mod_mask == self.cache.len() - 1);
        }
        masked as usize
    }

    /// Two to the power of the size exponent.
    fn lim(&self) -> (r: usize)
        requires
            pow2(self.size as nat) <= usize::MAX,
        ensures
            r == pow2(self.size as nat),
    {
        proof {
            lemma_exponent_fits(self.size as nat);
            vstd::bits::lemma_usize_shl_is_mul(1usize, self.size as usize);
        }
        1usize << (self.size as usize)
    }

    /// Doubles the number of buckets and moves every entry to the bucket that
    /// its key hashes to under the new mask.
    fn increase_cache(&mut self)
        requires
            old(self).inv(),
            pow2((old(self).size + 1) as nat) <= usize::MAX,
        ensures
            final(self).inv(),
            final(self).size == old(self).size + 1,
            final(self).count == old(self).count,
            final(self)@ == old(self)@,
    {
        proof {
            lemma_exponent_fits((self.size + 1) as nat);
        }
        let ghost old_mask = self.mod_mask;
        let ghost model = self@;
        let ghost keys = self.keys@;
        self.size += 1;
        let new_lim = self.lim();
        proof {
            lemma_pow2_pos(self.size as nat);
        }
        self.mod_mask = (new_lim as u64) - 1;
        let ghost mask = self.mod_mask;

        let mut vec: Vec<Vec<(u64, V)>> = Vec::new();
        vec.append(&mut self.cache);
        assert(vec@ =~= old(self).cache@);

        let mut n: usize = 0;
        while n < new_lim
            invariant
                n <= new_lim,
                self.cache@.len() == n,
                forall|i: int| 0 <= i < n ==> (#[trigger] self.cache@[i])@.len() == 0,
                self.size == old(self).size + 1,
                self.mod_mask == mask,
                self.count == old(self).count,
                self.keys@ == keys,
            decreases new_lim - n,
        {
            self.cache.push(Vec::with_capacity(0));
            n += 1;
        }
        proof {
            lemma_flattened_all_empty(self.cache@);
        }

        while vec.len() > 0
            invariant
                self.size == old(self).size + 1,
                self.mod_mask == mask,
                mask + 1 == new_lim,
                self.count == old(self).count,
                self.keys@ == keys,
                self.cache@.len() == new_lim,
                flattened(vec@).len() + flattened(self.cache@).len() == self.count,
                forall|i: int| 0 <= i < vec@.len() ==> placed((#[trigger] vec@[i])@, i, old_mask, model),
                forall|i: int| 0 <= i < vec@.len() ==> distinct_keys((#[trigger] vec@[i])@),
                forall|i: int|
                    0 <= i < self.cache@.len() ==> placed((#[trigger] self.cache@[i])@, i, mask, model),
                forall|i: int|
                    0 <= i < self.cache@.len() ==> distinct_keys((#[trigger] self.cache@[i])@),
                forall|i: int|
                    0 <= i < self.cache@.len() ==> came_from(
                        (#[trigger] self.cache@[i])@,
                        old_mask,
                        vec@.len() as int,
                    ),
                forall|k: u64| #[trigger]
                    model.contains_key(k) ==> holds(self.cache@[bucket_of(k, mask)]@, k) || (
                    bucket_of(k, old_mask) < vec@.len() && holds(vec@[bucket_of(k, old_mask)]@, k)),
            decreases vec@.len(),
        {
            let ghost before = vec@;
            let mut values = vec.pop().unwrap();
            let ghost cur = vec@.len() as int;
            assert(vec@ =~= before.drop_last());
            assert(values == before[cur]);
            assert(placed(values@, cur, old_mask, model));
            assert forall|i: int| 0 <= i < self.cache@.len() implies apart(
                (#[trigger] self.cache@[i])@,
                values@,
            ) by {
                assert(came_from(self.cache@[i]@, old_mask, cur + 1));
            }
            assert forall|i: int| 0 <= i < vec@.len() implies placed(
                (#[trigger] vec@[i])@,
                i,
                old_mask,
                model,
            ) by {
                assert(vec@[i] == before[i]);
            }
            assert forall|i: int| 0 <= i < vec@.len() implies distinct_keys((#[trigger] vec@[i])@) by {
                assert(vec@[i] == before[i]);
            }
            assert forall|i: int| 0 <= i < self.cache@.len() implies came_from(
                (#[trigger] self.cache@[i])@,
                old_mask,
                cur,
            ) by {
                assert(came_from(self.cache@[i]@, old_mask, cur + 1));
            }

            while values.len() > 0
                invariant
                    self.size == old(self).size + 1,
                    self.mod_mask == mask,
                    mask + 1 == new_lim,
                    self.count == old(self).count,
                    self.keys@ == keys,
                    self.cache@.len() == new_lim,
                    cur == vec@.len(),
                    flattened(vec@).len() + values@.len() + flattened(self.cache@).len()
                        == self.count,
                    placed(values@, cur, old_mask, model),
                    distinct_keys(values@),
                    forall|i: int|
                        0 <= i < vec@.len() ==> placed((#[trigger] vec@[i])@, i, old_mask, model),
                    forall|i: int| 0 <= i < vec@.len() ==> distinct_keys((#[trigger] vec@[i])@),
                    forall|i: int|
                        0 <= i < self.cache@.len() ==> placed(
                            (#[trigger] self.cache@[i])@,
                            i,
                            mask,
                            model,
                        ),
                    forall|i: int|
                        0 <= i < self.cache@.len() ==> distinct_keys((#[trigger] self.cache@[i])@),
                    forall|i: int|
                        0 <= i < self.cache@.len() ==> came_from(
                            (#[trigger] self.cache@[i])@,
                            old_mask,
                            cur,
                        ),
                    forall|i: int|
                        0 <= i < self.cache@.len() ==> apart((#[trigger] self.cache@[i])@, values@),
                    forall|k: u64| #[trigger]
                        model.contains_key(k) ==> holds(self.cache@[bucket_of(k, mask)]@, k) || (
                        bucket_of(k, old_mask) == cur && holds(values@, k)) || (bucket_of(
                            k,
                            old_mask,
                        ) < cur && holds(vec@[bucket_of(k, old_mask)]@, k)),
                decreases values@.len(),
            {
                let ghost pending = values@;
                let ghost filled = self.cache@;
                if let Some(k) = values.pop() {
                    let ix = self.calc_index(k.0);
                    self.cache[ix].push(k);
                    proof {
                        let last = pending.len() - 1;
                        assert(k == pending[last]);
                        assert(values@ =~= pending.drop_last());
                        assert(self.cache@ =~= filled.update(ix as int, self.cache@[ix as int]));
                        assert(self.cache@[ix as int]@ =~= filled[ix as int]@.push(k));
                        lemma_flattened_len_update(filled, ix as int, self.cache@[ix as int]);
                        lemma_moved_one(filled, self.cache@, pending, values@, k, ix as int, cur, old_mask, mask, model);
                        assert forall|key: u64| #[trigger]
                            model.contains_key(key) implies holds(
                            self.cache@[bucket_of(key, mask)]@,
                            key,
                        ) || (bucket_of(key, old_mask) == cur && holds(values@, key)) || (bucket_of(
                            key,
                            old_mask,
                        ) < cur && holds(vec@[bucket_of(key, old_mask)]@, key)) by {
                            lemma_bucket_of_bound(key, mask);
                            let b = bucket_of(key, mask);
                            if holds(filled[b]@, key) {
                                let j = choose|j: int|
                                    0 <= j < filled[b]@.len() && (#[trigger] filled[b]@[j]).0 == key;
                                assert(self.cache@[b]@[j] == filled[b]@[j]);
                            } else if bucket_of(key, old_mask) == cur && holds(pending, key) {
                                let j = choose|j: int|
                                    0 <= j < pending.len() && (#[trigger] pending[j]).0 == key;
                                if j == last {
                                    assert(self.cache@[ix as int]@[filled[ix as int]@.len() as int] == k);
                                } else {
                                    assert(values@[j] == pending[j]);
                                }
                            }
                        }
                    }
                }
            }
        }
        proof {
            assert(flattened(vec@).len() == 0);
            assert forall|k: u64| #[trigger] model.contains_key(k) implies bucket_of(k, mask)
                < self.cache@.len() && self@[k] == model[k] by {
                lemma_bucket_of_bound(k, mask);
                let b = bucket_of(k, mask);
                let j = choose|j: int|
                    0 <= j < self.cache@[b]@.len() && (#[trigger] self.cache@[b]@[j]).0 == k;
                lemma_value_in(self.cache@[b]@, j);
            }
            assert(self@ =~= model);
        }
    }

    /// Doubles the capacity for as long as the entries load it to more than
    /// 70 percent.
    fn ensure_load_rate(&mut self)
        requires
            old(self).wf(),
        ensures
            final(self).wf(),
            final(self)@ == old(self)@,
            final(self).spec_capacity() == settled_capacity(
                old(self)@.len(),
                old(self).spec_capacity(),
            ),
            final(self).spec_capacity() == old(self).spec_capacity() ==> final(self).buckets()
                == old(self).buckets(),
    {
        let ghost target = settled_capacity(self.count as nat, self.cache@.len());
        while (self.count as u128 * 100) / (self.cache.len() as u128) > 70
            invariant
                self.wf(),
                self@ == old(self)@,
                self.count == old(self).count,
                settled_capacity(self.count as nat, self.cache@.len()) == target,
                self.size >= old(self).size,
                self.size == old(self).size ==> self.cache@ == old(self).cache@,
            decreases self.count * 100 - self.cache@.len(),
        {
            proof {
                let c = self.count as int;
                let n = self.cache@.len() as int;
                assert(n > 0);
                assert(c * 100 >= 71 * n) by (nonlinear_arith)
                    requires
                        n > 0,
                        (c * 100) / n > 70,
                ;
                lemma_pow2_unfold((self.size + 1) as nat);
            }
            self.increase_cache();
        }
        proof {
            lemma_pow2_pos(self.size as nat);
            if self.size > old(self).size {
                lemma_pow2_strictly_increases(old(self).size as nat, self.size as nat);
            }
        }
    }

    /// An empty map with four buckets.
    pub fn new() -> (map: Self)
        ensures
            map.wf(),
            map@ == Map::<u64, V>::empty(),
            map.spec_capacity() == 4,
    {
        let map = IntMap::with_capacity(4);
        proof {
            let e = choose|e: nat| map.spec_capacity() == #[trigger] pow2(e);
            lemma2_to64();
            if e < 2 {
                lemma_pow2_strictly_increases(e, 2);
            }
            if e > 3 {
                lemma_pow2_strictly_increases(3, e);
            }
        }
        map
    }

    /// An empty map whose number of buckets is the smallest power of two that
    /// is at least four and at least `capacity`.
    pub fn with_capacity(capacity: usize) -> (map: Self)
        requires
            capacity <= usize::MAX / 2 + 1,
        ensures
            map.wf(),
            map@ == Map::<u64, V>::empty(),
            is_power_of_two(map.spec_capacity() as int),
            map.spec_capacity() >= 4,
            map.spec_capacity() >= capacity,
            map.spec_capacity() == 4 || map.spec_capacity() / 2 < capacity,
    {
        let mut map = IntMap {
            cache: Vec::new(),
            size: 0,
            count: 0,
            mod_mask: 0,
            keys: Ghost(Set::empty()),
        };
        proof {
            lemma2_to64();
            assert(map@ =~= Map::<u64, V>::empty());
            assert(map@.dom() =~= map.keys@);
        }
        map.increase_cache();
        while map.size < 2 || map.lim() < capacity
            invariant
                map.inv(),
                map.size >= 1,
                pow2(map.size as nat) == map.cache.len(),
                map@ == Map::<u64, V>::empty(),
                map.size <= 2 || pow2((map.size - 1) as nat) < capacity,
                capacity <= usize::MAX / 2 + 1,
            decreases usize::MAX - pow2(map.size as nat),
        {
            proof {
                lemma2_to64();
                lemma_pow2_unfold((map.size + 1) as nat);
                if map.size == 1 {
                    assert(pow2(1) == 2);
                }
            }
            map.increase_cache();
        }
        proof {
            lemma2_to64();
            lemma_pow2_unfold(map.size as nat);
            if map.size > 2 {
                lemma_pow2_strictly_increases(2, map.size as nat);
            }
        }
        map
    }

    /// Adds the entry `(key, value)` unless `key` already has one; says
    /// whether it was added. An existing entry is left as it is.
    pub fn insert(&mut self, key: u64, value: V) -> (inserted: bool)
        requires
            old(self).wf(),
            old(self)@.len() < usize::MAX / 4,
        ensures
            final(self).wf(),
            inserted == insert_succeeds(old(self)@, key),
            final(self)@ == after_insert(old(self)@, key, value),
            inserted ==> final(self).spec_capacity() == capacity_after_insert(
                old(self)@.len() + 1,
                old(self).spec_capacity(),
            ),
            inserted && final(self).spec_capacity() == old(self).spec_capacity() ==> appended(
                old(self).buckets(),
                final(self).buckets(),
                bucket_of(key, (old(self).spec_capacity() - 1) as u64),
                (key, value),
            ),
            !inserted ==> *final(self) == *old(self),
    {
        let ix = self.calc_index(key);
        if position(&self.cache[ix], key).is_some() {
            return false;
        }
        let ghost filled = self.cache@;
        let ghost v = value;
        let ghost mask = self.mod_mask;
        self.count += 1;
        self.cache[ix].push((key, value));
        self.keys = Ghost(self.keys@.insert(key));
        proof {
            let before = old(self)@;
            let model = before.insert(key, v);
            assert(self.cache@ =~= filled.update(ix as int, self.cache@[ix as int]));
            assert(self.cache@[ix as int]@ =~= filled[ix as int]@.push((key, v)));
            lemma_flattened_len_update(filled, ix as int, self.cache@[ix as int]);
            assert forall|i: int| 0 <= i < self.cache@.len() implies placed(
                (#[trigger] self.cache@[i])@,
                i,
                mask,
                model,
            ) && distinct_keys(self.cache@[i]@) by {
                let old_b = filled[i]@;
                let new_b = self.cache@[i]@;
                assert(placed(old_b, i, mask, before));
                assert(distinct_keys(old_b));
                assert forall|j: int| 0 <= j < new_b.len() implies bucket_of(
                    (#[trigger] new_b[j]).0,
                    mask,
                ) == i && model.contains_key(new_b[j].0) && model[new_b[j].0] == new_b[j].1 by {
                    if j < old_b.len() {
                        assert(new_b[j] == old_b[j]);
                    }
                }
                if i == ix {
                    assert forall|a: int, b: int|
                        0 <= a < new_b.len() && 0 <= b < new_b.len() && (#[trigger] new_b[a]).0 == (
                        #[trigger] new_b[b]).0 implies a == b by {
                        if a < old_b.len() {
                            assert(new_b[a] == old_b[a]);
                        }
                        if b < old_b.len() {
                            assert(new_b[b] == old_b[b]);
                        }
                    }
                }
            }
            assert forall|k: u64| #[trigger] model.contains_key(k) implies bucket_of(k, mask)
                < self.cache@.len() && holds(self.cache@[bucket_of(k, mask)]@, k) && self@[k]
                == model[k] by {
                lemma_bucket_of_bound(k, mask);
                let b = bucket_of(k, mask);
                if k == key {
                    let j = filled[b]@.len() as int;
                    assert(self.cache@[b]@[j].0 == key);
                    lemma_value_in(self.cache@[b]@, j);
                } else {
                    assert(before.contains_key(k));
                    let j = choose|j: int| 0 <= j < filled[b]@.len() && (#[trigger] filled[b]@[j]).0 == k;
                    assert(self.cache@[b]@[j] == filled[b]@[j]);
                    assert(placed(filled[b]@, b, mask, before));
                    lemma_value_in(self.cache@[b]@, j);
                }
            }
            assert(self@.dom() =~= self.keys@);
            assert(model.dom() =~= before.dom().insert(key));
            assert(self@ =~= model);
        }
        assert(appended(filled, self.cache@, ix as int, (key, v)));
        if (self.count & 4) == 4 {
            self.ensure_load_rate();
        }
        proof {
            let c = self.count;
            assert(((c & 4) == 4) == ((c / 4) % 2 == 1)) by (bit_vector);
        }
        true
    }

    /// Takes the entry of `key` out of the map and returns its value, if
    /// there is one.
    pub fn remove(&mut self, key: u64) -> (r: Option<V>)
        requires
            old(self).wf(),
        ensures
            final(self).wf(),
            r == lookup(old(self)@, key),
            final(self)@ == after_remove(old(self)@, key),
            final(self).spec_capacity() == old(self).spec_capacity(),
            r.is_some() ==> swap_removed(
                old(self).buckets(),
                final(self).buckets(),
                bucket_of(key, (old(self).spec_capacity() - 1) as u64),
                index_of(
                    old(self).buckets()[bucket_of(key, (old(self).spec_capacity() - 1) as u64)]@,
                    key,
                ),
            ),
            r.is_none() ==> *final(self) == *old(self),
    {
        let ix = self.calc_index(key);
        match position(&self.cache[ix], key) {
            Some(i) => {
                let ghost filled = self.cache@;
                let ghost mask = self.mod_mask;
                self.count -= 1;
                let kv = self.cache[ix].swap_remove(i);
                self.keys = Ghost(self.keys@.remove(key));
                proof {
                    let before = old(self)@;
                    let model = before.remove(key);
                    let old_b = filled[ix as int]@;
                    let last = old_b.len() - 1;
                    assert(self.cache@ =~= filled.update(ix as int, self.cache@[ix as int]));
                    lemma_flattened_len_update(filled, ix as int, self.cache@[ix as int]);
                    assert(placed(old_b, ix as int, mask, before));
                    assert(distinct_keys(old_b));
                    let now = lemma_swap_removed(old_b, i as int);
                    lemma_value_in(old_b, i as int);
                    assert(self.cache@[ix as int]@ == now);
                    assert forall|k: u64| #[trigger] model.contains_key(k) implies bucket_of(k, mask)
                        < self.cache@.len() && holds(self.cache@[bucket_of(k, mask)]@, k) && self@[k]
                        == model[k] by {
                        let b = bucket_of(k, mask);
                        assert(before.contains_key(k));
                        assert(placed(filled[b]@, b, mask, before));
                        assert(distinct_keys(filled[b]@));
                        let j = choose|j: int|
                            0 <= j < filled[b]@.len() && (#[trigger] filled[b]@[j]).0 == k;
                        if b == ix {
                            assert(holds(now, old_b[j].0) && value_in(now, old_b[j].0) == old_b[j].1);
                        } else {
                            assert(self.cache@[b] == filled[b]);
                            lemma_value_in(filled[b]@, j);
                        }
                    }
                    assert(self@ =~= model);
                    assert forall|b: int| 0 <= b < self.cache@.len() implies placed(
                        (#[trigger] self.cache@[b])@,
                        b,
                        mask,
                        self@,
                    ) && distinct_keys(self.cache@[b]@) by {
                        assert(placed(filled[b]@, b, mask, before));
                        assert(distinct_keys(filled[b]@));
                        if b == ix {
                            assert forall|j: int| 0 <= j < now.len() implies bucket_of(
                                (#[trigger] now[j]).0,
                                mask,
                            ) == b && self@.contains_key(now[j].0) && self@[now[j].0] == now[j].1 by {
                                let q = if j == i {
                                    last
                                } else {
                                    j
                                };
                                assert(now[j] == old_b[q]);
                            }
                        } else {
                            assert(self.cache@[b] == filled[b]);
                        }
                    }
                }
                Some(kv.1)
            },
            None => {
                proof {
                    assert(self@.remove(key) =~= self@);
                }
                None
            },
        }
    }

    /// Empties every bucket; the capacity stays.
    pub fn clear(&mut self)
        requires
            old(self).wf(),
        ensures
            final(self).wf(),
            final(self)@ == Map::<u64, V>::empty(),
            final(self)@.len() == 0,
            forall|key: u64| lookup(final(self)@, key) == None::<V>,
            final(self).spec_capacity() == old(self).spec_capacity(),
            forall|b: int|
                0 <= b < final(self).spec_capacity() ==> (#[trigger] final(self).buckets()[b])@.len()
                    == 0,
    {
        let mut i: usize = 0;
        while i < self.cache.len()
            invariant
                i <= self.cache@.len(),
                self.cache@.len() == old(self).cache@.len(),
                self.size == old(self).size,
                self.mod_mask == old(self).mod_mask,
                forall|j: int| 0 <= j < i ==> (#[trigger] self.cache@[j])@.len() == 0,
            decreases self.cache@.len() - i,
        {
            self.cache[i].clear();
            i += 1;
        }
        self.count = 0;
        self.keys = Ghost(Set::empty());
        proof {
            lemma_flattened_all_empty(self.cache@);
            assert(self@ =~= Map::<u64, V>::empty());
        }
    }

    /// The number of buckets of a well-formed table is a power of two, and
    /// at least four.
    pub proof fn lemma_capacity_shape(&self)
        requires
            self.wf(),
        ensures
            self.spec_capacity() >= 4,
            is_power_of_two(self.spec_capacity() as int),
    {
        lemma2_to64();
        if self.size > 2 {
            lemma_pow2_strictly_increases(2, self.size as nat);
        }
    }

    /// Every entry of bucket `b` is a pair of the map whose key hashes to
    /// `b`, and no two entries of a bucket share a key.
    pub proof fn lemma_bucket_layout(&self, b: int)
        requires
            self.wf(),
            0 <= b < self.spec_capacity(),
        ensures
            placed(self.buckets()[b]@, b, (self.spec_capacity() - 1) as u64, self@),
            distinct_keys(self.buckets()[b]@),
    {
        lemma_pow2_pos(self.size as nat);
    }

    /// A traversal is complete: the entries in traversal order are as many as
    /// the map has keys, each is a pair of the map, no key comes twice, and
    /// every pair of the map is among them.
    pub proof fn lemma_entries_complete(&self)
        requires
            self.wf(),
        ensures
            self@.dom().finite(),
            self.entries().len() == self@.len(),
            self.stored_count() == self@.len(),
            forall|n: int|
                0 <= n < self.entries().len() ==> self@.contains_key(
                    (#[trigger] self.entries()[n]).0,
                ) && self@[self.entries()[n].0] == self.entries()[n].1,
            forall|n: int, m: int|
                0 <= n < self.entries().len() && 0 <= m < self.entries().len() && (
                #[trigger] self.entries()[n]).0 == (#[trigger] self.entries()[m]).0 ==> n == m,
            forall|k: u64| #[trigger]
                self@.contains_key(k) ==> exists|n: int|
                    0 <= n < self.entries().len() && #[trigger] self.entries()[n] == (k, self@[k]),
    {
        let all = self.entries();
        let mask = self.mod_mask;
        assert forall|n: int| 0 <= n < all.len() implies self@.contains_key((#[trigger] all[n]).0)
            && self@[all[n].0] == all[n].1 by {
            let at = lemma_flattened_locate(self.cache@, n);
            assert(placed(self.cache@[at.0]@, at.0, mask, self@));
        }
        assert forall|n: int, m: int|
            0 <= n < all.len() && 0 <= m < all.len() && (#[trigger] all[n]).0 == (#[trigger] all[m]).0
            implies n == m by {
            let a = lemma_flattened_locate(self.cache@, n);
            let b = lemma_flattened_locate(self.cache@, m);
            assert(placed(self.cache@[a.0]@, a.0, mask, self@));
            assert(placed(self.cache@[b.0]@, b.0, mask, self@));
            assert(distinct_keys(self.cache@[a.0]@));
        }
        assert forall|k: u64| #[trigger] self@.contains_key(k) implies exists|n: int|
            0 <= n < all.len() && #[trigger] all[n] == (k, self@[k]) by {
            let b = bucket_of(k, mask);
            let j = choose|j: int|
                0 <= j < self.cache@[b]@.len() && (#[trigger] self.cache@[b]@[j]).0 == k;
            assert(placed(self.cache@[b]@, b, mask, self@));
            lemma_flattened_at(self.cache@, b, j);
            assert(all[offset_of(self.cache@, b, j)] == (k, self@[k]));
        }
    }

    /// A traversal of all entries, bucket by bucket.
    pub fn iter(&self) -> (it: Iter<'_, u64, V>)
        ensures
            it.wf(),
            it.source() == self.buckets(),
            it.passed() == 0,
    {
        Iter::new(&self.cache)
    }

    /// Gives the table up for a traversal that hands out its entries.
    pub fn into_iter(self) -> (it: IntoIter<u64, V>)
        ensures
            it.remaining() == self.entries(),
    {
        IntoIter::new(self.cache)
    }

    /// Whether the table has the size, the count and the keys of `other`.
    pub closed spec fn framed_like(&self, other: &Self) -> bool {
        &&& self.size == other.size
        &&& self.mod_mask == other.mod_mask
        &&& self.count == other.count
        &&& self.keys@ == other.keys@
    }

    /// A traversal of all entries that lets the values be changed. Once it
    /// is given up, the table has the bucket array that the traversal left.
    pub fn iter_mut(&mut self) -> (it: IterMut<'_, u64, V>)
        requires
            old(self).wf(),
        ensures
            it.wf(),
            it.source() == old(self).buckets(),
            it.passed() == 0,
            final(self).buckets() == (*final(it.buckets))@,
            final(self).framed_like(old(self)),
    {
        IterMut::new(&mut self.cache)
    }

    /// A table whose values were changed in place is well-formed and has the
    /// keys that it had; its entries hold the values of its map.
    pub proof fn lemma_values_changed(was: &Self, now: &Self)
        requires
            was.wf(),
            now.framed_like(was),
            same_keys(was.buckets(), now.buckets()),
        ensures
            now.wf(),
            now@.dom() == was@.dom(),
            now.spec_capacity() == was.spec_capacity(),
    {
        let mask = was.mod_mask;
        lemma_same_keys_len(was.cache@, now.cache@);
        assert(now@.dom() =~= now.keys@);
        assert forall|b: int| 0 <= b < now.cache@.len() implies distinct_keys(
            (#[trigger] now.cache@[b])@,
        ) by {
            let old_b = was.cache@[b]@;
            let new_b = now.cache@[b]@;
            assert(distinct_keys(old_b));
            assert forall|p: int, q: int|
                0 <= p < new_b.len() && 0 <= q < new_b.len() && (#[trigger] new_b[p]).0 == (
                #[trigger] new_b[q]).0 implies p == q by {
                assert(now.cache@[b]@[p].0 == old_b[p].0);
                assert(now.cache@[b]@[q].0 == old_b[q].0);
            }
        }
        assert forall|k: u64| #[trigger] now@.contains_key(k) implies bucket_of(k, mask)
            < now.cache@.len() && holds(now.cache@[bucket_of(k, mask)]@, k) by {
            let b = bucket_of(k, mask);
            assert(was@.contains_key(k));
            let j = choose|j: int|
                0 <= j < was.cache@[b]@.len() && (#[trigger] was.cache@[b]@[j]).0 == k;
            assert(now.cache@[b]@[j].0 == k);
        }
        assert forall|b: int| 0 <= b < now.cache@.len() implies placed(
            (#[trigger] now.cache@[b])@,
            b,
            mask,
            now@,
        ) by {
            let old_b = was.cache@[b]@;
            let new_b = now.cache@[b]@;
            assert(placed(old_b, b, mask, was@));
            assert forall|j: int| 0 <= j < new_b.len() implies bucket_of((#[trigger] new_b[j]).0, mask)
                == b && now@.contains_key(new_b[j].0) && now@[new_b[j].0] == new_b[j].1 by {
                assert(now.cache@[b]@[j].0 == old_b[j].0);
                lemma_value_in(new_b, j);
            }
        }
    }

    /// A traversal of all keys, in the order of `iter`.
    pub fn keys(&mut self) -> (it: Keys<'_, u64, V>)
        ensures
            *final(self) == *old(self),
            it.entries().wf(),
            it.entries().source() == old(self).buckets(),
            it.entries().passed() == 0,
    {
        Keys::new(self.iter())
    }

    /// A traversal of all values, in the order of `iter`.
    pub fn values(&mut self) -> (it: Values<'_, u64, V>)
        ensures
            *final(self) == *old(self),
            it.entries().wf(),
            it.entries().source() == old(self).buckets(),
            it.entries().passed() == 0,
    {
        Values::new(self.iter())
    }

    /// The number of buckets that hold at least one entry.
    pub fn load(&self) -> (n: u64)
        ensures
            n == occupied(self.buckets()),
    {
        let mut count: u64 = 0;
        let mut i: usize = 0;
        while i < self.cache.len()
            invariant
                i <= self.cache@.len(),
                count == occupied(self.cache@.take(i as int)),
                count <= i,
            decreases self.cache@.len() - i,
        {
            proof {
                assert(self.cache@.take(i + 1).drop_last() =~= self.cache@.take(i as int));
            }
            if self.cache[i].len() > 0 {
                count += 1;
            }
            i += 1;
        }
        proof {
            assert(self.cache@.take(i as int) =~= self.cache@);
        }
        count
    }

    /// Counts the entries bucket by bucket and says whether the stored count
    /// agrees. This is a self-check that may be made of any table, whatever
    /// state it is in; of a well-formed table it is always `true`.
    pub fn assert_count(&self) -> (ok: bool)
        ensures
            ok == (self.stored_count() == self.entries().len()),
            self.wf() ==> ok,
    {
        let mut count: u128 = 0;
        let mut i: usize = 0;
        while i < self.cache.len()
            invariant
                i <= self.cache@.len(),
                count == flattened(self.cache@.take(i as int)).len(),
                count <= i * 0xffff_ffff_ffff_ffff,
            decreases self.cache@.len() - i,
        {
            proof {
                assert(self.cache@.take(i + 1).drop_last() =~= self.cache@.take(i as int));
            }
            count += self.cache[i].len() as u128;
            i += 1;
        }
        proof {
            assert(self.cache@.take(i as int) =~= self.cache@);
        }
        self.count as u128 == count
    }

    /// A histogram of the chains longer than one entry: under each such
    /// length, the number of buckets that hold exactly that many entries.
    pub fn collisions(&self) -> (hist: IntMap<u64>)
        requires
            self.wf(),
        ensures
            hist.wf(),
            forall|len: u64|
                hist@.contains_key(len) <==> len > 1 && #[trigger] chains_of_length(
                    self.buckets(),
                    len as nat,
                ) > 0,
            forall|len: u64|
                hist@.contains_key(len) ==> hist@[len] == #[trigger] chains_of_length(
                    self.buckets(),
                    len as nat,
                ),
    {
        let mut map: IntMap<u64> = IntMap::new();
        let mut i: usize = 0;
        while i < self.cache.len()
            invariant
                i <= self.cache@.len(),
                map.wf(),
                self.count == flattened(self.cache@).len(),
                self.count <= usize::MAX / 4,
                map@.dom().finite(),
                2 * map@.len() <= flattened(self.cache@.take(i as int)).len(),
                forall|len: u64|
                    map@.contains_key(len) <==> len > 1 && #[trigger] chains_of_length(
                        self.cache@.take(i as int),
                        len as nat,
                    ) > 0,
                forall|len: u64|
                    map@.contains_key(len) ==> map@[len] == #[trigger] chains_of_length(
                        self.cache@.take(i as int),
                        len as nat,
                    ),
            decreases self.cache@.len() - i,
        {
            let key = self.cache[i].len() as u64;
            proof {
                assert(self.cache@.take(i + 1).drop_last() =~= self.cache@.take(i as int));
                lemma_flattened_take(self.cache@, i + 1);
                lemma_chains_of_length_bound(self.cache@.take(i as int), key as nat);
            }
            let ghost before = map@;
            if key > 1 {
                if !map.contains_key(key) {
                    map.insert(key, 1);
                } else {
                    let counter = map.get_mut(key).unwrap();
                    *counter += 1;
                }
            }
            proof {
                let prev = self.cache@.take(i as int);
                let next = self.cache@.take(i + 1);
                assert forall|len: u64|
                    (map@.contains_key(len) <==> len > 1 && #[trigger] chains_of_length(
                        next,
                        len as nat,
                    ) > 0) && (map@.contains_key(len) ==> map@[len] == chains_of_length(
                        next,
                        len as nat,
                    )) by {
                    assert(chains_of_length(next, len as nat) == chains_of_length(prev, len as nat)
                        + (if key == len {
                        1nat
                    } else {
                        0nat
                    }));
                    assert(before.contains_key(len) <==> len > 1 && chains_of_length(
                        prev,
                        len as nat,
                    ) > 0);
                }
            }
            i += 1;
        }
        proof {
            assert(self.cache@.take(i as int) =~= self.cache@);
        }
        map
    }

    /// The number of entries.
    pub fn len(&self) -> (n: usize)
        requires
            self.wf(),
        ensures
            n == self@.len(),
            n <= usize::MAX / 4,
    {
        self.count
    }

    /// Whether the map has no entries.
    pub fn is_empty(&mut self) -> (r: bool)
        requires
            old(self).wf(),
        ensures
            *final(self) == *old(self),
            r == (old(self)@.len() == 0),
    {
        self.count == 0
    }

    /// The number of buckets: a power of two, and at least four.
    pub fn capacity(&self) -> (c: usize)
        requires
            self.wf(),
        ensures
            c == self.spec_capacity(),
            c >= 4,
            is_power_of_two(c as int),
    {
        proof {
            lemma2_to64();
            if self.size > 2 {
                lemma_pow2_strictly_increases(2, self.size as nat);
            }
        }
        self.cache.len()
    }

    /// The value stored under `key`, if there is one.
    pub fn get(&self, key: u64) -> (r: Option<&V>)
        requires
            self.wf(),
        ensures
            lookup(self@, key) == (match r {
                Some(v) => Some(*v),
                None => None,
            }),
    {
        let ix = self.calc_index(key);
        let vals = &self.cache[ix];
        match position(vals, key) {
            Some(i) => Some(&vals[i].1),
            None => None,
        }
    }

    /// A mutable reference to the value stored under `key`, if there is one.
    /// Writing through it replaces that value and changes nothing else.
    pub fn get_mut(&mut self, key: u64) -> (r: Option<&mut V>)
        requires
            old(self).wf(),
        ensures
            r.is_some() == old(self)@.contains_key(key),
            match r {
                Some(v) => {
                    &&& *v == old(self)@[key]
                    &&& final(self).wf()
                    &&& final(self)@ == old(self)@.insert(key, *final(v))
                    &&& value_set(
                        old(self).buckets(),
                        final(self).buckets(),
                        bucket_of(key, (old(self).spec_capacity() - 1) as u64),
                        index_of(
                            old(self).buckets()[bucket_of(
                                key,
                                (old(self).spec_capacity() - 1) as u64,
                            )]@,
                            key,
                        ),
                        *final(v),
                    )
                },
                None => *final(self) == *old(self),
            },
    {
        let ix = self.calc_index(key);
        match position(&self.cache[ix], key) {
            Some(i) => {
                let ghost was = *self;
                let ghost now = *final(self);
                let slot = &mut self.cache[ix][i].1;
                proof {
                    assert(now.cache@.len() == was.cache@.len());
                    assert(now.cache@[ix as int]@ =~= was.cache@[ix as int]@.update(
                        i as int,
                        (key, *final(slot)),
                    ));
                    lemma_value_replaced(was, now, ix as int, i as int, key, *final(slot));
                    lemma_value_in(was.cache@[ix as int]@, i as int);
                }
                Some(slot)
            },
            None => None,
        }
    }

    /// Whether `key` has an entry.
    pub fn contains_key(&self, key: u64) -> (r: bool)
        requires
            self.wf(),
        ensures
            r == self@.contains_key(key),
    {
        match self.get(key) {
            Some(_) => true,
            None => false,
        }
    }
}

} // verus!
