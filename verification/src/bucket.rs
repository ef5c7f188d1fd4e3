//! Buckets: what it means for a bucket to hold a key, to be free of repeated
//! keys and to lie at the right place of a table, and how single steps on a
//! bucket keep these.

use crate::hash::bucket_of;
use vstd::prelude::*;

verus! {

/// Whether some entry of `bucket` has the key `key`.
pub open spec fn holds<V>(bucket: Seq<(u64, V)>, key: u64) -> bool {
    exists|j: int| 0 <= j < bucket.len() && (#[trigger] bucket[j]).0 == key
}

/// The position of an entry of `bucket` that has the key `key`.
pub open spec fn index_of<V>(bucket: Seq<(u64, V)>, key: u64) -> int {
    choose|j: int| 0 <= j < bucket.len() && (#[trigger] bucket[j]).0 == key
}

/// The value of an entry of `bucket` that has the key `key`.
pub open spec fn value_in<V>(bucket: Seq<(u64, V)>, key: u64) -> V {
    bucket[index_of(bucket, key)].1
}

/// Whether `after` is `before` with `entry` appended to bucket `b`.
pub open spec fn appended<V>(
    before: Seq<Vec<(u64, V)>>,
    after: Seq<Vec<(u64, V)>>,
    b: int,
    entry: (u64, V),
) -> bool {
    &&& 0 <= b < before.len()
    &&& after.len() == before.len()
    &&& forall|i: int| 0 <= i < before.len() && i != b ==> #[trigger] after[i] == before[i]
    &&& after[b]@ == before[b]@.push(entry)
}

/// Whether `after` is `before` with entry `p` of bucket `b` overwritten by
/// the last entry of that bucket, and the last entry dropped.
pub open spec fn swap_removed<V>(
    before: Seq<Vec<(u64, V)>>,
    after: Seq<Vec<(u64, V)>>,
    b: int,
    p: int,
) -> bool {
    &&& 0 <= b < before.len()
    &&& 0 <= p < before[b]@.len()
    &&& after.len() == before.len()
    &&& forall|i: int| 0 <= i < before.len() && i != b ==> #[trigger] after[i] == before[i]
    &&& after[b]@ == before[b]@.update(p, before[b]@.last()).drop_last()
}

/// In a bucket without repeated keys, the value found for the key of an
/// entry is that entry's value.
pub proof fn lemma_value_in<V>(bucket: Seq<(u64, V)>, j: int)
    requires
        distinct_keys(bucket),
        0 <= j < bucket.len(),
    ensures
        index_of(bucket, bucket[j].0) == j,
        value_in(bucket, bucket[j].0) == bucket[j].1,
{
    let c = index_of(bucket, bucket[j].0);
    assert(bucket[c].0 == bucket[j].0);
}

/// Whether no two entries of `bucket` share a key.
pub open spec fn distinct_keys<V>(bucket: Seq<(u64, V)>) -> bool {
    forall|a: int, b: int|
        0 <= a < bucket.len() && 0 <= b < bucket.len() && (#[trigger] bucket[a]).0 == (
        #[trigger] bucket[b]).0 ==> a == b
}

/// Whether every entry of `bucket` is a pair of `model` whose key hashes to bucket `at`.
pub open spec fn placed<V>(bucket: Seq<(u64, V)>, at: int, mask: u64, model: Map<u64, V>) -> bool {
    forall|j: int|
        0 <= j < bucket.len() ==> {
            &&& bucket_of((#[trigger] bucket[j]).0, mask) == at
            &&& model.contains_key(bucket[j].0)
            &&& model[bucket[j].0] == bucket[j].1
        }
}

/// Whether every key of `bucket` hashed, under `mask`, to bucket `done` or a later one.
pub open spec fn came_from<V>(bucket: Seq<(u64, V)>, mask: u64, done: int) -> bool {
    forall|j: int| 0 <= j < bucket.len() ==> bucket_of((#[trigger] bucket[j]).0, mask) >= done
}

/// Whether no key of `bucket` has an entry in `other`.
pub open spec fn apart<V>(bucket: Seq<(u64, V)>, other: Seq<(u64, V)>) -> bool {
    forall|j: int| 0 <= j < bucket.len() ==> !holds(other, (#[trigger] bucket[j]).0)
}

/// The position of `key` in `bucket`, if it has an entry there.
pub fn position<V>(bucket: &Vec<(u64, V)>, key: u64) -> (r: Option<usize>)
    ensures
        match r {
            Some(i) => i < bucket@.len() && bucket@[i as int].0 == key,
            None => !holds(bucket@, key),
        },
{
    let mut i: usize = 0;
    while i < bucket.len()
        invariant
            i <= bucket@.len(),
            forall|j: int| 0 <= j < i ==> (#[trigger] bucket@[j]).0 != key,
        decreases bucket@.len() - i,
    {
        if bucket[i].0 == key {
            return Some(i);
        }
        i += 1;
    }
    None
}

/// Moving the last entry of `pending` to the end of bucket `ix` keeps every
/// bucket placed, free of repeated keys, and apart from what is still pending.
pub proof fn lemma_moved_one<V>(
    filled: Seq<Vec<(u64, V)>>,
    after: Seq<Vec<(u64, V)>>,
    pending: Seq<(u64, V)>,
    rest: Seq<(u64, V)>,
    k: (u64, V),
    ix: int,
    cur: int,
    old_mask: u64,
    mask: u64,
    model: Map<u64, V>,
)
    requires
        0 <= ix < filled.len(),
        after.len() == filled.len(),
        forall|i: int| 0 <= i < filled.len() && i != ix ==> #[trigger] after[i] == filled[i],
        after[ix]@ == filled[ix]@.push(k),
        pending.len() > 0,
        k == pending.last(),
        rest == pending.drop_last(),
        ix == bucket_of(k.0, mask),
        placed(pending, cur, old_mask, model),
        distinct_keys(pending),
        forall|i: int| 0 <= i < filled.len() ==> placed((#[trigger] filled[i])@, i, mask, model),
        forall|i: int| 0 <= i < filled.len() ==> distinct_keys((#[trigger] filled[i])@),
        forall|i: int| 0 <= i < filled.len() ==> came_from((#[trigger] filled[i])@, old_mask, cur),
        forall|i: int| 0 <= i < filled.len() ==> apart((#[trigger] filled[i])@, pending),
    ensures
        placed(rest, cur, old_mask, model),
        distinct_keys(rest),
        forall|i: int| 0 <= i < after.len() ==> placed((#[trigger] after[i])@, i, mask, model),
        forall|i: int| 0 <= i < after.len() ==> distinct_keys((#[trigger] after[i])@),
        forall|i: int| 0 <= i < after.len() ==> came_from((#[trigger] after[i])@, old_mask, cur),
        forall|i: int| 0 <= i < after.len() ==> apart((#[trigger] after[i])@, rest),
{
    let last = pending.len() - 1;
    assert(pending[last] == k);
    assert forall|j: int| 0 <= j < rest.len() implies rest[j] == pending[j] by {}
    assert(placed(rest, cur, old_mask, model)) by {
        assert forall|j: int| 0 <= j < rest.len() implies bucket_of((#[trigger] rest[j]).0, old_mask)
            == cur && model.contains_key(rest[j].0) && model[rest[j].0] == rest[j].1 by {
            assert(rest[j] == pending[j]);
        }
    }
    assert(distinct_keys(rest)) by {
        assert forall|a: int, b: int|
            0 <= a < rest.len() && 0 <= b < rest.len() && (#[trigger] rest[a]).0 == (
            #[trigger] rest[b]).0 implies a == b by {
            assert(rest[a] == pending[a]);
            assert(rest[b] == pending[b]);
        }
    }
    assert forall|i: int| 0 <= i < after.len() implies placed((#[trigger] after[i])@, i, mask, model)
        && distinct_keys(after[i]@) && came_from(after[i]@, old_mask, cur) && apart(
        after[i]@,
        rest,
    ) by {
        let old_b = filled[i]@;
        let new_b = after[i]@;
        assert(placed(old_b, i, mask, model));
        assert(distinct_keys(old_b));
        assert(came_from(old_b, old_mask, cur));
        assert(apart(old_b, pending));
        assert forall|j: int| 0 <= j < new_b.len() implies !holds(rest, (#[trigger] new_b[j]).0) by {
            if holds(rest, new_b[j].0) {
                let r = choose|r: int| 0 <= r < rest.len() && (#[trigger] rest[r]).0 == new_b[j].0;
                assert(rest[r] == pending[r]);
                if i == ix && j == old_b.len() {
                    assert(pending[r].0 == pending[last].0);
                } else {
                    assert(new_b[j] == old_b[j]);
                    assert(!holds(pending, old_b[j].0));
                }
            }
        }
        if i == ix {
            assert forall|a: int, b: int|
                0 <= a < new_b.len() && 0 <= b < new_b.len() && (#[trigger] new_b[a]).0 == (
                #[trigger] new_b[b]).0 implies a == b by {
                if a < old_b.len() && b < old_b.len() {
                    assert(new_b[a] == old_b[a]);
                    assert(new_b[b] == old_b[b]);
                } else if a < old_b.len() {
                    assert(new_b[a] == old_b[a]);
                    assert(!holds(pending, old_b[a].0));
                } else if b < old_b.len() {
                    assert(new_b[b] == old_b[b]);
                    assert(!holds(pending, old_b[b].0));
                }
            }
            assert forall|j: int| 0 <= j < new_b.len() implies bucket_of(
                (#[trigger] new_b[j]).0,
                mask,
            ) == i && model.contains_key(new_b[j].0) && model[new_b[j].0] == new_b[j].1
                && bucket_of(new_b[j].0, old_mask) >= cur by {
                if j < old_b.len() {
                    assert(new_b[j] == old_b[j]);
                }
            }
        }
    }
}

/// What is left of a bucket without repeated keys when entry `i` is
/// overwritten by the last entry and the last entry is dropped: every other
/// entry, still without repeated keys, and none with the key of entry `i`.
pub proof fn lemma_swap_removed<V>(was: Seq<(u64, V)>, i: int) -> (now: Seq<(u64, V)>)
    requires
        distinct_keys(was),
        0 <= i < was.len(),
    ensures
        now == was.update(i, was.last()).drop_last(),
        distinct_keys(now),
        !holds(now, was[i].0),
        forall|j: int|
            0 <= j < now.len() ==> #[trigger] now[j] == was[if j == i {
                was.len() - 1
            } else {
                j
            }],
        forall|q: int|
            0 <= q < was.len() && q != i ==> holds(now, (#[trigger] was[q]).0) && value_in(
                now,
                was[q].0,
            ) == was[q].1,
{
    let now = was.update(i, was.last()).drop_last();
    let last = was.len() - 1;
    assert forall|j: int| 0 <= j < now.len() implies #[trigger] now[j] == was[if j == i {
        last
    } else {
        j
    }] by {}
    assert forall|a: int, b: int|
        0 <= a < now.len() && 0 <= b < now.len() && (#[trigger] now[a]).0 == (#[trigger] now[b]).0
        implies a == b by {
        let sa = if a == i { last } else { a };
        let sb = if b == i { last } else { b };
        assert(now[a] == was[sa]);
        assert(now[b] == was[sb]);
        assert(was[sa].0 == was[sb].0);
    }
    assert(!holds(now, was[i].0)) by {
        if holds(now, was[i].0) {
            let j = choose|j: int| 0 <= j < now.len() && (#[trigger] now[j]).0 == was[i].0;
            let sj = if j == i { last } else { j };
            assert(now[j] == was[sj]);
            assert(was[sj].0 == was[i].0);
        }
    }
    assert forall|q: int| 0 <= q < was.len() && q != i implies holds(now, (#[trigger] was[q]).0)
        && value_in(now, was[q].0) == was[q].1 by {
        let at = if q == last { i } else { q };
        assert(now[at] == was[q]);
        lemma_value_in(now, at);
    }
    now
}

} // verus!
