//! Traversal of a bucket array with write access to the values.

use crate::iter::{flattened, lemma_flattened_at, offset_of};
use vstd::prelude::*;

verus! {

/// A traversal of a bucket array that lets the values be changed.
pub struct IterMut<'a, K, V> {
    /// The bucket array that is traversed.
    pub buckets: &'a mut Vec<Vec<(K, V)>>,
    /// The bucket that the traversal is in.
    pub outer: usize,
    /// The number of entries of that bucket that the traversal has passed.
    pub inner: usize,
}

/// Whether `after` is `before` with the value of entry `p` of bucket `b` replaced by `value`.
pub open spec fn value_set<K, V>(
    before: Seq<Vec<(K, V)>>,
    after: Seq<Vec<(K, V)>>,
    b: int,
    p: int,
    value: V,
) -> bool {
    &&& 0 <= b < before.len()
    &&& 0 <= p < before[b]@.len()
    &&& after.len() == before.len()
    &&& forall|i: int| 0 <= i < before.len() && i != b ==> #[trigger] after[i] == before[i]
    &&& after[b]@ == before[b]@.update(p, (before[b]@[p].0, value))
}

/// Whether two bucket arrays hold the same keys at the same places.
pub open spec fn same_keys<K, V>(before: Seq<Vec<(K, V)>>, after: Seq<Vec<(K, V)>>) -> bool {
    &&& after.len() == before.len()
    &&& forall|i: int| 0 <= i < before.len() ==> (#[trigger] after[i])@.len() == before[i]@.len()
    &&& forall|i: int, j: int|
        0 <= i < before.len() && 0 <= j < before[i]@.len() ==> (#[trigger] after[i]@[j]).0
            == before[i]@[j].0
}

/// Bucket arrays with the same keys at the same places have equally many entries.
pub proof fn lemma_same_keys_len<K, V>(before: Seq<Vec<(K, V)>>, after: Seq<Vec<(K, V)>>)
    requires
        same_keys(before, after),
    ensures
        flattened(after).len() == flattened(before).len(),
    decreases before.len(),
{
    if before.len() > 0 {
        assert(after.last()@.len() == before.last()@.len());
        assert forall|i: int, j: int|
            0 <= i < before.drop_last().len() && 0 <= j < before.drop_last()[i]@.len() implies (
        #[trigger] after.drop_last()[i]@[j]).0 == before.drop_last()[i]@[j].0 by {
            assert(after[i]@[j].0 == before[i]@[j].0);
        }
        assert forall|i: int| 0 <= i < before.drop_last().len() implies (
        #[trigger] after.drop_last()[i])@.len() == before.drop_last()[i]@.len() by {
            assert(after[i]@.len() == before[i]@.len());
        }
        lemma_same_keys_len(before.drop_last(), after.drop_last());
    }
}

/// Replacing the value of entry `p` of bucket `b` replaces the value of the
/// entry at `offset_of(before, b, p)` in traversal order, and nothing else.
pub proof fn lemma_value_set_flattened<K, V>(
    before: Seq<Vec<(K, V)>>,
    after: Seq<Vec<(K, V)>>,
    b: int,
    p: int,
    value: V,
)
    requires
        value_set(before, after, b, p, value),
    ensures
        0 <= offset_of(before, b, p) < flattened(before).len(),
        flattened(after) == flattened(before).update(
            offset_of(before, b, p),
            (before[b]@[p].0, value),
        ),
    decreases before.len(),
{
    lemma_flattened_at(before, b, p);
    if b == before.len() - 1 {
        assert(before.take(b) =~= before.drop_last());
        assert(after.drop_last() =~= before.drop_last());
        assert(flattened(after) =~= flattened(before).update(
            offset_of(before, b, p),
            (before[b]@[p].0, value),
        ));
    } else {
        assert(before.drop_last().take(b) =~= before.take(b));
        assert(after.last() == before.last());
        assert(value_set(before.drop_last(), after.drop_last(), b, p, value));
        lemma_value_set_flattened(before.drop_last(), after.drop_last(), b, p, value);
        lemma_flattened_at(before.drop_last(), b, p);
        assert(flattened(after) =~= flattened(before).update(
            offset_of(before, b, p),
            (before[b]@[p].0, value),
        ));
    }
}

impl<'a, K, V> IterMut<'a, K, V> {
    /// The bucket array as it stands.
    pub open spec fn source(&self) -> Seq<Vec<(K, V)>> {
        (*self.buckets)@
    }

    /// The number of entries that the traversal has passed.
    pub open spec fn passed(&self) -> int {
        offset_of(self.source(), self.outer as int, self.inner as int)
    }

    /// All entries of the bucket array as it stands, in traversal order.
    pub open spec fn all(&self) -> Seq<(K, V)> {
        flattened(self.source())
    }

    /// Well-formedness: the cursor lies within the bucket array.
    pub open spec fn wf(&self) -> bool {
        &&& self.outer <= self.source().len()
        &&& if self.outer < self.source().len() {
            self.inner <= self.source()[self.outer as int]@.len()
        } else {
            self.inner == 0
        }
    }

    /// A traversal of `vec` that has yielded nothing yet.
    pub fn new(vec: &'a mut Vec<Vec<(K, V)>>) -> (it: Self)
        ensures
            it.wf(),
            it.source() == old(vec)@,
            *final(it.buckets) == *final(vec),
            it.passed() == 0,
    {
        proof {
            assert(vec@.take(0) =~= Seq::<Vec<(K, V)>>::empty());
        }
        IterMut { buckets: vec, outer: 0, inner: 0 }
    }

    /// Yields the next entry, or `None` once every entry has been yielded.
    /// Writing through the yielded reference replaces that entry's value
    /// and changes nothing else.
    pub fn next(&mut self) -> (r: Option<(&K, &mut V)>)
        requires
            old(self).wf(),
        ensures
            final(self).wf(),
            *final(final(self).buckets) == *final(old(self).buckets),
            match r {
                Some((k, v)) => {
                    &&& 0 <= old(self).passed() < old(self).all().len()
                    &&& (*k, *v) == old(self).all()[old(self).passed()]
                    &&& final(self).passed() == old(self).passed() + 1
                    &&& final(self).all() == old(self).all().update(
                        old(self).passed(),
                        (*k, *final(v)),
                    )
                    &&& offset_of(old(self).source(), final(self).outer as int, final(self).inner - 1)
                        == old(self).passed()
                    &&& value_set(
                        old(self).source(),
                        final(self).source(),
                        final(self).outer as int,
                        final(self).inner - 1,
                        *final(v),
                    )
                },
                None => {
                    &&& old(self).passed() == old(self).all().len()
                    &&& final(self).passed() == old(self).passed()
                    &&& final(self).source() == old(self).source()
                },
            },
    {
        loop
            invariant
                self.wf(),
                self.source() == old(self).source(),
                self.passed() == old(self).passed(),
                *final(self.buckets) == *final(old(self).buckets),
            decreases self.source().len() - self.outer,
        {
            if self.outer >= self.buckets.len() {
                proof {
                    assert(self.source().take(self.outer as int) =~= self.source());
                }
                return None;
            }
            if self.inner < self.buckets[self.outer].len() {
                let at = self.inner;
                let ghost b = self.outer as int;
                let ghost before = self.source();
                let ghost after = final(self).source();
                proof {
                    lemma_flattened_at(before, b, at as int);
                }
                self.inner += 1;
                let entry = &mut self.buckets[self.outer][at];
                let key = &entry.0;
                let value = &mut entry.1;
                proof {
                    assert(value_set(before, after, b, at as int, *final(value)));
                    assert(after.take(b) =~= before.take(b));
                    lemma_value_set_flattened(before, after, b, at as int, *final(value));
                }
                return Some((key, value));
            }
            proof {
                assert(self.source().take(self.outer + 1).drop_last() =~= self.source().take(
                    self.outer as int,
                ));
            }
            self.outer += 1;
            self.inner = 0;
        }
    }
}

} // verus!
