//! Traversal of a bucket array as one sequence of entries: bucket by bucket,
//! and within a bucket in storage order.

use vstd::prelude::*;

verus! {

/// All entries of `buckets` in traversal order.
pub open spec fn flattened<K, V>(buckets: Seq<Vec<(K, V)>>) -> Seq<(K, V)>
    decreases buckets.len(),
{
    if buckets.len() == 0 {
        Seq::empty()
    } else {
        flattened(buckets.drop_last()) + buckets.last()@
    }
}

/// The number of entries that precede entry `p` of bucket `b` in traversal order.
pub open spec fn offset_of<K, V>(buckets: Seq<Vec<(K, V)>>, b: int, p: int) -> int {
    flattened(buckets.take(b)).len() + p
}

/// Replacing one bucket changes the number of entries by the difference of
/// the two bucket lengths.
pub proof fn lemma_flattened_len_update<K, V>(buckets: Seq<Vec<(K, V)>>, b: int, bucket: Vec<(K, V)>)
    requires
        0 <= b < buckets.len(),
    ensures
        flattened(buckets.update(b, bucket)).len() == flattened(buckets).len() - buckets[b]@.len()
            + bucket@.len(),
    decreases buckets.len(),
{
    let updated = buckets.update(b, bucket);
    if b == buckets.len() - 1 {
        assert(updated.drop_last() =~= buckets.drop_last());
    } else {
        assert(updated.drop_last() =~= buckets.drop_last().update(b, bucket));
        lemma_flattened_len_update(buckets.drop_last(), b, bucket);
    }
}

/// A bucket array of empty buckets has no entries.
pub proof fn lemma_flattened_all_empty<K, V>(buckets: Seq<Vec<(K, V)>>)
    requires
        forall|i: int| 0 <= i < buckets.len() ==> (#[trigger] buckets[i])@.len() == 0,
    ensures
        flattened(buckets).len() == 0,
    decreases buckets.len(),
{
    if buckets.len() > 0 {
        lemma_flattened_all_empty(buckets.drop_last());
    }
}

/// The entries of a prefix of the bucket array are a prefix of all entries.
pub proof fn lemma_flattened_take<K, V>(buckets: Seq<Vec<(K, V)>>, b: int)
    requires
        0 <= b <= buckets.len(),
    ensures
        flattened(buckets.take(b)).len() <= flattened(buckets).len(),
        flattened(buckets.take(b)) =~= flattened(buckets).take(flattened(buckets.take(b)).len() as int),
    decreases buckets.len(),
{
    if b == buckets.len() {
        assert(buckets.take(b) =~= buckets);
    } else {
        assert(buckets.drop_last().take(b) =~= buckets.take(b));
        lemma_flattened_take(buckets.drop_last(), b);
    }
}

/// Entry `p` of bucket `b` stands at `offset_of(buckets, b, p)` in traversal order.
pub proof fn lemma_flattened_at<K, V>(buckets: Seq<Vec<(K, V)>>, b: int, p: int)
    requires
        0 <= b < buckets.len(),
        0 <= p < buckets[b]@.len(),
    ensures
        0 <= offset_of(buckets, b, p) < flattened(buckets).len(),
        flattened(buckets)[offset_of(buckets, b, p)] == buckets[b]@[p],
    decreases buckets.len(),
{
    if b == buckets.len() - 1 {
        assert(buckets.take(b) =~= buckets.drop_last());
    } else {
        assert(buckets.drop_last().take(b) =~= buckets.take(b));
        lemma_flattened_at(buckets.drop_last(), b, p);
    }
}

/// Every position of the traversal is an entry of exactly one bucket.
pub proof fn lemma_flattened_locate<K, V>(buckets: Seq<Vec<(K, V)>>, n: int) -> (at: (int, int))
    requires
        0 <= n < flattened(buckets).len(),
    ensures
        0 <= at.0 < buckets.len(),
        0 <= at.1 < buckets[at.0]@.len(),
        offset_of(buckets, at.0, at.1) == n,
        flattened(buckets)[n] == buckets[at.0]@[at.1],
    decreases buckets.len(),
{
    let front = buckets.drop_last();
    if n >= flattened(front).len() {
        let b = buckets.len() - 1;
        assert(buckets.take(b) =~= front);
        (b, n - flattened(front).len())
    } else {
        let at = lemma_flattened_locate(front, n);
        assert(front.take(at.0) =~= buckets.take(at.0));
        at
    }
}

/// The entries of a non-empty bucket array are those of its first bucket,
/// followed by those of the other buckets.
pub proof fn lemma_flattened_first<K, V>(buckets: Seq<Vec<(K, V)>>)
    requires
        buckets.len() > 0,
    ensures
        flattened(buckets) =~= buckets.first()@ + flattened(buckets.drop_first()),
    decreases buckets.len(),
{
    if buckets.len() == 1 {
        assert(buckets.drop_last() =~= Seq::<Vec<(K, V)>>::empty());
        assert(buckets.drop_first() =~= Seq::<Vec<(K, V)>>::empty());
    } else {
        lemma_flattened_first(buckets.drop_last());
        assert(buckets.drop_last().drop_first() =~= buckets.drop_first().drop_last());
    }
}

/// The elements of `v` in reverse order.
fn reversed<T>(v: Vec<T>) -> (r: Vec<T>)
    ensures
        r@ == v@.reverse(),
{
    let ghost all = v@;
    let mut rest = v;
    let mut r: Vec<T> = Vec::new();
    while rest.len() > 0
        invariant
            rest@.len() + r@.len() == all.len(),
            rest@ == all.take(rest@.len() as int),
            forall|i: int| 0 <= i < r@.len() ==> r@[i] == all[all.len() - 1 - i],
        decreases rest@.len(),
    {
        if let Some(x) = rest.pop() {
            r.push(x);
        }
    }
    assert(r@ =~= all.reverse());
    r
}

/// A traversal of a bucket array by reference.
pub struct Iter<'a, K, V> {
    buckets: &'a Vec<Vec<(K, V)>>,
    outer: usize,
    inner: usize,
}

impl<'a, K, V> Iter<'a, K, V> {
    /// The bucket array that is traversed.
    pub closed spec fn source(&self) -> Seq<Vec<(K, V)>> {
        self.buckets@
    }

    /// The number of entries that the traversal has passed.
    pub closed spec fn passed(&self) -> int {
        offset_of(self.buckets@, self.outer as int, self.inner as int)
    }

    /// All entries of the traversed bucket array, in traversal order.
    pub open spec fn all(&self) -> Seq<(K, V)> {
        flattened(self.source())
    }

    /// Well-formedness: the cursor lies within the bucket array.
    pub closed spec fn wf(&self) -> bool {
        &&& self.outer <= self.buckets@.len()
        &&& if self.outer < self.buckets@.len() {
            self.inner <= self.buckets@[self.outer as int]@.len()
        } else {
            self.inner == 0
        }
    }

    /// A traversal of `vec` that has yielded nothing yet.
    pub fn new(vec: &'a Vec<Vec<(K, V)>>) -> (it: Self)
        ensures
            it.wf(),
            it.source() == vec@,
            it.passed() == 0,
    {
        proof {
            assert(vec@.take(0) =~= Seq::<Vec<(K, V)>>::empty());
        }
        Iter { buckets: vec, outer: 0, inner: 0 }
    }

    /// Yields the next entry, or `None` once every entry has been yielded.
    pub fn next(&mut self) -> (r: Option<(&'a K, &'a V)>)
        requires
            old(self).wf(),
        ensures
            final(self).wf(),
            final(self).source() == old(self).source(),
            match r {
                Some((k, v)) => {
                    &&& 0 <= old(self).passed() < old(self).all().len()
                    &&& (*k, *v) == old(self).all()[old(self).passed()]
                    &&& final(self).passed() == old(self).passed() + 1
                },
                None => {
                    &&& old(self).passed() == old(self).all().len()
                    &&& final(self).passed() == old(self).passed()
                },
            },
    {
        let buckets: &'a Vec<Vec<(K, V)>> = self.buckets;
        loop
            invariant
                self.wf(),
                self.buckets == buckets,
                buckets@ == old(self).buckets@,
                self.passed() == old(self).passed(),
            decreases buckets@.len() - self.outer,
        {
            if self.outer >= buckets.len() {
                proof {
                    assert(buckets@.take(self.outer as int) =~= buckets@);
                }
                return None;
            }
            let bucket: &'a Vec<(K, V)> = &buckets[self.outer];
            if self.inner < bucket.len() {
                let entry: &'a (K, V) = &bucket[self.inner];
                proof {
                    lemma_flattened_at(buckets@, self.outer as int, self.inner as int);
                }
                self.inner += 1;
                return Some((&entry.0, &entry.1));
            }
            proof {
                assert(buckets@.take(self.outer + 1).drop_last() =~= buckets@.take(self.outer as int));
            }
            self.outer += 1;
            self.inner = 0;
        }
    }
}

/// A traversal of the keys of a bucket array.
pub struct Keys<'a, K, V> {
    inner: Iter<'a, K, V>,
}

impl<'a, K, V> Keys<'a, K, V> {
    /// The traversal of entries that the keys are taken from.
    pub closed spec fn entries(&self) -> Iter<'a, K, V> {
        self.inner
    }

    /// The keys of the entries that `inner` yields.
    pub fn new(inner: Iter<'a, K, V>) -> (it: Self)
        ensures
            it.entries() == inner,
    {
        Keys { inner }
    }

    /// Yields the key of the next entry.
    pub fn next(&mut self) -> (r: Option<&'a K>)
        requires
            old(self).entries().wf(),
        ensures
            final(self).entries().wf(),
            final(self).entries().source() == old(self).entries().source(),
            match r {
                Some(k) => {
                    &&& 0 <= old(self).entries().passed() < old(self).entries().all().len()
                    &&& *k == old(self).entries().all()[old(self).entries().passed()].0
                    &&& final(self).entries().passed() == old(self).entries().passed() + 1
                },
                None => {
                    &&& old(self).entries().passed() == old(self).entries().all().len()
                    &&& final(self).entries().passed() == old(self).entries().passed()
                },
            },
    {
        match self.inner.next() {
            Some(kv) => Some(kv.0),
            None => None,
        }
    }
}

/// A traversal of the values of a bucket array.
pub struct Values<'a, K, V> {
    inner: Iter<'a, K, V>,
}

impl<'a, K, V> Values<'a, K, V> {
    /// The traversal of entries that the values are taken from.
    pub closed spec fn entries(&self) -> Iter<'a, K, V> {
        self.inner
    }

    /// The values of the entries that `inner` yields.
    pub fn new(inner: Iter<'a, K, V>) -> (it: Self)
        ensures
            it.entries() == inner,
    {
        Values { inner }
    }

    /// Yields the value of the next entry.
    pub fn next(&mut self) -> (r: Option<&'a V>)
        requires
            old(self).entries().wf(),
        ensures
            final(self).entries().wf(),
            final(self).entries().source() == old(self).entries().source(),
            match r {
                Some(v) => {
                    &&& 0 <= old(self).entries().passed() < old(self).entries().all().len()
                    &&& *v == old(self).entries().all()[old(self).entries().passed()].1
                    &&& final(self).entries().passed() == old(self).entries().passed() + 1
                },
                None => {
                    &&& old(self).entries().passed() == old(self).entries().all().len()
                    &&& final(self).entries().passed() == old(self).entries().passed()
                },
            },
    {
        match self.inner.next() {
            Some(kv) => Some(kv.1),
            None => None,
        }
    }
}

/// A traversal that owns the bucket array and hands the entries out.
pub struct IntoIter<K, V> {
    outer: Vec<Vec<(K, V)>>,
    inner: Vec<(K, V)>,
}

impl<K, V> IntoIter<K, V> {
    /// The entries that the traversal has yet to yield, in order.
    pub closed spec fn remaining(&self) -> Seq<(K, V)> {
        self.inner@.reverse() + flattened(self.outer@.reverse())
    }

    /// A traversal of `vec` that has yielded nothing yet.
    pub fn new(vec: Vec<Vec<(K, V)>>) -> (it: Self)
        ensures
            it.remaining() == flattened(vec@),
    {
        let ghost all = vec@;
        let mut outer = reversed(vec);
        let inner = match outer.pop() {
            Some(v) => reversed(v),
            None => Vec::new(),
        };
        proof {
            if all.len() > 0 {
                lemma_flattened_first(all);
                assert(outer@.reverse() =~= all.drop_first());
                assert(inner@.reverse() =~= all.first()@);
            } else {
                assert(inner@.reverse() =~= Seq::<(K, V)>::empty());
            }
        }
        IntoIter { outer, inner }
    }

    /// Yields the next entry, or `None` once every entry has been yielded.
    pub fn next(&mut self) -> (r: Option<(K, V)>)
        ensures
            match r {
                Some(entry) => {
                    &&& old(self).remaining().len() > 0
                    &&& entry == old(self).remaining().first()
                    &&& final(self).remaining() == old(self).remaining().drop_first()
                },
                None => {
                    &&& old(self).remaining().len() == 0
                    &&& final(self).remaining().len() == 0
                },
            },
    {
        loop
            invariant
                self.remaining() == old(self).remaining(),
            decreases self.outer@.len(), self.inner@.len(),
        {
            let ghost before = self.inner@;
            match self.inner.pop() {
                Some(r) => {
                    proof {
                        assert(self.inner@.reverse() =~= before.reverse().drop_first());
                        assert(self.remaining() =~= old(self).remaining().drop_first());
                    }
                    return Some((r.0, r.1));
                },
                None => (),
            }
            let ghost pending = self.outer@;
            match self.outer.pop() {
                Some(v) => {
                    self.inner = reversed(v);
                    proof {
                        lemma_flattened_first(pending.reverse());
                        assert(self.outer@.reverse() =~= pending.reverse().drop_first());
                        assert(self.inner@.reverse() =~= pending.reverse().first()@);
                        assert(before.reverse() =~= Seq::<(K, V)>::empty());
                    }
                },
                None => {
                    proof {
                        assert(self.outer@.reverse() =~= Seq::<Vec<(K, V)>>::empty());
                        assert(self.inner@.reverse() =~= Seq::<(K, V)>::empty());
                    }
                    return None;
                },
            }
        }
    }
}

} // verus!
