use vstd::prelude::*;

verus! {

/// Number of buckets of a freshly made map; a key lives in bucket `key % BUCKETS`.
pub const BUCKETS: usize = 17;

/// A map from `usize` keys to strings, kept in a fixed vector of buckets.
pub struct HMap {
    data: Vec<Vec<(usize, String)>>,
}

/// Some entry of `b` has key `k`.
pub open spec fn bucket_has(b: Seq<(usize, String)>, k: usize) -> bool {
    exists|i: int| 0 <= i < b.len() && (#[trigger] b[i]).0 == k
}

/// The text stored under `k` in `b`, for a key that `b` holds.
pub open spec fn bucket_value(b: Seq<(usize, String)>, k: usize) -> Seq<char>
    recommends
        bucket_has(b, k),
{
    b[choose|i: int| 0 <= i < b.len() && (#[trigger] b[i]).0 == k].1@
}

/// Every entry of `b` belongs in bucket `idx`, and no key appears twice.
pub open spec fn bucket_ok(b: Seq<(usize, String)>, idx: int) -> bool {
    &&& forall|i: int| 0 <= i < b.len() ==> (#[trigger] b[i]).0 % BUCKETS == idx
    &&& forall|i: int, j: int| 0 <= i < j < b.len() ==> (#[trigger] b[i]).0 != (#[trigger] b[j]).0
}

proof fn lemma_bucket_value(b: Seq<(usize, String)>, idx: int, k: usize, i: int)
    requires
        bucket_ok(b, idx),
        0 <= i < b.len(),
        b[i].0 == k,
    ensures
        bucket_has(b, k),
        bucket_value(b, k) == b[i].1@,
{
    let j = choose|j: int| 0 <= j < b.len() && (#[trigger] b[j]).0 == k;
    if j < i {
        assert(b[j].0 != b[i].0);
    } else if i < j {
        assert(b[i].0 != b[j].0);
    }
}

impl HMap {
    /// Number of buckets.
    pub closed spec fn bucket_count(&self) -> nat {
        self.data@.len()
    }

    /// Each entry sits in the bucket of its key, and no key appears twice in a bucket.
    pub closed spec fn wf(&self) -> bool {
        forall|b: int| 0 <= b < self.data@.len() ==> bucket_ok(#[trigger] self.data@[b]@, b)
    }

    /// The key `k` is stored in the map.
    pub closed spec fn has_key(&self, k: usize) -> bool {
        &&& k % BUCKETS < self.data@.len()
        &&& bucket_has(self.data@[(k % BUCKETS) as int]@, k)
    }

    /// The text stored under `k`.
    pub closed spec fn value_of(&self, k: usize) -> Seq<char> {
        bucket_value(self.data@[(k % BUCKETS) as int]@, k)
    }
}

impl View for HMap {
    type V = Map<usize, Seq<char>>;

    closed spec fn view(&self) -> Map<usize, Seq<char>> {
        Map::new(|k: usize| self.has_key(k), |k: usize| self.value_of(k))
    }
}

impl HMap {
    /// An empty map with `BUCKETS` buckets.
    pub fn new() -> (r: HMap)
        ensures
            r.wf(),
            r@ == Map::<usize, Seq<char>>::empty(),
            r.bucket_count() == BUCKETS,
    {
        let mut data: Vec<Vec<(usize, String)>> = Vec::new();
        let mut n: usize = 0;
        while n < BUCKETS
            invariant
                n <= BUCKETS,
                data@.len() == n,
                forall|b: int| 0 <= b < n ==> (#[trigger] data@[b])@.len() == 0,
            decreases BUCKETS - n,
        {
            data.push(Vec::new());
            n = n + 1;
        }
        let r = HMap { data };
        assert(r@ =~= Map::<usize, Seq<char>>::empty());
        r
    }

    /// Stores `v` under `key`, replacing any text stored there before. Returns
    /// false, and changes nothing, when the map has no bucket for `key`.
    pub fn insert(&mut self, key: usize, v: String) -> (r: bool)
        requires
            old(self).wf(),
        ensures
            final(self).wf(),
            final(self).bucket_count() == old(self).bucket_count(),
            r == (((key % BUCKETS) as nat) < old(self).bucket_count()),
            r ==> final(self)@ == old(self)@.insert(key, v@),
            !r ==> final(self)@ == old(self)@,
    {
        let hash = key % BUCKETS;
        if self.data.len() <= hash {
            return false;
        }
        let ghost pre = self.data@;
        let ghost pre_view = self@;
        let mut bucket: Vec<(usize, String)> = Vec::new();
        std::mem::swap(&mut self.data[hash], &mut bucket);
        let ghost old_bucket = bucket@;
        assert(bucket_ok(old_bucket, hash as int));
        let mut i: usize = 0;
        let mut found = false;
        while i < bucket.len()
            invariant_except_break
                !found,
            invariant
                i <= bucket@.len(),
                bucket@ == old_bucket,
                forall|j: int| 0 <= j < i ==> (#[trigger] bucket@[j]).0 != key,
            ensures
                i <= bucket@.len(),
                bucket@ == old_bucket,
                forall|j: int| 0 <= j < i ==> (#[trigger] bucket@[j]).0 != key,
                found ==> i < bucket@.len() && bucket@[i as int].0 == key,
                !found ==> i == bucket@.len(),
            decreases bucket@.len() - i,
        {
            if bucket[i].0 == key {
                found = true;
                break;
            }
            i = i + 1;
        }
        let ghost entry = (key, v);
        if found {
            bucket[i] = (key, v);
        } else {
            bucket.push((key, v));
        }
        let ghost new_bucket = bucket@;
        std::mem::swap(&mut self.data[hash], &mut bucket);
        proof {
            assert(self.data@[hash as int]@ == new_bucket);
            assert(forall|b: int| 0 <= b < pre.len() && b != hash ==> self.data@[b] == pre[b]);
            assert(self.data@.len() == pre.len());
            let idx = if found { i as int } else { old_bucket.len() as int };
            assert(new_bucket[idx] == entry);
            assert(bucket_ok(new_bucket, hash as int)) by {
                assert forall|a: int, b: int| 0 <= a < b < new_bucket.len()
                    implies (#[trigger] new_bucket[a]).0 != (#[trigger] new_bucket[b]).0 by {
                    if a != idx && b != idx {
                        assert(old_bucket[a] == new_bucket[a]);
                        assert(old_bucket[b] == new_bucket[b]);
                    } else if a == idx && found {
                        assert(old_bucket[b] == new_bucket[b]);
                        assert(old_bucket[a].0 != old_bucket[b].0);
                    } else if b == idx && found {
                        assert(old_bucket[a] == new_bucket[a]);
                        assert(old_bucket[a].0 != old_bucket[b].0);
                    } else {
                        assert(old_bucket[a] == new_bucket[a]);
                        assert(old_bucket[a].0 != key);
                    }
                }
            }
            lemma_bucket_value(new_bucket, hash as int, key, idx);
            assert forall|k: usize| #[trigger] self.has_key(k) == (k == key || pre_view.contains_key(k))
                && (k != key && self.has_key(k) ==> self.value_of(k) == pre_view[k]) by {
                if k % BUCKETS == hash && k != key {
                    if bucket_has(old_bucket, k) {
                        let w = choose|w: int| 0 <= w < old_bucket.len() && (#[trigger] old_bucket[w]).0 == k;
                        assert(new_bucket[w] == old_bucket[w]);
                        lemma_bucket_value(old_bucket, hash as int, k, w);
                        lemma_bucket_value(new_bucket, hash as int, k, w);
                    }
                    if bucket_has(new_bucket, k) {
                        let w = choose|w: int| 0 <= w < new_bucket.len() && (#[trigger] new_bucket[w]).0 == k;
                        assert(new_bucket[w] == old_bucket[w]);
                    }
                }
            }
            assert(self@ =~= pre_view.insert(key, v@));
        }
        true
    }

    /// The text stored under `key`, if any.
    pub fn get(&self, key: usize) -> (r: Option<String>)
        requires
            self.wf(),
        ensures
            r is Some <==> self@.contains_key(key),
            r is Some ==> r->Some_0@ == self@[key],
    {
        let hash = key % BUCKETS;
        if self.data.len() <= hash {
            return None;
        }
        let bucket = &self.data[hash];
        assert(bucket_ok(bucket@, hash as int));
        let mut i: usize = 0;
        while i < bucket.len()
            invariant
                i <= bucket@.len(),
                hash < self.data@.len(),
                hash == key % BUCKETS,
                bucket@ == self.data@[hash as int]@,
                bucket_ok(bucket@, hash as int),
                forall|j: int| 0 <= j < i ==> (#[trigger] bucket@[j]).0 != key,
            decreases bucket@.len() - i,
        {
            if bucket[i].0 == key {
                proof {
                    lemma_bucket_value(bucket@, hash as int, key, i as int);
                    assert(self.has_key(key));
                }
                return Some(bucket[i].1.clone());
            }
            i = i + 1;
        }
        assert(!self.has_key(key));
        None
    }

    /// Every stored key with its text, each key once, bucket by bucket.
    pub fn entries(&self) -> (r: Vec<(usize, String)>)
        requires
            self.wf(),
        ensures
            forall|i: int| 0 <= i < r@.len() ==> {
                &&& self@.contains_key(#[trigger] r@[i].0)
                &&& r@[i].1@ == self@[r@[i].0]
            },
            forall|k: usize| #[trigger] self@.contains_key(k) ==> exists|i: int|
                0 <= i < r@.len() && (#[trigger] r@[i]).0 == k,
            forall|i: int, j: int| 0 <= i < j < r@.len() ==> (#[trigger] r@[i]).0 != (#[trigger] r@[j]).0,
            forall|i: int, j: int|
                0 <= i < j < r@.len() ==> (#[trigger] r@[i]).0 % BUCKETS <= (#[trigger] r@[j]).0 % BUCKETS,
    {
        let mut r: Vec<(usize, String)> = Vec::new();
        let mut b: usize = 0;
        while b < self.data.len()
            invariant
                b <= self.data@.len(),
                self.wf(),
                forall|i: int| 0 <= i < r@.len() ==> {
                    &&& self@.contains_key(#[trigger] r@[i].0)
                    &&& r@[i].1@ == self@[r@[i].0]
                    &&& r@[i].0 % BUCKETS < b
                },
                forall|k: usize| #[trigger] self@.contains_key(k) && k % BUCKETS < b ==> exists|i: int|
                    0 <= i < r@.len() && (#[trigger] r@[i]).0 == k,
                forall|i: int, j: int| 0 <= i < j < r@.len() ==> (#[trigger] r@[i]).0 != (#[trigger] r@[j]).0,
                forall|i: int, j: int|
                    0 <= i < j < r@.len() ==> (#[trigger] r@[i]).0 % BUCKETS <= (#[trigger] r@[j]).0 % BUCKETS,
            decreases self.data@.len() - b,
        {
            let bucket = &self.data[b];
            assert(bucket_ok(bucket@, b as int));
            let ghost start = r@.len();
            let mut i: usize = 0;
            while i < bucket.len()
                invariant
                    b < self.data@.len(),
                    bucket@ == self.data@[b as int]@,
                    bucket_ok(bucket@, b as int),
                    i <= bucket@.len(),
                    start <= r@.len(),
                    r@.len() == start + i,
                    forall|j: int| 0 <= j < i ==> (#[trigger] r@[start + j]).0 == bucket@[j].0,
                    forall|i: int| 0 <= i < r@.len() ==> {
                        &&& self@.contains_key(#[trigger] r@[i].0)
                        &&& r@[i].1@ == self@[r@[i].0]
                        &&& r@[i].0 % BUCKETS <= b
                        &&& i < start ==> r@[i].0 % BUCKETS < b
                    },
                    forall|k: usize| #[trigger] self@.contains_key(k) && k % BUCKETS < b ==> exists|i: int|
                        0 <= i < r@.len() && (#[trigger] r@[i]).0 == k,
                    forall|i: int, j: int| 0 <= i < j < r@.len() ==> (#[trigger] r@[i]).0 != (#[trigger] r@[j]).0,
                    forall|i: int, j: int|
                        0 <= i < j < r@.len() ==> (#[trigger] r@[i]).0 % BUCKETS <= (#[trigger] r@[j]).0 % BUCKETS,
                decreases bucket@.len() - i,
            {
                let k = bucket[i].0;
                proof {
                    lemma_bucket_value(bucket@, b as int, k, i as int);
                    assert(self@.contains_key(k));
                    assert forall|x: int| 0 <= x < r@.len() implies r@[x].0 != k by {
                        if x >= start {
                            assert(r@[start + (x - start)].0 == bucket@[x - start].0);
                        }
                    }
                }
                let ghost before = r@;
                r.push((k, bucket[i].1.clone()));
                proof {
                    assert forall|k: usize| #[trigger] self@.contains_key(k) && k % BUCKETS < b implies exists|i: int|
                        0 <= i < r@.len() && (#[trigger] r@[i]).0 == k by {
                        let w = choose|w: int| 0 <= w < before.len() && (#[trigger] before[w]).0 == k;
                        assert(r@[w] == before[w]);
                    }
                }
                i = i + 1;
            }
            proof {
                assert forall|k: usize| #[trigger] self@.contains_key(k) && k % BUCKETS < b + 1 implies exists|i: int|
                    0 <= i < r@.len() && (#[trigger] r@[i]).0 == k by {
                    if k % BUCKETS == b {
                        let w = choose|w: int| 0 <= w < bucket@.len() && (#[trigger] bucket@[w]).0 == k;
                        assert(r@[start + w].0 == k);
                    }
                }
            }
            b = b + 1;
        }
        r
    }
}

} // verus!
