use vstd::prelude::*;

verus! {

/// Number of buckets of every frequency table.
pub const BUCKET_COUNT: usize = 16;

/// The bucket of a token: a running hash over its characters, modulo the bucket count.
pub open spec fn hash_chars(s: Seq<char>) -> nat
    decreases s.len(),
{
    if s.len() == 0 {
        0
    } else {
        (hash_chars(s.drop_last()) * 31 + (s.last() as u32) as nat) % 16
    }
}

/// Sum of two counts, held at `u64::MAX` instead of overflowing.
pub open spec fn add_counts(a: u64, b: u64) -> u64 {
    if a + b > u64::MAX {
        u64::MAX
    } else {
        (a + b) as u64
    }
}

/// The count of a token in a table's model, zero when the token is absent.
pub open spec fn count_of(m: Map<Seq<char>, u64>, k: Seq<char>) -> u64 {
    if m.contains_key(k) {
        m[k]
    } else {
        0
    }
}

/// Merge of two models: the union of their tokens, with counts summed.
pub open spec fn merge_models(a: Map<Seq<char>, u64>, b: Map<Seq<char>, u64>) -> Map<
    Seq<char>,
    u64,
> {
    Map::new(
        |k: Seq<char>| a.contains_key(k) || b.contains_key(k),
        |k: Seq<char>| add_counts(count_of(a, k), count_of(b, k)),
    )
}

/// Computes the bucket index of a token.
pub fn bucket_of(key: &String) -> (r: usize)
    ensures
        r as nat == hash_chars(key@),
        r < BUCKET_COUNT,
{
    let s = key.as_str();
    let n = s.unicode_len();
    let mut h: u32 = 0;
    let mut i: usize = 0;
    while i < n
        invariant
            s@ == key@,
            n == key@.len(),
            i <= n,
            h < 16,
            h as nat == hash_chars(key@.subrange(0, i as int)),
        decreases n - i,
    {
        let c = s.get_char(i);
        proof {
            assert(key@.subrange(0, i + 1).drop_last() == key@.subrange(0, i as int));
        }
        h = (h * 31 + c as u32) % 16;
        i += 1;
    }
    proof {
        assert(key@.subrange(0, n as int) == key@);
    }
    h as usize
}

/// A chained hash table from tokens to counts with a fixed number of buckets.
/// Each bucket lists `(token, slot)` pairs in insertion order; the counts live
/// in a dense array indexed by slot.
pub struct FrequencyTable {
    buckets: Vec<Vec<(String, usize)>>,
    values: Vec<u64>,
    model: Ghost<Map<Seq<char>, u64>>,
}

impl View for FrequencyTable {
    type V = Map<Seq<char>, u64>;

    closed spec fn view(&self) -> Map<Seq<char>, u64> {
        self.model@
    }
}

impl FrequencyTable {
    spec fn key_at(&self, b: int, i: int) -> Seq<char> {
        self.buckets@[b]@[i].0@
    }

    spec fn slot_at(&self, b: int, i: int) -> int {
        self.buckets@[b]@[i].1 as int
    }

    spec fn valid_at(&self, b: int, i: int) -> bool {
        0 <= b < 16 && 0 <= i < self.buckets@[b]@.len()
    }

    /// The table's internal invariant.
    pub closed spec fn wf(&self) -> bool {
        &&& self.buckets@.len() == 16
        &&& forall|b: int, i: int| #[trigger]
            self.valid_at(b, i) ==> {
                &&& hash_chars(self.key_at(b, i)) == b
                &&& 0 <= self.slot_at(b, i) < self.values@.len()
                &&& self.model@.contains_key(self.key_at(b, i))
                &&& self.model@[self.key_at(b, i)] == self.values@[self.slot_at(b, i)]
            }
        &&& forall|b: int, i: int, j: int|
            self.valid_at(b, i) && self.valid_at(b, j) && i != j ==> #[trigger] self.key_at(b, i)
                != #[trigger] self.key_at(b, j)
        &&& forall|b1: int, i1: int, b2: int, i2: int|
            self.valid_at(b1, i1) && self.valid_at(b2, i2) && #[trigger] self.slot_at(b1, i1)
                == #[trigger] self.slot_at(b2, i2) ==> b1 == b2 && i1 == i2
        &&& forall|k: Seq<char>| #[trigger]
            self.model@.contains_key(k) ==> exists|i: int|
                self.valid_at(hash_chars(k) as int, i) && #[trigger] self.key_at(
                    hash_chars(k) as int,
                    i,
                ) == k
    }

    /// An empty table.
    pub fn new() -> (r: Self)
        ensures
            r.wf(),
            r@ == Map::<Seq<char>, u64>::empty(),
    {
        let mut buckets: Vec<Vec<(String, usize)>> = Vec::new();
        let mut b: usize = 0;
        while b < BUCKET_COUNT
            invariant
                b <= 16,
                buckets@.len() == b,
                forall|j: int| 0 <= j < b ==> (#[trigger] buckets@[j])@.len() == 0,
            decreases 16 - b,
        {
            buckets.push(Vec::new());
            b += 1;
        }
        FrequencyTable { buckets, values: Vec::new(), model: Ghost(Map::empty()) }
    }

    /// Position of `key` in bucket `b`, if it is there.
    fn position(&self, b: usize, key: &String) -> (r: Option<usize>)
        requires
            self.wf(),
            b < 16,
        ensures
            match r {
                Some(i) => self.valid_at(b as int, i as int) && self.key_at(b as int, i as int)
                    == key@,
                None => forall|i: int| #[trigger]
                    self.valid_at(b as int, i) ==> self.key_at(b as int, i) != key@,
            },
    {
        let bucket = &self.buckets[b];
        let mut i: usize = 0;
        while i < bucket.len()
            invariant
                self.wf(),
                b < 16,
                bucket == self.buckets@[b as int],
                i <= bucket@.len(),
                forall|j: int| 0 <= j < i ==> #[trigger] self.key_at(b as int, j) != key@,
            decreases bucket@.len() - i,
        {
            if bucket[i].0 == *key {
                return Some(i);
            }
            i += 1;
        }
        None
    }

    /// The count of `key`, if the table holds it.
    pub fn get(&self, key: &String) -> (r: Option<u64>)
        requires
            self.wf(),
        ensures
            r == (if self@.contains_key(key@) {
                Some(self@[key@])
            } else {
                None::<u64>
            }),
    {
        let b = bucket_of(key);
        match self.position(b, key) {
            Some(i) => {
                proof {
                    assert(self.valid_at(b as int, i as int));
                }
                Some(self.values[self.buckets[b][i].1])
            },
            None => {
                proof {
                    if self@.contains_key(key@) {
                        let i = choose|i: int|
                            self.valid_at(hash_chars(key@) as int, i) && #[trigger] self.key_at(
                                hash_chars(key@) as int,
                                i,
                            ) == key@;
                        assert(self.valid_at(b as int, i));
                    }
                }
                None
            },
        }
    }

    /// Stores `val` as the count of `key`, replacing any earlier count.
    pub fn put(&mut self, key: String, val: u64)
        requires
            old(self).wf(),
        ensures
            final(self).wf(),
            final(self)@ == old(self)@.insert(key@, val),
    {
        let b = bucket_of(&key);
        match self.position(b, &key) {
            Some(i) => {
                let slot = self.buckets[b][i].1;
                proof {
                    assert(self.valid_at(b as int, i as int));
                }
                self.set_slot(b, i, slot, val);
            },
            None => {
                self.append(b, key, val);
            },
        }
    }

    /// Overwrites the count held at slot `slot`, which entry `i` of bucket `b` owns.
    fn set_slot(&mut self, b: usize, i: usize, slot: usize, val: u64)
        requires
            old(self).wf(),
            old(self).valid_at(b as int, i as int),
            old(self).slot_at(b as int, i as int) == slot,
        ensures
            final(self).wf(),
            final(self)@ == old(self)@.insert(old(self).key_at(b as int, i as int), val),
    {
        let ghost k = self.key_at(b as int, i as int);
        let ghost pre = *self;
        self.values.set(slot, val);
        self.model = Ghost(self.model@.insert(k, val));
        proof {
            assert forall|b2: int, i2: int| #[trigger] self.valid_at(b2, i2) implies {
                &&& hash_chars(self.key_at(b2, i2)) == b2
                &&& 0 <= self.slot_at(b2, i2) < self.values@.len()
                &&& self.model@.contains_key(self.key_at(b2, i2))
                &&& self.model@[self.key_at(b2, i2)] == self.values@[self.slot_at(b2, i2)]
            } by {
                assert(pre.valid_at(b2, i2));
                assert(self.key_at(b2, i2) == pre.key_at(b2, i2));
                assert(self.slot_at(b2, i2) == pre.slot_at(b2, i2));
                if self.key_at(b2, i2) == k {
                    assert(b2 == b);
                    assert(pre.key_at(b2, i2) == pre.key_at(b2, i as int));
                    assert(i2 == i);
                } else if self.slot_at(b2, i2) == slot {
                    assert(pre.slot_at(b2, i2) == pre.slot_at(b as int, i as int));
                }
            }
            assert forall|b2: int, i2: int, j2: int|
                self.valid_at(b2, i2) && self.valid_at(b2, j2) && i2 != j2 implies #[trigger] self.key_at(
                b2,
                i2,
            ) != #[trigger] self.key_at(b2, j2) by {
                assert(pre.valid_at(b2, i2));
                assert(pre.valid_at(b2, j2));
            }
            assert forall|b1: int, i1: int, b2: int, i2: int|
                self.valid_at(b1, i1) && self.valid_at(b2, i2) && #[trigger] self.slot_at(b1, i1)
                    == #[trigger] self.slot_at(b2, i2) implies b1 == b2 && i1 == i2 by {
                assert(pre.valid_at(b1, i1));
                assert(pre.valid_at(b2, i2));
            }
            assert forall|k2: Seq<char>| #[trigger] self.model@.contains_key(k2) implies exists|
                j: int,
            |
                self.valid_at(hash_chars(k2) as int, j) && #[trigger] self.key_at(
                    hash_chars(k2) as int,
                    j,
                ) == k2 by {
                if k2 == k {
                    assert(self.valid_at(b as int, i as int));
                } else {
                    let j = choose|j: int|
                        pre.valid_at(hash_chars(k2) as int, j) && #[trigger] pre.key_at(
                            hash_chars(k2) as int,
                            j,
                        ) == k2;
                    assert(self.valid_at(hash_chars(k2) as int, j));
                    assert(self.key_at(hash_chars(k2) as int, j) == k2);
                }
            }
        }
    }

    /// Adds a new entry for `key`, which bucket `b` does not hold.
    fn append(&mut self, b: usize, key: String, val: u64)
        requires
            old(self).wf(),
            b as nat == hash_chars(key@),
            forall|i: int| #[trigger]
                old(self).valid_at(b as int, i) ==> old(self).key_at(b as int, i) != key@,
        ensures
            final(self).wf(),
            final(self)@ == old(self)@.insert(key@, val),
    {
        let ghost k = key@;
        let ghost pre = *self;
        proof {
            if pre@.contains_key(k) {
                let j = choose|j: int|
                    pre.valid_at(hash_chars(k) as int, j) && #[trigger] pre.key_at(
                        hash_chars(k) as int,
                        j,
                    ) == k;
                assert(pre.valid_at(b as int, j));
            }
        }
        let slot = self.values.len();
        self.values.push(val);
        self.buckets[b].push((key, slot));
        self.model = Ghost(self.model@.insert(k, val));
        proof {
            let n = pre.buckets@[b as int]@.len() as int;
            assert forall|b2: int, i2: int| #[trigger] self.valid_at(b2, i2) implies {
                &&& hash_chars(self.key_at(b2, i2)) == b2
                &&& 0 <= self.slot_at(b2, i2) < self.values@.len()
                &&& self.model@.contains_key(self.key_at(b2, i2))
                &&& self.model@[self.key_at(b2, i2)] == self.values@[self.slot_at(b2, i2)]
            } by {
                if b2 == b && i2 == n {
                } else {
                    assert(pre.valid_at(b2, i2));
                    assert(self.key_at(b2, i2) == pre.key_at(b2, i2));
                    assert(self.slot_at(b2, i2) == pre.slot_at(b2, i2));
                }
            }
            assert forall|b2: int, i2: int, j2: int|
                self.valid_at(b2, i2) && self.valid_at(b2, j2) && i2 != j2 implies #[trigger] self.key_at(
                b2,
                i2,
            ) != #[trigger] self.key_at(b2, j2) by {
                if b2 == b && i2 == n {
                    assert(pre.valid_at(b2, j2));
                } else if b2 == b && j2 == n {
                    assert(pre.valid_at(b2, i2));
                } else {
                    assert(pre.valid_at(b2, i2));
                    assert(pre.valid_at(b2, j2));
                }
            }
            assert forall|b1: int, i1: int, b2: int, i2: int|
                self.valid_at(b1, i1) && self.valid_at(b2, i2) && #[trigger] self.slot_at(b1, i1)
                    == #[trigger] self.slot_at(b2, i2) implies b1 == b2 && i1 == i2 by {
                if !(b1 == b && i1 == n) {
                    assert(pre.valid_at(b1, i1));
                }
                if !(b2 == b && i2 == n) {
                    assert(pre.valid_at(b2, i2));
                }
            }
            assert forall|k2: Seq<char>| #[trigger] self.model@.contains_key(k2) implies exists|
                j: int,
            |
                self.valid_at(hash_chars(k2) as int, j) && #[trigger] self.key_at(
                    hash_chars(k2) as int,
                    j,
                ) == k2 by {
                if k2 == k {
                    assert(self.valid_at(b as int, n));
                } else {
                    let j = choose|j: int|
                        pre.valid_at(hash_chars(k2) as int, j) && #[trigger] pre.key_at(
                            hash_chars(k2) as int,
                            j,
                        ) == k2;
                    assert(self.valid_at(hash_chars(k2) as int, j));
                    assert(self.key_at(hash_chars(k2) as int, j) == k2);
                }
            }
        }
    }

    /// Applies `f` to the count of `key` (zero for a token not yet held) and
    /// stores the result.
    pub fn update_with<F: Fn(u64) -> u64>(&mut self, key: &String, f: F)
        requires
            old(self).wf(),
            forall|v: u64| f.requires((v,)),
        ensures
            final(self).wf(),
            exists|r: u64|
                f.ensures((count_of(old(self)@, key@),), r) && final(self)@ == old(self)@.insert(
                    key@,
                    r,
                ),
    {
        let b = bucket_of(key);
        match self.position(b, key) {
            Some(i) => {
                proof {
                    assert(self.valid_at(b as int, i as int));
                }
                let slot = self.buckets[b][i].1;
                let v = f(self.values[slot]);
                self.set_slot(b, i, slot, v);
            },
            None => {
                proof {
                    if self@.contains_key(key@) {
                        let j = choose|j: int|
                            self.valid_at(hash_chars(key@) as int, j) && #[trigger] self.key_at(
                                hash_chars(key@) as int,
                                j,
                            ) == key@;
                        assert(self.valid_at(b as int, j));
                    }
                }
                let v = f(0);
                self.append(b, key.clone(), v);
            },
        }
    }

    /// Adds `n` to the count of `key`, holding the count at `u64::MAX`.
    pub fn add_count(&mut self, key: &String, n: u64)
        requires
            old(self).wf(),
        ensures
            final(self).wf(),
            final(self)@ == old(self)@.insert(key@, add_counts(count_of(old(self)@, key@), n)),
    {
        self.update_with(key, |v: u64| -> (r: u64)
            ensures
                r == add_counts(v, n),
            { v.saturating_add(n) });
    }

    /// Removes every entry.
    pub fn clear(&mut self)
        ensures
            final(self).wf(),
            final(self)@ == Map::<Seq<char>, u64>::empty(),
    {
        *self = FrequencyTable::new();
    }

    /// Whether the table holds no entry.
    pub fn is_empty(&self) -> (r: bool)
        requires
            self.wf(),
        ensures
            r == (self@ == Map::<Seq<char>, u64>::empty()),
    {
        let mut b: usize = 0;
        while b < BUCKET_COUNT
            invariant
                self.wf(),
                b <= 16,
                forall|j: int| 0 <= j < b ==> (#[trigger] self.buckets@[j])@.len() == 0,
            decreases 16 - b,
        {
            if self.buckets[b].len() != 0 {
                proof {
                    assert(self.valid_at(b as int, 0));
                    assert(self@.contains_key(self.key_at(b as int, 0)));
                }
                return false;
            }
            b += 1;
        }
        proof {
            assert forall|k: Seq<char>| !self@.contains_key(k) by {
                if self@.contains_key(k) {
                    let j = choose|j: int|
                        self.valid_at(hash_chars(k) as int, j) && #[trigger] self.key_at(
                            hash_chars(k) as int,
                            j,
                        ) == k;
                    assert(self.buckets@[hash_chars(k) as int]@.len() == 0);
                }
            }
            assert(self@ =~= Map::<Seq<char>, u64>::empty());
        }
        true
    }

    /// Every entry as `(token, count)`, bucket by bucket, each bucket in
    /// insertion order.
    pub fn entries(&self) -> (r: Vec<(String, u64)>)
        requires
            self.wf(),
        ensures
            forall|i: int|
                0 <= i < r@.len() ==> self@.contains_key(#[trigger] r@[i].0@) && self@[r@[i].0@]
                    == r@[i].1,
            forall|k: Seq<char>| #[trigger]
                self@.contains_key(k) ==> exists|i: int| 0 <= i < r@.len() && #[trigger] r@[i].0@ == k,
            forall|i: int, j: int| 0 <= i < j < r@.len() ==> r@[i].0@ != r@[j].0@,
    {
        let mut r: Vec<(String, u64)> = Vec::new();
        let mut b: usize = 0;
        while b < BUCKET_COUNT
            invariant
                self.wf(),
                b <= 16,
                forall|i: int|
                    0 <= i < r@.len() ==> self@.contains_key(#[trigger] r@[i].0@) && self@[r@[i].0@]
                        == r@[i].1 && hash_chars(r@[i].0@) < b,
                forall|k: Seq<char>| #[trigger]
                    self@.contains_key(k) && hash_chars(k) < b ==> exists|i: int|
                        0 <= i < r@.len() && #[trigger] r@[i].0@ == k,
                forall|i: int, j: int| 0 <= i < j < r@.len() ==> r@[i].0@ != r@[j].0@,
            decreases 16 - b,
        {
            let bucket = &self.buckets[b];
            let ghost start = r@.len();
            let mut i: usize = 0;
            while i < bucket.len()
                invariant
                    self.wf(),
                    b < 16,
                    bucket == self.buckets@[b as int],
                    i <= bucket@.len(),
                    r@.len() == start + i,
                    forall|j: int|
                        0 <= j < start ==> self@.contains_key(#[trigger] r@[j].0@) && self@[r@[j].0@]
                            == r@[j].1 && hash_chars(r@[j].0@) < b,
                    forall|j: int|
                        0 <= j < i ==> #[trigger] r@[start + j].0@ == self.key_at(b as int, j)
                            && self@[r@[start + j].0@] == r@[start + j].1,
                    forall|k: Seq<char>| #[trigger]
                        self@.contains_key(k) && hash_chars(k) < b ==> exists|j: int|
                            0 <= j < r@.len() && #[trigger] r@[j].0@ == k,
                    forall|x: int, y: int| 0 <= x < y < r@.len() ==> r@[x].0@ != r@[y].0@,
                decreases bucket@.len() - i,
            {
                proof {
                    assert(self.valid_at(b as int, i as int));
                }
                let key = bucket[i].0.clone();
                let count = self.values[bucket[i].1];
                let ghost before = r@;
                r.push((key, count));
                proof {
                    assert(r@[start + i].0@ == self.key_at(b as int, i as int));
                    assert forall|x: int, y: int| 0 <= x < y < r@.len() implies r@[x].0@
                        != r@[y].0@ by {
                        if y == start + i {
                            if x < start {
                                assert(hash_chars(r@[x].0@) < b);
                            } else {
                                let j = x - start;
                                assert(before[start + j].0@ == self.key_at(b as int, j));
                                assert(r@[x] == before[x]);
                                assert(self.valid_at(b as int, x - start));
                            }
                        } else {
                            assert(r@[x] == before[x]);
                            assert(r@[y] == before[y]);
                        }
                    }
                    assert forall|k: Seq<char>| #[trigger]
                        self@.contains_key(k) && hash_chars(k) < b implies exists|j: int|
                            0 <= j < r@.len() && #[trigger] r@[j].0@ == k by {
                        let j = choose|j: int| 0 <= j < before.len() && #[trigger] before[j].0@ == k;
                        assert(r@[j] == before[j]);
                    }
                }
                i += 1;
            }
            proof {
                assert forall|j: int|
                    0 <= j < r@.len() implies self@.contains_key(#[trigger] r@[j].0@) && self@[r@[j].0@]
                        == r@[j].1 && hash_chars(r@[j].0@) < b + 1 by {
                    if j >= start {
                        assert(r@[start + (j - start)].0@ == self.key_at(b as int, j - start));
                        assert(self.valid_at(b as int, j - start));
                    }
                }
                assert forall|k: Seq<char>| #[trigger]
                    self@.contains_key(k) && hash_chars(k) < b + 1 implies exists|j: int|
                        0 <= j < r@.len() && #[trigger] r@[j].0@ == k by {
                    if hash_chars(k) == b {
                        let x = choose|x: int|
                            self.valid_at(hash_chars(k) as int, x) && #[trigger] self.key_at(
                                hash_chars(k) as int,
                                x,
                            ) == k;
                        assert(r@[start + x].0@ == self.key_at(b as int, x));
                    }
                }
            }
            b += 1;
        }
        r
    }

    /// Adds every count of this table into `target`.
    pub fn merge_into(&self, target: &mut FrequencyTable)
        requires
            self.wf(),
            old(target).wf(),
        ensures
            final(target).wf(),
            final(target)@ == merge_models(old(target)@, self@),
    {
        let es = self.entries();
        let ghost t0 = target@;
        let mut i: usize = 0;
        while i < es.len()
            invariant
                target.wf(),
                i <= es@.len(),
                forall|x: int|
                    0 <= x < es@.len() ==> self@.contains_key(#[trigger] es@[x].0@) && self@[es@[x].0@]
                        == es@[x].1,
                forall|k: Seq<char>| #[trigger]
                    self@.contains_key(k) ==> exists|x: int|
                        0 <= x < es@.len() && #[trigger] es@[x].0@ == k,
                forall|x: int, y: int| 0 <= x < y < es@.len() ==> es@[x].0@ != es@[y].0@,
                forall|k: Seq<char>|
                    #![trigger target@.contains_key(k)]
                    (exists|x: int| 0 <= x < i && #[trigger] es@[x].0@ == k) ==> target@.contains_key(k)
                        && target@[k] == add_counts(count_of(t0, k), self@[k]),
                forall|k: Seq<char>|
                    #![trigger target@.contains_key(k)]
                    !(exists|x: int| 0 <= x < i && #[trigger] es@[x].0@ == k) ==> target@.contains_key(k)
                        == t0.contains_key(k) && count_of(target@, k) == count_of(t0, k),
            decreases es@.len() - i,
        {
            let ghost k0 = es@[i as int].0@;
            let ghost tprev = target@;
            proof {
                assert(!(exists|x: int| 0 <= x < i && #[trigger] es@[x].0@ == k0));
                assert(tprev.contains_key(k0) == t0.contains_key(k0));
                assert(self@.contains_key(es@[i as int].0@));
            }
            target.add_count(&es[i].0, es[i].1);
            proof {
                assert forall|k: Seq<char>|
                    (exists|x: int| 0 <= x < i + 1 && #[trigger] es@[x].0@ == k) implies target@.contains_key(k)
                        && target@[k] == add_counts(count_of(t0, k), self@[k]) by {
                    if k != k0 {
                        let x = choose|x: int| 0 <= x < i + 1 && #[trigger] es@[x].0@ == k;
                        assert(x < i);
                        assert(tprev.contains_key(k));
                    }
                }
                assert forall|k: Seq<char>|
                    !(exists|x: int| 0 <= x < i + 1 && #[trigger] es@[x].0@ == k) implies target@.contains_key(k)
                        == t0.contains_key(k) && count_of(target@, k) == count_of(t0, k) by {
                    assert(es@[i as int].0@ == k0);
                    assert(k != k0);
                }
            }
            i += 1;
        }
        proof {
            assert forall|k: Seq<char>| #[trigger]
                target@.contains_key(k) == merge_models(t0, self@).contains_key(k) by {
                if self@.contains_key(k) {
                    let x = choose|x: int| 0 <= x < es@.len() && #[trigger] es@[x].0@ == k;
                }
                if exists|x: int| 0 <= x < es@.len() && #[trigger] es@[x].0@ == k {
                    let x = choose|x: int| 0 <= x < es@.len() && #[trigger] es@[x].0@ == k;
                    assert(self@.contains_key(es@[x].0@));
                }
            }
            assert forall|k: Seq<char>| #[trigger]
                target@.contains_key(k) implies target@[k] == merge_models(t0, self@)[k] by {
                if self@.contains_key(k) {
                    let x = choose|x: int| 0 <= x < es@.len() && #[trigger] es@[x].0@ == k;
                } else {
                    if exists|x: int| 0 <= x < es@.len() && #[trigger] es@[x].0@ == k {
                        let x = choose|x: int| 0 <= x < es@.len() && #[trigger] es@[x].0@ == k;
                        assert(self@.contains_key(es@[x].0@));
                    }
                }
            }
            assert(target@ =~= merge_models(t0, self@));
        }
    }
}

} // verus!
