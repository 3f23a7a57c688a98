//! Tallies keyed by strings: `CountTable` (key to count) and `NestedTable`
//! (key to a `CountTable`), each kept as parallel vectors with distinct keys.

use vstd::prelude::*;
use crate::complexity::chars_of;

verus! {

/// The map that the association list `keys`/`vals` stands for: later
/// entries win, which makes no difference when the keys are distinct.
pub open spec fn assoc_map<V>(keys: Seq<Seq<char>>, vals: Seq<V>) -> Map<Seq<char>, V>
    decreases keys.len(),
{
    if keys.len() == 0 || vals.len() == 0 {
        Map::empty()
    } else {
        assoc_map(keys.drop_last(), vals.drop_last()).insert(keys.last(), vals.last())
    }
}

/// No key occurs twice.
pub open spec fn distinct_keys(keys: Seq<Seq<char>>) -> bool {
    forall|i: int, j: int| 0 <= i < j < keys.len() ==> keys[i] != keys[j]
}

/// The count stored for `k` in `m`, or 0.
pub open spec fn count_in(m: Map<Seq<char>, nat>, k: Seq<char>) -> nat {
    if m.contains_key(k) {
        m[k]
    } else {
        0
    }
}

/// The pointwise sum of two tallies; its keys are those of either.
pub open spec fn sum_maps(a: Map<Seq<char>, nat>, b: Map<Seq<char>, nat>) -> Map<
    Seq<char>,
    nat,
> {
    Map::new(
        |k: Seq<char>| a.contains_key(k) || b.contains_key(k),
        |k: Seq<char>| count_in(a, k) + count_in(b, k),
    )
}

pub proof fn lemma_assoc_map_dom<V>(keys: Seq<Seq<char>>, vals: Seq<V>, k: Seq<char>)
    requires
        keys.len() == vals.len(),
    ensures
        assoc_map(keys, vals).contains_key(k) <==> exists|i: int| 0 <= i < keys.len() && keys[i] == k,
    decreases keys.len(),
{
    if keys.len() > 0 {
        lemma_assoc_map_dom(keys.drop_last(), vals.drop_last(), k);
        if assoc_map(keys, vals).contains_key(k) {
            if k != keys.last() {
                let i = choose|i: int| 0 <= i < keys.drop_last().len() && keys.drop_last()[i] == k;
                assert(keys[i] == k);
            } else {
                assert(keys[keys.len() - 1] == k);
            }
        }
        if exists|i: int| 0 <= i < keys.len() && keys[i] == k {
            let i = choose|i: int| 0 <= i < keys.len() && keys[i] == k;
            if i < keys.len() - 1 {
                assert(keys.drop_last()[i] == k);
            }
        }
    }
}

pub proof fn lemma_assoc_map_at<V>(keys: Seq<Seq<char>>, vals: Seq<V>, i: int)
    requires
        keys.len() == vals.len(),
        distinct_keys(keys),
        0 <= i < keys.len(),
    ensures
        assoc_map(keys, vals).contains_key(keys[i]),
        assoc_map(keys, vals)[keys[i]] == vals[i],
    decreases keys.len(),
{
    if i < keys.len() - 1 {
        lemma_assoc_map_at(keys.drop_last(), vals.drop_last(), i);
        assert(keys.drop_last()[i] == keys[i]);
    }
}

pub proof fn lemma_assoc_map_update<V>(keys: Seq<Seq<char>>, vals: Seq<V>, i: int, v: V)
    requires
        keys.len() == vals.len(),
        distinct_keys(keys),
        0 <= i < keys.len(),
    ensures
        assoc_map(keys, vals.update(i, v)) == assoc_map(keys, vals).insert(keys[i], v),
    decreases keys.len(),
{
    if i == keys.len() - 1 {
        assert(vals.update(i, v).drop_last() =~= vals.drop_last());
        lemma_assoc_map_dom(keys.drop_last(), vals.drop_last(), keys[i]);
        assert(assoc_map(keys, vals.update(i, v)) =~= assoc_map(keys, vals).insert(keys[i], v));
    } else {
        assert(vals.update(i, v).drop_last() =~= vals.drop_last().update(i, v));
        lemma_assoc_map_update(keys.drop_last(), vals.drop_last(), i, v);
        assert(keys.drop_last()[i] == keys[i]);
        assert(assoc_map(keys, vals.update(i, v)) =~= assoc_map(keys, vals).insert(keys[i], v));
    }
}

pub proof fn lemma_assoc_map_push<V>(keys: Seq<Seq<char>>, vals: Seq<V>, k: Seq<char>, v: V)
    requires
        keys.len() == vals.len(),
    ensures
        assoc_map(keys.push(k), vals.push(v)) == assoc_map(keys, vals).insert(k, v),
{
    assert(keys.push(k).drop_last() =~= keys);
    assert(vals.push(v).drop_last() =~= vals);
}

// ---------------------------------------------------------------------------
// Key index
// ---------------------------------------------------------------------------

/// The modulus of the key hash.
pub open spec fn hash_modulus() -> nat {
    1000003
}

/// A polynomial hash of a key, reduced at every step.
pub open spec fn string_hash(s: Seq<char>) -> nat
    decreases s.len(),
{
    if s.len() == 0 {
        0
    } else {
        (string_hash(s.drop_last()) * 31 + (s.last() as u32) as nat) % hash_modulus()
    }
}

/// The hash of `s`.
fn hash_of(s: &String) -> (h: u64)
    ensures
        h == string_hash(s@),
        h < hash_modulus(),
{
    let v = chars_of(s.as_str());
    let mut h: u64 = 0;
    let mut i: usize = 0;
    while i < v.len()
        invariant
            v@ == s@,
            i <= v@.len(),
            h == string_hash(v@.take(i as int)),
            h < hash_modulus(),
        decreases v@.len() - i,
    {
        proof {
            assert(v@.take(i + 1).drop_last() =~= v@.take(i as int));
        }
        let code: u32 = v[i] as u32;
        h = (h * 31 + code as u64) % 1000003;
        i += 1;
    }
    proof {
        assert(v@.take(i as int) =~= s@);
    }
    h
}

/// For each hash bucket, the positions of the keys that fall in it.
#[derive(Debug)]
struct KeyIndex {
    buckets: Vec<Vec<usize>>,
}

impl KeyIndex {
    /// The bucket of key `k`.
    spec fn bucket(&self, k: Seq<char>) -> int {
        (string_hash(k) % (self.buckets@.len() as nat)) as int
    }

    /// The position stored at slot `j` of bucket `b`.
    spec fn slot(&self, b: int, j: int) -> int {
        self.buckets@[b]@[j] as int
    }

    /// Position `i` of `keys` is listed in the bucket of its key.
    spec fn listed(&self, keys: Seq<Seq<char>>, i: int) -> bool {
        let b = self.bucket(keys[i]);
        exists|j: int| 0 <= j < self.buckets@[b]@.len() && #[trigger] self.slot(b, j) == i
    }

    /// The index lists every position of `keys` in its key's bucket, and nothing else.
    spec fn indexes(&self, keys: Seq<Seq<char>>) -> bool {
        &&& self.buckets@.len() > 0
        &&& forall|b: int, j: int|
            0 <= b < self.buckets@.len() && 0 <= j < self.buckets@[b]@.len() ==> 0 <= #[trigger] self.slot(
                b,
                j,
            ) < keys.len() && self.bucket(keys[self.slot(b, j)]) == b
        &&& forall|i: int| 0 <= i < keys.len() ==> #[trigger] self.listed(keys, i)
    }

    /// An empty index with `n` buckets.
    fn with_buckets(n: usize) -> (x: KeyIndex)
        requires
            n > 0,
        ensures
            x.indexes(Seq::empty()),
            x.buckets@.len() == n,
    {
        let mut buckets: Vec<Vec<usize>> = Vec::new();
        let mut b: usize = 0;
        while b < n
            invariant
                b <= n,
                buckets@.len() == b,
                forall|q: int| 0 <= q < b ==> #[trigger] buckets@[q]@.len() == 0,
            decreases n - b,
        {
            buckets.push(Vec::new());
            b += 1;
        }
        KeyIndex { buckets }
    }

    /// An empty index.
    fn new() -> (x: KeyIndex)
        ensures
            x.indexes(Seq::empty()),
    {
        KeyIndex::with_buckets(64)
    }

    /// The number of buckets.
    fn bucket_count(&self) -> (n: usize)
        ensures
            n == self.buckets@.len(),
    {
        self.buckets.len()
    }

    /// An index of `keys` with `n` buckets.
    fn rebuild(keys: &Vec<String>, n: usize) -> (x: KeyIndex)
        requires
            n > 0,
        ensures
            x.indexes(Seq::new(keys@.len(), |i: int| keys@[i]@)),
    {
        let ghost ks = Seq::new(keys@.len(), |i: int| keys@[i]@);
        let mut x = KeyIndex::with_buckets(n);
        let mut i: usize = 0;
        proof {
            assert(ks.take(0) =~= Seq::<Seq<char>>::empty());
        }
        while i < keys.len()
            invariant
                i <= keys@.len(),
                ks == Seq::new(keys@.len(), |i: int| keys@[i]@),
                x.indexes(ks.take(i as int)),
            decreases keys@.len() - i,
        {
            proof {
                assert(ks.take(i + 1) =~= ks.take(i as int).push(keys@[i as int]@));
            }
            x.insert(Ghost(ks.take(i as int)), &keys[i], i);
            i += 1;
        }
        proof {
            assert(ks.take(i as int) =~= ks);
        }
        x
    }

    /// The bucket of `key`.
    fn bucket_of(&self, key: &String) -> (b: usize)
        requires
            self.buckets@.len() > 0,
        ensures
            b == self.bucket(key@),
            b < self.buckets@.len(),
    {
        let h = hash_of(key);
        (h % (self.buckets.len() as u64)) as usize
    }

    /// The position of `key` in `keys`, if it is there.
    fn find(&self, keys: &Vec<String>, key: &String) -> (r: Option<usize>)
        requires
            self.indexes(Seq::new(keys@.len(), |i: int| keys@[i]@)),
        ensures
            match r {
                Some(i) => i < keys@.len() && keys@[i as int]@ == key@,
                None => forall|i: int| 0 <= i < keys@.len() ==> keys@[i]@ != key@,
            },
    {
        let ghost ks = Seq::new(keys@.len(), |i: int| keys@[i]@);
        let b = self.bucket_of(key);
        let bucket = &self.buckets[b];
        let mut j: usize = 0;
        while j < bucket.len()
            invariant
                self.indexes(ks),
                ks == Seq::new(keys@.len(), |i: int| keys@[i]@),
                b == self.bucket(key@),
                b < self.buckets@.len(),
                *bucket == self.buckets@[b as int],
                j <= bucket@.len(),
                forall|q: int| 0 <= q < j ==> keys@[#[trigger] self.slot(b as int, q)]@ != key@,
            decreases bucket@.len() - j,
        {
            let pos = bucket[j];
            assert(pos == self.slot(b as int, j as int));
            if keys[pos] == *key {
                return Some(pos);
            }
            j += 1;
        }
        proof {
            assert forall|i: int| 0 <= i < keys@.len() implies keys@[i]@ != key@ by {
                if keys@[i]@ == key@ {
                    assert(ks[i] == key@);
                    assert(self.listed(ks, i));
                    let q = choose|q: int|
                        0 <= q < bucket@.len() && #[trigger] self.slot(b as int, q) == i;
                    assert(keys@[self.slot(b as int, q)]@ != key@);
                }
            }
        }
        None
    }

    /// Records that position `keys.len()` holds `key`.
    fn insert(&mut self, keys: Ghost<Seq<Seq<char>>>, key: &String, pos: usize)
        requires
            old(self).indexes(keys@),
            pos == keys@.len(),
        ensures
            final(self).indexes(keys@.push(key@)),
    {
        let ghost ks = keys@;
        let ghost nks = ks.push(key@);
        let b = self.bucket_of(key);
        let mut v: Vec<usize> = Vec::new();
        self.buckets.set_and_swap(b, &mut v);
        let ghost old_v = v@;
        v.push(pos);
        self.buckets.set(b, v);
        proof {
            assert(self.buckets@.len() == old(self).buckets@.len());
            assert forall|k: Seq<char>| #[trigger] self.bucket(k) == old(self).bucket(k) by {}
            assert(nks[ks.len() as int] == key@);
            assert forall|c: int, j: int|
                0 <= c < self.buckets@.len() && 0 <= j < self.buckets@[c]@.len() implies 0
                <= #[trigger] self.slot(c, j) < nks.len() && self.bucket(nks[self.slot(c, j)]) == c by {
                if c == b && j == old_v.len() {
                } else {
                    assert(self.slot(c, j) == old(self).slot(c, j));
                    assert(nks[self.slot(c, j)] == ks[old(self).slot(c, j)]);
                }
            }
            assert forall|i: int| 0 <= i < nks.len() implies #[trigger] self.listed(nks, i) by {
                if i == ks.len() {
                    assert(self.slot(b as int, old_v.len() as int) == i);
                } else {
                    assert(nks[i] == ks[i]);
                    assert(old(self).listed(ks, i));
                    let c = old(self).bucket(ks[i]);
                    let j = choose|j: int|
                        0 <= j < old(self).buckets@[c]@.len() && #[trigger] old(self).slot(c, j)
                            == i;
                    assert(self.slot(c, j) == i);
                }
            }
            assert(self.indexes(nks));
        }
    }
}

/// Every key of `m` has a positive count.
pub open spec fn positive(m: Map<Seq<char>, nat>) -> bool {
    forall|k: Seq<char>| #[trigger] m.contains_key(k) ==> m[k] > 0
}

/// Every outer key of `m` holds a non-empty tally of positive counts.
pub open spec fn positive_nested(m: Map<Seq<char>, Map<Seq<char>, nat>>) -> bool {
    forall|o: Seq<char>| #[trigger]
        m.contains_key(o) ==> positive(m[o]) && exists|k: Seq<char>| m[o].contains_key(k)
}

/// Tallies of positive counts are equal when they agree on every count.
pub proof fn lemma_positive_ext(a: Map<Seq<char>, nat>, b: Map<Seq<char>, nat>)
    requires
        positive(a),
        positive(b),
        forall|k: Seq<char>| count_in(a, k) == count_in(b, k),
    ensures
        a == b,
{
    assert forall|k: Seq<char>| a.contains_key(k) <==> b.contains_key(k) by {
        assert(count_in(a, k) == count_in(b, k));
    }
    assert forall|k: Seq<char>| a.contains_key(k) implies a[k] == b[k] by {
        assert(count_in(a, k) == count_in(b, k));
    }
    assert(a =~= b);
}

/// Nested tallies of positive counts are equal when they agree on every count.
pub proof fn lemma_positive_nested_ext(
    a: Map<Seq<char>, Map<Seq<char>, nat>>,
    b: Map<Seq<char>, Map<Seq<char>, nat>>,
)
    requires
        positive_nested(a),
        positive_nested(b),
        forall|o: Seq<char>, k: Seq<char>|
            count_in(inner_of(a, o), k) == count_in(inner_of(b, o), k),
    ensures
        a == b,
{
    assert forall|o: Seq<char>| a.contains_key(o) implies b.contains_key(o) by {
        let k = choose|k: Seq<char>| a[o].contains_key(k);
        assert(count_in(inner_of(a, o), k) == count_in(inner_of(b, o), k));
    }
    assert forall|o: Seq<char>| b.contains_key(o) implies a.contains_key(o) by {
        let k = choose|k: Seq<char>| b[o].contains_key(k);
        assert(count_in(inner_of(a, o), k) == count_in(inner_of(b, o), k));
    }
    assert forall|o: Seq<char>| a.contains_key(o) implies a[o] == b[o] by {
        assert forall|k: Seq<char>| count_in(a[o], k) == count_in(b[o], k) by {
            assert(count_in(inner_of(a, o), k) == count_in(inner_of(b, o), k));
        }
        lemma_positive_ext(a[o], b[o]);
    }
    assert(a =~= b);
}

/// `r` lists the entries of the tally `m`, each once, ordered by count from
/// highest to lowest.
pub open spec fn is_ranking(r: Seq<(Seq<char>, nat)>, m: Map<Seq<char>, nat>) -> bool {
    &&& forall|i: int, j: int| 0 <= i < j < r.len() ==> r[i].1 >= r[j].1
    &&& forall|i: int|
        0 <= i < r.len() ==> m.contains_key(#[trigger] r[i].0) && m[r[i].0] == r[i].1
    &&& forall|k: Seq<char>| #[trigger]
        m.contains_key(k) ==> exists|i: int| 0 <= i < r.len() && r[i].0 == k
    &&& forall|i: int, j: int| 0 <= i < j < r.len() ==> r[i].0 != r[j].0
}

/// The views of key/count pairs.
pub open spec fn entry_views(r: Seq<(String, usize)>) -> Seq<(Seq<char>, nat)> {
    r.map_values(|e: (String, usize)| (e.0@, e.1 as nat))
}

/// A tally from string keys to counts.
#[derive(Debug)]
pub struct CountTable {
    keys: Vec<String>,
    counts: Vec<usize>,
    index: KeyIndex,
}

impl CountTable {
    /// The keys, in the order they were first added.
    pub closed spec fn key_seq(&self) -> Seq<Seq<char>> {
        Seq::new(self.keys@.len(), |i: int| self.keys@[i]@)
    }

    /// The counts, parallel to `key_seq`.
    pub closed spec fn count_seq(&self) -> Seq<nat> {
        Seq::new(self.counts@.len(), |i: int| self.counts@[i] as nat)
    }

    /// The table's invariant: parallel vectors, no key twice, every key indexed.
    pub closed spec fn wf(&self) -> bool {
        &&& self.keys@.len() == self.counts@.len()
        &&& distinct_keys(self.key_seq())
        &&& self.index.indexes(self.key_seq())
    }

    /// The number of keys.
    pub closed spec fn size(&self) -> nat {
        self.keys@.len()
    }

    /// The tally as a map.
    pub closed spec fn map(&self) -> Map<Seq<char>, nat> {
        assoc_map(self.key_seq(), self.count_seq())
    }

    /// The count of `k`, or 0 when `k` was never added.
    pub open spec fn count(&self, k: Seq<char>) -> nat {
        count_in(self.map(), k)
    }

    /// The key at position `i`.
    pub closed spec fn key_at(&self, i: int) -> Seq<char> {
        self.keys@[i]@
    }

    /// The count at position `i`.
    pub closed spec fn count_at(&self, i: int) -> nat {
        self.counts@[i] as nat
    }

    /// Position `i` holds a key of the map with its count.
    pub proof fn lemma_entry(&self, i: int)
        requires
            self.wf(),
            0 <= i < self.size(),
        ensures
            self.map().contains_key(self.key_at(i)),
            self.map()[self.key_at(i)] == self.count_at(i),
    {
        lemma_assoc_map_at(self.key_seq(), self.count_seq(), i);
    }

    /// Every key of the map sits at some position, and positions hold distinct keys.
    pub proof fn lemma_keys(&self)
        requires
            self.wf(),
        ensures
            forall|k: Seq<char>| #[trigger]
                self.map().contains_key(k) ==> exists|i: int|
                    0 <= i < self.size() && self.key_at(i) == k,
            forall|i: int, j: int|
                0 <= i < j < self.size() ==> self.key_at(i) != self.key_at(j),
    {
        assert forall|k: Seq<char>| #[trigger]
            self.map().contains_key(k) implies exists|i: int|
                0 <= i < self.size() && self.key_at(i) == k by {
            lemma_assoc_map_dom(self.key_seq(), self.count_seq(), k);
            let i = choose|i: int| 0 <= i < self.key_seq().len() && self.key_seq()[i] == k;
            assert(self.key_at(i) == k);
        }
        assert forall|i: int, j: int| 0 <= i < j < self.size() implies self.key_at(i)
            != self.key_at(j) by {
            assert(self.key_seq()[i] == self.key_at(i));
            assert(self.key_seq()[j] == self.key_at(j));
        }
    }

    /// An empty table.
    pub fn new() -> (t: CountTable)
        ensures
            t.wf(),
            t.map() == Map::<Seq<char>, nat>::empty(),
            t.size() == 0,
    {
        let t = CountTable { keys: Vec::new(), counts: Vec::new(), index: KeyIndex::new() };
        assert(t.key_seq() =~= Seq::<Seq<char>>::empty());
        t
    }

    /// The number of keys.
    pub fn len(&self) -> (n: usize)
        ensures
            n == self.size(),
    {
        self.keys.len()
    }

    /// The key at position `i`.
    pub fn key(&self, i: usize) -> (k: &String)
        requires
            self.wf(),
            i < self.size(),
        ensures
            k@ == self.key_at(i as int),
    {
        &self.keys[i]
    }

    /// The count at position `i`.
    pub fn count_of_entry(&self, i: usize) -> (c: usize)
        requires
            self.wf(),
            i < self.size(),
        ensures
            c == self.count_at(i as int),
    {
        self.counts[i]
    }

    /// The position of `key`, if it is in the table.
    fn find(&self, key: &String) -> (r: Option<usize>)
        requires
            self.wf(),
        ensures
            match r {
                Some(i) => i < self.size() && self.key_at(i as int) == key@,
                None => !self.map().contains_key(key@),
            },
    {
        let r = self.index.find(&self.keys, key);
        proof {
            if r is None {
                lemma_assoc_map_dom(self.key_seq(), self.count_seq(), key@);
                if self.map().contains_key(key@) {
                    let j = choose|j: int|
                        0 <= j < self.key_seq().len() && self.key_seq()[j] == key@;
                    assert(self.keys@[j]@ == key@);
                }
            }
        }
        r
    }

    /// The count of `key` (0 when absent).
    pub fn get(&self, key: &String) -> (c: usize)
        requires
            self.wf(),
        ensures
            c == self.count(key@),
    {
        match self.find(key) {
            Some(i) => {
                proof {
                    self.lemma_entry(i as int);
                }
                self.counts[i]
            },
            None => 0,
        }
    }

    /// Adds `amount` to the count of `key`, entering `key` when absent.
    pub fn add(&mut self, key: &String, amount: usize)
        requires
            old(self).wf(),
            old(self).count(key@) + amount <= usize::MAX,
        ensures
            final(self).wf(),
            final(self).map() == old(self).map().insert(key@, (old(self).count(key@) + amount) as nat),
    {
        match self.find(key) {
            Some(i) => {
                proof {
                    self.lemma_entry(i as int);
                }
                let c = self.counts[i] + amount;
                let ghost ks = self.key_seq();
                let ghost cs = self.count_seq();
                self.counts.set(i, c);
                proof {
                    assert(self.key_seq() =~= ks);
                    assert(self.count_seq() =~= cs.update(i as int, c as nat));
                    lemma_assoc_map_update(ks, cs, i as int, c as nat);
                }
            },
            None => {
                let ghost ks = self.key_seq();
                let ghost cs = self.count_seq();
                let pos = self.keys.len();
                self.index.insert(Ghost(ks), key, pos);
                self.keys.push(key.clone());
                self.counts.push(amount);
                let nb = self.index.bucket_count();
                if self.keys.len() / 4 > nb {
                    self.index = KeyIndex::rebuild(&self.keys, nb * 2);
                }
                proof {
                    assert(self.key_seq() =~= ks.push(key@));
                    assert(self.count_seq() =~= cs.push(amount as nat));
                    lemma_assoc_map_push(ks, cs, key@, amount as nat);
                    lemma_assoc_map_dom(ks, cs, key@);
                    assert forall|a: int, b: int|
                        0 <= a < b < self.key_seq().len() implies self.key_seq()[a]
                        != self.key_seq()[b] by {
                        if b == ks.len() {
                            assert(ks[a] == self.key_seq()[a]);
                        } else {
                            assert(ks[a] == self.key_seq()[a]);
                            assert(ks[b] == self.key_seq()[b]);
                        }
                    }
                }
            },
        }
    }
}


impl CountTable {
    /// Adds every count of `other` to this table.
    pub fn merge(&mut self, other: &CountTable)
        requires
            old(self).wf(),
            other.wf(),
            forall|k: Seq<char>| old(self).count(k) + other.count(k) <= usize::MAX,
        ensures
            final(self).wf(),
            final(self).map() == sum_maps(old(self).map(), other.map()),
    {
        let ghost base = self.map();
        let ghost oks = other.key_seq();
        let ghost ocs = other.count_seq();
        let mut i: usize = 0;
        proof {
            assert(oks.take(0) =~= Seq::<Seq<char>>::empty());
            assert(ocs.take(0) =~= Seq::<nat>::empty());
            assert(self.map() =~= sum_maps(base, assoc_map(oks.take(0), ocs.take(0))));
        }
        while i < other.keys.len()
            invariant
                self.wf(),
                other.wf(),
                oks == other.key_seq(),
                ocs == other.count_seq(),
                i <= oks.len(),
                forall|k: Seq<char>| count_in(base, k) + other.count(k) <= usize::MAX,
                self.map() == sum_maps(base, assoc_map(oks.take(i as int), ocs.take(i as int))),
            decreases oks.len() - i,
        {
            let ghost k = oks[i as int];
            let ghost prefix = assoc_map(oks.take(i as int), ocs.take(i as int));
            proof {
                lemma_assoc_map_dom(oks.take(i as int), ocs.take(i as int), k);
                assert forall|j: int| 0 <= j < i implies oks.take(i as int)[j] != k by {
                    assert(oks.take(i as int)[j] == oks[j]);
                }
                assert(!prefix.contains_key(k));
                other.lemma_entry(i as int);
                assert(other.key_at(i as int) == k);
            }
            let c = other.counts[i];
            self.add(&other.keys[i], c);
            proof {
                assert(oks.take(i + 1).drop_last() =~= oks.take(i as int));
                assert(ocs.take(i + 1).drop_last() =~= ocs.take(i as int));
                let next = assoc_map(oks.take(i + 1), ocs.take(i + 1));
                assert(next == prefix.insert(k, c as nat));
                assert(self.map() =~= sum_maps(base, next));
            }
            i += 1;
        }
        proof {
            assert(oks.take(oks.len() as int) =~= oks);
            assert(ocs.take(ocs.len() as int) =~= ocs);
        }
    }

    /// The entries, ordered by count from highest to lowest.
    pub fn ranked(&self) -> (r: Vec<(String, usize)>)
        requires
            self.wf(),
        ensures
            is_ranking(entry_views(r@), self.map()),
    {
        let mut s: Vec<(String, usize)> = Vec::new();
        let mut i: usize = 0;
        while i < self.keys.len()
            invariant
                self.wf(),
                i <= self.size(),
                s@.len() == i,
                forall|j: int|
                    0 <= j < i ==> s@[j].0@ == self.key_at(j) && s@[j].1 == self.count_at(j),
            decreases self.size() - i,
        {
            s.push((self.keys[i].clone(), self.counts[i]));
            i += 1;
        }
        proof {
            self.lemma_keys();
            assert forall|a: int, b: int|
                0 <= a < s@.len() && 0 <= b < s@.len() && a != b implies s@[a] != s@[b] by {
                if a < b {
                    assert(self.key_at(a) != self.key_at(b));
                } else {
                    assert(self.key_at(b) != self.key_at(a));
                }
            }
            s@.lemma_multiset_has_no_duplicates();
        }
        let r = sort_by_count_desc(&s);
        proof {
            broadcast use vstd::seq_lib::group_to_multiset_ensures;

            assert forall|x: (String, usize)| r@.to_multiset().contains(x) implies r@.to_multiset().count(x)
                == 1 by {
                assert(s@.to_multiset().contains(x));
            }
            r@.lemma_multiset_has_no_duplicates_conv();
            assert forall|a: int| 0 <= a < r@.len() implies exists|j: int|
                0 <= j < s@.len() && s@[j] == #[trigger] r@[a] by {
                assert(r@.to_multiset().count(r@[a]) > 0);
                assert(s@.contains(r@[a]));
            }
            assert forall|a: int|
                0 <= a < r@.len() implies self.map().contains_key(#[trigger] r@[a].0@)
                && self.map()[r@[a].0@] == r@[a].1 by {
                let j = choose|j: int| 0 <= j < s@.len() && s@[j] == r@[a];
                self.lemma_entry(j);
            }
            assert forall|k: Seq<char>| #[trigger] self.map().contains_key(k) implies exists|a: int|
                0 <= a < r@.len() && r@[a].0@ == k by {
                let j = choose|j: int| 0 <= j < self.size() && self.key_at(j) == k;
                assert(s@.contains(s@[j]));
                assert(r@.to_multiset().count(s@[j]) > 0);
                assert(r@.contains(s@[j]));
                let a = choose|a: int| 0 <= a < r@.len() && r@[a] == s@[j];
                assert(r@[a].0@ == k);
            }
            assert forall|a: int, b: int| 0 <= a < b < r@.len() implies r@[a].0@ != r@[b].0@ by {
                let ja = choose|j: int| 0 <= j < s@.len() && s@[j] == r@[a];
                let jb = choose|j: int| 0 <= j < s@.len() && s@[j] == r@[b];
                assert(r@[a] != r@[b]);
                assert(ja != jb);
                if ja < jb {
                    assert(self.key_at(ja) != self.key_at(jb));
                } else {
                    assert(self.key_at(jb) != self.key_at(ja));
                }
            }
            let e = entry_views(r@);
            assert forall|k: Seq<char>| #[trigger] self.map().contains_key(k) implies exists|a: int|
                0 <= a < e.len() && e[a].0 == k by {
                let a = choose|a: int| 0 <= a < r@.len() && r@[a].0@ == k;
                assert(e[a].0 == k);
            }
        }
        r
    }
}

impl CountTable {
    /// Every count fits in a `usize`.
    pub proof fn lemma_count_bounded(&self, k: Seq<char>)
        requires
            self.wf(),
        ensures
            self.count(k) <= usize::MAX,
    {
        if self.map().contains_key(k) {
            self.lemma_keys();
            let i = choose|i: int| 0 <= i < self.size() && self.key_at(i) == k;
            self.lemma_entry(i);
        }
    }

    /// Whether `merge(other)` may be called: no summed count exceeds `usize::MAX`.
    pub fn can_merge(&self, other: &CountTable) -> (b: bool)
        requires
            self.wf(),
            other.wf(),
        ensures
            b == (forall|k: Seq<char>| self.count(k) + other.count(k) <= usize::MAX),
    {
        let mut i: usize = 0;
        while i < other.keys.len()
            invariant
                self.wf(),
                other.wf(),
                i <= other.size(),
                forall|j: int|
                    0 <= j < i ==> self.count(other.key_at(j)) + other.count_at(j) <= usize::MAX,
            decreases other.size() - i,
        {
            let c = self.get(&other.keys[i]);
            if c > usize::MAX - other.counts[i] {
                proof {
                    other.lemma_entry(i as int);
                    assert(self.count(other.key_at(i as int)) + other.count(other.key_at(i as int))
                        > usize::MAX);
                }
                return false;
            }
            i += 1;
        }
        proof {
            other.lemma_keys();
            assert forall|k: Seq<char>| self.count(k) + other.count(k) <= usize::MAX by {
                self.lemma_count_bounded(k);
                if other.map().contains_key(k) {
                    let j = choose|j: int| 0 <= j < other.size() && other.key_at(j) == k;
                    other.lemma_entry(j);
                }
            }
        }
        true
    }
}

/// `r` is ordered by count, from highest to lowest.
pub open spec fn sorted_desc(r: Seq<(String, usize)>) -> bool {
    forall|i: int, j: int| 0 <= i < j < r.len() ==> r[i].1 >= r[j].1
}

/// The merge of two lists ordered by count, from highest to lowest.
fn merge_desc(a: &Vec<(String, usize)>, b: &Vec<(String, usize)>) -> (r: Vec<(String, usize)>)
    requires
        sorted_desc(a@),
        sorted_desc(b@),
    ensures
        r@.to_multiset() == a@.to_multiset().add(b@.to_multiset()),
        r@.len() == a@.len() + b@.len(),
        sorted_desc(r@),
{
    broadcast use vstd::seq_lib::group_to_multiset_ensures;
    broadcast use vstd::multiset::group_multiset_axioms;

    let mut r: Vec<(String, usize)> = Vec::new();
    let mut i: usize = 0;
    let mut j: usize = 0;
    proof {
        assert(a@.take(0) =~= Seq::<(String, usize)>::empty());
        assert(b@.take(0) =~= Seq::<(String, usize)>::empty());
        assert(r@.to_multiset() =~= a@.take(0).to_multiset().add(b@.take(0).to_multiset()));
    }
    while i < a.len() || j < b.len()
        invariant
            sorted_desc(a@),
            sorted_desc(b@),
            i <= a@.len(),
            j <= b@.len(),
            r@.len() == i + j,
            r@.to_multiset() == a@.take(i as int).to_multiset().add(b@.take(j as int).to_multiset()),
            sorted_desc(r@),
            r@.len() > 0 && i < a@.len() ==> r@.last().1 >= a@[i as int].1,
            r@.len() > 0 && j < b@.len() ==> r@.last().1 >= b@[j as int].1,
        decreases a@.len() + b@.len() - i - j,
    {
        let ghost before = r@;
        if j >= b.len() || (i < a.len() && a[i].1 >= b[j].1) {
            let e = (a[i].0.clone(), a[i].1);
            assert(e == a@[i as int]);
            r.push(e);
            proof {
                assert(a@.take(i + 1) =~= a@.take(i as int).push(e));
                assert(r@ == before.push(e));
                vstd::seq_lib::to_multiset_build(before, e);
                vstd::seq_lib::to_multiset_build(a@.take(i as int), e);
                assert(r@.to_multiset() =~= a@.take(i + 1).to_multiset().add(
                    b@.take(j as int).to_multiset(),
                ));
                assert forall|x: int, y: int| 0 <= x < y < r@.len() implies r@[x].1 >= r@[y].1 by {
                    if y < before.len() {
                        assert(r@[x] == before[x] && r@[y] == before[y]);
                    } else if x < before.len() {
                        assert(r@[x] == before[x]);
                        assert(before[x].1 >= before.last().1 || x == before.len() - 1);
                    }
                }
            }
            i += 1;
        } else {
            let e = (b[j].0.clone(), b[j].1);
            assert(e == b@[j as int]);
            r.push(e);
            proof {
                assert(b@.take(j + 1) =~= b@.take(j as int).push(e));
                assert(r@ == before.push(e));
                vstd::seq_lib::to_multiset_build(before, e);
                vstd::seq_lib::to_multiset_build(b@.take(j as int), e);
                assert(r@.to_multiset() =~= a@.take(i as int).to_multiset().add(
                    b@.take(j + 1).to_multiset(),
                ));
                assert forall|x: int, y: int| 0 <= x < y < r@.len() implies r@[x].1 >= r@[y].1 by {
                    if y < before.len() {
                        assert(r@[x] == before[x] && r@[y] == before[y]);
                    } else if x < before.len() {
                        assert(r@[x] == before[x]);
                        assert(before[x].1 >= before.last().1 || x == before.len() - 1);
                    }
                }
            }
            j += 1;
        }
    }
    proof {
        assert(a@.take(i as int) =~= a@);
        assert(b@.take(j as int) =~= b@);
    }
    r
}

/// The entries `s[lo..hi]` ordered by count, from highest to lowest.
fn sort_range_desc(s: &Vec<(String, usize)>, lo: usize, hi: usize) -> (r: Vec<(String, usize)>)
    requires
        lo <= hi <= s@.len(),
    ensures
        r@.to_multiset() == s@.subrange(lo as int, hi as int).to_multiset(),
        r@.len() == hi - lo,
        sorted_desc(r@),
    decreases hi - lo,
{
    broadcast use vstd::seq_lib::group_to_multiset_ensures;

    if hi - lo <= 1 {
        let mut r: Vec<(String, usize)> = Vec::new();
        if hi > lo {
            let e = (s[lo].0.clone(), s[lo].1);
            assert(e == s@[lo as int]);
            r.push(e);
            assert(r@ =~= s@.subrange(lo as int, hi as int));
        } else {
            assert(r@ =~= s@.subrange(lo as int, hi as int));
        }
        r
    } else {
        let mid = lo + (hi - lo) / 2;
        let left = sort_range_desc(s, lo, mid);
        let right = sort_range_desc(s, mid, hi);
        let r = merge_desc(&left, &right);
        proof {
            assert(s@.subrange(lo as int, hi as int) =~= s@.subrange(lo as int, mid as int)
                + s@.subrange(mid as int, hi as int));
            vstd::seq_lib::lemma_multiset_commutative(
                s@.subrange(lo as int, mid as int),
                s@.subrange(mid as int, hi as int),
            );
        }
        r
    }
}

/// `s` sorted by count, from highest to lowest (a merge sort).
pub fn sort_by_count_desc(s: &Vec<(String, usize)>) -> (r: Vec<(String, usize)>)
    ensures
        r@.to_multiset() == s@.to_multiset(),
        r@.len() == s@.len(),
        forall|i: int, j: int| 0 <= i < j < r@.len() ==> r@[i].1 >= r@[j].1,
{
    let r = sort_range_desc(s, 0, s.len());
    assert(s@.subrange(0, s@.len() as int) =~= s@);
    r
}


/// The tally that `m` holds under `k`, or the empty tally.
pub open spec fn inner_of(m: Map<Seq<char>, Map<Seq<char>, nat>>, k: Seq<char>) -> Map<
    Seq<char>,
    nat,
> {
    if m.contains_key(k) {
        m[k]
    } else {
        Map::empty()
    }
}

/// The pointwise sum of two nested tallies.
pub open spec fn sum_nested(
    a: Map<Seq<char>, Map<Seq<char>, nat>>,
    b: Map<Seq<char>, Map<Seq<char>, nat>>,
) -> Map<Seq<char>, Map<Seq<char>, nat>> {
    Map::new(
        |k: Seq<char>| a.contains_key(k) || b.contains_key(k),
        |k: Seq<char>| sum_maps(inner_of(a, k), inner_of(b, k)),
    )
}

/// A tally of tallies: for each outer key, a `CountTable`.
#[derive(Debug)]
pub struct NestedTable {
    keys: Vec<String>,
    tables: Vec<CountTable>,
    index: KeyIndex,
}

impl NestedTable {
    pub closed spec fn key_seq(&self) -> Seq<Seq<char>> {
        Seq::new(self.keys@.len(), |i: int| self.keys@[i]@)
    }

    pub closed spec fn map_seq(&self) -> Seq<Map<Seq<char>, nat>> {
        Seq::new(self.tables@.len(), |i: int| self.tables@[i].map())
    }

    /// The invariant: parallel vectors, no outer key twice, every outer key indexed, every
    /// inner table well formed.
    pub closed spec fn wf(&self) -> bool {
        &&& self.keys@.len() == self.tables@.len()
        &&& distinct_keys(self.key_seq())
        &&& self.index.indexes(self.key_seq())
        &&& forall|i: int| 0 <= i < self.tables@.len() ==> #[trigger] self.tables@[i].wf()
    }

    /// The number of outer keys.
    pub closed spec fn size(&self) -> nat {
        self.keys@.len()
    }

    /// The nested tally as a map.
    pub closed spec fn map(&self) -> Map<Seq<char>, Map<Seq<char>, nat>> {
        assoc_map(self.key_seq(), self.map_seq())
    }

    /// The count of `inner` under `outer`, or 0.
    pub open spec fn count(&self, outer: Seq<char>, inner: Seq<char>) -> nat {
        count_in(inner_of(self.map(), outer), inner)
    }

    pub closed spec fn key_at(&self, i: int) -> Seq<char> {
        self.keys@[i]@
    }

    pub closed spec fn table_at(&self, i: int) -> CountTable {
        self.tables@[i]
    }

    pub proof fn lemma_entry(&self, i: int)
        requires
            self.wf(),
            0 <= i < self.size(),
        ensures
            self.map().contains_key(self.key_at(i)),
            self.map()[self.key_at(i)] == self.table_at(i).map(),
            self.table_at(i).wf(),
    {
        lemma_assoc_map_at(self.key_seq(), self.map_seq(), i);
    }

    pub proof fn lemma_keys(&self)
        requires
            self.wf(),
        ensures
            forall|k: Seq<char>| #[trigger]
                self.map().contains_key(k) ==> exists|i: int|
                    0 <= i < self.size() && self.key_at(i) == k,
            forall|i: int, j: int|
                0 <= i < j < self.size() ==> self.key_at(i) != self.key_at(j),
    {
        assert forall|k: Seq<char>| #[trigger]
            self.map().contains_key(k) implies exists|i: int|
                0 <= i < self.size() && self.key_at(i) == k by {
            lemma_assoc_map_dom(self.key_seq(), self.map_seq(), k);
            let i = choose|i: int| 0 <= i < self.key_seq().len() && self.key_seq()[i] == k;
            assert(self.key_at(i) == k);
        }
        assert forall|i: int, j: int| 0 <= i < j < self.size() implies self.key_at(i)
            != self.key_at(j) by {
            assert(self.key_seq()[i] == self.key_at(i));
            assert(self.key_seq()[j] == self.key_at(j));
        }
    }

    pub fn new() -> (t: NestedTable)
        ensures
            t.wf(),
            t.map() == Map::<Seq<char>, Map<Seq<char>, nat>>::empty(),
            t.size() == 0,
    {
        let t = NestedTable { keys: Vec::new(), tables: Vec::new(), index: KeyIndex::new() };
        assert(t.key_seq() =~= Seq::<Seq<char>>::empty());
        t
    }

    pub fn len(&self) -> (n: usize)
        ensures
            n == self.size(),
    {
        self.keys.len()
    }

    pub fn key(&self, i: usize) -> (k: &String)
        requires
            self.wf(),
            i < self.size(),
        ensures
            k@ == self.key_at(i as int),
    {
        &self.keys[i]
    }

    pub fn table(&self, i: usize) -> (t: &CountTable)
        requires
            self.wf(),
            i < self.size(),
        ensures
            *t == self.table_at(i as int),
    {
        &self.tables[i]
    }

    fn find(&self, key: &String) -> (r: Option<usize>)
        requires
            self.wf(),
        ensures
            match r {
                Some(i) => i < self.size() && self.key_at(i as int) == key@,
                None => !self.map().contains_key(key@),
            },
    {
        let r = self.index.find(&self.keys, key);
        proof {
            if r is None {
                lemma_assoc_map_dom(self.key_seq(), self.map_seq(), key@);
                if self.map().contains_key(key@) {
                    let j = choose|j: int|
                        0 <= j < self.key_seq().len() && self.key_seq()[j] == key@;
                    assert(self.keys@[j]@ == key@);
                }
            }
        }
        r
    }

    /// The count of `inner` under `outer` (0 when absent).
    pub fn get(&self, outer: &String, inner: &String) -> (c: usize)
        requires
            self.wf(),
        ensures
            c == self.count(outer@, inner@),
    {
        match self.find(outer) {
            Some(i) => {
                proof {
                    self.lemma_entry(i as int);
                }
                self.tables[i].get(inner)
            },
            None => 0,
        }
    }

    /// Moves the table at `i` into `t`, leaving `t`'s old value in its place.
    fn take_table(&mut self, i: usize, t: &mut CountTable)
        requires
            old(self).wf(),
            i < old(self).size(),
            old(t).wf(),
        ensures
            *final(t) == old(self).table_at(i as int),
            final(t).wf(),
            final(self).keys@.len() == final(self).tables@.len(),
            distinct_keys(final(self).key_seq()),
            final(self).index.indexes(final(self).key_seq()),
            final(self).size() == old(self).size(),
            forall|j: int| 0 <= j < final(self).size() ==> final(self).key_at(j) == old(self).key_at(j),
            forall|j: int|
                0 <= j < final(self).tables@.len() && j != i ==> #[trigger] final(self).tables@[j]
                    == old(self).tables@[j],
            forall|j: int|
                0 <= j < final(self).tables@.len() && j != i ==> #[trigger] final(self).tables@[j].wf(),
            final(self).map().insert(old(self).key_at(i as int), final(t).map()) == old(self).map(),
            forall|m: Map<Seq<char>, nat>|
                #[trigger] final(self).map().insert(old(self).key_at(i as int), m)
                    == old(self).map().insert(old(self).key_at(i as int), m),
    {
        let ghost ks = self.key_seq();
        let ghost ms = self.map_seq();
        let ghost tm = t.map();
        proof {
            self.lemma_entry(i as int);
        }
        self.tables.set_and_swap(i, t);
        proof {
            assert(self.key_seq() =~= ks);
            assert(self.map_seq() =~= ms.update(i as int, tm));
            lemma_assoc_map_update(ks, ms, i as int, tm);
            let k = ks[i as int];
            assert(self.map().insert(k, t.map()) =~= old(self).map());
            assert forall|m: Map<Seq<char>, nat>|
                #[trigger] self.map().insert(k, m) == old(self).map().insert(k, m) by {
                assert(self.map().insert(k, m) =~= old(self).map().insert(k, m));
            }
        }
    }

    /// Replaces the table at `i` by `t`.
    fn replace_table(&mut self, i: usize, t: CountTable)
        requires
            old(self).keys@.len() == old(self).tables@.len(),
            distinct_keys(old(self).key_seq()),
            old(self).index.indexes(old(self).key_seq()),
            forall|j: int|
                0 <= j < old(self).tables@.len() && j != i ==> #[trigger] old(self).tables@[j].wf(),
            i < old(self).size(),
            t.wf(),
        ensures
            final(self).wf(),
            final(self).map() == old(self).map().insert(old(self).key_at(i as int), t.map()),
            final(self).size() == old(self).size(),
            forall|j: int| 0 <= j < final(self).size() ==> final(self).key_at(j) == old(self).key_at(j),
    {
        let ghost ks = self.key_seq();
        let ghost ms = self.map_seq();
        let ghost tm = t.map();
        self.tables.set(i, t);
        proof {
            assert(self.key_seq() =~= ks);
            assert(self.map_seq() =~= ms.update(i as int, tm));
            lemma_assoc_map_update(ks, ms, i as int, tm);
        }
    }

    /// Appends a new outer key with table `t`.
    fn push_table(&mut self, key: &String, t: CountTable)
        requires
            old(self).wf(),
            !old(self).map().contains_key(key@),
            t.wf(),
        ensures
            final(self).wf(),
            final(self).map() == old(self).map().insert(key@, t.map()),
    {
        let ghost ks = self.key_seq();
        let ghost ms = self.map_seq();
        let ghost tm = t.map();
        let pos = self.keys.len();
        self.index.insert(Ghost(ks), key, pos);
        self.keys.push(key.clone());
        self.tables.push(t);
        let nb = self.index.bucket_count();
        if self.keys.len() / 4 > nb {
            self.index = KeyIndex::rebuild(&self.keys, nb * 2);
        }
        proof {
            assert(self.key_seq() =~= ks.push(key@));
            assert(self.map_seq() =~= ms.push(tm));
            lemma_assoc_map_push(ks, ms, key@, tm);
            lemma_assoc_map_dom(ks, ms, key@);
            assert forall|a: int, b: int|
                0 <= a < b < self.key_seq().len() implies self.key_seq()[a] != self.key_seq()[b] by {
                assert(ks[a] == self.key_seq()[a]);
                if b < ks.len() {
                    assert(ks[b] == self.key_seq()[b]);
                }
            }
            assert forall|j: int| 0 <= j < self.tables@.len() implies #[trigger] self.tables@[j].wf() by {
                if j < self.tables@.len() - 1 {
                    assert(self.tables@[j] == old(self).tables@[j]);
                }
            }
        }
    }

    /// Adds `amount` to the count of `inner` under `outer`.
    pub fn add(&mut self, outer: &String, inner: &String, amount: usize)
        requires
            old(self).wf(),
            old(self).count(outer@, inner@) + amount <= usize::MAX,
        ensures
            final(self).wf(),
            final(self).map() == old(self).map().insert(
                outer@,
                inner_of(old(self).map(), outer@).insert(
                    inner@,
                    (old(self).count(outer@, inner@) + amount) as nat,
                ),
            ),
    {
        match self.find(outer) {
            Some(i) => {
                proof {
                    self.lemma_entry(i as int);
                }
                let ghost orig = self.map();
                let mut t = CountTable::new();
                self.take_table(i, &mut t);
                t.add(inner, amount);
                self.replace_table(i, t);
                proof {
                    assert(self.map() =~= orig.insert(
                        outer@,
                        inner_of(orig, outer@).insert(
                            inner@,
                            (old(self).count(outer@, inner@) + amount) as nat,
                        ),
                    ));
                }
            },
            None => {
                let mut t = CountTable::new();
                t.add(inner, amount);
                proof {
                    assert(inner_of(old(self).map(), outer@) =~= Map::<Seq<char>, nat>::empty());
                }
                self.push_table(outer, t);
            },
        }
    }

    /// Merges `table` into the tally held under `outer`.
    pub fn merge_into(&mut self, outer: &String, table: &CountTable)
        requires
            old(self).wf(),
            table.wf(),
            forall|k: Seq<char>| old(self).count(outer@, k) + table.count(k) <= usize::MAX,
        ensures
            final(self).wf(),
            final(self).map() == old(self).map().insert(
                outer@,
                sum_maps(inner_of(old(self).map(), outer@), table.map()),
            ),
    {
        match self.find(outer) {
            Some(i) => {
                proof {
                    self.lemma_entry(i as int);
                }
                let ghost orig = self.map();
                let mut t = CountTable::new();
                self.take_table(i, &mut t);
                t.merge(table);
                self.replace_table(i, t);
                proof {
                    assert(self.map() =~= orig.insert(
                        outer@,
                        sum_maps(inner_of(orig, outer@), table.map()),
                    ));
                }
            },
            None => {
                let mut t = CountTable::new();
                proof {
                    assert forall|k: Seq<char>| t.count(k) + table.count(k) <= usize::MAX by {
                        assert(old(self).count(outer@, k) == 0);
                    }
                }
                t.merge(table);
                proof {
                    assert(inner_of(old(self).map(), outer@) =~= Map::<Seq<char>, nat>::empty());
                }
                self.push_table(outer, t);
            },
        }
    }

    /// Every count fits in a `usize`.
    pub proof fn lemma_count_bounded(&self, o: Seq<char>, k: Seq<char>)
        requires
            self.wf(),
        ensures
            self.count(o, k) <= usize::MAX,
    {
        if self.map().contains_key(o) {
            self.lemma_keys();
            let i = choose|i: int| 0 <= i < self.size() && self.key_at(i) == o;
            self.lemma_entry(i);
            self.table_at(i).lemma_count_bounded(k);
        }
    }

    /// Whether `merge(other)` may be called: no summed count exceeds `usize::MAX`.
    pub fn can_merge(&self, other: &NestedTable) -> (b: bool)
        requires
            self.wf(),
            other.wf(),
        ensures
            b == (forall|o: Seq<char>, k: Seq<char>|
                self.count(o, k) + other.count(o, k) <= usize::MAX),
    {
        let mut i: usize = 0;
        while i < other.keys.len()
            invariant
                self.wf(),
                other.wf(),
                i <= other.size(),
                forall|j: int, k: Seq<char>|
                    0 <= j < i ==> self.count(other.key_at(j), k) + #[trigger] other.table_at(
                        j,
                    ).count(k) <= usize::MAX,
            decreases other.size() - i,
        {
            proof {
                other.lemma_entry(i as int);
            }
            let t = &other.tables[i];
            let o = &other.keys[i];
            let mut j: usize = 0;
            while j < t.len()
                invariant
                    self.wf(),
                    other.wf(),
                    i < other.size(),
                    *t == other.table_at(i as int),
                    t.wf(),
                    o@ == other.key_at(i as int),
                    j <= t.size(),
                    forall|q: int| 0 <= q < j ==> self.count(o@, t.key_at(q)) + t.count_at(q) <= usize::MAX,
                decreases t.size() - j,
            {
                let c = self.get(o, t.key(j));
                let d = t.count_of_entry(j);
                if c > usize::MAX - d {
                    proof {
                        t.lemma_entry(j as int);
                        other.lemma_entry(i as int);
                        assert(other.count(o@, t.key_at(j as int)) == d);
                        assert(self.count(o@, t.key_at(j as int)) + other.count(o@, t.key_at(j as int))
                            > usize::MAX);
                    }
                    return false;
                }
                j += 1;
            }
            proof {
                t.lemma_keys();
                assert forall|k: Seq<char>|
                    self.count(o@, k) + #[trigger] t.count(k) <= usize::MAX by {
                    self.lemma_count_bounded(o@, k);
                    if t.map().contains_key(k) {
                        let q = choose|q: int| 0 <= q < t.size() && t.key_at(q) == k;
                        t.lemma_entry(q);
                    }
                }
            }
            i += 1;
        }
        proof {
            other.lemma_keys();
            assert forall|o: Seq<char>, k: Seq<char>|
                self.count(o, k) + other.count(o, k) <= usize::MAX by {
                self.lemma_count_bounded(o, k);
                if other.map().contains_key(o) {
                    let j = choose|j: int| 0 <= j < other.size() && other.key_at(j) == o;
                    other.lemma_entry(j);
                    assert(other.table_at(j).count(k) == other.count(o, k));
                }
            }
        }
        true
    }

    /// Adds every count of `other` to this table.
    pub fn merge(&mut self, other: &NestedTable)
        requires
            old(self).wf(),
            other.wf(),
            forall|o: Seq<char>, k: Seq<char>|
                old(self).count(o, k) + other.count(o, k) <= usize::MAX,
        ensures
            final(self).wf(),
            final(self).map() == sum_nested(old(self).map(), other.map()),
    {
        let ghost base = self.map();
        let ghost oks = other.key_seq();
        let ghost oms = other.map_seq();
        let mut i: usize = 0;
        proof {
            assert(oks.take(0) =~= Seq::<Seq<char>>::empty());
            assert(oms.take(0) =~= Seq::<Map<Seq<char>, nat>>::empty());
            assert forall|k: Seq<char>| #[trigger] self.map().contains_key(k) implies self.map()[k]
                =~= sum_maps(inner_of(base, k), Map::empty()) by {
            }
            assert(self.map() =~= sum_nested(base, assoc_map(oks.take(0), oms.take(0))));
        }
        while i < other.keys.len()
            invariant
                self.wf(),
                other.wf(),
                oks == other.key_seq(),
                oms == other.map_seq(),
                i <= oks.len(),
                forall|o: Seq<char>, k: Seq<char>|
                    count_in(inner_of(base, o), k) + other.count(o, k) <= usize::MAX,
                self.map() == sum_nested(base, assoc_map(oks.take(i as int), oms.take(i as int))),
            decreases oks.len() - i,
        {
            let ghost o = oks[i as int];
            let ghost prefix = assoc_map(oks.take(i as int), oms.take(i as int));
            proof {
                lemma_assoc_map_dom(oks.take(i as int), oms.take(i as int), o);
                assert forall|j: int| 0 <= j < i implies oks.take(i as int)[j] != o by {
                    assert(oks.take(i as int)[j] == oks[j]);
                }
                assert(!prefix.contains_key(o));
                other.lemma_entry(i as int);
                assert(other.key_at(i as int) == o);
                assert(inner_of(self.map(), o) =~= sum_maps(inner_of(base, o), Map::empty()));
                assert forall|k: Seq<char>| self.count(o, k) + other.tables@[i as int].count(k)
                    <= usize::MAX by {
                    assert(other.count(o, k) == other.tables@[i as int].count(k));
                }
            }
            self.merge_into(&other.keys[i], &other.tables[i]);
            proof {
                assert(oks.take(i + 1).drop_last() =~= oks.take(i as int));
                assert(oms.take(i + 1).drop_last() =~= oms.take(i as int));
                let next = assoc_map(oks.take(i + 1), oms.take(i + 1));
                assert(next == prefix.insert(o, other.tables@[i as int].map()));
                assert forall|k: Seq<char>| #[trigger] self.map().contains_key(k) implies self.map()[k]
                    =~= sum_nested(base, next)[k] by {
                }
                assert(self.map() =~= sum_nested(base, next));
            }
            i += 1;
        }
        proof {
            assert(oks.take(oks.len() as int) =~= oks);
            assert(oms.take(oms.len() as int) =~= oms);
        }
    }
}

/// The sum of `f` over the names in `l`.
pub open spec fn sum_over(l: Seq<Seq<char>>, f: spec_fn(Seq<char>) -> nat) -> nat
    decreases l.len(),
{
    if l.len() == 0 {
        0
    } else {
        sum_over(l.drop_last(), f) + f(l.last())
    }
}

pub proof fn lemma_sum_add(
    l: Seq<Seq<char>>,
    f: spec_fn(Seq<char>) -> nat,
    g: spec_fn(Seq<char>) -> nat,
    h: spec_fn(Seq<char>) -> nat,
)
    requires
        forall|a: Seq<char>| #[trigger] h(a) == f(a) + g(a),
    ensures
        sum_over(l, h) == sum_over(l, f) + sum_over(l, g),
    decreases l.len(),
{
    if l.len() > 0 {
        lemma_sum_add(l.drop_last(), f, g, h);
    }
}

pub proof fn lemma_sum_zero(l: Seq<Seq<char>>, f: spec_fn(Seq<char>) -> nat)
    requires
        forall|i: int| 0 <= i < l.len() ==> f(#[trigger] l[i]) == 0,
    ensures
        sum_over(l, f) == 0,
    decreases l.len(),
{
    if l.len() > 0 {
        assert forall|i: int| 0 <= i < l.drop_last().len() implies f(#[trigger] l.drop_last()[i]) == 0 by {
            assert(l.drop_last()[i] == l[i]);
        }
        lemma_sum_zero(l.drop_last(), f);
        assert(f(l[l.len() - 1]) == 0);
    }
}

/// Summing a function that is `c` at one name of a list without repeats,
/// and 0 elsewhere, gives `c`.
pub proof fn lemma_sum_single(l: Seq<Seq<char>>, f: spec_fn(Seq<char>) -> nat, n: Seq<char>)
    requires
        l.no_duplicates(),
        l.contains(n),
        forall|a: Seq<char>| a != n ==> #[trigger] f(a) == 0,
    ensures
        sum_over(l, f) == f(n),
    decreases l.len(),
{
    let i = choose|i: int| 0 <= i < l.len() && l[i] == n;
    if i == l.len() - 1 {
        assert forall|j: int| 0 <= j < l.drop_last().len() implies f(#[trigger] l.drop_last()[j]) == 0 by {
            assert(l.drop_last()[j] == l[j]);
            assert(l[j] != l[i]);
        }
        lemma_sum_zero(l.drop_last(), f);
    } else {
        assert(l.drop_last()[i] == n);
        assert(l.last() != n) by {
            assert(l[l.len() - 1] != l[i]);
        }
        lemma_sum_single(l.drop_last(), f, n);
    }
}

} // verus!
