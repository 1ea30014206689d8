use std::hash::{DefaultHasher, Hasher};
use vstd::prelude::*;
use vstd::std_specs::hash::DefaultHasherAdditionalSpecFns;

use crate::list::{
    first_with_key, has_key, lemma_value_of_unique, unique_keys, value_of, Chain, Entry, List,
};

verus! {

/// The hash of a key: what `DefaultHasher` gives for its UTF-8 bytes.
pub open spec fn spec_hash(k: Seq<char>) -> u64 {
    DefaultHasher::spec_finish(seq![vstd::utf8::encode_utf8(k)])
}

/// The bucket that holds `k` in a table whose mask is `mask`.
pub open spec fn bucket_index(k: Seq<char>, mask: usize) -> int {
    ((spec_hash(k) as usize) & mask) as int
}

/// `n` is a power of two.
pub open spec fn is_pow2(n: nat) -> bool
    decreases n,
{
    if n <= 1 {
        n == 1
    } else {
        n % 2 == 0 && is_pow2(n / 2)
    }
}

/// Twice a power of two is a power of two.
pub proof fn lemma_double_pow2(n: nat)
    requires
        is_pow2(n),
    ensures
        is_pow2(2 * n),
{
    assert((2 * n) / 2 == n);
    assert((2 * n) % 2 == 0);
}

/// Masking never gives more than the mask.
proof fn lemma_mask_bound(x: usize, m: usize)
    ensures
        x & m <= m,
{
    assert(x & m <= m) by (bit_vector);
}

/// A chain with a new key put at its front keeps its keys unique and holds what it
/// held, and the new key with its value.
pub proof fn lemma_push_chain(s: Chain, k0: Seq<char>, v0: Seq<char>)
    requires
        unique_keys(s),
        !has_key(s, k0),
    ensures
        unique_keys(seq![(k0, v0)] + s),
        forall|k: Seq<char>|
            #[trigger] has_key(seq![(k0, v0)] + s, k) <==> (k == k0 || has_key(s, k)),
        value_of(seq![(k0, v0)] + s, k0) == v0,
        forall|k: Seq<char>|
            k != k0 && has_key(s, k) ==> #[trigger] value_of(seq![(k0, v0)] + s, k) == value_of(s, k),
{
    let t = seq![(k0, v0)] + s;
    assert forall|i: int, j: int| 0 <= i < t.len() && 0 <= j < t.len() && i != j implies #[trigger] t[i].0
        != #[trigger] t[j].0 by {
        if i == 0 {
            assert(s[j - 1].0 == t[j].0);
        } else if j == 0 {
            assert(s[i - 1].0 == t[i].0);
        } else {
            assert(s[i - 1].0 != s[j - 1].0);
        }
    }
    assert forall|k: Seq<char>| #[trigger] has_key(t, k) <==> (k == k0 || has_key(s, k)) by {
        if has_key(t, k) && k != k0 {
            let i = choose|i: int| 0 <= i < t.len() && #[trigger] t[i].0 == k;
            assert(s[i - 1].0 == k);
        }
        if k == k0 {
            assert(t[0].0 == k0);
        } else if has_key(s, k) {
            let i = choose|i: int| 0 <= i < s.len() && #[trigger] s[i].0 == k;
            assert(t[i + 1].0 == k);
        }
    }
    lemma_value_of_unique(t, k0, 0);
    assert forall|k: Seq<char>| k != k0 && has_key(s, k) implies #[trigger] value_of(t, k) == value_of(s, k) by {
        let i = choose|i: int| 0 <= i < s.len() && #[trigger] s[i].0 == k;
        lemma_value_of_unique(s, k, i);
        assert(t[i + 1] == s[i]);
        lemma_value_of_unique(t, k, i + 1);
    }
}

/// Changing the value of the entry at `i` keeps the keys, and changes what the chain
/// holds for that entry's key alone.
pub proof fn lemma_update_chain(s: Chain, i: int, v0: Seq<char>)
    requires
        unique_keys(s),
        0 <= i < s.len(),
    ensures
        unique_keys(s.update(i, (s[i].0, v0))),
        forall|k: Seq<char>| #[trigger] has_key(s.update(i, (s[i].0, v0)), k) <==> has_key(s, k),
        value_of(s.update(i, (s[i].0, v0)), s[i].0) == v0,
        forall|k: Seq<char>|
            k != s[i].0 && has_key(s, k) ==> #[trigger] value_of(s.update(i, (s[i].0, v0)), k)
                == value_of(s, k),
{
    let t = s.update(i, (s[i].0, v0));
    assert forall|a: int, b: int| 0 <= a < t.len() && 0 <= b < t.len() && a != b implies #[trigger] t[a].0
        != #[trigger] t[b].0 by {
        assert(t[a].0 == s[a].0);
        assert(t[b].0 == s[b].0);
    }
    assert forall|k: Seq<char>| #[trigger] has_key(t, k) <==> has_key(s, k) by {
        if has_key(t, k) {
            let j = choose|j: int| 0 <= j < t.len() && #[trigger] t[j].0 == k;
            assert(s[j].0 == k);
        }
        if has_key(s, k) {
            let j = choose|j: int| 0 <= j < s.len() && #[trigger] s[j].0 == k;
            assert(t[j].0 == k);
        }
    }
    lemma_value_of_unique(t, s[i].0, i);
    assert forall|k: Seq<char>| k != s[i].0 && has_key(s, k) implies #[trigger] value_of(t, k) == value_of(s, k) by {
        let j = choose|j: int| 0 <= j < s.len() && #[trigger] s[j].0 == k;
        lemma_value_of_unique(s, k, j);
        lemma_value_of_unique(t, k, j);
    }
}

/// Taking out the entry at `i` loses that entry's key alone.
pub proof fn lemma_remove_chain(s: Chain, i: int)
    requires
        unique_keys(s),
        0 <= i < s.len(),
    ensures
        unique_keys(s.remove(i)),
        forall|k: Seq<char>| #[trigger] has_key(s.remove(i), k) <==> (has_key(s, k) && k != s[i].0),
        forall|k: Seq<char>|
            k != s[i].0 && has_key(s, k) ==> #[trigger] value_of(s.remove(i), k) == value_of(s, k),
{
    let t = s.remove(i);
    assert forall|a: int, b: int| 0 <= a < t.len() && 0 <= b < t.len() && a != b implies #[trigger] t[a].0
        != #[trigger] t[b].0 by {
        let a1 = if a < i { a } else { a + 1 };
        let b1 = if b < i { b } else { b + 1 };
        assert(t[a] == s[a1]);
        assert(t[b] == s[b1]);
        assert(s[a1].0 != s[b1].0);
    }
    assert forall|k: Seq<char>| #[trigger] has_key(t, k) <==> (has_key(s, k) && k != s[i].0) by {
        if has_key(t, k) {
            let j = choose|j: int| 0 <= j < t.len() && #[trigger] t[j].0 == k;
            let j1 = if j < i { j } else { j + 1 };
            assert(s[j1].0 == k);
            assert(j1 != i);
            assert(s[j1].0 != s[i].0);
        }
        if has_key(s, k) && k != s[i].0 {
            let j = choose|j: int| 0 <= j < s.len() && #[trigger] s[j].0 == k;
            let j0 = if j < i { j } else { j - 1 };
            assert(t[j0].0 == k);
        }
    }
    assert forall|k: Seq<char>| k != s[i].0 && has_key(s, k) implies #[trigger] value_of(t, k) == value_of(s, k) by {
        let j = choose|j: int| 0 <= j < s.len() && #[trigger] s[j].0 == k;
        lemma_value_of_unique(s, k, j);
        let j0 = if j < i { j } else { j - 1 };
        assert(t[j0] == s[j]);
        lemma_value_of_unique(t, k, j0);
    }
}

/// A fixed number of buckets, each a chain of entries, and a count of the entries.
///
/// The table never changes its number of buckets on its own: an entry for key `k`
/// lives in the bucket that the low bits of `k`'s hash select.
pub struct HashTable {
    buckets: Vec<List>,
    items: usize,
    mask: usize,
}

impl View for HashTable {
    type V = Map<Seq<char>, Seq<char>>;

    closed spec fn view(&self) -> Map<Seq<char>, Seq<char>> {
        Map::new(
            |k: Seq<char>| self.buckets@.len() > 0 && has_key(self.chain_of(k), k),
            |k: Seq<char>| value_of(self.chain_of(k), k),
        )
    }
}

/// How many buckets a table gets when it is given capacity without being told how much.
pub const DEFAULT_BUCKET_SIZE: usize = 4;

impl HashTable {
    /// The chain that holds `k`, if the table holds it at all.
    closed spec fn chain_of(&self, k: Seq<char>) -> Chain {
        self.buckets@[bucket_index(k, self.mask)]@
    }

    pub closed spec fn spec_bucket_count(&self) -> nat {
        self.buckets@.len()
    }

    pub closed spec fn spec_mask(&self) -> usize {
        self.mask
    }

    /// The table's invariant: buckets and mask agree, every entry sits in the bucket
    /// that its key selects, no key twice in a bucket, and `items` counts the keys.
    pub closed spec fn wf(&self) -> bool {
        &&& if self.buckets@.len() == 0 {
            self.mask == 0
        } else {
            self.buckets@.len() == self.mask + 1 && is_pow2(self.buckets@.len())
        }
        &&& forall|i: int| 0 <= i < self.buckets@.len() ==> unique_keys(#[trigger] self.buckets@[i]@)
        &&& forall|i: int, j: int|
            0 <= i < self.buckets@.len() && 0 <= j < self.buckets@[i]@.len() ==> bucket_index(
                #[trigger] self.buckets@[i]@[j].0,
                self.mask,
            ) == i
        &&& self@.dom().finite()
        &&& self@.dom().len() == self.items
    }

    proof fn lemma_index_in_range(&self, k: Seq<char>)
        requires
            self.wf(),
            self.buckets@.len() > 0,
        ensures
            0 <= bucket_index(k, self.mask) < self.buckets@.len(),
    {
        lemma_mask_bound(spec_hash(k) as usize, self.mask);
    }

    /// A table with no buckets: it holds nothing and takes no entry until it is given capacity.
    pub fn new_empty() -> (r: HashTable)
        ensures
            r.wf(),
            r@ == Map::<Seq<char>, Seq<char>>::empty(),
            r.spec_bucket_count() == 0,
    {
        let r = HashTable { buckets: Vec::new(), items: 0, mask: 0 };
        assert(r@ =~= Map::<Seq<char>, Seq<char>>::empty());
        r
    }

    /// A table of `size` empty buckets.
    pub fn new_with_buckets(size: usize) -> (r: HashTable)
        requires
            size == 0 || is_pow2(size as nat),
        ensures
            r.wf(),
            r@ == Map::<Seq<char>, Seq<char>>::empty(),
            r.spec_bucket_count() == size,
            r.spec_mask() == if size == 0 { 0 } else { size - 1 },
            forall|b: int| 0 <= b < size ==> #[trigger] r.bucket_len(b) == 0,
    {
        let mut buckets: Vec<List> = Vec::with_capacity(size);
        let mut n: usize = 0;
        while n < size
            invariant
                n <= size,
                buckets@.len() == n,
                forall|i: int| 0 <= i < n ==> (#[trigger] buckets@[i])@.len() == 0,
            decreases size - n,
        {
            buckets.push(List::new());
            n += 1;
        }
        let mask = if size == 0 { 0 } else { size - 1 };
        let r = HashTable { buckets, items: 0, mask };
        assert(r@ =~= Map::<Seq<char>, Seq<char>>::empty()) by {
            assert forall|k: Seq<char>| !r@.dom().contains(k) by {
                if size > 0 {
                    lemma_mask_bound(spec_hash(k) as usize, mask);
                }
            }
        }
        r
    }

    /// The number of entries.
    pub fn used(&self) -> (r: usize)
        requires
            self.wf(),
        ensures
            r == self@.len(),
    {
        self.items
    }

    pub fn is_empty(&self) -> (r: bool)
        requires
            self.wf(),
        ensures
            r == (self@.len() == 0),
    {
        self.items == 0
    }

    /// The number of buckets.
    pub fn bucket_count(&self) -> (r: usize)
        ensures
            r == self.spec_bucket_count(),
    {
        self.buckets.len()
    }

    /// The mask that selects a bucket from a hash: one less than the number of buckets.
    pub fn mask(&self) -> (r: usize)
        ensures
            r == self.spec_mask(),
            self.wf() && self.spec_bucket_count() > 0 ==> r + 1 == self.spec_bucket_count(),
    {
        self.mask
    }

    /// Entries per bucket, rounded down; 0 for a table without buckets.
    pub fn load_factor(&self) -> (r: usize)
        requires
            self.wf(),
        ensures
            self.spec_bucket_count() == 0 ==> r == 0,
            self.spec_bucket_count() > 0 ==> r == self@.len() / self.spec_bucket_count(),
    {
        let n = self.buckets.len();
        if n == 0 {
            0
        } else {
            self.items / n
        }
    }

    fn hash(key: &str) -> (r: u64)
        ensures
            r == spec_hash(key@),
    {
        let mut h = DefaultHasher::new();
        h.write(key.as_bytes());
        h.finish()
    }

    fn idx(&self, key: &str) -> (r: usize)
        requires
            self.wf(),
            self.spec_bucket_count() > 0,
        ensures
            r == bucket_index(key@, self.mask),
            r < self.spec_bucket_count(),
    {
        proof {
            self.lemma_index_in_range(key@);
        }
        (Self::hash(key) as usize) & self.mask
    }

    /// The number of entries in bucket `i`.
    pub closed spec fn bucket_len(&self, i: int) -> nat {
        self.buckets@[i]@.len()
    }

    /// Facts that hold of a table `t1` that differs from `t0` in bucket `i` alone.
    proof fn lemma_other_buckets(t0: HashTable, t1: HashTable, i: int)
        requires
            t0.wf(),
            t0.buckets@.len() > 0,
            t1.buckets@.len() == t0.buckets@.len(),
            t1.mask == t0.mask,
            0 <= i < t0.buckets@.len(),
            forall|j: int| 0 <= j < t0.buckets@.len() && j != i ==> #[trigger] t1.buckets@[j]@ == t0.buckets@[j]@,
        ensures
            forall|k: Seq<char>| bucket_index(k, t0.mask) != i ==> #[trigger] t1.chain_of(k) == t0.chain_of(k),
            forall|k: Seq<char>| 0 <= #[trigger] bucket_index(k, t0.mask) < t0.buckets@.len(),
    {
        assert forall|k: Seq<char>| 0 <= #[trigger] bucket_index(k, t0.mask) < t0.buckets@.len() by {
            t0.lemma_index_in_range(k);
        }
    }

    /// Looks `key` up.
    pub fn get(&self, key: &str) -> (r: Option<&Entry>)
        requires
            self.wf(),
        ensures
            r is None <==> !self@.contains_key(key@),
            r matches Some(e) ==> e@ == (key@, self@[key@]),
    {
        if self.buckets.len() == 0 {
            return None;
        }
        let i = self.idx(key);
        let r = self.buckets[i].find(key);
        proof {
            if r is Some {
                let j = choose|j: int|
                    first_with_key(self.buckets@[i as int]@, key@, j) && r.unwrap()@ == self.buckets@[i as int]@[j];
                lemma_value_of_unique(self.buckets@[i as int]@, key@, j);
            }
        }
        r
    }

    pub fn contains_key(&self, key: &str) -> (r: bool)
        requires
            self.wf(),
        ensures
            r == self@.contains_key(key@),
    {
        self.get(key).is_some()
    }

    /// Stores `node`: an entry with the same key gets the new value and hands back the
    /// old one; otherwise the entry goes to the front of its bucket. Never adds buckets.
    pub fn insert(&mut self, node: Entry) -> (r: Option<String>)
        requires
            old(self).wf(),
            old(self).spec_bucket_count() > 0,
            old(self)@.len() < usize::MAX,
        ensures
            final(self).wf(),
            final(self)@ == old(self)@.insert(node.key@, node.value@),
            final(self).spec_bucket_count() == old(self).spec_bucket_count(),
            final(self).spec_mask() == old(self).spec_mask(),
            forall|j: int| 0 <= j < old(self).spec_bucket_count() && j != bucket_index(node.key@, old(self).spec_mask())
                ==> #[trigger] final(self).bucket_len(j) == old(self).bucket_len(j),
            old(self)@.contains_key(node.key@) ==> r is Some && r.unwrap()@ == old(self)@[node.key@],
            !old(self)@.contains_key(node.key@) ==> r is None,
    {
        let Entry { key, value } = node;
        let ghost k = key@;
        let ghost v = value@;
        let i = self.idx(key.as_str());
        let ghost s = self.buckets@[i as int]@;
        let slot = self.buckets[i].find_value_mut(key.as_str());
        match slot {
            Some(cell) => {
                let mut prev = value;
                std::mem::swap(cell, &mut prev);
                proof {
                    let ghost t0 = *old(self);
                    let j = choose|j: int| first_with_key(s, k, j) && prev@ == s[j].1;
                    lemma_update_chain(s, j, v);
                    lemma_value_of_unique(s, k, j);
                    HashTable::lemma_other_buckets(t0, *self, i as int);
                    assert(self.buckets@[i as int]@ == s.update(j, (k, v)));
                    assert forall|a: int, b: int|
                        0 <= a < self.buckets@.len() && 0 <= b < self.buckets@[a]@.len() implies bucket_index(
                        #[trigger] self.buckets@[a]@[b].0,
                        self.mask,
                    ) == a by {
                        if a == i {
                            assert(self.buckets@[a]@[b].0 == s[b].0);
                        }
                    }
                    assert(self@ =~= t0@.insert(k, v));
                    assert(self@.dom() =~= t0@.dom());
                }
                Some(prev)
            },
            None => {
                self.buckets[i].push(Entry { key, value });
                self.items = self.items + 1;
                proof {
                    let ghost t0 = *old(self);
                    lemma_push_chain(s, k, v);
                    HashTable::lemma_other_buckets(t0, *self, i as int);
                    assert(self.buckets@[i as int]@ == seq![(k, v)] + s);
                    assert forall|a: int, b: int|
                        0 <= a < self.buckets@.len() && 0 <= b < self.buckets@[a]@.len() implies bucket_index(
                        #[trigger] self.buckets@[a]@[b].0,
                        self.mask,
                    ) == a by {
                        if a == i && b > 0 {
                            assert(self.buckets@[a]@[b].0 == s[b - 1].0);
                        }
                    }
                    assert(self@ =~= t0@.insert(k, v));
                    assert(self@.dom() =~= t0@.dom().insert(k));
                }
                None
            },
        }
    }

    /// Gives a table without buckets its default number of them, then stores `node`.
    /// A table that has buckets keeps them all: its chains just grow.
    pub fn insert_without_resize(&mut self, node: Entry) -> (r: Option<String>)
        requires
            old(self).wf(),
            old(self)@.len() < usize::MAX,
        ensures
            final(self).wf(),
            final(self)@ == old(self)@.insert(node.key@, node.value@),
            old(self).spec_bucket_count() == 0 ==> final(self).spec_bucket_count() == DEFAULT_BUCKET_SIZE,
            old(self).spec_bucket_count() > 0 ==> final(self).spec_bucket_count() == old(self).spec_bucket_count(),
            old(self)@.contains_key(node.key@) ==> r is Some && r.unwrap()@ == old(self)@[node.key@],
            !old(self)@.contains_key(node.key@) ==> r is None,
    {
        if self.buckets.len() == 0 {
            proof {
                assert(is_pow2(1));
                assert(is_pow2(2));
                assert(is_pow2(4));
            }
            *self = HashTable::new_with_buckets(DEFAULT_BUCKET_SIZE);
        }
        self.insert(node)
    }

    /// Unlinks the entry for `key` and hands it back.
    pub fn remove(&mut self, key: &str) -> (r: Option<Entry>)
        requires
            old(self).wf(),
        ensures
            final(self).wf(),
            final(self)@ == old(self)@.remove(key@),
            final(self).spec_bucket_count() == old(self).spec_bucket_count(),
            final(self).spec_mask() == old(self).spec_mask(),
            forall|j: int| 0 <= j < old(self).spec_bucket_count() && j != bucket_index(key@, old(self).spec_mask())
                ==> #[trigger] final(self).bucket_len(j) == old(self).bucket_len(j),
            r is None <==> !old(self)@.contains_key(key@),
            r is None ==> forall|j: int| 0 <= j < old(self).spec_bucket_count()
                ==> #[trigger] final(self).bucket_len(j) == old(self).bucket_len(j),
            r matches Some(e) ==> e@ == (key@, old(self)@[key@]),
    {
        if self.buckets.len() == 0 {
            assert(self@ =~= old(self)@.remove(key@));
            return None;
        }
        let i = self.idx(key);
        let ghost s = self.buckets@[i as int]@;
        let r = self.buckets[i].remove(key);
        proof {
            let ghost t0 = *old(self);
            HashTable::lemma_other_buckets(t0, *self, i as int);
            if r is None {
                assert(self@ =~= t0@.remove(key@));
            } else {
                assert(t0@.dom().contains(key@));
                assert(t0@.dom().remove(key@).len() == t0@.dom().len() - 1);
            }
        }
        match r {
            None => None,
            Some(e) => {
                self.items = self.items - 1;
                proof {
                    let ghost t0 = *old(self);
                    let j = choose|j: int| first_with_key(s, key@, j) && e@ == s[j] && self.buckets@[i as int]@ == s.remove(j);
                    lemma_remove_chain(s, j);
                    lemma_value_of_unique(s, key@, j);
                    assert forall|a: int, b: int|
                        0 <= a < self.buckets@.len() && 0 <= b < self.buckets@[a]@.len() implies bucket_index(
                        #[trigger] self.buckets@[a]@[b].0,
                        self.mask,
                    ) == a by {
                        if a == i {
                            let b1 = if b < j { b } else { b + 1 };
                            assert(self.buckets@[a]@[b].0 == s[b1].0);
                        }
                    }
                    assert(self@ =~= t0@.remove(key@));
                    assert(self@.dom() =~= t0@.dom().remove(key@));
                }
                Some(e)
            },
        }
    }

    /// Takes the entry at the front of bucket `i`, if there is one.
    pub fn pop_from_bucket(&mut self, i: usize) -> (r: Option<Entry>)
        requires
            old(self).wf(),
            i < old(self).spec_bucket_count(),
        ensures
            final(self).wf(),
            final(self).spec_bucket_count() == old(self).spec_bucket_count(),
            final(self).spec_mask() == old(self).spec_mask(),
            forall|j: int| 0 <= j < old(self).spec_bucket_count() && j != i
                ==> #[trigger] final(self).bucket_len(j) == old(self).bucket_len(j),
            old(self).bucket_len(i as int) == 0 ==> r is None && final(self)@ == old(self)@
                && final(self).bucket_len(i as int) == 0,
            old(self).bucket_len(i as int) > 0 ==> r is Some && final(self).bucket_len(i as int) == old(self).bucket_len(i as int) - 1,
            r matches Some(e) ==> old(self)@.contains_key(e.key@) && old(self)@[e.key@] == e.value@
                && final(self)@ == old(self)@.remove(e.key@),
    {
        let ghost s = self.buckets@[i as int]@;
        let r = self.buckets[i].pop();
        proof {
            let ghost t0 = *old(self);
            HashTable::lemma_other_buckets(t0, *self, i as int);
            if r is None {
                assert(self@ =~= t0@);
            } else {
                let k = r.unwrap().key@;
                lemma_value_of_unique(s, k, 0);
                assert(bucket_index(k, self.mask) == i);
                assert(t0.chain_of(k) == s);
                assert(t0@.dom().contains(k));
                assert(t0@.dom().remove(k).len() == t0@.dom().len() - 1);
            }
        }
        match r {
            None => None,
            Some(e) => {
                self.items = self.items - 1;
                proof {
                    let ghost t0 = *old(self);
                    let k = e.key@;
                    lemma_remove_chain(s, 0);
                    lemma_value_of_unique(s, k, 0);
                    assert(s.drop_first() =~= s.remove(0));
                    assert(bucket_index(k, self.mask) == i);
                    assert(t0.chain_of(k) == s);
                    assert forall|a: int, b: int|
                        0 <= a < self.buckets@.len() && 0 <= b < self.buckets@[a]@.len() implies bucket_index(
                        #[trigger] self.buckets@[a]@[b].0,
                        self.mask,
                    ) == a by {
                        if a == i {
                            assert(self.buckets@[a]@[b].0 == s[b + 1].0);
                        }
                    }
                    assert(self@ =~= t0@.remove(k));
                    assert(self@.dom() =~= t0@.dom().remove(k));
                }
                Some(e)
            },
        }
    }

    /// The number of entries in bucket `i`.
    pub fn chain_len(&self, i: usize) -> (r: usize)
        requires
            i < self.spec_bucket_count(),
        ensures
            r == self.bucket_len(i as int),
    {
        self.buckets[i].len()
    }

    /// A table whose buckets are all empty holds nothing.
    pub proof fn lemma_all_buckets_empty(&self)
        requires
            self.wf(),
            forall|j: int| 0 <= j < self.spec_bucket_count() ==> #[trigger] self.bucket_len(j) == 0,
        ensures
            self@ == Map::<Seq<char>, Seq<char>>::empty(),
    {
        assert forall|k: Seq<char>| !#[trigger] self@.dom().contains(k) by {
            if self.buckets@.len() > 0 {
                self.lemma_index_in_range(k);
                assert(self.bucket_len(bucket_index(k, self.mask)) == 0);
            }
        }
        assert(self@ =~= Map::<Seq<char>, Seq<char>>::empty());
    }

    /// A table without buckets holds nothing.
    pub proof fn lemma_no_buckets(&self)
        requires
            self.wf(),
            self.spec_bucket_count() == 0,
        ensures
            self@ == Map::<Seq<char>, Seq<char>>::empty(),
    {
        assert(self@ =~= Map::<Seq<char>, Seq<char>>::empty());
    }

    /// What the invariant tells about a table from outside.
    pub proof fn lemma_wf_facts(&self)
        requires
            self.wf(),
        ensures
            self@.dom().finite(),
            self.spec_bucket_count() > 0 ==> is_pow2(self.spec_bucket_count()),
            self.spec_bucket_count() > 0 ==> self.spec_mask() + 1 == self.spec_bucket_count(),
            self.spec_bucket_count() == 0 ==> self.spec_mask() == 0,
    {
    }

    /// The entries laid out in the buckets are exactly the table's map: each position
    /// holds a key of the map with its value, no key stands at two positions, and
    /// every key of the map stands at one.
    pub proof fn lemma_entries_are_the_map(&self)
        requires
            self.wf(),
        ensures
            forall|b: int, p: int|
                0 <= b < self.spec_bucket_count() && 0 <= p < self.bucket_len(b) ==> {
                    &&& self@.contains_key(#[trigger] self.entry_at(b, p).0)
                    &&& self@[self.entry_at(b, p).0] == self.entry_at(b, p).1
                    &&& bucket_index(self.entry_at(b, p).0, self.spec_mask()) == b
                },
            forall|b1: int, p1: int, b2: int, p2: int|
                0 <= b1 < self.spec_bucket_count() && 0 <= p1 < self.bucket_len(b1) && 0 <= b2
                    < self.spec_bucket_count() && 0 <= p2 < self.bucket_len(b2) && #[trigger] self.entry_at(b1, p1).0
                    == #[trigger] self.entry_at(b2, p2).0 ==> b1 == b2 && p1 == p2,
            forall|k: Seq<char>| #[trigger] self@.contains_key(k) ==> exists|p: int|
                0 <= p < self.bucket_len(bucket_index(k, self.spec_mask())) && #[trigger] self.entry_at(
                    bucket_index(k, self.spec_mask()),
                    p,
                ).0 == k,
    {
        assert forall|b: int, p: int|
            0 <= b < self.spec_bucket_count() && 0 <= p < self.bucket_len(b) implies {
                &&& self@.contains_key(#[trigger] self.entry_at(b, p).0)
                &&& self@[self.entry_at(b, p).0] == self.entry_at(b, p).1
                &&& bucket_index(self.entry_at(b, p).0, self.spec_mask()) == b
            } by {
            let k = self.buckets@[b]@[p].0;
            assert(bucket_index(k, self.mask) == b);
            lemma_value_of_unique(self.buckets@[b]@, k, p);
        }
        assert forall|b1: int, p1: int, b2: int, p2: int|
            0 <= b1 < self.spec_bucket_count() && 0 <= p1 < self.bucket_len(b1) && 0 <= b2
                < self.spec_bucket_count() && 0 <= p2 < self.bucket_len(b2) && #[trigger] self.entry_at(b1, p1).0
                == #[trigger] self.entry_at(b2, p2).0 implies b1 == b2 && p1 == p2 by {
            let k = self.buckets@[b1]@[p1].0;
            assert(bucket_index(k, self.mask) == b1);
            assert(bucket_index(self.buckets@[b2]@[p2].0, self.mask) == b2);
            if p1 != p2 {
                assert(self.buckets@[b1]@[p1].0 != self.buckets@[b1]@[p2].0);
            }
        }
        assert forall|k: Seq<char>| #[trigger] self@.contains_key(k) implies exists|p: int|
            0 <= p < self.bucket_len(bucket_index(k, self.spec_mask())) && #[trigger] self.entry_at(
                bucket_index(k, self.spec_mask()),
                p,
            ).0 == k by {
            let s = self.chain_of(k);
            let p = choose|p: int| 0 <= p < s.len() && #[trigger] s[p].0 == k;
            assert(self.entry_at(bucket_index(k, self.spec_mask()), p).0 == k);
        }
    }

    /// A table of no entries holds nothing.
    pub proof fn lemma_len_zero(&self)
        requires
            self.wf(),
            self@.len() == 0,
        ensures
            self@ == Map::<Seq<char>, Seq<char>>::empty(),
    {
        vstd::set_lib::lemma_set_empty_equivalency_len(self@.dom());
        assert(self@ =~= Map::<Seq<char>, Seq<char>>::empty());
    }

    /// A key that the table holds sits in a bucket that is not empty.
    pub proof fn lemma_key_in_bucket(&self, k: Seq<char>)
        requires
            self.wf(),
            self@.contains_key(k),
        ensures
            0 <= bucket_index(k, self.spec_mask()) < self.spec_bucket_count(),
            self.bucket_len(bucket_index(k, self.spec_mask())) > 0,
    {
        self.lemma_index_in_range(k);
    }

    /// Taking a key out of a table leaves one entry fewer.
    pub proof fn lemma_len_remove(&self, k: Seq<char>)
        requires
            self.wf(),
            self@.contains_key(k),
        ensures
            self@.len() >= 1,
            self@.remove(k).len() == self@.len() - 1,
    {
        assert(self@.remove(k).dom() =~= self@.dom().remove(k));
    }

    /// `t1` is `t0` with the value of the entry at position `j` of the bucket of `k`,
    /// whose key is `k`, changed to `v`.
    pub closed spec fn value_changed(t0: HashTable, t1: HashTable, k: Seq<char>, j: int, v: Seq<char>) -> bool {
        let i = bucket_index(k, t0.mask);
        &&& t1.mask == t0.mask
        &&& t1.items == t0.items
        &&& t1.buckets@.len() == t0.buckets@.len()
        &&& forall|b: int| 0 <= b < t0.buckets@.len() && b != i ==> #[trigger] t1.buckets@[b]@ == t0.buckets@[b]@
        &&& t1.buckets@[i]@ == t0.buckets@[i]@.update(j, (k, v))
    }

    proof fn lemma_value_changed(t0: HashTable, t1: HashTable, k: Seq<char>, j: int, v: Seq<char>)
        requires
            t0.wf(),
            t0.buckets@.len() > 0,
            first_with_key(t0.chain_of(k), k, j),
            HashTable::value_changed(t0, t1, k, j, v),
        ensures
            t1.wf(),
            t1@ == t0@.insert(k, v),
            t1.spec_bucket_count() == t0.spec_bucket_count(),
            t1.spec_mask() == t0.spec_mask(),
            forall|b: int| 0 <= b < t0.spec_bucket_count() ==> #[trigger] t1.bucket_len(b) == t0.bucket_len(b),
    {
        let i = bucket_index(k, t0.mask);
        let s = t0.chain_of(k);
        t0.lemma_index_in_range(k);
        lemma_value_of_unique(s, k, j);
        lemma_update_chain(s, j, v);
        HashTable::lemma_other_buckets(t0, t1, i);
        assert forall|a: int, b: int|
            0 <= a < t1.buckets@.len() && 0 <= b < t1.buckets@[a]@.len() implies bucket_index(
            #[trigger] t1.buckets@[a]@[b].0,
            t1.mask,
        ) == a by {
            if a == i {
                assert(t1.buckets@[a]@[b].0 == s[b].0);
            }
        }
        assert forall|b: int| 0 <= b < t1.buckets@.len() implies unique_keys(#[trigger] t1.buckets@[b]@) by {
            if b != i {
                assert(t1.buckets@[b]@ == t0.buckets@[b]@);
            }
        }
        assert(t1@ =~= t0@.insert(k, v));
        assert(t1@.dom() =~= t0@.dom());
        assert forall|b: int| 0 <= b < t0.spec_bucket_count() implies #[trigger] t1.bucket_len(b) == t0.bucket_len(b) by {
            if b != i {
                assert(t1.buckets@[b]@ == t0.buckets@[b]@);
            }
        }
    }

    /// The value stored under `key`, to change in place.
    pub fn get_mut(&mut self, key: &str) -> (r: Option<&mut String>)
        requires
            old(self).wf(),
        ensures
            final(self).wf(),
            final(self).spec_bucket_count() == old(self).spec_bucket_count(),
            final(self).spec_mask() == old(self).spec_mask(),
            forall|b: int| 0 <= b < old(self).spec_bucket_count() ==> #[trigger] final(self).bucket_len(b) == old(self).bucket_len(b),
            r is None <==> !old(self)@.contains_key(key@),
            r is None ==> final(self)@ == old(self)@,
            r is Some ==> (*r.unwrap())@ == old(self)@[key@]
                && final(self)@ == old(self)@.insert(key@, (*final(r.unwrap()))@),
    {
        if self.buckets.len() == 0 {
            return None;
        }
        let ghost fin = *final(self);
        let i = self.idx(key);
        let found = self.buckets[i].position(key);
        let ghost t0 = *self;
        match found {
            None => {
                proof {
                    assert(!t0@.contains_key(key@));
                }
                None
            },
            Some(j) => {
                proof {
                    lemma_value_of_unique(t0.chain_of(key@), key@, j as int);
                }
                let cell = self.buckets[i].value_mut_at(j);
                proof {
                    HashTable::lemma_value_changed(t0, fin, key@, j as int, (*final(cell))@);
                }
                Some(cell)
            },
        }
    }

    /// The entry at position `p` of bucket `b`.
    pub closed spec fn entry_at(&self, b: int, p: int) -> (Seq<char>, Seq<char>) {
        self.buckets@[b]@[p]
    }

    /// A walk over every entry, bucket by bucket, each chain from its front.
    pub fn iter(&self) -> (r: Iter<'_>)
        ensures
            r.spec_position() == (0int, 0int),
            r.spec_table() == self,
    {
        Iter { ht: self, bucket_idx: 0, pos: 0 }
    }
}

/// The first position at or after entry `p` of bucket `b` that holds an entry.
pub open spec fn next_position(ht: &HashTable, b: int, p: int) -> Option<(int, int)>
    decreases ht.spec_bucket_count() - b,
{
    if b < 0 || b >= ht.spec_bucket_count() {
        None
    } else if 0 <= p < ht.bucket_len(b) {
        Some((b, p))
    } else {
        next_position(ht, b + 1, 0)
    }
}

/// Position `(b1, p1)` comes before `(b2, p2)` in a walk over a table.
pub open spec fn position_before(b1: int, p1: int, b2: int, p2: int) -> bool {
    b1 < b2 || (b1 == b2 && p1 < p2)
}

/// `(b, p)` is the position of an entry of `t`.
pub open spec fn valid_position(t: &HashTable, b: int, p: int) -> bool {
    0 <= b < t.spec_bucket_count() && 0 <= p < t.bucket_len(b)
}

/// The walk skips no entry: `next_position` gives the first entry at or after a
/// position, and none when no entry is left. So a walk from `(0, 0)` meets every
/// position of the table once, in order, and with `lemma_entries_are_the_map` each
/// key of the table once.
pub proof fn lemma_next_position(t: &HashTable, b: int, p: int)
    requires
        0 <= b,
        0 <= p,
    ensures
        next_position(t, b, p) is None ==> forall|b2: int, p2: int| #[trigger] valid_position(t, b2, p2) ==> position_before(
            b2,
            p2,
            b,
            p,
        ),
        next_position(t, b, p) matches Some((b2, p2)) ==> {
            &&& valid_position(t, b2, p2)
            &&& !position_before(b2, p2, b, p)
            &&& forall|b3: int, p3: int|
                #[trigger] valid_position(t, b3, p3) && !position_before(b3, p3, b, p) ==> !position_before(b3, p3, b2, p2)
        },
    decreases t.spec_bucket_count() - b,
{
    if b >= t.spec_bucket_count() {
    } else if p < t.bucket_len(b) {
    } else {
        lemma_next_position(t, b + 1, 0);
    }
}

/// Walks a table's entries, bucket by bucket.
pub struct Iter<'a> {
    ht: &'a HashTable,
    bucket_idx: usize,
    pos: usize,
}

impl<'a> Iter<'a> {
    pub closed spec fn spec_table(&self) -> &'a HashTable {
        self.ht
    }

    /// The bucket, and the position in it, of the next entry to look at.
    pub closed spec fn spec_position(&self) -> (int, int) {
        (self.bucket_idx as int, self.pos as int)
    }

    /// The next entry, if any is left.
    pub fn next(&mut self) -> (r: Option<&'a Entry>)
        ensures
            final(self).spec_table() == old(self).spec_table(),
            match next_position(old(self).spec_table(), old(self).spec_position().0, old(self).spec_position().1) {
                None => r is None,
                Some((b, p)) => r is Some && r.unwrap()@ == old(self).spec_table().entry_at(b, p)
                    && final(self).spec_position() == (b, p + 1),
            },
    {
        let n = self.ht.buckets.len();
        while self.bucket_idx < n
            invariant
                self.ht == old(self).ht,
                n == self.ht.spec_bucket_count(),
                next_position(self.ht, self.bucket_idx as int, self.pos as int) == next_position(
                    old(self).ht,
                    old(self).bucket_idx as int,
                    old(self).pos as int,
                ),
            decreases n - self.bucket_idx,
        {
            let chain: &'a List = &self.ht.buckets[self.bucket_idx];
            if self.pos < chain.len() {
                let e = chain.nodes_at(self.pos);
                self.pos = self.pos + 1;
                return Some(e);
            }
            self.bucket_idx = self.bucket_idx + 1;
            self.pos = 0;
        }
        None
    }
}

impl Default for HashTable {
    fn default() -> (r: HashTable)
        ensures
            r.wf(),
            r@ == Map::<Seq<char>, Seq<char>>::empty(),
            r.spec_bucket_count() == DEFAULT_BUCKET_SIZE,
    {
        proof {
            assert(is_pow2(1));
            assert(is_pow2(2));
            assert(is_pow2(4));
        }
        HashTable::new_with_buckets(DEFAULT_BUCKET_SIZE)
    }
}

} // verus!
