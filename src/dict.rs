use vstd::prelude::*;

use crate::hash_table::{is_pow2, lemma_double_pow2, HashTable, DEFAULT_BUCKET_SIZE};
use crate::list::Entry;

verus! {

/// A map from strings to strings that grows without ever stopping a caller for a
/// full rehash.
///
/// When the primary table gets too full, a table with twice the buckets takes its
/// place and the old one becomes the secondary table, drained a few entries at a
/// time by every later call. While that goes on, `migrate_pos` is the next bucket
/// of the secondary table to drain; at any other time it is `None` and the
/// secondary table has no buckets.
pub struct Dict {
    primary: HashTable,
    secondary: HashTable,
    migrate_pos: Option<usize>,
}

impl View for Dict {
    type V = Map<Seq<char>, Seq<char>>;

    closed spec fn view(&self) -> Map<Seq<char>, Seq<char>> {
        self.secondary@.union_prefer_right(self.primary@)
    }
}

impl Dict {
    /// Above this many entries per bucket of the primary table, a migration begins.
    pub const MAX_ENTRIES_PER_BUCKET: usize = 2;

    /// At most this many entries move from the secondary table to the primary one per call.
    pub const MAX_REHASH_OPS: usize = 2;

    /// The entries held by the primary table.
    pub closed spec fn primary_map(&self) -> Map<Seq<char>, Seq<char>> {
        self.primary@
    }

    /// The entries still waiting in the secondary table.
    pub closed spec fn secondary_map(&self) -> Map<Seq<char>, Seq<char>> {
        self.secondary@
    }

    /// A migration is under way.
    pub closed spec fn migrating(&self) -> bool {
        self.migrate_pos is Some
    }

    /// The number of buckets of the primary table.
    pub closed spec fn primary_buckets(&self) -> nat {
        self.primary.spec_bucket_count()
    }

    /// The number of buckets of the secondary table: none unless a migration is under way.
    pub closed spec fn secondary_buckets(&self) -> nat {
        self.secondary.spec_bucket_count()
    }

    /// The sum of the two tables' entry counts.
    pub closed spec fn spec_size(&self) -> nat {
        self.primary@.len() + self.secondary@.len()
    }

    /// How many entries a table being drained keeps after one migration step.
    pub open spec fn after_step(n: nat) -> nat {
        if n <= Self::MAX_REHASH_OPS {
            0
        } else {
            (n - Self::MAX_REHASH_OPS) as nat
        }
    }

    /// The dictionary's invariant.
    pub closed spec fn wf(&self) -> bool {
        &&& self.primary.wf()
        &&& self.secondary.wf()
        &&& self.primary.spec_bucket_count() > 0
        &&& self.primary@.dom().disjoint(self.secondary@.dom())
        &&& self.primary@.len() + self.secondary@.len() <= usize::MAX
        &&& match self.migrate_pos {
            None => self.secondary.spec_bucket_count() == 0,
            Some(c) => {
                &&& c < self.secondary.spec_bucket_count()
                &&& self.primary.spec_bucket_count() == 2 * self.secondary.spec_bucket_count()
                &&& forall|j: int| 0 <= j < c ==> #[trigger] self.secondary.bucket_len(j) == 0
            },
        }
    }

    proof fn lemma_size(&self)
        requires
            self.wf(),
        ensures
            self@.len() == self.spec_size(),
            self@.dom().finite(),
    {
        self.primary.lemma_wf_facts();
        self.secondary.lemma_wf_facts();
        vstd::set_lib::lemma_set_disjoint_lens(self.primary@.dom(), self.secondary@.dom());
        assert(self@.dom() =~= self.primary@.dom() + self.secondary@.dom());
    }

    /// An empty dictionary whose primary table has the default number of buckets.
    pub fn new() -> (r: Dict)
        ensures
            r.wf(),
            r@ == Map::<Seq<char>, Seq<char>>::empty(),
            !r.migrating(),
    {
        proof {
            assert(is_pow2(1));
            assert(is_pow2(2));
            assert(is_pow2(4));
        }
        let primary = HashTable::new_with_buckets(DEFAULT_BUCKET_SIZE);
        let secondary = HashTable::new_empty();
        let r = Dict { primary, secondary, migrate_pos: None };
        assert(r@ =~= Map::<Seq<char>, Seq<char>>::empty());
        r
    }

    /// The number of keys, after one migration step.
    pub fn size(&mut self) -> (r: usize)
        requires
            old(self).wf(),
        ensures
            r == old(self)@.len(),
            final(self).wf(),
            final(self)@ == old(self)@,
            final(self).secondary_map().len() == Self::after_step(old(self).secondary_map().len()),
            final(self).migrating() == (old(self).migrating() && Self::after_step(old(self).secondary_map().len()) > 0),
            final(self).migrating() ==> final(self).secondary_map().len() > 0,
            final(self).primary_buckets() == old(self).primary_buckets(),
    {
        self.migrate();
        proof {
            self.lemma_size();
        }
        self.primary.used() + self.secondary.used()
    }

    /// The primary table.
    pub fn primary(&self) -> (r: &HashTable)
        ensures
            r@ == self.primary_map(),
    {
        &self.primary
    }

    /// The secondary table: it has buckets only while a migration is under way.
    pub fn secondary(&self) -> (r: &HashTable)
        ensures
            r@ == self.secondary_map(),
    {
        &self.secondary
    }

    pub fn is_migrating(&self) -> (r: bool)
        ensures
            r == self.migrating(),
    {
        self.migrate_pos.is_some()
    }

    /// Makes a table with twice the buckets the primary one, and demotes the
    /// current primary table to be drained.
    fn trigger_migration(&mut self)
        requires
            old(self).wf(),
            !old(self).migrating(),
            old(self).primary.spec_bucket_count() <= usize::MAX / 2,
        ensures
            final(self).wf(),
            final(self)@ == old(self)@,
            final(self).migrating(),
            final(self).secondary_map() == old(self).primary_map(),
            final(self).primary_map() == Map::<Seq<char>, Seq<char>>::empty(),
            final(self).primary_buckets() == 2 * old(self).primary_buckets(),
            final(self).secondary_buckets() == old(self).primary_buckets(),
    {
        proof {
            self.primary.lemma_wf_facts();
            lemma_double_pow2(self.primary.spec_bucket_count());
            self.secondary.lemma_no_buckets();
        }
        let n = self.primary.bucket_count();
        let mut table = HashTable::new_with_buckets(n * 2);
        std::mem::swap(&mut self.primary, &mut table);
        self.secondary = table;
        self.migrate_pos = Some(0);
        proof {
            assert(self@ =~= old(self)@);
        }
    }

    /// Moves up to `MAX_REHASH_OPS` entries from the secondary table into the
    /// primary one, walking the secondary table's buckets in order, and retires
    /// the secondary table once it is drained.
    fn migrate(&mut self)
        requires
            old(self).wf(),
        ensures
            final(self).wf(),
            final(self)@ == old(self)@,
            final(self).primary_buckets() == old(self).primary_buckets(),
            final(self).migrating() == (old(self).migrating() && Self::after_step(old(self).secondary_map().len()) > 0),
            final(self).migrating() ==> final(self).secondary_map().len() > 0,
            final(self).secondary_map().len() == Self::after_step(old(self).secondary_map().len()),
            old(self).primary_map().submap_of(final(self).primary_map()),
            final(self).secondary_map().submap_of(old(self).secondary_map()),
    {
        proof {
            self.lemma_size();
            if self.migrate_pos is None {
                self.secondary.lemma_no_buckets();
            }
        }
        let mut cursor = match self.migrate_pos {
            None => return,
            Some(c) => c,
        };
        let n = self.secondary.bucket_count();
        let mut moved: usize = 0;
        while moved < Self::MAX_REHASH_OPS && cursor < n
            invariant
                self.primary.wf(),
                self.secondary.wf(),
                self.primary.spec_bucket_count() == old(self).primary.spec_bucket_count(),
                self.secondary.spec_bucket_count() == n,
                self.migrate_pos == old(self).migrate_pos,
                old(self).wf(),
                old(self).migrating(),
                n == old(self).secondary.spec_bucket_count(),
                cursor <= n,
                moved <= Self::MAX_REHASH_OPS,
                self.primary@.dom().disjoint(self.secondary@.dom()),
                self.secondary@.union_prefer_right(self.primary@) == old(self)@,
                self.primary@.len() + self.secondary@.len() == old(self).spec_size(),
                self.secondary@.len() + moved == old(self).secondary@.len(),
                old(self).primary@.submap_of(self.primary@),
                self.secondary@.submap_of(old(self).secondary@),
                forall|j: int| 0 <= j < cursor ==> #[trigger] self.secondary.bucket_len(j) == 0,
            decreases (n - cursor) + (Self::MAX_REHASH_OPS - moved),
        {
            let ghost before = self.secondary;
            let popped = self.secondary.pop_from_bucket(cursor);
            match popped {
                Some(e) => {
                    let ghost prim_before = self.primary@;
                    let ghost k = e.key@;
                    let ghost v = e.value@;
                    proof {
                        before.lemma_len_remove(k);
                        self.primary.lemma_wf_facts();
                        assert(!self.primary@.dom().contains(k));
                    }
                    self.primary.insert(e);
                    moved += 1;
                    proof {
                        assert(self.primary@.dom() =~= prim_before.dom().insert(k));
                        assert(self.primary@.len() == prim_before.len() + 1);
                        assert forall|x: Seq<char>| #[trigger] old(self).primary@.dom().contains(x) implies self.primary@.dom().contains(x)
                            && self.primary@[x] == old(self).primary@[x] by {
                            assert(prim_before.dom().contains(x));
                            assert(x != k);
                        }
                        assert(self.secondary@.union_prefer_right(self.primary@) =~= old(self)@);
                    }
                },
                None => {
                    cursor += 1;
                },
            }
        }
        if moved == Self::MAX_REHASH_OPS && cursor < n && self.secondary.chain_len(cursor) == 0 {
            cursor += 1;
        }
        proof {
            if cursor == n {
                self.secondary.lemma_all_buckets_empty();
            }
        }
        if self.secondary.is_empty() || cursor == n {
            proof {
                self.secondary.lemma_len_zero();
                assert(self.secondary@.union_prefer_right(self.primary@) =~= self.primary@);
            }
            self.secondary = HashTable::new_empty();
            self.migrate_pos = None;
            proof {
                assert(self@ =~= old(self)@);
            }
        } else {
            self.migrate_pos = Some(cursor);
        }
    }

    /// A store that leaves `n` keys, all of them in a primary table of `b` buckets,
    /// begins a migration: more than `MAX_ENTRIES_PER_BUCKET` entries per bucket,
    /// counted as `load_factor` counts them, and room to double the buckets.
    pub open spec fn overloaded(n: nat, b: nat) -> bool {
        &&& b > 0
        &&& b <= usize::MAX / 2
        &&& n / b > Self::MAX_ENTRIES_PER_BUCKET
    }

    /// Stores `value` under `key` and hands back the value it replaced.
    ///
    /// One bounded migration step runs first. The entry then goes to the table that
    /// holds `key`, or to the primary table if neither does. Last, if no migration is
    /// under way and the primary table is overloaded, a migration begins: a primary
    /// table with twice the buckets takes over and the old one waits to be drained.
    pub fn insert(&mut self, key: &str, value: &str) -> (r: Option<String>)
        requires
            old(self).wf(),
            old(self)@.len() < usize::MAX,
        ensures
            final(self).wf(),
            final(self)@ == old(self)@.insert(key@, value@),
            old(self)@.contains_key(key@) ==> r is Some && r.unwrap()@ == old(self)@[key@],
            !old(self)@.contains_key(key@) ==> r is None,
            ({
                let stepped = Self::after_step(old(self).secondary_map().len());
                let idle = !old(self).migrating() || stepped == 0;
                if idle && Self::overloaded(final(self)@.len(), old(self).primary_buckets()) {
                    &&& final(self).migrating()
                    &&& final(self).primary_buckets() == 2 * old(self).primary_buckets()
                    &&& final(self).secondary_buckets() == old(self).primary_buckets()
                    &&& final(self).secondary_map() == final(self)@
                    &&& final(self).primary_map() == Map::<Seq<char>, Seq<char>>::empty()
                } else {
                    &&& final(self).migrating() == !idle
                    &&& final(self).primary_buckets() == old(self).primary_buckets()
                    &&& final(self).secondary_map().len() == stepped
                }
            }),
    {
        let ghost k = key@;
        let ghost v = value@;
        self.migrate();
        let ghost mid = *self;
        proof {
            mid.lemma_size();
            mid.primary.lemma_wf_facts();
            mid.secondary.lemma_wf_facts();
            if mid.secondary.spec_bucket_count() == 0 {
                mid.secondary.lemma_no_buckets();
            }
        }
        let old_value = if self.secondary.contains_key(key) {
            proof {
                mid.secondary.lemma_key_in_bucket(k);
            }
            let prev = self.secondary.insert(Entry::new(key, value));
            proof {
                assert(self.secondary@.dom() =~= mid.secondary@.dom());
                assert(self@ =~= old(self)@.insert(k, v));
            }
            prev
        } else {
            let prev = self.primary.insert(Entry::new(key, value));
            proof {
                assert(self@ =~= old(self)@.insert(k, v));
                if !mid.primary@.dom().contains(k) {
                    assert(self.primary@.dom() =~= mid.primary@.dom().insert(k));
                } else {
                    assert(self.primary@.dom() =~= mid.primary@.dom());
                }
            }
            prev
        };
        proof {
            self.lemma_size();
            if self.migrate_pos is None {
                self.secondary.lemma_no_buckets();
            }
        }
        let n = self.primary.bucket_count();
        if self.migrate_pos.is_none() && n <= usize::MAX / 2
            && self.primary.load_factor() > Self::MAX_ENTRIES_PER_BUCKET
        {
            self.trigger_migration();
        }
        old_value
    }

    /// Looks `key` up, in the primary table first, after one migration step.
    pub fn get(&mut self, key: &str) -> (r: Option<&Entry>)
        requires
            old(self).wf(),
        ensures
            final(self).wf(),
            final(self)@ == old(self)@,
            final(self).secondary_map().len() == Self::after_step(old(self).secondary_map().len()),
            final(self).migrating() == (old(self).migrating() && Self::after_step(old(self).secondary_map().len()) > 0),
            final(self).migrating() ==> final(self).secondary_map().len() > 0,
            final(self).primary_buckets() == old(self).primary_buckets(),
            r is None <==> !old(self)@.contains_key(key@),
            r matches Some(e) ==> e@ == (key@, old(self)@[key@]),
    {
        self.migrate();
        let found = self.primary.get(key);
        if found.is_some() {
            found
        } else {
            self.secondary.get(key)
        }
    }

    /// The value stored under `key`, to change in place, looked up in the primary
    /// table first, after one migration step.
    pub fn get_mut(&mut self, key: &str) -> (r: Option<&mut String>)
        requires
            old(self).wf(),
        ensures
            final(self).wf(),
            final(self).secondary_map().len() == Self::after_step(old(self).secondary_map().len()),
            final(self).migrating() == (old(self).migrating() && Self::after_step(old(self).secondary_map().len()) > 0),
            final(self).migrating() ==> final(self).secondary_map().len() > 0,
            final(self).primary_buckets() == old(self).primary_buckets(),
            r is None <==> !old(self)@.contains_key(key@),
            r is None ==> final(self)@ == old(self)@,
            r is Some ==> (*r.unwrap())@ == old(self)@[key@]
                && final(self)@ == old(self)@.insert(key@, (*final(r.unwrap()))@),
    {
        let ghost fin = *final(self);
        self.migrate();
        let ghost mid = *self;
        proof {
            mid.lemma_size();
        }
        if self.primary.contains_key(key) {
            let r = self.primary.get_mut(key);
            proof {
                let v = (*final(r.unwrap()))@;
                assert(fin.primary@ == mid.primary@.insert(key@, v));
                assert(fin.secondary == mid.secondary);
                assert(fin.migrate_pos == mid.migrate_pos);
                assert(fin.primary@.dom() =~= mid.primary@.dom());
                assert(fin@ =~= mid@.insert(key@, v));
            }
            r
        } else {
            let r = self.secondary.get_mut(key);
            proof {
                if r is Some {
                    let v = (*final(r.unwrap()))@;
                    assert(fin.secondary@ == mid.secondary@.insert(key@, v));
                    assert(fin.secondary@.dom() =~= mid.secondary@.dom());
                    assert(fin@ =~= mid@.insert(key@, v));
                } else {
                    assert(fin@ =~= mid@);
                }
                assert(fin.primary == mid.primary);
                assert(fin.migrate_pos == mid.migrate_pos);
            }
            r
        }
    }

    /// Unlinks the entry for `key`, looking in the primary table first, after one
    /// migration step.
    pub fn remove(&mut self, key: &str) -> (r: Option<Entry>)
        requires
            old(self).wf(),
        ensures
            final(self).wf(),
            final(self)@ == old(self)@.remove(key@),
            Self::after_step(old(self).secondary_map().len()) <= final(self).secondary_map().len() + 1,
            final(self).secondary_map().len() <= Self::after_step(old(self).secondary_map().len()),
            final(self).migrating() == (old(self).migrating() && Self::after_step(old(self).secondary_map().len()) > 0),
            final(self).primary_buckets() == old(self).primary_buckets(),
            r is None <==> !old(self)@.contains_key(key@),
            r matches Some(e) ==> e@ == (key@, old(self)@[key@]),
    {
        self.migrate();
        let ghost mid = *self;
        proof {
            mid.lemma_size();
            mid.primary.lemma_wf_facts();
            mid.secondary.lemma_wf_facts();
        }
        let removed = self.primary.remove(key);
        match removed {
            Some(e) => {
                proof {
                    assert(self.primary@.dom() =~= mid.primary@.dom().remove(key@));
                    assert(self@ =~= mid@.remove(key@));
                }
                Some(e)
            },
            None => {
                let r = self.secondary.remove(key);
                proof {
                    assert(self.primary@ =~= mid.primary@);
                    assert(self@ =~= mid@.remove(key@));
                    if r is Some {
                        mid.secondary.lemma_key_in_bucket(key@);
                        mid.secondary.lemma_len_remove(key@);
                        assert(self.secondary@.dom() =~= mid.secondary@.dom().remove(key@));
                    } else {
                        assert(self.secondary@.dom() =~= mid.secondary@.dom());
                    }
                }
                r
            },
        }
    }
}

/// The number of keys is the sum of the two tables' entry counts, which is what
/// `size` returns: every key stored and not removed is counted exactly once.
pub proof fn law_size_is_key_count(d: &Dict)
    requires
        d.wf(),
    ensures
        d.spec_size() == d@.len(),
        d@.dom().finite(),
{
    d.lemma_size();
}

/// Storing under a new key adds one key and storing under a present key adds none;
/// removing a present key takes one away and removing an absent key none. With the
/// contracts of `insert`, `remove` and `size`, the count is always the number of
/// distinct keys stored minus the number removed.
pub proof fn law_counts_follow_the_keys(d: &Dict, k: Seq<char>, v: Seq<char>)
    requires
        d.wf(),
    ensures
        d@.insert(k, v).len() == d@.len() + (if d@.contains_key(k) { 0int } else { 1int }),
        d@.remove(k).len() == d@.len() - (if d@.contains_key(k) { 1int } else { 0int }),
{
    d.lemma_size();
    if d@.contains_key(k) {
        assert(d@.insert(k, v).dom() =~= d@.dom());
        assert(d@.remove(k).dom() =~= d@.dom().remove(k));
    } else {
        assert(d@.insert(k, v).dom() =~= d@.dom().insert(k));
        assert(d@.remove(k).dom() =~= d@.dom());
    }
}

/// Every key of the dictionary is in exactly one of its two tables, migrating or
/// not, and a lookup finds its value there. Without a migration the secondary table
/// has no buckets and holds nothing; during one, the primary table has twice its
/// buckets.
pub proof fn law_each_key_in_one_table(d: &Dict, k: Seq<char>)
    requires
        d.wf(),
    ensures
        d@.contains_key(k) <==> (d.primary_map().contains_key(k) || d.secondary_map().contains_key(k)),
        !(d.primary_map().contains_key(k) && d.secondary_map().contains_key(k)),
        d.primary_map().contains_key(k) ==> d@[k] == d.primary_map()[k],
        d.secondary_map().contains_key(k) ==> d@[k] == d.secondary_map()[k],
        d.primary_buckets() > 0,
        !d.migrating() ==> d.secondary_buckets() == 0,
        !d.migrating() ==> d.secondary_map() == Map::<Seq<char>, Seq<char>>::empty(),
        d.migrating() ==> d.primary_buckets() == 2 * d.secondary_buckets(),
{
    if !d.migrating() {
        d.secondary.lemma_no_buckets();
    }
}

/// Storing `v` under `k` and then `v2` under `k` again: the second store finds `v`
/// to hand back, and leaves the number of keys as the first one left it.
pub proof fn law_insert_twice(d: &Dict, k: Seq<char>, v: Seq<char>, v2: Seq<char>)
    requires
        d.wf(),
    ensures
        d@.insert(k, v).contains_key(k),
        d@.insert(k, v)[k] == v,
        d@.insert(k, v).insert(k, v2).len() == d@.insert(k, v).len(),
{
    d.lemma_size();
    let m1 = d@.insert(k, v);
    assert(m1.insert(k, v2).dom() =~= m1.dom());
}

impl Default for Dict {
    fn default() -> (r: Dict)
        ensures
            r.wf(),
            r@ == Map::<Seq<char>, Seq<char>>::empty(),
    {
        Dict::new()
    }
}

} // verus!
