//! An insertion-ordered map from word sequences (n-grams) to values.
//!
//! Entries live in two parallel vectors; a `HashMap` keyed by a rolling hash
//! of the words indexes them, so lookups only compare the keys that share a
//! hash.
use std::collections::HashMap;
use vstd::prelude::*;
use vstd::std_specs::hash::group_hash_axioms;
use vstd::wrapping::u64_specs;
use crate::text::chars_of;

verus! {

broadcast use group_hash_axioms;

/// The words of an n-gram key, each as its characters.
pub open spec fn words_view(k: Seq<String>) -> Seq<Seq<char>> {
    k.map_values(|s: String| s@)
}

/// One step of the rolling hash: `h * 31 + x`, wrapping.
pub open spec fn mix(h: u64, x: u64) -> u64 {
    u64_specs::wrapping_add(u64_specs::wrapping_mul(h, 31), x)
}

/// The rolling hash `h` extended by the characters `cs`.
pub open spec fn hash_chars(h: u64, cs: Seq<char>) -> u64
    decreases cs.len(),
{
    if cs.len() == 0 {
        h
    } else {
        mix(hash_chars(h, cs.drop_last()), cs.last() as u64)
    }
}

/// The hash under which an n-gram key is indexed.
pub open spec fn hash_key(k: Seq<Seq<char>>) -> u64
    decreases k.len(),
{
    if k.len() == 0 {
        7
    } else {
        mix(hash_chars(hash_key(k.drop_last()), k.last()), 0x1F)
    }
}

fn hash_string(h0: u64, s: &String) -> (h: u64)
    ensures
        h == hash_chars(h0, s@),
{
    let cs = chars_of(s.as_str());
    let mut h = h0;
    let mut i: usize = 0;
    while i < cs.len()
        invariant
            i <= cs@.len(),
            cs@ == s@,
            h == hash_chars(h0, cs@.take(i as int)),
        decreases cs@.len() - i,
    {
        proof {
            assert(cs@.take(i + 1).drop_last() =~= cs@.take(i as int));
        }
        h = h.wrapping_mul(31).wrapping_add(cs[i] as u64);
        i = i + 1;
    }
    assert(cs@.take(cs@.len() as int) =~= cs@);
    h
}

fn hash_words(k: &Vec<String>) -> (h: u64)
    ensures
        h == hash_key(words_view(k@)),
{
    let mut h: u64 = 7;
    let mut i: usize = 0;
    while i < k.len()
        invariant
            i <= k@.len(),
            h == hash_key(words_view(k@.take(i as int))),
        decreases k@.len() - i,
    {
        proof {
            let t = words_view(k@.take(i + 1));
            assert(t.drop_last() =~= words_view(k@.take(i as int)));
            assert(t.last() == k@[i as int]@);
        }
        h = hash_string(h, &k[i]);
        h = h.wrapping_mul(31).wrapping_add(0x1F);
        i = i + 1;
    }
    assert(k@.take(k@.len() as int) =~= k@);
    h
}

/// Whether two keys hold the same words.
pub fn same_words(a: &Vec<String>, b: &Vec<String>) -> (r: bool)
    ensures
        r == (words_view(a@) == words_view(b@)),
{
    if a.len() != b.len() {
        proof {
            assert(words_view(a@).len() != words_view(b@).len());
        }
        return false;
    }
    let mut i: usize = 0;
    while i < a.len()
        invariant
            a@.len() == b@.len(),
            i <= a@.len(),
            forall|j: int| 0 <= j < i ==> a@[j]@ == b@[j]@,
        decreases a@.len() - i,
    {
        if a[i] != b[i] {
            proof {
                assert(words_view(a@)[i as int] != words_view(b@)[i as int]);
            }
            return false;
        }
        i = i + 1;
    }
    assert(words_view(a@) =~= words_view(b@));
    true
}

/// Map from n-gram keys to values, remembering insertion order.
pub struct NgramMap<V> {
    keys: Vec<Vec<String>>,
    vals: Vec<V>,
    index: HashMap<u64, Vec<usize>>,
}

impl<V> NgramMap<V> {
    /// The keys, in insertion order.
    pub closed spec fn key_seq(&self) -> Seq<Seq<Seq<char>>> {
        self.keys@.map_values(|k: Vec<String>| words_view(k@))
    }

    /// The values, in the order of their keys.
    pub closed spec fn val_seq(&self) -> Seq<V> {
        self.vals@
    }

    #[verifier::opaque]
    pub closed spec fn wf(&self) -> bool {
        &&& self.keys@.len() == self.vals@.len()
        &&& self.key_seq().no_duplicates()
        &&& forall|i: int|
            #![trigger self.key_seq()[i]]
            0 <= i < self.keys@.len() ==> {
                let h = hash_key(self.key_seq()[i]);
                self.index@.contains_key(h) && self.index@[h]@.contains(i as usize)
            }
        &&& forall|h: u64, j: int|
            #![trigger self.index@[h]@[j]]
            self.index@.contains_key(h) && 0 <= j < self.index@[h]@.len() ==> {
                let e = self.index@[h]@[j] as int;
                0 <= e < self.keys@.len() && hash_key(self.key_seq()[e]) == h
            }
    }

    /// Number of entries.
    pub open spec fn spec_len(&self) -> nat {
        self.key_seq().len()
    }

    /// Whether `k` is a key.
    pub open spec fn has(&self, k: Seq<Seq<char>>) -> bool {
        self.key_seq().contains(k)
    }

    /// The position of key `k`.
    pub open spec fn position(&self, k: Seq<Seq<char>>) -> int {
        self.key_seq().index_of(k)
    }

    /// The map that the entries describe.
    pub open spec fn as_map(&self) -> Map<Seq<Seq<char>>, V> {
        Map::new(|k: Seq<Seq<char>>| self.has(k), |k: Seq<Seq<char>>| self.val_seq()[self.position(k)])
    }

    /// As many values as keys, and no key twice.
    pub proof fn lemma_wf(&self)
        requires
            self.wf(),
        ensures
            self.val_seq().len() == self.key_seq().len(),
            self.key_seq().no_duplicates(),
    {
        reveal(NgramMap::wf);
    }

    proof fn lemma_lens(&self)
        requires
            self.wf(),
        ensures
            self.val_seq().len() == self.key_seq().len(),
            self.keys@.len() == self.key_seq().len(),
            self.key_seq().no_duplicates(),
    {
        reveal(NgramMap::wf);
    }

    proof fn lemma_bucket_sound(&self, h: u64, j: int)
        requires
            self.wf(),
            self.index@.contains_key(h),
            0 <= j < self.index@[h]@.len(),
        ensures
            0 <= self.index@[h]@[j] < self.keys@.len(),
            hash_key(self.key_seq()[self.index@[h]@[j] as int]) == h,
    {
        reveal(NgramMap::wf);
    }

    proof fn lemma_bucket_complete(&self, i: int)
        requires
            self.wf(),
            0 <= i < self.keys@.len(),
        ensures
            self.index@.contains_key(hash_key(self.key_seq()[i])),
            self.index@[hash_key(self.key_seq()[i])]@.contains(i as usize),
    {
        reveal(NgramMap::wf);
        assert(self.key_seq()[i] == self.key_seq()[i]);
    }

    /// The key at position `i` sits at `i` and maps to the value there.
    pub proof fn lemma_position(&self, i: int)
        requires
            self.wf(),
            0 <= i < self.spec_len(),
        ensures
            self.has(self.key_seq()[i]),
            self.position(self.key_seq()[i]) == i,
            self.as_map().contains_key(self.key_seq()[i]),
            self.as_map()[self.key_seq()[i]] == self.val_seq()[i],
    {
        self.lemma_lens();
        let k = self.key_seq()[i];
        assert(self.key_seq().contains(k));
        let t = self.key_seq().index_of(k);
        assert(self.key_seq()[t] == k);
    }

    /// The keys are exactly the map's domain, as many as the entries.
    pub proof fn lemma_dom_len(&self)
        requires
            self.wf(),
        ensures
            self.as_map().dom() == self.key_seq().to_set(),
            self.as_map().dom().len() == self.spec_len(),
    {
        self.lemma_lens();
        assert(self.as_map().dom() =~= self.key_seq().to_set());
        self.key_seq().unique_seq_to_set();
    }

    /// An empty map.
    pub fn new() -> (m: Self)
        ensures
            m.wf(),
            m.key_seq() == Seq::<Seq<Seq<char>>>::empty(),
            m.val_seq() == Seq::<V>::empty(),
            m.as_map() == Map::<Seq<Seq<char>>, V>::empty(),
    {
        let m = NgramMap { keys: Vec::new(), vals: Vec::new(), index: HashMap::new() };
        assert(m.key_seq() =~= Seq::<Seq<Seq<char>>>::empty());
        assert(m.wf()) by {
            reveal(NgramMap::wf);
        }
        assert(m.as_map() =~= Map::<Seq<Seq<char>>, V>::empty());
        m
    }

    /// Number of entries.
    pub fn len(&self) -> (n: usize)
        requires
            self.wf(),
        ensures
            n == self.spec_len(),
    {
        proof {
            self.lemma_lens();
        }
        self.keys.len()
    }

    /// The key at position `i`.
    pub fn key_at(&self, i: usize) -> (k: &Vec<String>)
        requires
            self.wf(),
            i < self.spec_len(),
        ensures
            words_view(k@) == self.key_seq()[i as int],
    {
        proof {
            self.lemma_lens();
        }
        &self.keys[i]
    }

    /// The value at position `i`.
    pub fn value_at(&self, i: usize) -> (v: &V)
        requires
            self.wf(),
            i < self.spec_len(),
        ensures
            *v == self.val_seq()[i as int],
            self.as_map().contains_key(self.key_seq()[i as int]),
            self.as_map()[self.key_seq()[i as int]] == *v,
    {
        proof {
            self.lemma_position(i as int);
        }
        proof {
            self.lemma_lens();
        }
        &self.vals[i]
    }

    /// The position of `key`, if it is a key.
    pub fn find(&self, key: &Vec<String>) -> (r: Option<usize>)
        requires
            self.wf(),
        ensures
            match r {
                Some(i) => i < self.spec_len() && self.key_seq()[i as int] == words_view(key@)
                    && self.as_map().contains_key(words_view(key@)) && self.as_map()[words_view(
                    key@,
                )] == self.val_seq()[i as int],
                None => !self.has(words_view(key@)) && !self.as_map().contains_key(
                    words_view(key@),
                ),
            },
    {
        let h = hash_words(key);
        match self.index.get(&h) {
            None => {
                proof {
                    if self.has(words_view(key@)) {
                        let i = self.key_seq().index_of(words_view(key@));
                        self.lemma_lens();
                        self.lemma_bucket_complete(i);
                    }
                }
                None
            },
            Some(bucket) => {
                let mut j: usize = 0;
                while j < bucket.len()
                    invariant
                        self.wf(),
                        self.index@.contains_key(h),
                        *bucket == self.index@[h],
                        h == hash_key(words_view(key@)),
                        j <= bucket@.len(),
                        forall|t: int|
                            0 <= t < j ==> self.key_seq()[bucket@[t] as int] != words_view(
                                key@,
                            ),
                    decreases bucket@.len() - j,
                {
                    let e = bucket[j];
                    proof {
                        self.lemma_bucket_sound(h, j as int);
                        self.lemma_lens();
                    }
                    if same_words(&self.keys[e], key) {
                        proof {
                            assert(e < self.keys@.len());
                            assert(e < self.spec_len());
                            assert(self.key_seq()[e as int] == words_view(self.keys@[e as int]@));
                            assert(words_view(self.keys@[e as int]@) == words_view(key@));
                            self.lemma_position(e as int);
                        }
                        return Some(e);
                    }
                    j = j + 1;
                }
                proof {
                    if self.has(words_view(key@)) {
                        let i = self.key_seq().index_of(words_view(key@));
                        self.lemma_lens();
                        assert(self.key_seq()[i] == words_view(key@));
                        self.lemma_bucket_complete(i);
                        assert(self.index@[h]@.contains(i as usize));
                        let t = self.index@[h]@.index_of(i as usize);
                        assert(bucket@[t] == i as usize);
                        assert(0 <= t < j);
                        assert(self.key_seq()[bucket@[t] as int] != words_view(key@));
                        assert(i < self.keys.len());
                        assert((i as usize) as int == i);
                    }
                }
                None
            },
        }
    }

    /// Adds a new entry at the end.
    pub fn push_new(&mut self, key: Vec<String>, v: V)
        requires
            old(self).wf(),
            !old(self).has(words_view(key@)),
        ensures
            final(self).wf(),
            final(self).key_seq() == old(self).key_seq().push(words_view(key@)),
            final(self).val_seq() == old(self).val_seq().push(v),
            final(self).as_map() == old(self).as_map().insert(words_view(key@), v),
    {
        proof {
            reveal(NgramMap::wf);
        }
        let h = hash_words(&key);
        let n = self.keys.len();
        let ghost old_keys = self.key_seq();
        let mut bucket = match self.index.remove(&h) {
            Some(b) => b,
            None => Vec::new(),
        };
        let ghost old_bucket = bucket@;
        bucket.push(n);
        self.index.insert(h, bucket);
        self.keys.push(key);
        self.vals.push(v);
        proof {
            assert(self.key_seq() =~= old_keys.push(words_view(key@)));
            assert forall|i: int|
                #![trigger self.key_seq()[i]]
                0 <= i < self.keys@.len() implies {
                let hh = hash_key(self.key_seq()[i]);
                self.index@.contains_key(hh) && self.index@[hh]@.contains(i as usize)
            } by {
                let hh = hash_key(self.key_seq()[i]);
                if i == n as int {
                    assert(self.index@[h]@[old_bucket.len() as int] == n);
                } else {
                    assert(self.key_seq()[i] == old_keys[i]);
                    assert(old(self).index@.contains_key(hh));
                    assert(old(self).index@[hh]@.contains(i as usize));
                    if hh == h {
                        let t = old(self).index@[hh]@.index_of(i as usize);
                        assert(self.index@[h]@[t] == i as usize);
                    } else {
                        assert(self.index@[hh] == old(self).index@[hh]);
                    }
                }
            }
            assert forall|hh: u64, j: int|
                #![trigger self.index@[hh]@[j]]
                self.index@.contains_key(hh) && 0 <= j < self.index@[hh]@.len() implies {
                let e = self.index@[hh]@[j] as int;
                0 <= e < self.keys@.len() && hash_key(self.key_seq()[e]) == hh
            } by {
                if hh == h {
                    if j < old_bucket.len() {
                        assert(old(self).index@[h]@[j] == self.index@[h]@[j]);
                    }
                } else {
                    assert(self.index@[hh] == old(self).index@[hh]);
                    assert(old(self).index@[hh]@[j] == self.index@[hh]@[j]);
                }
            }
            assert(self.val_seq() =~= old(self).val_seq().push(v));
            assert(self.key_seq().no_duplicates()) by {
                assert forall|a: int, b: int|
                    0 <= a < self.key_seq().len() && 0 <= b < self.key_seq().len() && a != b
                    implies self.key_seq()[a] != self.key_seq()[b] by {
                    if a == n as int {
                        assert(old_keys.contains(old_keys[b]));
                    } else if b == n as int {
                        assert(old_keys.contains(old_keys[a]));
                    }
                }
            }
            let kv = words_view(key@);
            assert(self.wf());
            assert forall|k2: Seq<Seq<char>>| #[trigger] self.as_map().contains_key(k2) <==> old(
                self,
            ).as_map().insert(kv, v).contains_key(k2) by {
                if old(self).has(k2) {
                    let t = old_keys.index_of(k2);
                    assert(self.key_seq()[t] == k2);
                }
                if self.has(k2) && k2 != kv {
                    let t = self.key_seq().index_of(k2);
                    assert(old_keys[t] == k2);
                }
                if k2 == kv {
                    assert(self.key_seq()[n as int] == kv);
                }
            }
            assert forall|k2: Seq<Seq<char>>| #[trigger] self.as_map().contains_key(k2) implies self.as_map()[k2]
                == old(self).as_map().insert(kv, v)[k2] by {
                if k2 == kv {
                    self.lemma_position(n as int);
                } else {
                    let t = self.key_seq().index_of(k2);
                    assert(t < n);
                    self.lemma_position(t);
                    old(self).lemma_position(t);
                }
            }
            assert(self.as_map() =~= old(self).as_map().insert(kv, v));
        }
    }

    /// Replaces the value at position `i`.
    pub fn set_value(&mut self, i: usize, v: V)
        requires
            old(self).wf(),
            i < old(self).spec_len(),
        ensures
            final(self).wf(),
            final(self).key_seq() == old(self).key_seq(),
            final(self).val_seq() == old(self).val_seq().update(i as int, v),
            final(self).as_map() == old(self).as_map().insert(old(self).key_seq()[i as int], v),
    {
        proof {
            reveal(NgramMap::wf);
        }
        self.vals.set(i, v);
        proof {
            assert(self.key_seq() =~= old(self).key_seq());
            assert(self.wf());
            let ki = old(self).key_seq()[i as int];
            let nv = self.val_seq()[i as int];
            assert forall|k2: Seq<Seq<char>>| #[trigger] self.as_map().contains_key(k2) implies self.as_map()[k2]
                == old(self).as_map().insert(ki, nv)[k2] by {
                let t = self.key_seq().index_of(k2);
                self.lemma_position(t);
                old(self).lemma_position(t);
                old(self).lemma_position(i as int);
            }
            assert(self.as_map() =~= old(self).as_map().insert(ki, nv));
        }
    }

    /// Swaps the value at position `i` with `*v`.
    pub fn swap_value(&mut self, i: usize, v: &mut V)
        requires
            old(self).wf(),
            i < old(self).spec_len(),
        ensures
            final(self).wf(),
            final(self).key_seq() == old(self).key_seq(),
            final(self).val_seq() == old(self).val_seq().update(i as int, *old(v)),
            final(self).as_map() == old(self).as_map().insert(old(self).key_seq()[i as int], *old(v)),
            *final(v) == old(self).val_seq()[i as int],
    {
        proof {
            reveal(NgramMap::wf);
        }
        self.vals.set_and_swap(i, v);
        proof {
            assert(self.key_seq() =~= old(self).key_seq());
            assert(self.wf());
            let ki = old(self).key_seq()[i as int];
            let nv = self.val_seq()[i as int];
            assert forall|k2: Seq<Seq<char>>| #[trigger] self.as_map().contains_key(k2) implies self.as_map()[k2]
                == old(self).as_map().insert(ki, nv)[k2] by {
                let t = self.key_seq().index_of(k2);
                self.lemma_position(t);
                old(self).lemma_position(t);
                old(self).lemma_position(i as int);
            }
            assert(self.as_map() =~= old(self).as_map().insert(ki, nv));
        }
    }
}

} // verus!
