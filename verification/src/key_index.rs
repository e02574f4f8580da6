//! Dense ids for record keys, in the order the keys are first seen.

use crate::digest::{hash_bytes, sha256};
use std::collections::HashMap;
use vstd::prelude::*;
use vstd::utf8::encode_utf8;

verus! {

/// The index after `key` has been looked up in `index`: unchanged when the
/// key is known, and with the key added at the end when it is new.
pub open spec fn with_key(index: Seq<Seq<char>>, key: Seq<char>) -> Seq<Seq<char>> {
    if index.contains(key) {
        index
    } else {
        index.push(key)
    }
}

/// The index after each key of `seen` has been looked up in turn.
pub open spec fn extend_index(index: Seq<Seq<char>>, seen: Seq<Seq<char>>) -> Seq<Seq<char>>
    decreases seen.len(),
{
    if seen.len() == 0 {
        index
    } else {
        with_key(extend_index(index, seen.drop_last()), seen.last())
    }
}

/// The distinct keys of `seen`, in the order of their first occurrence.
pub open spec fn index_keys(seen: Seq<Seq<char>>) -> Seq<Seq<char>> {
    extend_index(Seq::empty(), seen)
}

/// The texts of a sequence of strings.
pub open spec fn texts(keys: Seq<String>) -> Seq<Seq<char>> {
    Seq::new(keys.len(), |i: int| keys[i]@)
}

/// The first eight bytes of a digest, read as one number with the first
/// byte lowest.
pub open spec fn prefix(digest: Seq<u8>) -> u64 {
    (digest[0]
        + 0x100 * digest[1]
        + 0x1_0000 * digest[2]
        + 0x100_0000 * digest[3]
        + 0x1_0000_0000 * digest[4]
        + 0x100_0000_0000 * digest[5]
        + 0x1_0000_0000_0000 * digest[6]
        + 0x100_0000_0000_0000 * digest[7]) as u64
}

/// The number under which a key is filed: the prefix of the digest of its
/// bytes.
pub open spec fn fingerprint(key: Seq<char>) -> u64 {
    prefix(sha256(encode_utf8(key)))
}

/// Reads the first eight bytes of a digest as one number, the first byte
/// lowest.
pub fn digest_prefix(digest: &[u8; 32]) -> (p: u64)
    ensures
        p == prefix(digest@),
{
    digest[0] as u64
        + 0x100 * (digest[1] as u64)
        + 0x1_0000 * (digest[2] as u64)
        + 0x100_0000 * (digest[3] as u64)
        + 0x1_0000_0000 * (digest[4] as u64)
        + 0x100_0000_0000 * (digest[5] as u64)
        + 0x1_0000_0000_0000 * (digest[6] as u64)
        + 0x100_0000_0000_0000 * (digest[7] as u64)
}

/// Computes the fingerprint of a key.
fn fingerprint_of(key: &String) -> (h: u64)
    ensures
        h == fingerprint(key@),
{
    let digest = hash_bytes(key.as_str().as_bytes());
    digest_prefix(&digest)
}

/// Assigns each distinct key the next unused id, starting at zero. The id
/// of a key is its position in the view.
///
/// The ids of the keys are filed under the keys' fingerprints, so that a
/// lookup compares the key with the few keys of one fingerprint only.
pub struct KeyIndex {
    keys: Vec<String>,
    filed: HashMap<u64, Vec<usize>>,
}

impl View for KeyIndex {
    type V = Seq<Seq<char>>;

    closed spec fn view(&self) -> Seq<Seq<char>> {
        texts(self.keys@)
    }
}

impl KeyIndex {
    /// Every id is filed under the fingerprint of its key, and nothing
    /// but ids is filed.
    pub closed spec fn filed_right(&self) -> bool {
        &&& forall|i: int|
            0 <= i < self.keys@.len() ==> {
                &&& self.filed@.contains_key(#[trigger] fingerprint(self.keys@[i]@))
                &&& self.filed@[fingerprint(self.keys@[i]@)]@.contains(i as usize)
            }
        &&& forall|h: u64, k: int|
            self.filed@.contains_key(h) && 0 <= k < self.filed@[h]@.len()
                ==> (#[trigger] self.filed@[h]@[k]) < self.keys@.len()
    }

    /// No key occurs twice, and the ids are filed right.
    pub open spec fn wf(&self) -> bool {
        self@.no_duplicates() && self.filed_right()
    }

    /// Creates an index without keys.
    pub fn new() -> (index: KeyIndex)
        ensures
            index.wf(),
            index@ == Seq::<Seq<char>>::empty(),
    {
        let index = KeyIndex { keys: Vec::new(), filed: HashMap::new() };
        assert(index@ =~= Seq::<Seq<char>>::empty());
        index
    }

    /// Number of keys, which is also the next id to be given out.
    pub fn len(&self) -> (n: usize)
        ensures
            n == self@.len(),
    {
        self.keys.len()
    }

    /// The key with the given id, if that id has been given out.
    pub fn key(&self, id: usize) -> (key: Option<&String>)
        ensures
            id < self@.len() ==> key.is_some() && key.unwrap()@ == self@[id as int],
            id >= self@.len() ==> key.is_none(),
    {
        if id < self.keys.len() {
            Some(&self.keys[id])
        } else {
            None
        }
    }

    /// The id of `key`, if the key is known.
    pub fn position(&self, key: &String) -> (id: Option<usize>)
        requires
            self.wf(),
        ensures
            self@.contains(key@) ==> id.is_some() && id.unwrap() < self@.len()
                && self@[id.unwrap() as int] == key@,
            !self@.contains(key@) ==> id.is_none(),
    {
        let h = fingerprint_of(key);
        match self.filed.get(&h) {
            None => {
                assert forall|i: int| 0 <= i < self@.len() implies self@[i] != key@ by {
                    if self@[i] == key@ {
                        assert(self.filed@.contains_key(fingerprint(self.keys@[i]@)));
                    }
                }
                None
            },
            Some(ids) => {
                let mut k: usize = 0;
                while k < ids.len()
                    invariant
                        k <= ids.len(),
                        self.wf(),
                        h == fingerprint(key@),
                        self.filed@.contains_key(h),
                        self.filed@[h] == *ids,
                        forall|j: int| 0 <= j < k ==> self@[ids@[j] as int] != key@,
                    decreases ids.len() - k,
                {
                    let id = ids[k];
                    assert(self.filed@[h]@[k as int] < self.keys@.len());
                    if self.keys[id] == *key {
                        assert(self@[id as int] == key@);
                        return Some(id);
                    }
                    k += 1;
                }
                assert forall|i: int| 0 <= i < self@.len() implies self@[i] != key@ by {
                    if self@[i] == key@ {
                        assert(self.keys@.len() == self.keys.len());
                        let id = i as usize;
                        assert(self.keys@[i]@ == key@);
                        assert(self.filed@.contains_key(fingerprint(self.keys@[i]@)));
                        assert(fingerprint(self.keys@[i]@) == h);
                        assert(ids@.contains(id));
                        let j = choose|j: int| 0 <= j < ids@.len() && ids@[j] == id;
                        assert(self@[ids@[j] as int] != key@);
                    }
                }
                None
            },
        }
    }

    /// Returns the id of `key`. A key not seen before gets the next
    /// unused id; a known key keeps the id it has.
    pub fn id_for(&mut self, key: &String) -> (id: usize)
        requires
            old(self).wf(),
        ensures
            final(self).wf(),
            final(self)@ == with_key(old(self)@, key@),
            id < final(self)@.len(),
            final(self)@[id as int] == key@,
    {
        match self.position(key) {
            Some(id) => id,
            None => {
                let id = self.keys.len();
                let h = fingerprint_of(key);
                let ghost before = self.filed@;
                self.keys.push(key.clone());
                self.filed.entry(h).or_insert(Vec::new()).push(id);
                proof {
                    assert(self@ =~= old(self)@.push(key@));
                    let after = self.filed@;
                    assert(after[h]@.last() == id);
                    assert forall|i: int| 0 <= i < self.keys@.len() implies {
                        &&& after.contains_key(#[trigger] fingerprint(self.keys@[i]@))
                        &&& after[fingerprint(self.keys@[i]@)]@.contains(i as usize)
                    } by {
                        let hi = fingerprint(self.keys@[i]@);
                        if i < id {
                            assert(self.keys@[i] == old(self).keys@[i]);
                            assert(before.contains_key(hi));
                            let j = choose|j: int|
                                0 <= j < before[hi]@.len() && before[hi]@[j] == i as usize;
                            assert(after[hi]@[j] == i as usize);
                        } else {
                            assert(after[hi]@[after[hi]@.len() - 1] == i as usize);
                        }
                    }
                    assert forall|g: u64, k: int|
                        after.contains_key(g) && 0 <= k < after[g]@.len() implies
                        (#[trigger] after[g]@[k]) < self.keys@.len() by {
                        if g != h || k < after[g]@.len() - 1 {
                            assert(before.contains_key(g));
                            assert(before[g]@[k] == after[g]@[k]);
                        }
                    }
                }
                id
            },
        }
    }

    /// Looks up every key of `keys` in turn, so that each has an id.
    pub fn register(&mut self, keys: &Vec<String>)
        requires
            old(self).wf(),
        ensures
            final(self).wf(),
            final(self)@ == extend_index(old(self)@, texts(keys@)),
    {
        let mut i: usize = 0;
        while i < keys.len()
            invariant
                i <= keys.len(),
                self.wf(),
                self@ == extend_index(old(self)@, texts(keys@).take(i as int)),
            decreases keys.len() - i,
        {
            self.id_for(&keys[i]);
            proof {
                let seen = texts(keys@).take(i + 1);
                assert(seen.drop_last() == texts(keys@).take(i as int));
                assert(seen.last() == keys@[i as int]@);
            }
            i += 1;
        }
        assert(texts(keys@).take(keys.len() as int) == texts(keys@));
    }
}

/// In an index without duplicates, the position of a key is the only
/// position that holds it.
pub proof fn lemma_position_unique(index: Seq<Seq<char>>, key: Seq<char>, id: int)
    requires
        index.no_duplicates(),
        0 <= id < index.len(),
        index[id] == key,
    ensures
        index.index_of(key) == id,
        index.contains(key),
{
}

/// Looking a key up keeps the index free of duplicates, keeps every id
/// that was given out, and makes the key known.
pub proof fn lemma_with_key(index: Seq<Seq<char>>, key: Seq<char>)
    requires
        index.no_duplicates(),
    ensures
        with_key(index, key).no_duplicates(),
        with_key(index, key).contains(key),
        index.len() <= with_key(index, key).len() <= index.len() + 1,
        forall|i: int| 0 <= i < index.len() ==> with_key(index, key)[i] == index[i],
        forall|k: Seq<char>| index.contains(k) ==> with_key(index, key).contains(k),
        index.contains(key) ==> with_key(index, key) == index,
{
    let next = with_key(index, key);
    if !index.contains(key) {
        assert(next[index.len() as int] == key);
        assert forall|k: Seq<char>| index.contains(k) implies next.contains(k) by {
            let i = index.index_of(k);
            assert(next[i] == k);
        }
    }
}

/// Looking up a sequence of keys keeps the index free of duplicates, keeps
/// every id that was given out, and makes every key of the sequence known.
pub proof fn lemma_extend_index(index: Seq<Seq<char>>, seen: Seq<Seq<char>>)
    requires
        index.no_duplicates(),
    ensures
        extend_index(index, seen).no_duplicates(),
        index.len() <= extend_index(index, seen).len() <= index.len() + seen.len(),
        forall|i: int| 0 <= i < index.len() ==> extend_index(index, seen)[i] == index[i],
        forall|k: Seq<char>| index.contains(k) ==> extend_index(index, seen).contains(k),
        forall|i: int|
            0 <= i < seen.len() ==> extend_index(index, seen).contains(#[trigger] seen[i]),
    decreases seen.len(),
{
    if seen.len() > 0 {
        let before = extend_index(index, seen.drop_last());
        lemma_extend_index(index, seen.drop_last());
        lemma_with_key(before, seen.last());
        assert forall|i: int| 0 <= i < seen.len() implies extend_index(index, seen).contains(
            #[trigger] seen[i],
        ) by {
            if i < seen.len() - 1 {
                assert(seen.drop_last()[i] == seen[i]);
            }
        }
    }
}

/// Looking up two sequences of keys one after the other is looking up
/// their concatenation.
pub proof fn lemma_extend_index_concat(
    index: Seq<Seq<char>>,
    first: Seq<Seq<char>>,
    second: Seq<Seq<char>>,
)
    ensures
        extend_index(index, first + second) == extend_index(extend_index(index, first), second),
    decreases second.len(),
{
    if second.len() == 0 {
        assert(first + second == first);
    } else {
        lemma_extend_index_concat(index, first, second.drop_last());
        assert((first + second).drop_last() == first + second.drop_last());
        assert((first + second).last() == second.last());
    }
}

/// The index of a sequence of keys has no duplicates, is no longer than
/// the sequence, and knows every key of the sequence.
pub proof fn lemma_index_keys(seen: Seq<Seq<char>>)
    ensures
        index_keys(seen).no_duplicates(),
        index_keys(seen).len() <= seen.len(),
        forall|i: int| 0 <= i < seen.len() ==> index_keys(seen).contains(#[trigger] seen[i]),
{
    lemma_extend_index(Seq::empty(), seen);
}

} // verus!
