//! The mapping store: a process-wide table that gives each original element
//! identifier a stable, unique generated replacement.

use vstd::prelude::*;
use crate::bytes_util::{bytes_eq, push_all};

verus! {

/// A generated identifier: the fixed prefix `id_` followed by at least one
/// lowercase hexadecimal digit. Such a string is valid both as an HTML `id`
/// attribute value and as a CSS identifier: it starts with a letter and
/// contains no whitespace and no quote characters.
pub open spec fn is_generated_id(s: Seq<u8>) -> bool {
    &&& s.len() >= 4
    &&& s[0] == 105u8  // 'i'
    &&& s[1] == 100u8  // 'd'
    &&& s[2] == 95u8  // '_'
    &&& forall|i: int| 3 <= i < s.len() ==> is_hex_digit(#[trigger] s[i])
}

/// A lowercase hexadecimal digit byte.
pub open spec fn is_hex_digit(b: u8) -> bool {
    (48 <= b <= 57) || (97 <= b <= 102)
}

/// The table of recorded pairings, in insertion order. Each pair maps an
/// original identifier (as bytes) to its generated replacement.
pub struct IdMapping {
    entries: Vec<(Vec<u8>, Vec<u8>)>,
}

/// The mathematical content of an entry list: the map from original
/// identifiers to their replacements, later entries taking precedence
/// (well-formed stores never repeat a key, so precedence never matters).
pub open spec fn map_of(es: Seq<(Seq<u8>, Seq<u8>)>) -> Map<Seq<u8>, Seq<u8>>
    decreases es.len(),
{
    if es.len() == 0 {
        Map::empty()
    } else {
        map_of(es.drop_last()).insert(es.last().0, es.last().1)
    }
}

impl View for IdMapping {
    type V = Map<Seq<u8>, Seq<u8>>;

    closed spec fn view(&self) -> Map<Seq<u8>, Seq<u8>> {
        map_of(self.entries_seq())
    }
}

impl IdMapping {
    /// The recorded pairings as a sequence of byte sequences.
    pub closed spec fn entries_seq(self) -> Seq<(Seq<u8>, Seq<u8>)> {
        self.entries@.map_values(|e: (Vec<u8>, Vec<u8>)| (e.0@, e.1@))
    }

    /// Well-formedness: no original identifier is recorded twice, no two
    /// originals share a replacement, and every replacement is a generated
    /// identifier.
    pub closed spec fn wf(self) -> bool {
        &&& forall|i: int, j: int|
            0 <= i < j < self.entries_seq().len() ==> (#[trigger] self.entries_seq()[i]).0 != (
            #[trigger] self.entries_seq()[j]).0
        &&& forall|i: int, j: int|
            0 <= i < j < self.entries_seq().len() ==> (#[trigger] self.entries_seq()[i]).1 != (
            #[trigger] self.entries_seq()[j]).1
        &&& forall|i: int|
            0 <= i < self.entries_seq().len() ==> is_generated_id(
                (#[trigger] self.entries_seq()[i]).1,
            )
    }

    /// Some recorded original maps to the replacement `v`.
    pub closed spec fn has_value(self, v: Seq<u8>) -> bool {
        exists|i: int| 0 <= i < self.entries_seq().len() && (#[trigger] self.entries_seq()[i]).1 == v
    }

    /// An empty store: no identifier has been seen yet.
    pub fn new() -> (r: Self)
        ensures
            r.wf(),
            r@ == Map::<Seq<u8>, Seq<u8>>::empty(),
    {
        Self { entries: Vec::new() }
    }

    /// Whether some recorded original already uses `v` as its replacement.
    fn contains_value(&self, v: &Vec<u8>) -> (r: bool)
        ensures
            r == self.has_value(v@),
    {
        let n = self.entries.len();
        let mut i: usize = 0;
        while i < n
            invariant
                i <= n,
                n == self.entries@.len(),
                forall|j: int| 0 <= j < i ==> (#[trigger] self.entries_seq()[j]).1 != v@,
            decreases n - i,
        {
            if bytes_eq(self.entries[i].1.as_slice(), v.as_slice()) {
                assert(self.entries_seq()[i as int].1 == v@);
                return true;
            }
            i += 1;
        }
        false
    }

    /// A generated identifier that no recorded original uses yet. Normally
    /// the random candidate is free; if it happens to collide with a stored
    /// replacement, fall back to an identifier strictly longer than every
    /// stored replacement, which therefore cannot equal any of them.
    fn fresh_generated_id(&self) -> (r: Vec<u8>)
        ensures
            is_generated_id(r@),
            !self.has_value(r@),
    {
        let cand = random_id_candidate();
        if !self.contains_value(&cand) {
            return cand;
        }
        let mut v: Vec<u8> = Vec::new();
        v.push(105);  // 'i'
        v.push(100);  // 'd'
        v.push(95);  // '_'
        v.push(48);  // '0'
        assert(forall|k: int| 3 <= k < v@.len() ==> is_hex_digit(#[trigger] v@[k]));
        let n = self.entries.len();
        let mut i: usize = 0;
        while i < n
            invariant
                i <= n,
                n == self.entries@.len(),
                is_generated_id(v@),
                forall|j: int| 0 <= j < i ==> v@.len() > (#[trigger] self.entries_seq()[j]).1.len(),
            decreases n - i,
        {
            while v.len() <= self.entries[i].1.len()
                invariant
                    i < n,
                    n == self.entries@.len(),
                    is_generated_id(v@),
                    forall|j: int|
                        0 <= j < i ==> v@.len() > (#[trigger] self.entries_seq()[j]).1.len(),
                decreases self.entries@[i as int].1@.len() + 1 - v@.len(),
            {
                v.push(48);
                assert(forall|k: int|
                    3 <= k < v@.len() ==> is_hex_digit(#[trigger] v@[k]));
            }
            assert(v@.len() > self.entries_seq()[i as int].1.len());
            i += 1;
        }
        assert forall|j: int| 0 <= j < self.entries_seq().len() implies (
        #[trigger] self.entries_seq()[j]).1 != v@ by {
            assert(v@.len() > self.entries_seq()[j].1.len());
        }
        v
    }

    /// Return the stable replacement for `original_id`, recording a fresh one
    /// on first sight. An original seen before keeps its replacement and the
    /// store is unchanged; a new original extends the store by exactly its
    /// own pairing, with a replacement no other original shares.
    pub fn get_or_create_mapping(&mut self, original_id: &[u8]) -> (r: Vec<u8>)
        requires
            old(self).wf(),
        ensures
            final(self).wf(),
            old(self)@.submap_of(final(self)@),
            final(self)@.contains_key(original_id@),
            r@ == final(self)@[original_id@],
            is_generated_id(r@),
            old(self)@.contains_key(original_id@) ==> final(self)@ == old(self)@,
            !old(self)@.contains_key(original_id@) ==> final(self)@ == old(self)@.insert(
                original_id@,
                r@,
            ) && !old(self).has_value(r@),
    {
        let n = self.entries.len();
        let mut i: usize = 0;
        while i < n
            invariant
                i <= n,
                n == self.entries@.len(),
                self == old(self),
                self.wf(),
                forall|j: int| 0 <= j < i ==> (#[trigger] self.entries_seq()[j]).0 != original_id@,
            decreases n - i,
        {
            if bytes_eq(self.entries[i].0.as_slice(), original_id) {
                let mut r: Vec<u8> = Vec::new();
                push_all(&mut r, self.entries[i].1.as_slice());
                proof {
                    assert(r@ =~= self.entries_seq()[i as int].1);
                    lemma_map_of_index(self.entries_seq(), i as int);
                    assert(self.entries_seq()[i as int].0 == original_id@);
                    assert(old(self)@.submap_of(final(self)@)) by {
                        assert(old(self)@ =~= final(self)@);
                    }
                }
                return r;
            }
            i += 1;
        }
        proof {
            lemma_map_of_contains(self.entries_seq(), original_id@);
            assert(!old(self)@.contains_key(original_id@));
        }
        let fresh = self.fresh_generated_id();
        let mut key: Vec<u8> = Vec::new();
        push_all(&mut key, original_id);
        let mut val: Vec<u8> = Vec::new();
        push_all(&mut val, fresh.as_slice());
        let ghost pre = self.entries_seq();
        self.entries.push((key, val));
        proof {
            assert(key@ =~= original_id@);
            assert(val@ =~= fresh@);
            assert(self.entries_seq() =~= pre.push((original_id@, fresh@)));
            assert(self.entries_seq().drop_last() =~= pre);
            assert(self.entries_seq().last() == (original_id@, fresh@));
            assert(final(self)@ == map_of(pre).insert(original_id@, fresh@));
            assert(final(self).wf()) by {
                assert(forall|j: int|
                    0 <= j < pre.len() ==> (#[trigger] pre[j]).0 != original_id@);
                assert(forall|j: int| 0 <= j < pre.len() ==> (#[trigger] pre[j]).1 != fresh@);
                assert(forall|j: int|
                    0 <= j < pre.len() ==> self.entries_seq()[j] == pre[j]);
            }
            assert(old(self)@.submap_of(final(self)@)) by {
                assert forall|k: Seq<u8>| #[trigger]
                    old(self)@.dom().contains(k) implies final(self)@.dom().contains(k) && old(
                    self,
                )@[k] == final(self)@[k] by {}
            }
        }
        fresh
    }
}

/// Relies on `uuid::Uuid::new_v4` and its `simple` formatter: the simple
/// format of any UUID is exactly 32 lowercase hexadecimal digits, so every
/// outcome is the prefix `id_` followed by 32 such digits. The digits are
/// random: nothing relates one call's result to another's.
#[verifier::external_body]
fn random_id_candidate() -> (r: Vec<u8>)
    ensures
        is_generated_id(r@),
{
    let mut s = String::from("id_");
    s.push_str(&uuid::Uuid::new_v4().simple().to_string());
    s.into_bytes()
}

/// The key set of `map_of` is exactly the set of keys in the entry list.
pub proof fn lemma_map_of_contains(es: Seq<(Seq<u8>, Seq<u8>)>, k: Seq<u8>)
    ensures
        map_of(es).contains_key(k) <==> exists|i: int| 0 <= i < es.len() && (#[trigger] es[i]).0
            == k,
    decreases es.len(),
{
    if es.len() > 0 {
        lemma_map_of_contains(es.drop_last(), k);
        if es.last().0 == k {
            assert(es[es.len() - 1].0 == k);
        } else if map_of(es).contains_key(k) {
            let i = choose|i: int| 0 <= i < es.drop_last().len() && (#[trigger] es.drop_last()[i]).0
                == k;
            assert(es[i].0 == k);
        } else {
            assert forall|i: int| 0 <= i < es.len() implies (#[trigger] es[i]).0 != k by {
                if i < es.len() - 1 {
                    assert(es.drop_last()[i].0 != k);
                }
            }
        }
    }
}

/// A recorded pairing is stable: once a store state maps an original
/// identifier to a generated one, every later state (the store only grows,
/// as `get_or_create_mapping` promises) maps it to the same generated
/// identifier. Hence a repeated call with the same original returns the same
/// replacement, and two documents rewritten through one store, in either
/// order, agree on every identifier they share.
pub proof fn lemma_mapping_stable(m1: Map<Seq<u8>, Seq<u8>>, m2: Map<Seq<u8>, Seq<u8>>, k: Seq<u8>)
    requires
        m1.submap_of(m2),
        m1.contains_key(k),
    ensures
        m2.contains_key(k),
        m2[k] == m1[k],
{
    assert(m1.dom().contains(k));
    assert(m2.dom().contains(k) && m1[k] == m2[k]);
}

/// Distinct original identifiers always hold distinct generated
/// replacements in a well-formed store.
pub proof fn lemma_generated_ids_distinct(m: IdMapping, k1: Seq<u8>, k2: Seq<u8>)
    requires
        m.wf(),
        m@.contains_key(k1),
        m@.contains_key(k2),
        k1 != k2,
    ensures
        m@[k1] != m@[k2],
{
    lemma_map_of_contains(m.entries_seq(), k1);
    lemma_map_of_contains(m.entries_seq(), k2);
    let i1 = choose|i: int| 0 <= i < m.entries_seq().len() && (#[trigger] m.entries_seq()[i]).0
        == k1;
    let i2 = choose|i: int| 0 <= i < m.entries_seq().len() && (#[trigger] m.entries_seq()[i]).0
        == k2;
    lemma_map_of_index(m.entries_seq(), i1);
    lemma_map_of_index(m.entries_seq(), i2);
}

/// In a list with pairwise-distinct keys, `map_of` sends each recorded key to
/// the value beside it.
pub proof fn lemma_map_of_index(es: Seq<(Seq<u8>, Seq<u8>)>, i: int)
    requires
        0 <= i < es.len(),
        forall|p: int, q: int|
            0 <= p < q < es.len() ==> (#[trigger] es[p]).0 != (#[trigger] es[q]).0,
    ensures
        map_of(es).contains_key(es[i].0),
        map_of(es)[es[i].0] == es[i].1,
    decreases es.len(),
{
    if i == es.len() - 1 {
    } else {
        lemma_map_of_index(es.drop_last(), i);
        assert(es.drop_last()[i] == es[i]);
        assert(es.last().0 != es[i].0);
    }
}

} // verus!
