//! The header map: an association from lowercased header names to values.
//!
//! Names are folded to ASCII lowercase on insertion, so lookups with a
//! lowercase name are case-insensitive with respect to the name as it
//! appeared on the wire.  Re-inserting a name replaces its value.

use vstd::prelude::*;

use crate::text::{eq_chars, lower_char, lower_seq, to_chars, to_lower_chars, chars_to_string};

verus! {

/// The first index at or after `i` whose key equals `k`, or the length if
/// there is none.
pub open spec fn key_idx_from(es: Seq<(Seq<char>, Seq<char>)>, i: int, k: Seq<char>) -> int
    decreases es.len() - i,
{
    if i < 0 || i >= es.len() {
        es.len() as int
    } else if es[i].0 == k {
        i
    } else {
        key_idx_from(es, i + 1, k)
    }
}

pub proof fn lemma_key_idx_from(es: Seq<(Seq<char>, Seq<char>)>, i: int, k: Seq<char>)
    requires
        0 <= i <= es.len(),
    ensures
        i <= key_idx_from(es, i, k) <= es.len(),
        key_idx_from(es, i, k) < es.len() ==> es[key_idx_from(es, i, k)].0 == k,
        forall|j: int| i <= j < key_idx_from(es, i, k) ==> (#[trigger] es[j]).0 != k,
    decreases es.len() - i,
{
    if i < es.len() && es[i].0 != k {
        lemma_key_idx_from(es, i + 1, k);
    }
}

/// The value stored under key `k`, if any (first match).
pub open spec fn spec_lookup(es: Seq<(Seq<char>, Seq<char>)>, k: Seq<char>) -> Option<Seq<char>> {
    let i = key_idx_from(es, 0, k);
    if i < es.len() {
        Some(es[i].1)
    } else {
        None
    }
}

/// Insertion with replacement: an existing key keeps its position and takes
/// the new value; a new key is appended.
pub open spec fn spec_insert(
    es: Seq<(Seq<char>, Seq<char>)>,
    k: Seq<char>,
    v: Seq<char>,
) -> Seq<(Seq<char>, Seq<char>)> {
    let i = key_idx_from(es, 0, k);
    if i < es.len() {
        es.update(i, (k, v))
    } else {
        es.push((k, v))
    }
}

/// A mapping from lowercased header names to header values.
pub struct HeaderMap {
    pairs: Vec<(String, String)>,
}

impl View for HeaderMap {
    type V = Seq<(Seq<char>, Seq<char>)>;

    closed spec fn view(&self) -> Seq<(Seq<char>, Seq<char>)> {
        self.pairs@.map_values(|p: (String, String)| (p.0@, p.1@))
    }
}

/// Well-formedness of a header sequence: names are pairwise distinct and
/// already lowercased.
pub open spec fn pairs_wf(es: Seq<(Seq<char>, Seq<char>)>) -> bool {
    &&& forall|i: int, j: int|
        0 <= i < j < es.len() ==> (#[trigger] es[i]).0 != (#[trigger] es[j]).0
    &&& forall|i: int| 0 <= i < es.len() ==> (#[trigger] es[i]).0 == lower_seq(es[i].0)
}

impl HeaderMap {
    /// Well-formed: names are pairwise distinct and already lowercased.
    pub open spec fn wf(&self) -> bool {
        pairs_wf(self@)
    }

    /// An empty header map.
    pub fn new() -> (r: HeaderMap)
        ensures
            r@ == Seq::<(Seq<char>, Seq<char>)>::empty(),
            r.wf(),
    {
        let r = HeaderMap { pairs: Vec::new() };
        proof {
            assert(r@ =~= Seq::<(Seq<char>, Seq<char>)>::empty());
        }
        r
    }

    /// The number of distinct header names stored.
    pub fn len(&self) -> (r: usize)
        ensures
            r == self@.len(),
    {
        self.pairs.len()
    }

    /// The name of the `i`-th stored header.
    pub fn key_at(&self, i: usize) -> (r: String)
        requires
            i < self@.len(),
        ensures
            r@ == self@[i as int].0,
    {
        let p = &self.pairs[i];
        let chars = to_chars(p.0.as_str());
        chars_to_string(&chars)
    }

    /// The value of the `i`-th stored header.
    pub fn value_at(&self, i: usize) -> (r: String)
        requires
            i < self@.len(),
        ensures
            r@ == self@[i as int].1,
    {
        let p = &self.pairs[i];
        let chars = to_chars(p.1.as_str());
        chars_to_string(&chars)
    }

    /// Finds the index of the entry whose name equals `k`, if any.
    fn find_idx(&self, k: &[char]) -> (r: usize)
        ensures
            r == key_idx_from(self@, 0, k@),
            r <= self@.len(),
    {
        let n = self.pairs.len();
        let mut i: usize = 0;
        while i < n
            invariant
                0 <= i <= n,
                n == self@.len(),
                key_idx_from(self@, 0, k@) == key_idx_from(self@, i as int, k@),
            decreases n - i,
        {
            let key = to_chars(self.pairs[i].0.as_str());
            proof {
                assert(self@[i as int].0 == self.pairs@[i as int].0@);
            }
            if eq_chars(key.as_slice(), k) {
                return i;
            }
            i = i + 1;
        }
        i
    }

    /// Inserts a header, folding the name to ASCII lowercase; an existing
    /// name has its value replaced.
    pub fn insert(&mut self, name: &str, value: String)
        requires
            old(self).wf(),
        ensures
            final(self)@ == spec_insert(old(self)@, lower_seq(name@), value@),
            final(self).wf(),
    {
        let name_chars = to_chars(name);
        let key = to_lower_chars(name_chars.as_slice());
        proof {
            lemma_key_idx_from(self@, 0, key@);
        }
        let i = self.find_idx(key.as_slice());
        let key_string = chars_to_string(&key);
        if i < self.pairs.len() {
            self.pairs.set(i, (key_string, value));
            proof {
                assert(self@ =~= spec_insert(old(self)@, lower_seq(name@), value@));
                lemma_lower_seq_idempotent(name@);
                assert(forall|j: int|
                    0 <= j < self@.len() && j != i ==> (#[trigger] self@[j]) == old(self)@[j]);
                assert(self@[i as int].0 == old(self)@[i as int].0);
            }
        } else {
            self.pairs.push((key_string, value));
            proof {
                assert(self@ =~= spec_insert(old(self)@, lower_seq(name@), value@));
                lemma_lower_seq_idempotent(name@);
                assert(forall|j: int|
                    0 <= j < old(self)@.len() ==> (#[trigger] self@[j]) == old(self)@[j]);
                assert(self@[self@.len() - 1].0 == key@);
                assert(forall|j: int|
                    0 <= j < old(self)@.len() ==> (#[trigger] old(self)@[j]).0 != key@);
            }
        }
    }

    /// Looks a header up by name; the given name is folded to lowercase
    /// first, so any ASCII casing finds the entry.
    pub fn get(&self, name: &str) -> (r: Option<String>)
        ensures
            match r {
                Some(v) => spec_lookup(self@, lower_seq(name@)) == Some(v@),
                None => spec_lookup(self@, lower_seq(name@)) is None,
            },
    {
        let name_chars = to_chars(name);
        let key = to_lower_chars(name_chars.as_slice());
        let i = self.find_idx(key.as_slice());
        proof {
            lemma_key_idx_from(self@, 0, key@);
        }
        if i < self.pairs.len() {
            let chars = to_chars(self.pairs[i].1.as_str());
            proof {
                assert(self@[i as int].1 == self.pairs@[i as int].1@);
            }
            Some(chars_to_string(&chars))
        } else {
            None
        }
    }

    /// Appends a pair that keeps the map well formed: the name must already
    /// be lowercased and absent.  Used when rebuilding a decoded map.
    pub fn append_pair(&mut self, key: String, value: String)
        requires
            old(self).wf(),
            lower_seq(key@) == key@,
            spec_lookup(old(self)@, key@) is None,
        ensures
            final(self)@ == old(self)@.push((key@, value@)),
            final(self).wf(),
    {
        proof {
            lemma_key_idx_from(self@, 0, key@);
        }
        self.pairs.push((key, value));
        proof {
            assert(self@ =~= old(self)@.push((key@, value@)));
            assert(forall|j: int|
                0 <= j < old(self)@.len() ==> (#[trigger] self@[j]) == old(self)@[j]);
            assert(forall|j: int|
                0 <= j < old(self)@.len() ==> (#[trigger] old(self)@[j]).0 != key@);
            assert(self@[self@.len() - 1].0 == key@);
        }
    }

    /// Whether a header with the given name is present.
    pub fn contains_key(&self, name: &str) -> (r: bool)
        ensures
            r == (spec_lookup(self@, lower_seq(name@)) is Some),
    {
        let name_chars = to_chars(name);
        let key = to_lower_chars(name_chars.as_slice());
        let i = self.find_idx(key.as_slice());
        proof {
            lemma_key_idx_from(self@, 0, key@);
        }
        i < self.pairs.len()
    }
}

impl Clone for HeaderMap {
    /// A clone holds exactly the same entries.
    fn clone(&self) -> (r: Self)
        ensures
            r@ == self@,
    {
        let n = self.pairs.len();
        let mut pairs: Vec<(String, String)> = Vec::new();
        let mut i: usize = 0;
        while i < n
            invariant
                0 <= i <= n,
                n == self.pairs@.len(),
                pairs@.len() == i,
                forall|j: int|
                    0 <= j < i ==> (#[trigger] pairs@[j]).0@ == self.pairs@[j].0@ && pairs@[j].1@
                        == self.pairs@[j].1@,
            decreases n - i,
        {
            let k = to_chars(self.pairs[i].0.as_str());
            let v = to_chars(self.pairs[i].1.as_str());
            pairs.push((chars_to_string(&k), chars_to_string(&v)));
            i = i + 1;
        }
        let r = HeaderMap { pairs };
        proof {
            assert(r@ =~= self@);
        }
        r
    }
}

/// Folding to lowercase twice is the same as folding once.
pub proof fn lemma_lower_seq_idempotent(s: Seq<char>)
    ensures
        lower_seq(lower_seq(s)) == lower_seq(s),
{
    assert(lower_seq(lower_seq(s)) =~= lower_seq(s)) by {
        assert(forall|i: int|
            0 <= i < s.len() ==> #[trigger] lower_seq(lower_seq(s))[i] == lower_char(
                lower_char(s[i]),
            ));
        assert(forall|c: char| lower_char(#[trigger] lower_char(c)) == lower_char(c));
    }
}

} // verus!
