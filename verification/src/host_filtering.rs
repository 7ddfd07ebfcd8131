//! The host blocklist: a set of substrings; a host is blocked when any of
//! them occurs in it.

use vstd::prelude::*;

use crate::text::{chars_to_string, contains_chars, eq_chars, is_substring, to_chars};

verus! {

/// The set of blocked substrings, each held once.
pub struct Blacklist {
    blocked: Vec<String>,
}

impl View for Blacklist {
    type V = Seq<Seq<char>>;

    closed spec fn view(&self) -> Seq<Seq<char>> {
        self.blocked@.map_values(|s: String| s@)
    }
}

/// Whether the host is blocked: some listed substring occurs in it.
pub open spec fn spec_blocked(bl: Seq<Seq<char>>, host: Seq<char>) -> bool {
    exists|i: int| 0 <= i < bl.len() && is_substring(#[trigger] bl[i], host)
}

impl Blacklist {
    /// Well-formed: no entry is listed twice.
    pub open spec fn wf(&self) -> bool {
        forall|i: int, j: int| 0 <= i < j < self@.len() ==> self@[i] != self@[j]
    }

    /// A new blocklist holding its one default entry.
    pub fn new() -> (r: Blacklist)
        ensures
            r.wf(),
            r@ =~= seq!["example.com"@],
    {
        let mut blocked: Vec<String> = Vec::new();
        blocked.push(String::from_str("example.com"));
        let r = Blacklist { blocked };
        proof {
            assert(r@ =~= seq!["example.com"@]);
        }
        r
    }

    /// Whether any blocked substring occurs in `host`.
    pub fn has(&self, host: &str) -> (r: bool)
        ensures
            r == spec_blocked(self@, host@),
    {
        let host_chars = to_chars(host);
        let n = self.blocked.len();
        let mut i: usize = 0;
        while i < n
            invariant
                0 <= i <= n,
                n == self@.len(),
                host_chars@ == host@,
                forall|j: int| 0 <= j < i ==> !is_substring(#[trigger] self@[j], host@),
            decreases n - i,
        {
            let needle = to_chars(self.blocked[i].as_str());
            proof {
                assert(self@[i as int] == self.blocked@[i as int]@);
            }
            if contains_chars(host_chars.as_slice(), needle.as_slice()) {
                return true;
            }
            i = i + 1;
        }
        false
    }

    /// Finds the position of an exact entry.
    fn find_exact(&self, host: &[char]) -> (r: usize)
        ensures
            r <= self@.len(),
            r < self@.len() ==> self@[r as int] == host@,
            forall|j: int| 0 <= j < r ==> self@[j] != host@,
    {
        let n = self.blocked.len();
        let mut i: usize = 0;
        while i < n
            invariant
                0 <= i <= n,
                n == self@.len(),
                forall|j: int| 0 <= j < i ==> self@[j] != host@,
            decreases n - i,
        {
            let entry = to_chars(self.blocked[i].as_str());
            proof {
                assert(self@[i as int] == self.blocked@[i as int]@);
            }
            if eq_chars(entry.as_slice(), host) {
                return i;
            }
            i = i + 1;
        }
        i
    }

    /// Adds a host to the blocklist; one already listed is kept once.
    pub fn add_host(&mut self, host: &str)
        requires
            old(self).wf(),
        ensures
            final(self).wf(),
            final(self)@ == if has_entry(old(self)@, host@) {
                old(self)@
            } else {
                old(self)@.push(host@)
            },
    {
        let hc = to_chars(host);
        let i = self.find_exact(hc.as_slice());
        if i < self.blocked.len() {
            proof {
                assert(has_entry(self@, host@)) by {
                    assert(self@[i as int] == host@);
                }
            }
            return ;
        }
        self.blocked.push(chars_to_string(&hc));
        proof {
            assert(self@ =~= old(self)@.push(host@));
            assert(!has_entry(old(self)@, host@)) by {
                if has_entry(old(self)@, host@) {
                    let w = choose|w: int|
                        0 <= w < old(self)@.len() && (#[trigger] old(self)@[w]) == host@;
                }
            }
            assert(forall|j: int|
                0 <= j < old(self)@.len() ==> (#[trigger] self@[j]) == old(self)@[j]);
        }
    }

    /// Removes a host from the blocklist; says whether it was listed.
    pub fn remove_host(&mut self, host: &str) -> (removed: bool)
        requires
            old(self).wf(),
        ensures
            final(self).wf(),
            removed == has_entry(old(self)@, host@),
            removed ==> final(self)@ == old(self)@.remove(first_entry_idx(old(self)@, host@)),
            !removed ==> final(self)@ == old(self)@,
    {
        let hc = to_chars(host);
        let i = self.find_exact(hc.as_slice());
        if i < self.blocked.len() {
            proof {
                assert(has_entry(self@, host@)) by {
                    assert(self@[i as int] == host@);
                }
                assert(first_entry_idx(self@, host@) == i as int) by {
                    lemma_first_entry_idx(self@, 0, host@);
                }
            }
            self.blocked.remove(i);
            proof {
                assert(self@ =~= old(self)@.remove(i as int));
                old(self)@.remove_ensures(i as int);
            }
            true
        } else {
            proof {
                assert(!has_entry(self@, host@)) by {
                    if has_entry(self@, host@) {
                        let w = choose|w: int|
                            0 <= w < self@.len() && (#[trigger] self@[w]) == host@;
                    }
                }
            }
            false
        }
    }

    /// The listed hosts, in order.
    pub fn list_hosts(&self) -> (r: Vec<String>)
        ensures
            r@.len() == self@.len(),
            forall|i: int| 0 <= i < r@.len() ==> (#[trigger] r@[i])@ == self@[i],
    {
        let n = self.blocked.len();
        let mut r: Vec<String> = Vec::new();
        let mut i: usize = 0;
        while i < n
            invariant
                0 <= i <= n,
                n == self@.len(),
                r@.len() == i,
                forall|j: int| 0 <= j < i ==> (#[trigger] r@[j])@ == self@[j],
            decreases n - i,
        {
            let entry = to_chars(self.blocked[i].as_str());
            proof {
                assert(self@[i as int] == self.blocked@[i as int]@);
            }
            r.push(chars_to_string(&entry));
            i = i + 1;
        }
        r
    }
}

/// Whether `host` is listed exactly.
pub open spec fn has_entry(bl: Seq<Seq<char>>, host: Seq<char>) -> bool {
    exists|i: int| 0 <= i < bl.len() && (#[trigger] bl[i]) == host
}

/// The first position of `host` in the list, or the length if absent.
pub open spec fn first_entry_idx(bl: Seq<Seq<char>>, host: Seq<char>) -> int {
    first_entry_idx_from(bl, 0, host)
}

pub open spec fn first_entry_idx_from(bl: Seq<Seq<char>>, i: int, host: Seq<char>) -> int
    decreases bl.len() - i,
{
    if i < 0 || i >= bl.len() {
        bl.len() as int
    } else if bl[i] == host {
        i
    } else {
        first_entry_idx_from(bl, i + 1, host)
    }
}

pub proof fn lemma_first_entry_idx(bl: Seq<Seq<char>>, i: int, host: Seq<char>)
    requires
        0 <= i <= bl.len(),
    ensures
        i <= first_entry_idx_from(bl, i, host) <= bl.len(),
        first_entry_idx_from(bl, i, host) < bl.len() ==> bl[first_entry_idx_from(bl, i, host)]
            == host,
        forall|j: int| i <= j < first_entry_idx_from(bl, i, host) ==> bl[j] != host,
    decreases bl.len() - i,
{
    if i < bl.len() && bl[i] != host {
        lemma_first_entry_idx(bl, i + 1, host);
    }
}

} // verus!
