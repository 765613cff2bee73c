//! A key-value mapping built by inserting one pair at a time, where a later
//! insertion overwrites an earlier one with the same key.

use vstd::prelude::*;
use vstd::string::StrSliceExecFns;

verus! {

/// Character-by-character equality of two string slices.
fn str_eq(a: &str, b: &str) -> (r: bool)
    ensures
        r == (a@ == b@),
{
    let na = a.unicode_len();
    let nb = b.unicode_len();
    if na != nb {
        return false;
    }
    let mut i: usize = 0;
    while i < na
        invariant
            i <= na,
            na == a@.len(),
            na == b@.len(),
            forall|j: int| 0 <= j < i ==> a@[j] == b@[j],
        decreases na - i,
    {
        if a.get_char(i) != b.get_char(i) {
            return false;
        }
        i = i + 1;
    }
    proof {
        assert(a@ =~= b@);
    }
    true
}

/// The mapping denoted by a sequence of insertions, applied in order: a
/// later pair overwrites an earlier one with the same key.
pub open spec fn map_of(s: Seq<(String, String)>) -> Map<Seq<char>, Seq<char>>
    decreases s.len(),
{
    if s.len() == 0 {
        Map::empty()
    } else {
        map_of(s.drop_last()).insert(s.last().0@, s.last().1@)
    }
}

/// A key-value store that remembers its insertions in order; its view is
/// the mapping they denote.
pub struct EnvMap {
    entries: Vec<(String, String)>,
}

impl View for EnvMap {
    type V = Map<Seq<char>, Seq<char>>;

    closed spec fn view(&self) -> Map<Seq<char>, Seq<char>> {
        map_of(self.entries@)
    }
}

impl EnvMap {
    /// An empty mapping.
    pub fn new() -> (m: EnvMap)
        ensures
            m@ == Map::<Seq<char>, Seq<char>>::empty(),
    {
        EnvMap { entries: Vec::new() }
    }

    /// Look a key up: the value of its last insertion, if the key was ever
    /// inserted.
    pub fn get(&self, key: &str) -> (r: Option<&String>)
        ensures
            (match r {
                Some(v) => self@.contains_key(key@) && self@[key@] == v@,
                None => !self@.contains_key(key@),
            }),
    {
        let n = self.entries.len();
        let mut i: usize = n;
        while i > 0
            invariant
                i <= n,
                n == self.entries@.len(),
                forall|q: int| i <= q < n ==> self.entries@[q].0@ != key@,
            decreases i,
        {
            i = i - 1;
            if str_eq(self.entries[i].0.as_str(), key) {
                proof {
                    lemma_map_of_last(self.entries@, key@, i as int);
                }
                return Some(&self.entries[i].1);
            }
        }
        proof {
            lemma_map_of_contains(self.entries@, key@);
        }
        None
    }

    /// The insertions in order. Folding them in order yields exactly the
    /// mapping, so replaying them against any store with overwrite
    /// semantics reproduces it.
    pub fn entries(&self) -> (r: &Vec<(String, String)>)
        ensures
            map_of(r@) == self@,
            forall|p: int| 0 <= p < r@.len() ==> self@.contains_key(#[trigger] r@[p].0@),
    {
        proof {
            assert forall|p: int| 0 <= p < self.entries@.len() implies map_of(
                self.entries@,
            ).contains_key(#[trigger] self.entries@[p].0@) by {
                lemma_map_of_contains(self.entries@, self.entries@[p].0@);
            }
        }
        &self.entries
    }

    /// Bind `key` to `value`, overwriting any earlier binding of `key`.
    pub fn insert(&mut self, key: String, value: String)
        ensures
            final(self)@ == old(self)@.insert(key@, value@),
    {
        let ghost before = self.entries@;
        self.entries.push((key, value));
        proof {
            assert(self.entries@.drop_last() =~= before);
        }
    }
}

/// The fold of an insertion log contains exactly the keys that occur in
/// the log.
pub proof fn lemma_map_of_contains(s: Seq<(String, String)>, k: Seq<char>)
    ensures
        map_of(s).contains_key(k) <==> exists|p: int| 0 <= p < s.len() && (#[trigger] s[p]).0@ == k,
    decreases s.len(),
{
    if s.len() == 0 {
    } else {
        let d = s.drop_last();
        lemma_map_of_contains(d, k);
        if s.last().0@ == k {
            assert(s[s.len() - 1].0@ == k);
        }
        if exists|p: int| 0 <= p < d.len() && (#[trigger] d[p]).0@ == k {
            let p = choose|p: int| 0 <= p < d.len() && (#[trigger] d[p]).0@ == k;
            assert(s[p].0@ == k);
        }
        if exists|p: int| 0 <= p < s.len() && (#[trigger] s[p]).0@ == k {
            let p = choose|p: int| 0 <= p < s.len() && (#[trigger] s[p]).0@ == k;
            if p < s.len() - 1 {
                assert(d[p].0@ == k);
            }
        }
    }
}

/// The value the fold assigns to a key is the one of the key's last
/// occurrence in the log.
pub proof fn lemma_map_of_last(s: Seq<(String, String)>, k: Seq<char>, p: int)
    requires
        0 <= p < s.len(),
        s[p].0@ == k,
        forall|q: int| p < q < s.len() ==> (#[trigger] s[q]).0@ != k,
    ensures
        map_of(s).contains_key(k),
        map_of(s)[k] == s[p].1@,
    decreases s.len(),
{
    let d = s.drop_last();
    if p == s.len() - 1 {
    } else {
        assert(s.last().0@ != k);
        assert(d[p] == s[p]);
        assert forall|q: int| p < q < d.len() implies (#[trigger] d[q]).0@ != k by {
            assert(d[q] == s[q]);
        }
        lemma_map_of_last(d, k, p);
    }
}

} // verus!
