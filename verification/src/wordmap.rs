//! A word-frequency table: token -> occurrence count, with unique keys.
//!
//! Stored as an association vector and specified through a `Map` view from
//! token character sequences to mathematical counts.

use vstd::prelude::*;

verus! {

/// The mapping denoted by an association list, later entries taking
/// precedence (well-formed tables have unique keys, so order is irrelevant).
pub open spec fn map_of(s: Seq<(Vec<char>, u64)>) -> Map<Seq<char>, nat>
    decreases s.len(),
{
    if s.len() == 0 {
        Map::empty()
    } else {
        map_of(s.drop_last()).insert(s.last().0@, s.last().1 as nat)
    }
}

/// The sum of all occurrence counts in the table.
pub open spec fn sum_counts(s: Seq<(Vec<char>, u64)>) -> nat
    decreases s.len(),
{
    if s.len() == 0 {
        0
    } else {
        (sum_counts(s.drop_last()) + s.last().1) as nat
    }
}

/// The count a map assigns to a key, zero when the key is absent.
pub open spec fn count_of(m: Map<Seq<char>, nat>, k: Seq<char>) -> nat {
    if m.dom().contains(k) {
        m[k]
    } else {
        0
    }
}

/// A token-to-count table with unique keys.
pub struct WordMap {
    pub entries: Vec<(Vec<char>, u64)>,
}

impl WordMap {
    /// Keys are pairwise distinct.
    pub open spec fn wf(&self) -> bool {
        forall|i: int, j: int|
            0 <= i < j < self.entries@.len() ==> (#[trigger] self.entries@[i]).0@ != (
            #[trigger] self.entries@[j]).0@
    }

    /// The mapping this table denotes.
    pub open spec fn view_map(&self) -> Map<Seq<char>, nat> {
        map_of(self.entries@)
    }

    /// The sum of all counts in the table.
    pub open spec fn total(&self) -> nat {
        sum_counts(self.entries@)
    }

    /// An empty table.
    pub fn new() -> (r: WordMap)
        ensures
            r.wf(),
            r.view_map() == Map::<Seq<char>, nat>::empty(),
            r.total() == 0,
    {
        WordMap { entries: Vec::new() }
    }

    /// The count recorded for `w`, zero when `w` has never been recorded.
    pub fn get(&self, w: &Vec<char>) -> (r: u64)
        requires
            self.wf(),
        ensures
            r as nat == count_of(self.view_map(), w@),
    {
        let n = self.entries.len();
        let mut i: usize = 0;
        while i < n
            invariant
                self.wf(),
                n == self.entries@.len(),
                i <= n,
                forall|j: int| 0 <= j < i ==> (#[trigger] self.entries@[j]).0@ != w@,
            decreases n - i,
        {
            if chars_eq(&self.entries[i].0, w) {
                proof {
                    lemma_map_of_index(self.entries@, i as int);
                }
                return self.entries[i].1;
            }
            i = i + 1;
        }
        proof {
            lemma_map_of_absent(self.entries@, w@);
        }
        0
    }

    /// Record one more occurrence of `w`, inserting it with count 1 when absent.
    pub fn inc(&mut self, w: &Vec<char>)
        requires
            old(self).wf(),
            count_of(old(self).view_map(), w@) < u64::MAX,
        ensures
            final(self).wf(),
            final(self).view_map() == old(self).view_map().insert(
                w@,
                count_of(old(self).view_map(), w@) + 1,
            ),
            final(self).total() == old(self).total() + 1,
    {
        let n = self.entries.len();
        let mut i: usize = 0;
        while i < n
            invariant
                self.wf(),
                *self == *old(self),
                count_of(old(self).view_map(), w@) < u64::MAX,
                n == self.entries@.len(),
                i <= n,
                forall|j: int| 0 <= j < i ==> (#[trigger] self.entries@[j]).0@ != w@,
            decreases n - i,
        {
            if chars_eq(&self.entries[i].0, w) {
                proof {
                    lemma_map_of_index(self.entries@, i as int);
                    lemma_count_le_sum(self.entries@, i as int);
                }
                let c = self.entries[i].1;
                proof {
                    assert(self.entries@[i as int].0@ == w@);
                    assert(count_of(old(self).view_map(), w@) == c as nat);
                }
                let ghost olds = self.entries@;
                self.entries[i].1 = c + 1;
                proof {
                    assert(self.entries@ =~= olds.update(i as int, (olds[i as int].0, (c + 1) as u64)));
                    lemma_map_of_update(olds, i as int, (c + 1) as u64);
                    lemma_sum_update(olds, i as int, (c + 1) as u64);
                }
                return ;
            }
            i = i + 1;
        }
        let key = copy_chars(w);
        let ghost olds = self.entries@;
        self.entries.push((key, 1));
        proof {
            assert(self.entries@.drop_last() =~= olds);
            lemma_map_of_absent(olds, w@);
        }
    }
}

/// Whether two character vectors hold the same characters.
pub fn chars_eq(a: &Vec<char>, b: &Vec<char>) -> (r: bool)
    ensures
        r == (a@ == b@),
{
    if a.len() != b.len() {
        proof {
            assert(a@.len() != b@.len());
        }
        return false;
    }
    let n = a.len();
    let mut i: usize = 0;
    while i < n
        invariant
            n == a@.len() == b@.len(),
            i <= n,
            forall|j: int| 0 <= j < i ==> a@[j] == b@[j],
        decreases n - i,
    {
        if a[i] != b[i] {
            return false;
        }
        i = i + 1;
    }
    proof {
        assert(a@ =~= b@);
    }
    true
}

/// A fresh character vector with the same characters.
pub fn copy_chars(a: &Vec<char>) -> (r: Vec<char>)
    ensures
        r@ == a@,
{
    let n = a.len();
    let mut r: Vec<char> = Vec::new();
    let mut i: usize = 0;
    while i < n
        invariant
            n == a@.len(),
            i <= n,
            r@ == a@.take(i as int),
        decreases n - i,
    {
        r.push(a[i]);
        proof {
            assert(a@.take(i as int).push(a@[i as int]) =~= a@.take(i as int + 1));
        }
        i = i + 1;
    }
    proof {
        assert(a@.take(n as int) =~= a@);
    }
    r
}

/// In a table with unique keys, each entry is visible in the map.
proof fn lemma_map_of_index(s: Seq<(Vec<char>, u64)>, i: int)
    requires
        0 <= i < s.len(),
        forall|p: int, q: int|
            0 <= p < q < s.len() ==> (#[trigger] s[p]).0@ != (#[trigger] s[q]).0@,
    ensures
        map_of(s).dom().contains(s[i].0@),
        map_of(s)[s[i].0@] == s[i].1 as nat,
    decreases s.len(),
{
    if i == s.len() - 1 {
    } else {
        assert(s.drop_last()[i] == s[i]);
        lemma_map_of_index(s.drop_last(), i);
        assert(s[i].0@ != s.last().0@);
    }
}

/// A key under no entry is absent from the map.
proof fn lemma_map_of_absent(s: Seq<(Vec<char>, u64)>, k: Seq<char>)
    requires
        forall|j: int| 0 <= j < s.len() ==> (#[trigger] s[j]).0@ != k,
    ensures
        !map_of(s).dom().contains(k),
        count_of(map_of(s), k) == 0,
    decreases s.len(),
{
    if s.len() > 0 {
        assert(forall|j: int| 0 <= j < s.drop_last().len() ==> (#[trigger] s.drop_last()[j]) == s[j]);
        lemma_map_of_absent(s.drop_last(), k);
    }
}

/// Each count is at most the sum of all counts.
proof fn lemma_count_le_sum(s: Seq<(Vec<char>, u64)>, i: int)
    requires
        0 <= i < s.len(),
    ensures
        s[i].1 as nat <= sum_counts(s),
    decreases s.len(),
{
    if i == s.len() - 1 {
    } else {
        assert(s.drop_last()[i] == s[i]);
        lemma_count_le_sum(s.drop_last(), i);
    }
}

/// The count of any key is at most the sum of all counts.
pub proof fn lemma_count_le_total(s: Seq<(Vec<char>, u64)>, k: Seq<char>)
    ensures
        count_of(map_of(s), k) <= sum_counts(s),
    decreases s.len(),
{
    if s.len() > 0 {
        lemma_count_le_total(s.drop_last(), k);
    }
}

/// Replacing the count of entry `i` updates the map at that entry's key.
proof fn lemma_map_of_update(s: Seq<(Vec<char>, u64)>, i: int, v: u64)
    requires
        0 <= i < s.len(),
        forall|p: int, q: int|
            0 <= p < q < s.len() ==> (#[trigger] s[p]).0@ != (#[trigger] s[q]).0@,
    ensures
        map_of(s.update(i, (s[i].0, v))) == map_of(s).insert(s[i].0@, v as nat),
    decreases s.len(),
{
    let s2 = s.update(i, (s[i].0, v));
    if i == s.len() - 1 {
        assert(s2.drop_last() =~= s.drop_last());
        assert(map_of(s2) =~= map_of(s).insert(s[i].0@, v as nat));
    } else {
        assert(s2.drop_last() =~= s.drop_last().update(i, (s[i].0, v)));
        assert(s.drop_last()[i] == s[i]);
        lemma_map_of_update(s.drop_last(), i, v);
        assert(s2.last() == s.last());
        assert(s[i].0@ != s.last().0@);
        assert(map_of(s2) =~= map_of(s).insert(s[i].0@, v as nat));
    }
}

/// Replacing the count of entry `i` changes the sum by the difference.
proof fn lemma_sum_update(s: Seq<(Vec<char>, u64)>, i: int, v: u64)
    requires
        0 <= i < s.len(),
    ensures
        sum_counts(s.update(i, (s[i].0, v))) + s[i].1 == sum_counts(s) + v,
    decreases s.len(),
{
    let s2 = s.update(i, (s[i].0, v));
    if i == s.len() - 1 {
        assert(s2.drop_last() =~= s.drop_last());
    } else {
        assert(s2.drop_last() =~= s.drop_last().update(i, (s[i].0, v)));
        assert(s.drop_last()[i] == s[i]);
        lemma_sum_update(s.drop_last(), i, v);
        assert(s2.last() == s.last());
    }
}

} // verus!
