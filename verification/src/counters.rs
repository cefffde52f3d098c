//! Named event counters kept by the lexer for each hypothesis.
use vstd::prelude::*;
use crate::text::{chars_eq, chars_of, starts_with, starts_with_chars};

verus! {

/// The entries of a counter table: each key at most once, with its count.
pub type CounterEntries = Seq<(Seq<char>, nat)>;

/// No key occurs twice.
pub open spec fn keys_unique(c: CounterEntries) -> bool {
    forall|i: int, j: int| 0 <= i < j < c.len() ==> c[i].0 != c[j].0
}

/// `key` has an entry.
pub open spec fn has_key(c: CounterEntries, key: Seq<char>) -> bool {
    exists|i: int| 0 <= i < c.len() && c[i].0 == key
}

/// The count of `key` (0 when it has no entry).
pub open spec fn counter_get(c: CounterEntries, key: Seq<char>) -> nat {
    if has_key(c, key) {
        c[choose|i: int| 0 <= i < c.len() && c[i].0 == key].1
    } else {
        0
    }
}

/// `a + b`, or `usize::MAX` when that is exceeded.
pub open spec fn sat_add(a: nat, b: nat) -> nat {
    if a + b > usize::MAX {
        usize::MAX as nat
    } else {
        a + b
    }
}

/// The table after adding `n` to the count of `key` (a new entry at the end
/// when `key` has none).
pub open spec fn counter_add(c: CounterEntries, key: Seq<char>, n: nat) -> CounterEntries {
    if has_key(c, key) {
        let i = choose|i: int| 0 <= i < c.len() && c[i].0 == key;
        c.update(i, (key, sat_add(c[i].1, n)))
    } else {
        c.push((key, sat_add(0, n)))
    }
}

/// The table after setting the count of `key` to `n`.
pub open spec fn counter_set(c: CounterEntries, key: Seq<char>, n: nat) -> CounterEntries {
    if has_key(c, key) {
        let i = choose|i: int| 0 <= i < c.len() && c[i].0 == key;
        c.update(i, (key, n))
    } else {
        c.push((key, n))
    }
}

/// The sum of the counts whose key starts with `p`, saturating at
/// `usize::MAX`.
pub open spec fn sum_with_prefix(c: CounterEntries, p: Seq<char>) -> nat
    decreases c.len(),
{
    if c.len() == 0 {
        0
    } else {
        sat_add(
            sum_with_prefix(c.drop_last(), p),
            if starts_with(c.last().0, p) {
                c.last().1
            } else {
                0
            },
        )
    }
}

/// A table of named counts.
pub struct Counters {
    entries: Vec<(Vec<char>, usize)>,
}

impl View for Counters {
    type V = CounterEntries;

    closed spec fn view(&self) -> CounterEntries {
        self.entries@.map_values(|e: (Vec<char>, usize)| (e.0@, e.1 as nat))
    }
}

impl Counters {
    /// The table is well formed: each key at most once.
    pub open spec fn wf(&self) -> bool {
        keys_unique(self@)
    }

    /// An empty table.
    pub fn new() -> (r: Counters)
        ensures
            r@ == Seq::<(Seq<char>, nat)>::empty(),
            r.wf(),
    {
        let r = Counters { entries: Vec::new() };
        assert(r@ =~= Seq::<(Seq<char>, nat)>::empty());
        r
    }

    /// The index of the entry of `key`.
    fn position(&self, key: &[char]) -> (r: Option<usize>)
        requires
            self.wf(),
        ensures
            match r {
                Some(i) => i < self@.len() && self@[i as int].0 == key@,
                None => !has_key(self@, key@),
            },
    {
        let mut i: usize = 0;
        while i < self.entries.len()
            invariant
                i <= self@.len(),
                self@.len() == self.entries@.len(),
                forall|j: int| 0 <= j < i ==> self@[j].0 != key@,
            decreases self.entries.len() - i,
        {
            if chars_eq(&self.entries[i].0, key) {
                return Some(i);
            }
            i += 1;
        }
        None
    }

    /// Removes every entry.
    pub fn clear(&mut self)
        ensures
            final(self)@ == Seq::<(Seq<char>, nat)>::empty(),
            final(self).wf(),
    {
        self.entries = Vec::new();
        assert(self@ =~= Seq::<(Seq<char>, nat)>::empty());
    }

    /// Adds `n` to the count of `key`, saturating at `usize::MAX`.
    pub fn add(&mut self, key: &[char], n: usize)
        requires
            old(self).wf(),
        ensures
            final(self)@ == counter_add(old(self)@, key@, n as nat),
            final(self).wf(),
    {
        let ghost before = self@;
        match self.position(key) {
            Some(i) => {
                proof {
                    let c = choose|k: int| 0 <= k < before.len() && before[k].0 == key@;
                    assert(c == i as int) by {
                        if c != i as int {
                            if c < i {
                                assert(before[c].0 != before[i as int].0);
                            } else {
                                assert(before[i as int].0 != before[c].0);
                            }
                        }
                    }
                }
                let count = self.entries[i].1.saturating_add(n);
                let k = chars_to_vec(key);
                self.entries.set(i, (k, count));
                assert(self@ =~= before.update(i as int, (key@, sat_add(before[i as int].1, n as nat))));
            },
            None => {
                let k = chars_to_vec(key);
                self.entries.push((k, n));
                assert(self@ =~= before.push((key@, sat_add(0, n as nat))));
            },
        }
    }

    /// Sets the count of `key` to `n`.
    pub fn insert(&mut self, key: &str, n: usize)
        requires
            old(self).wf(),
        ensures
            final(self)@ == counter_set(old(self)@, key@, n as nat),
            final(self).wf(),
    {
        let key = chars_of(key);
        let ghost before = self@;
        match self.position(&key) {
            Some(i) => {
                proof {
                    let c = choose|k: int| 0 <= k < before.len() && before[k].0 == key@;
                    assert(c == i as int) by {
                        if c != i as int {
                            if c < i {
                                assert(before[c].0 != before[i as int].0);
                            } else {
                                assert(before[i as int].0 != before[c].0);
                            }
                        }
                    }
                }
                self.entries.set(i, (key, n));
                assert(self@ =~= before.update(i as int, (key@, n as nat)));
            },
            None => {
                self.entries.push((key, n));
                assert(self@ =~= before.push((key@, n as nat)));
            },
        }
    }

    /// The count of `key` (0 when it has none).
    pub fn get(&self, key: &str) -> (r: usize)
        requires
            self.wf(),
        ensures
            r == counter_get(self@, key@),
    {
        let key = chars_of(key);
        match self.position(&key) {
            Some(i) => {
                proof {
                    let c = choose|k: int| 0 <= k < self@.len() && self@[k].0 == key@;
                    if c != i as int {
                        if c < i {
                            assert(self@[c].0 != self@[i as int].0);
                        } else {
                            assert(self@[i as int].0 != self@[c].0);
                        }
                    }
                }
                self.entries[i].1
            },
            None => 0,
        }
    }

    /// The number of entries.
    pub fn len(&self) -> (r: usize)
        ensures
            r == self@.len(),
    {
        self.entries.len()
    }

    /// The key and count of entry `i`.
    pub fn entry(&self, i: usize) -> (r: (&[char], usize))
        requires
            i < self@.len(),
        ensures
            r.0@ == self@[i as int].0,
            r.1 == self@[i as int].1,
    {
        (self.entries[i].0.as_slice(), self.entries[i].1)
    }

    /// A copy of the table.
    pub fn copy(&self) -> (r: Counters)
        ensures
            r@ == self@,
    {
        let mut entries: Vec<(Vec<char>, usize)> = Vec::new();
        let mut i: usize = 0;
        while i < self.entries.len()
            invariant
                i <= self.entries@.len(),
                entries@.len() == i,
                forall|j: int|
                    0 <= j < i ==> entries@[j].0@ == self.entries@[j].0@ && entries@[j].1
                        == self.entries@[j].1,
            decreases self.entries.len() - i,
        {
            entries.push((chars_to_vec(&self.entries[i].0), self.entries[i].1));
            i += 1;
        }
        let r = Counters { entries };
        assert(r@ =~= self@);
        r
    }
}

/// A vector holding the characters of `s`.
pub fn chars_to_vec(s: &[char]) -> (r: Vec<char>)
    ensures
        r@ == s@,
{
    let mut r: Vec<char> = Vec::new();
    let mut i: usize = 0;
    while i < s.len()
        invariant
            i <= s@.len(),
            r@ == s@.take(i as int),
        decreases s.len() - i,
    {
        r.push(s[i]);
        i += 1;
        assert(s@.take(i as int) == s@.take(i - 1).push(s@[i - 1]));
    }
    assert(s@.take(s@.len() as int) == s@);
    r
}

/// The total counts of expected and of unexpected events: the sums of the
/// counts whose keys start with `"expected:"` and with `"unexpected:"`.
pub fn evaluate(counters: &Counters) -> (r: (usize, usize))
    ensures
        r.0 == sum_with_prefix(counters@, "expected:"@),
        r.1 == sum_with_prefix(counters@, "unexpected:"@),
{
    let exp = chars_of("expected:");
    let unexp = chars_of("unexpected:");
    let mut expected: usize = 0;
    let mut unexpected: usize = 0;
    let mut i: usize = 0;
    while i < counters.len()
        invariant
            i <= counters@.len(),
            exp@ == "expected:"@,
            unexp@ == "unexpected:"@,
            expected == sum_with_prefix(counters@.take(i as int), exp@),
            unexpected == sum_with_prefix(counters@.take(i as int), unexp@),
        decreases counters@.len() - i,
    {
        let (key, n) = counters.entry(i);
        proof {
            let t = counters@.take(i + 1);
            assert(t.drop_last() == counters@.take(i as int));
            assert(t.last() == counters@[i as int]);
        }
        if starts_with_chars(key, &exp) {
            expected = expected.saturating_add(n);
        } else {
            expected = expected.saturating_add(0);
        }
        if starts_with_chars(key, &unexp) {
            unexpected = unexpected.saturating_add(n);
        } else {
            unexpected = unexpected.saturating_add(0);
        }
        i += 1;
    }
    assert(counters@.take(counters@.len() as int) == counters@);
    (expected, unexpected)
}

} // verus!
