//! Frequency analysis: one linear pass over the input text counts how often
//! each symbol occurs. The table keeps its entries in first-occurrence
//! order, which later gives the tree builder a deterministic input.

use vstd::prelude::*;
use crate::errors::HuffmanError;
use crate::tree::sum_weights;

verus! {

/// How many times `c` occurs in `s`.
pub open spec fn count_in(s: Seq<char>, c: char) -> nat
    decreases s.len(),
{
    if s.len() == 0 {
        0
    } else {
        count_in(s.drop_last(), c) + if s.last() == c {
            1nat
        } else {
            0nat
        }
    }
}

/// The count recorded for `c` by the first entry of `s` that carries `c`,
/// if any entry does.
pub open spec fn spec_lookup(s: Seq<(char, u64)>, c: char) -> Option<u64>
    decreases s.len(),
{
    if s.len() == 0 {
        None
    } else if s[0].0 == c {
        Some(s[0].1)
    } else {
        spec_lookup(s.drop_first(), c)
    }
}

/// The count recorded for `c`, or zero where `c` has no entry.
pub open spec fn lookup_count(s: Seq<(char, u64)>, c: char) -> nat {
    match spec_lookup(s, c) {
        Some(n) => n as nat,
        None => 0,
    }
}

/// The position of the first entry carrying `c`, or the sequence's length
/// where no entry does.
pub open spec fn spec_find_key(s: Seq<(char, u64)>, c: char) -> int
    decreases s.len(),
{
    if s.len() == 0 {
        0
    } else if s[0].0 == c {
        0
    } else {
        1 + spec_find_key(s.drop_first(), c)
    }
}

/// One counting step: raise the count of `c`, or append `(c, 1)` where
/// `c` has no entry yet.
pub open spec fn spec_bump(s: Seq<(char, u64)>, c: char) -> Seq<(char, u64)> {
    let k = spec_find_key(s, c);
    if k < s.len() {
        s.update(k, (s[k].0, (s[k].1 + 1) as u64))
    } else {
        s.push((c, 1u64))
    }
}

/// The frequency table of `text`: symbols counted left to right, entries
/// in first-occurrence order.
pub open spec fn spec_freq_table(text: Seq<char>) -> Seq<(char, u64)>
    decreases text.len(),
{
    if text.len() == 0 {
        Seq::empty()
    } else {
        spec_bump(spec_freq_table(text.drop_last()), text.last())
    }
}

/// A symbol-to-count table with one entry per distinct symbol.
#[derive(Debug, PartialEq, Eq)]
pub struct FrequencyTable {
    entries: Vec<(char, u64)>,
}

impl View for FrequencyTable {
    type V = Seq<(char, u64)>;

    closed spec fn view(&self) -> Seq<(char, u64)> {
        self.entries@
    }
}

impl FrequencyTable {
    /// Keys are unique and every recorded count is positive.
    pub open spec fn well_formed(&self) -> bool {
        &&& forall|i: int, j: int|
            0 <= i < j < self@.len() ==> (#[trigger] self@[i]).0 != (#[trigger] self@[j]).0
        &&& forall|i: int| 0 <= i < self@.len() ==> (#[trigger] self@[i]).1 >= 1
    }

    pub fn new() -> (r: Self)
        ensures
            r@ == Seq::<(char, u64)>::empty(),
            r.well_formed(),
    {
        let entries: Vec<(char, u64)> = Vec::new();
        assert(entries@ =~= Seq::<(char, u64)>::empty());
        FrequencyTable { entries }
    }

    /// The number of distinct symbols recorded.
    pub fn len(&self) -> (r: usize)
        ensures
            r == self@.len(),
    {
        self.entries.len()
    }

    pub fn is_empty(&self) -> (r: bool)
        ensures
            r == (self@.len() == 0),
    {
        self.entries.len() == 0
    }

    /// The entry at position `i`, in first-occurrence order.
    pub fn get(&self, i: usize) -> (r: (char, u64))
        requires
            i < self@.len(),
        ensures
            r == self@[i as int],
    {
        self.entries[i]
    }

    /// The recorded count of `c`, if `c` has an entry.
    pub fn count_of(&self, c: char) -> (r: Option<u64>)
        ensures
            r == spec_lookup(self@, c),
    {
        let mut j: usize = 0;
        proof {
            assert(self@.skip(0) =~= self@);
        }
        while j < self.entries.len()
            invariant
                j <= self.entries.len(),
                spec_lookup(self@, c) == spec_lookup(self@.skip(j as int), c),
                forall|k: int| 0 <= k < j ==> (#[trigger] self@[k]).0 != c,
            decreases self.entries.len() - j,
        {
            proof {
                assert(self@.skip(j as int)[0] == self@[j as int]);
            }
            if self.entries[j].0 == c {
                return Some(self.entries[j].1);
            }
            proof {
                assert(self@.skip(j as int).drop_first() =~= self@.skip(j as int + 1));
            }
            j += 1;
        }
        proof {
            assert(self@.skip(j as int).len() == 0);
        }
        None
    }
}

/// Appending one symbol to the text raises its count by one and leaves
/// every other count unchanged.
proof fn lemma_count_in_push(s: Seq<char>, x: char, c: char)
    ensures
        count_in(s.push(x), c) == count_in(s, c) + if x == c {
            1int
        } else {
            0int
        },
{
    assert(s.push(x).drop_last() =~= s);
    assert(s.push(x).last() == x);
}

/// Updating the count at one position changes lookups of that key alone.
proof fn lemma_lookup_update(s: Seq<(char, u64)>, j: int, v: u64, c: char)
    requires
        0 <= j < s.len(),
        forall|i: int, k: int| 0 <= i < k < s.len() ==> (#[trigger] s[i]).0 != (#[trigger] s[k]).0,
    ensures
        spec_lookup(s.update(j, (s[j].0, v)), c) == if s[j].0 == c {
            Some(v)
        } else {
            spec_lookup(s, c)
        },
    decreases s.len(),
{
    let t = s.update(j, (s[j].0, v));
    if s.len() == 0 {
    } else if j == 0 {
        if s[0].0 != c {
            assert(t.drop_first() =~= s.drop_first());
        }
    } else {
        if s[0].0 == c {
        } else {
            assert(t.drop_first() =~= s.drop_first().update(j - 1, (s[j].0, v)));
            lemma_lookup_update(s.drop_first(), j - 1, v, c);
        }
    }
}

/// Appending a fresh key adds its entry and leaves other lookups unchanged.
proof fn lemma_lookup_push(s: Seq<(char, u64)>, x: char, v: u64, c: char)
    requires
        spec_lookup(s, x) is None,
    ensures
        spec_lookup(s.push((x, v)), c) == if x == c {
            Some(v)
        } else {
            spec_lookup(s, c)
        },
    decreases s.len(),
{
    let t = s.push((x, v));
    if s.len() == 0 {
        assert(t.drop_first() =~= Seq::<(char, u64)>::empty());
    } else {
        assert(t.drop_first() =~= s.drop_first().push((x, v)));
        lemma_lookup_push(s.drop_first(), x, v, c);
    }
}

/// `sum_weights` after raising one count by one.
proof fn lemma_sum_weights_update(s: Seq<(char, u64)>, j: int, v: u64)
    requires
        0 <= j < s.len(),
    ensures
        sum_weights(s.update(j, (s[j].0, v))) == sum_weights(s) - s[j].1 + v,
    decreases s.len(),
{
    let t = s.update(j, (s[j].0, v));
    if j == s.len() - 1 {
        assert(t.drop_last() =~= s.drop_last());
        assert(t.last() == (s[j].0, v));
    } else {
        assert(t.drop_last() =~= s.drop_last().update(j, (s[j].0, v)));
        assert(t.last() == s.last());
        lemma_sum_weights_update(s.drop_last(), j, v);
    }
}

/// `sum_weights` after appending one entry.
proof fn lemma_sum_weights_push(s: Seq<(char, u64)>, x: char, v: u64)
    ensures
        sum_weights(s.push((x, v))) == sum_weights(s) + v,
{
    assert(s.push((x, v)).drop_last() =~= s);
    assert(s.push((x, v)).last() == (x, v));
}

/// Counts the symbols of `text`. Fails exactly on empty input; on success
/// the table is exactly `spec_freq_table(text)`: one entry per distinct
/// symbol in first-occurrence order, recording how often it occurs, with
/// unique keys, positive counts, and counts summing to the text's length.
pub fn generate_frequency_table(text: &str) -> (r: Result<FrequencyTable, HuffmanError>)
    ensures
        r is Err <==> text@.len() == 0,
        r is Err ==> r == Err::<FrequencyTable, HuffmanError>(HuffmanError::EmptyInput),
        r matches Ok(t) ==> {
            &&& t@ == spec_freq_table(text@)
            &&& t.well_formed()
            &&& forall|c: char| lookup_count(t@, c) == count_in(text@, c)
            &&& sum_weights(t@) == text@.len()
            &&& t@.len() >= 1
            &&& text@.len() <= usize::MAX
        },
{
    let n = text.unicode_len();
    if n == 0 {
        return Err(HuffmanError::EmptyInput);
    }
    let mut table = FrequencyTable::new();
    let mut i: usize = 0;
    proof {
        assert(text@.take(0) =~= Seq::<char>::empty());
        assert(table@ == spec_freq_table(text@.take(0)));
    }
    while i < n
        invariant
            n == text@.len(),
            i <= n,
            table.well_formed(),
            table@ == spec_freq_table(text@.take(i as int)),
            forall|c: char| lookup_count(table@, c) == count_in(text@.take(i as int), c),
            sum_weights(table@) == i,
            i > 0 ==> table@.len() >= 1,
        decreases n - i,
    {
        let c = text.get_char(i);
        proof {
            assert(text@.take(i + 1) =~= text@.take(i as int).push(text@[i as int]));
            assert(text@[i as int] == c);
            assert(text@.take(i + 1).drop_last() =~= text@.take(i as int));
            assert(text@.take(i + 1).last() == c);
        }
        let ghost pre = table@;
        if let Some(j) = find_index(&table.entries, c) {
            let old_count = table.entries[j].1;
            proof {
                lemma_spec_lookup_at(table@, j as int, c);
                assert(lookup_count(table@, c) == old_count);
                assert(count_in(text@.take(i as int), c) <= i) by {
                    lemma_count_in_le_len(text@.take(i as int), c);
                }
                lemma_spec_find_key_at(pre, j as int, c);
            }
            table.entries[j] = (c, old_count + 1);
            proof {
                let v = (old_count + 1) as u64;
                assert(table@ =~= pre.update(j as int, (pre[j as int].0, v)));
                assert(table@ == spec_bump(pre, c));
                assert(table@ == spec_freq_table(text@.take(i + 1)));
                lemma_sum_weights_update(pre, j as int, v);
                assert forall|d: char| lookup_count(table@, d) == count_in(
                    text@.take(i + 1),
                    d,
                ) by {
                    assert(lookup_count(pre, d) == count_in(text@.take(i as int), d));
                    lemma_lookup_update(pre, j as int, v, d);
                    lemma_count_in_push(text@.take(i as int), c, d);
                    if d == c {
                        assert(spec_lookup(pre, d) == Some(old_count));
                        assert(spec_lookup(table@, d) == Some(v));
                    } else {
                        assert(spec_lookup(table@, d) == spec_lookup(pre, d));
                    }
                }
            }
        } else {
            proof {
                lemma_spec_lookup_none(table@, c);
                lemma_spec_find_key_absent(pre, c);
            }
            table.entries.push((c, 1));
            proof {
                assert(table@ =~= pre.push((c, 1u64)));
                assert(table@ == spec_bump(pre, c));
                assert(table@ == spec_freq_table(text@.take(i + 1)));
                lemma_sum_weights_push(pre, c, 1u64);
                assert forall|d: char| lookup_count(table@, d) == count_in(
                    text@.take(i + 1),
                    d,
                ) by {
                    assert(lookup_count(pre, d) == count_in(text@.take(i as int), d));
                    lemma_lookup_push(pre, c, 1u64, d);
                    lemma_count_in_push(text@.take(i as int), c, d);
                    if d == c {
                        assert(spec_lookup(pre, d) is None);
                        assert(spec_lookup(table@, d) == Some(1u64));
                    } else {
                        assert(spec_lookup(table@, d) == spec_lookup(pre, d));
                    }
                }
            }
        }
        i += 1;
    }
    proof {
        assert(text@.take(n as int) =~= text@);
    }
    Ok(table)
}

/// `spec_find_key` names the first position carrying `c`.
proof fn lemma_spec_find_key_at(s: Seq<(char, u64)>, j: int, c: char)
    requires
        0 <= j < s.len(),
        s[j].0 == c,
        forall|k: int| 0 <= k < j ==> (#[trigger] s[k]).0 != c,
    ensures
        spec_find_key(s, c) == j,
    decreases s.len(),
{
    if j > 0 {
        assert(forall|k: int| 0 <= k < s.drop_first().len() ==> s.drop_first()[k] == s[k + 1]);
        lemma_spec_find_key_at(s.drop_first(), j - 1, c);
    }
}

/// Where no entry carries `c`, `spec_find_key` runs off the end.
proof fn lemma_spec_find_key_absent(s: Seq<(char, u64)>, c: char)
    requires
        forall|k: int| 0 <= k < s.len() ==> (#[trigger] s[k]).0 != c,
    ensures
        spec_find_key(s, c) == s.len(),
    decreases s.len(),
{
    if s.len() > 0 {
        assert(forall|k: int| 0 <= k < s.drop_first().len() ==> s.drop_first()[k] == s[k + 1]);
        lemma_spec_find_key_absent(s.drop_first(), c);
    }
}

/// The position of the first entry that carries `c`, if any entry does.
fn find_index(entries: &Vec<(char, u64)>, c: char) -> (r: Option<usize>)
    ensures
        match r {
            Some(j) => {
                &&& j < entries@.len()
                &&& entries@[j as int].0 == c
                &&& forall|k: int| 0 <= k < j ==> (#[trigger] entries@[k]).0 != c
            },
            None => forall|k: int| 0 <= k < entries@.len() ==> (#[trigger] entries@[k]).0 != c,
        },
{
    let mut j: usize = 0;
    while j < entries.len()
        invariant
            j <= entries@.len(),
            forall|k: int| 0 <= k < j ==> (#[trigger] entries@[k]).0 != c,
        decreases entries@.len() - j,
    {
        if entries[j].0 == c {
            return Some(j);
        }
        j += 1;
    }
    None
}

/// Where keys are unique, the lookup of the key at position `j` returns
/// that position's count.
pub proof fn lemma_spec_lookup_at(s: Seq<(char, u64)>, j: int, c: char)
    requires
        0 <= j < s.len(),
        s[j].0 == c,
        forall|i: int, k: int| 0 <= i < k < s.len() ==> (#[trigger] s[i]).0 != (#[trigger] s[k]).0,
    ensures
        spec_lookup(s, c) == Some(s[j].1),
    decreases s.len(),
{
    if j > 0 {
        lemma_spec_lookup_at(s.drop_first(), j - 1, c);
    }
}

/// A key that stands at no position has no lookup result.
proof fn lemma_spec_lookup_none(s: Seq<(char, u64)>, c: char)
    requires
        forall|k: int| 0 <= k < s.len() ==> (#[trigger] s[k]).0 != c,
    ensures
        spec_lookup(s, c) is None,
    decreases s.len(),
{
    if s.len() > 0 {
        lemma_spec_lookup_none(s.drop_first(), c);
    }
}

/// A symbol that stands somewhere in the text is counted at least once.
pub proof fn lemma_count_in_positive(s: Seq<char>, i: int)
    requires
        0 <= i < s.len(),
    ensures
        count_in(s, s[i]) >= 1,
    decreases s.len(),
{
    if i == s.len() - 1 {
        assert(s.last() == s[i]);
    } else {
        assert(s.drop_last()[i] == s[i]);
        lemma_count_in_positive(s.drop_last(), i);
    }
}

/// A successful lookup names a position carrying the key.
pub proof fn lemma_spec_lookup_witness(s: Seq<(char, u64)>, c: char)
    requires
        spec_lookup(s, c) is Some,
    ensures
        exists|k: int| 0 <= k < s.len() && (#[trigger] s[k]).0 == c,
    decreases s.len(),
{
    if s[0].0 == c {
        assert(s[0].0 == c);
    } else {
        lemma_spec_lookup_witness(s.drop_first(), c);
        let k = choose|k: int| 0 <= k < s.drop_first().len() && (#[trigger] s.drop_first()[k]).0 == c;
        assert(s[k + 1].0 == c);
    }
}

/// A table whose counts are all positive has no more entries than their
/// sum.
pub proof fn lemma_len_le_sum(s: Seq<(char, u64)>)
    requires
        forall|i: int| 0 <= i < s.len() ==> (#[trigger] s[i]).1 >= 1,
    ensures
        s.len() <= sum_weights(s),
    decreases s.len(),
{
    if s.len() > 0 {
        assert(forall|i: int|
            0 <= i < s.drop_last().len() ==> (#[trigger] s.drop_last()[i]).1 >= 1);
        lemma_len_le_sum(s.drop_last());
    }
}

/// A symbol occurs at most `len` times.
proof fn lemma_count_in_le_len(s: Seq<char>, c: char)
    ensures
        count_in(s, c) <= s.len(),
    decreases s.len(),
{
    if s.len() > 0 {
        lemma_count_in_le_len(s.drop_last(), c);
    }
}

} // verus!
