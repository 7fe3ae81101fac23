//! Frequency analysis: counting how often each symbol occurs in a stream.

use vstd::prelude::*;
use crate::EncodeError;

verus! {

/// How many times `c` occurs in `s`.
pub open spec fn count_occurs(s: Seq<char>, c: char) -> nat
    decreases s.len(),
{
    if s.len() == 0 {
        0
    } else {
        count_occurs(s.drop_last(), c) + (if s.last() == c {
            1nat
        } else {
            0nat
        })
    }
}

/// All first components of the entries are pairwise distinct.
pub open spec fn distinct_keys<T>(s: Seq<(char, T)>) -> bool {
    forall|i: int, j: int| 0 <= i < j < s.len() ==> (#[trigger] s[i]).0 != (#[trigger] s[j]).0
}

/// Counting distributes over concatenation.
pub proof fn lemma_count_concat(a: Seq<char>, b: Seq<char>, c: char)
    ensures
        count_occurs(a + b, c) == count_occurs(a, c) + count_occurs(b, c),
    decreases b.len(),
{
    if b.len() == 0 {
        assert(a + b =~= a);
    } else {
        lemma_count_concat(a, b.drop_last(), c);
        assert((a + b).drop_last() =~= a + b.drop_last());
        assert((a + b).last() == b.last());
    }
}

/// A symbol occurs in a prefix at most as often as in the whole stream.
pub proof fn lemma_count_prefix(s: Seq<char>, i: int, c: char)
    requires
        0 <= i <= s.len(),
    ensures
        count_occurs(s.take(i), c) <= count_occurs(s, c),
{
    assert(s =~= s.take(i) + s.skip(i));
    lemma_count_concat(s.take(i), s.skip(i), c);
}

/// Extending a prefix by one symbol counts that symbol once more.
pub proof fn lemma_count_take_step(s: Seq<char>, i: int, c: char)
    requires
        0 <= i < s.len(),
    ensures
        count_occurs(s.take(i + 1), c) == count_occurs(s.take(i), c) + (if s[i] == c {
            1nat
        } else {
            0nat
        }),
{
    assert(s.take(i + 1).drop_last() =~= s.take(i));
    assert(s.take(i + 1).last() == s[i]);
}

/// How many distinct symbols occur in `s`.
pub open spec fn count_distinct(s: Seq<char>) -> nat
    decreases s.len(),
{
    if s.len() == 0 {
        0
    } else {
        count_distinct(s.drop_last()) + (if count_occurs(s.drop_last(), s.last()) > 0 {
            0nat
        } else {
            1nat
        })
    }
}

/// A nonempty stream holds at least one distinct symbol.
pub proof fn lemma_count_distinct_pos(s: Seq<char>)
    requires
        s.len() > 0,
    ensures
        count_distinct(s) >= 1,
    decreases s.len(),
{
    if s.len() > 1 {
        lemma_count_distinct_pos(s.drop_last());
    }
}

/// There are no more distinct symbols than symbols.
pub proof fn lemma_count_distinct_le(s: Seq<char>)
    ensures
        count_distinct(s) <= s.len(),
    decreases s.len(),
{
    if s.len() > 0 {
        lemma_count_distinct_le(s.drop_last());
    }
}

/// A symbol that stands somewhere in the stream has a positive count.
pub proof fn lemma_count_of_index(s: Seq<char>, k: int)
    requires
        0 <= k < s.len(),
    ensures
        count_occurs(s, s[k]) > 0,
    decreases s.len(),
{
    if k < s.len() - 1 {
        lemma_count_of_index(s.drop_last(), k);
    }
}

/// Position of the first entry for symbol `c` in a frequency table.
fn find_sym(table: &Vec<(char, u16)>, c: char) -> (r: Option<usize>)
    ensures
        match r {
            Some(j) => j < table@.len() && table@[j as int].0 == c,
            None => forall|k: int| 0 <= k < table@.len() ==> (#[trigger] table@[k]).0 != c,
        },
{
    let mut j: usize = 0;
    while j < table.len()
        invariant
            j <= table@.len(),
            forall|k: int| 0 <= k < j ==> (#[trigger] table@[k]).0 != c,
        decreases table@.len() - j,
    {
        if table[j].0 == c {
            return Some(j);
        }
        j = j + 1;
    }
    None
}

/// Reads a symbol stream and returns a table of every symbol it contains
/// together with its number of occurrences.
///
/// Succeeds exactly when no symbol occurs more often than the 16-bit counter
/// can hold; a wider count is reported as `FrequencyOverflow` rather than
/// silently wrapping.
pub fn parser(content: &Vec<char>) -> (r: Result<Vec<(char, u16)>, EncodeError>)
    ensures
        match r {
            Ok(t) => {
                &&& distinct_keys(t@)
                &&& forall|k: int|
                    0 <= k < t@.len() ==> (#[trigger] t@[k]).1 as nat == count_occurs(
                        content@,
                        t@[k].0,
                    ) && t@[k].1 > 0
                &&& forall|c: char|
                    #[trigger] count_occurs(content@, c) > 0 ==> exists|k: int|
                        0 <= k < t@.len() && (#[trigger] t@[k]).0 == c
                &&& forall|c: char| #[trigger] count_occurs(content@, c) <= u16::MAX
                &&& t@.len() == count_distinct(content@)
            },
            Err(e) => {
                &&& e == EncodeError::FrequencyOverflow
                &&& exists|c: char| #[trigger] count_occurs(content@, c) > u16::MAX
            },
        },
{
    let ghost cs = content@;
    let mut table: Vec<(char, u16)> = Vec::new();
    let mut i: usize = 0;
    while i < content.len()
        invariant
            i <= cs.len(),
            cs == content@,
            distinct_keys(table@),
            forall|k: int|
                0 <= k < table@.len() ==> (#[trigger] table@[k]).1 as nat == count_occurs(
                    cs.take(i as int),
                    table@[k].0,
                ) && table@[k].1 > 0,
            forall|c: char|
                #[trigger] count_occurs(cs.take(i as int), c) > 0 ==> exists|k: int|
                    0 <= k < table@.len() && (#[trigger] table@[k]).0 == c,
            table@.len() == count_distinct(cs.take(i as int)),
        decreases cs.len() - i,
    {
        let c = content[i];
        let ghost t0 = table@;
        proof {
            assert(cs.take(i as int + 1).drop_last() =~= cs.take(i as int));
            assert(cs.take(i as int + 1).last() == cs[i as int]);
        }
        match find_sym(&table, c) {
            Some(j) => {
                let cnt = table[j].1;
                if cnt == u16::MAX {
                    proof {
                        lemma_count_take_step(cs, i as int, c);
                        lemma_count_prefix(cs, i as int + 1, c);
                        assert(count_occurs(cs, c) > u16::MAX);
                    }
                    return Err(EncodeError::FrequencyOverflow);
                }
                table[j] = (c, cnt + 1);
                proof {
                    assert(forall|k: int|
                        0 <= k < table@.len() ==> (#[trigger] table@[k]).0 == t0[k].0);
                    assert forall|k: int| 0 <= k < table@.len() implies (#[trigger] table@[k]).1
                        as nat == count_occurs(cs.take(i as int + 1), table@[k].0) && table@[k].1
                        > 0 by {
                        lemma_count_take_step(cs, i as int, table@[k].0);
                        if k != j {
                            assert(table@[k] == t0[k]);
                            assert(t0[k].0 != c);
                        }
                    }
                    assert(table@[j as int].0 == c);
                }
            },
            None => {
                table.push((c, 1));
                proof {
                    assert forall|k: int| 0 <= k < table@.len() implies (#[trigger] table@[k]).1
                        as nat == count_occurs(cs.take(i as int + 1), table@[k].0) && table@[k].1
                        > 0 by {
                        lemma_count_take_step(cs, i as int, table@[k].0);
                        if k < t0.len() {
                            assert(table@[k] == t0[k]);
                            assert(t0[k].0 != c);
                        } else {
                            assert(table@[k] == (c, 1u16));
                            assert(count_occurs(cs.take(i as int), c) == 0) by {
                                if count_occurs(cs.take(i as int), c) > 0 {
                                    let w = choose|w: int|
                                        0 <= w < t0.len() && (#[trigger] t0[w]).0 == c;
                                    assert(false);
                                }
                            }
                        }
                    }
                    assert(distinct_keys(table@)) by {
                        assert(forall|k: int| 0 <= k < t0.len() ==> (#[trigger] t0[k]).0 != c);
                        assert(forall|k: int| 0 <= k < t0.len() ==> table@[k] == t0[k]);
                    }
                    assert(table@[t0.len() as int].0 == c);
                }
            },
        }
        proof {
            assert forall|c2: char| #[trigger] count_occurs(cs.take(i as int + 1), c2) > 0 implies
                exists|k: int| 0 <= k < table@.len() && (#[trigger] table@[k]).0 == c2 by {
                lemma_count_take_step(cs, i as int, c2);
                if c2 == c {
                    assert(exists|k: int|
                        0 <= k < table@.len() && (#[trigger] table@[k]).0 == c2);
                } else {
                    assert(count_occurs(cs.take(i as int), c2) > 0);
                    let w = choose|w: int| 0 <= w < t0.len() && (#[trigger] t0[w]).0 == c2;
                    assert(table@[w].0 == c2);
                }
            }
        }
        i = i + 1;
    }
    proof {
        assert(cs.take(cs.len() as int) =~= cs);
        assert forall|c: char| #[trigger] count_occurs(cs, c) <= u16::MAX by {
            if count_occurs(cs, c) > u16::MAX {
                let k = choose|k: int| 0 <= k < table@.len() && (#[trigger] table@[k]).0 == c;
                assert(table@[k].1 as nat == count_occurs(cs, c));
            }
        }
    }
    Ok(table)
}

} // verus!
