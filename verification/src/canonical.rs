//! The canonical code assigner: renumbering a code table by (length, symbol)
//! so that it can be serialized as (symbol, length) pairs.

use vstd::prelude::*;
use vstd::multiset::Multiset;
use vstd::arithmetic::power2::{pow2, lemma_pow2_adds, lemma_pow2_pos, lemma_pow2_unfold,
    lemma2_to64};
use crate::bits::{bits_value, all_true, all_false, lemma_bits_value_bound,
    lemma_bits_value_all_true, lemma_bits_value_all_false, lemma_bits_value_split};
use crate::frequency::distinct_keys;
use crate::EncodeError;

verus! {

/// The sort order of the canonical assigner: code length first, then symbol.
pub open spec fn entry_le(a: (char, usize), b: (char, usize)) -> bool {
    a.1 < b.1 || (a.1 == b.1 && a.0 as u32 <= b.0 as u32)
}

/// The entries are sorted ascending by (length, symbol).
pub open spec fn sorted_entries(s: Seq<(char, usize)>) -> bool {
    forall|i: int, j: int| 0 <= i < j < s.len() ==> entry_le(#[trigger] s[i], #[trigger] s[j])
}

/// The symbol of one length-table entry.
fn entry_key(v: &Vec<(char, usize)>, i: usize) -> (r: char)
    requires
        i < v@.len(),
    ensures
        r == v@[i as int].0,
{
    v[i].0
}

/// Whether `a` sorts at or before `b` in (length, symbol) order.
fn entry_le_exec(a: (char, usize), b: (char, usize)) -> (r: bool)
    ensures
        r == entry_le(a, b),
{
    a.1 < b.1 || (a.1 == b.1 && (a.0 as u32) <= (b.0 as u32))
}

/// Sorts the (symbol, length) pairs ascending by length, tie-broken by
/// symbol value, keeping exactly the same entries.
pub fn sort_entries(v: Vec<(char, usize)>) -> (r: Vec<(char, usize)>)
    ensures
        sorted_entries(r@),
        r@.to_multiset() == v@.to_multiset(),
{
    broadcast use vstd::seq_lib::group_to_multiset_ensures;

    let ghost orig = v@;
    let mut rest = v;
    let mut out: Vec<(char, usize)> = Vec::new();
    while rest.len() > 0
        invariant
            sorted_entries(out@),
            forall|a: int, b: int|
                0 <= a < out@.len() && 0 <= b < rest@.len() ==> entry_le(
                    #[trigger] out@[a],
                    #[trigger] rest@[b],
                ),
            out@.to_multiset().add(rest@.to_multiset()) == orig.to_multiset(),
        decreases rest@.len(),
    {
        let mut m: usize = 0;
        let mut j: usize = 1;
        while j < rest.len()
            invariant
                m < j <= rest@.len(),
                forall|k: int| 0 <= k < j ==> entry_le(rest@[m as int], #[trigger] rest@[k]),
            decreases rest@.len() - j,
        {
            if !entry_le_exec(rest[m], rest[j]) {
                m = j;
            }
            j = j + 1;
        }
        let ghost rest0 = rest@;
        let ghost out0 = out@;
        let e = rest.remove(m);
        out.push(e);
        proof {
            broadcast use vstd::seq_lib::group_to_multiset_ensures;

            assert(out@.drop_last() =~= out0);
            assert(out@.to_multiset().add(rest@.to_multiset()) =~= orig.to_multiset()) by {
                assert(out@.to_multiset() =~= out0.to_multiset().insert(e));
                assert(rest0.to_multiset().contains(e));
                assert(rest@.to_multiset() =~= rest0.to_multiset().remove(e));
            }
            assert forall|a: int, b: int|
                0 <= a < out@.len() && 0 <= b < rest@.len() implies entry_le(
                #[trigger] out@[a],
                #[trigger] rest@[b],
            ) by {
                if a < out0.len() {
                    assert(out@[a] == out0[a]);
                }
                if b < m {
                    assert(rest@[b] == rest0[b]);
                } else {
                    assert(rest@[b] == rest0[b + 1]);
                }
            }
        }
    }
    proof {
        assert(rest@.to_multiset() =~= Multiset::<(char, usize)>::empty());
        assert(out@.to_multiset() =~= orig.to_multiset());
    }
    out
}

/// Two sequences with the same entries (as a multiset) either both have
/// pairwise-distinct symbols or neither has.
pub proof fn lemma_distinct_keys_permutation(a: Seq<(char, usize)>, b: Seq<(char, usize)>)
    requires
        a.to_multiset() == b.to_multiset(),
        distinct_keys(a),
    ensures
        distinct_keys(b),
{
    broadcast use vstd::seq_lib::group_to_multiset_ensures;

    assert forall|i: int, j: int| 0 <= i < j < b.len() implies (#[trigger] b[i]).0 != (
    #[trigger] b[j]).0 by {
        if b[i].0 == b[j].0 {
            if b[i] == b[j] {
                let s0 = b.take(j);
                let s1 = b.skip(j);
                assert(b =~= s0 + s1);
                vstd::seq_lib::lemma_multiset_commutative(s0, s1);
                assert(s0[i] == b[i]);
                assert(s0.contains(b[i]));
                assert(s1[0] == b[j]);
                assert(s1.contains(b[i]));
                assert(b.to_multiset().count(b[i]) >= 2);
                assert(a.to_multiset().count(b[i]) >= 2);
                assert(a.contains(b[i]));
                let k1 = choose|k1: int| 0 <= k1 < a.len() && a[k1] == b[i];
                let a2 = a.remove(k1);
                assert(a2.to_multiset() =~= a.to_multiset().remove(a[k1]));
                assert(a2.to_multiset().count(b[i]) >= 1);
                assert(a2.contains(b[i]));
                let k2 = choose|k2: int| 0 <= k2 < a2.len() && a2[k2] == b[i];
                if k2 < k1 {
                    assert(a[k2] == a2[k2]);
                    assert(a[k2].0 == a[k1].0);
                } else {
                    assert(a[k2 + 1] == a2[k2]);
                    assert(a[k2 + 1].0 == a[k1].0);
                }
                assert(false);
            } else {
                assert(b.contains(b[i]));
                assert(b.contains(b[j]));
                assert(a.to_multiset().count(b[i]) > 0);
                assert(a.to_multiset().count(b[j]) > 0);
                assert(a.contains(b[i]));
                assert(a.contains(b[j]));
                let k1 = choose|k1: int| 0 <= k1 < a.len() && a[k1] == b[i];
                let k2 = choose|k2: int| 0 <= k2 < a.len() && a[k2] == b[j];
                assert(k1 != k2);
                assert(false);
            }
        }
    }
}

/// The Kraft weight of a sequence of (symbol, length) entries at scale
/// `pow2(d)`: the sum over the entries of `pow2(d - length)`.
pub open spec fn ksum(s: Seq<(char, usize)>, d: nat) -> nat
    decreases s.len(),
{
    if s.len() == 0 {
        0
    } else {
        ksum(s.drop_last(), d) + pow2((d - s.last().1) as nat)
    }
}

/// The Kraft weight distributes over concatenation.
pub proof fn lemma_ksum_concat(a: Seq<(char, usize)>, b: Seq<(char, usize)>, d: nat)
    ensures
        ksum(a + b, d) == ksum(a, d) + ksum(b, d),
    decreases b.len(),
{
    if b.len() == 0 {
        assert(a + b =~= a);
    } else {
        lemma_ksum_concat(a, b.drop_last(), d);
        assert((a + b).drop_last() =~= a + b.drop_last());
        assert((a + b).last() == b.last());
    }
}

/// Removing one entry removes exactly its Kraft term.
pub proof fn lemma_ksum_remove(s: Seq<(char, usize)>, i: int, d: nat)
    requires
        0 <= i < s.len(),
    ensures
        ksum(s, d) == ksum(s.remove(i), d) + pow2((d - s[i].1) as nat),
    decreases s.len(),
{
    if i == s.len() - 1 {
        assert(s.remove(i) =~= s.drop_last());
    } else {
        let e = s.drop_last();
        lemma_ksum_remove(e, i, d);
        assert(s.remove(i).drop_last() =~= e.remove(i));
        assert(s.remove(i).last() == s.last());
    }
}

/// The Kraft weight only depends on the entries, not on their order.
pub proof fn lemma_ksum_permutation(a: Seq<(char, usize)>, b: Seq<(char, usize)>, d: nat)
    requires
        a.to_multiset() == b.to_multiset(),
    ensures
        ksum(a, d) == ksum(b, d),
    decreases a.len(),
{
    broadcast use vstd::seq_lib::group_to_multiset_ensures;

    if a.len() == 0 {
        assert(a.to_multiset().len() == a.len());
        assert(b.to_multiset().len() == b.len());
        assert(b.len() == 0);
    } else {
        let x = a.last();
        assert(a.contains(x));
        assert(b.to_multiset().count(x) > 0);
        assert(b.contains(x));
        let j = choose|j: int| 0 <= j < b.len() && b[j] == x;
        lemma_ksum_remove(b, j, d);
        assert(a.drop_last() =~= a.remove(a.len() - 1));
        assert(a.drop_last().to_multiset() =~= a.to_multiset().remove(x));
        assert(b.remove(j).to_multiset() =~= b.to_multiset().remove(x));
        lemma_ksum_permutation(a.drop_last(), b.remove(j), d);
    }
}

/// The Kraft weight of a length table equals the Kraft weight of the code
/// paths the lengths were read off from.
pub proof fn lemma_ksum_of_paths(
    pp: Seq<(char, Seq<bool>)>,
    ee: Seq<(char, usize)>,
    d: nat,
)
    requires
        ee.len() == pp.len(),
        forall|i: int| 0 <= i < ee.len() ==> (#[trigger] ee[i]).1 == pp[i].1.len(),
    ensures
        ksum(ee, d) == crate::tree::kpsum(pp, d),
    decreases ee.len(),
{
    if ee.len() > 0 {
        lemma_ksum_of_paths(pp.drop_last(), ee.drop_last(), d);
        assert(ee.last().1 == pp.last().1.len());
    }
}

/// The canonical code value of the entry at position `i` of a sorted
/// (symbol, length) table: zero for the first entry, and for each further
/// entry the previous value plus one, left-shifted by the length difference.
pub open spec fn canon_val(s: Seq<(char, usize)>, i: int) -> nat
    decreases i,
{
    if i <= 0 {
        0
    } else {
        (canon_val(s, i - 1) + 1) * pow2((s[i].1 - s[i - 1].1) as nat)
    }
}

/// Every canonical code value fits in its declared bit length. This is what
/// the assigner needs so that no code overflows its length; it holds of any
/// length multiset that satisfies the Kraft inequality.
pub open spec fn canon_fits(s: Seq<(char, usize)>) -> bool {
    forall|i: int| 0 <= i < s.len() ==> canon_val(s, i) < pow2((#[trigger] s[i]).1 as nat)
}

/// Appends `k` zero bits, which multiplies the value by `pow2(k)`.
fn push_zeros(code: &mut Vec<bool>, k: usize)
    requires
        old(code)@.len() + k <= usize::MAX,
    ensures
        final(code)@.len() == old(code)@.len() + k,
        final(code)@.take(old(code)@.len() as int) == old(code)@,
        forall|i: int| old(code)@.len() <= i < final(code)@.len() ==> !final(code)@[i],
        bits_value(final(code)@) == bits_value(old(code)@) * pow2(k as nat),
{
    let ghost orig = code@;
    proof {
        lemma2_to64();
        assert(bits_value(orig) * pow2(0nat) == bits_value(orig)) by (nonlinear_arith)
            requires
                pow2(0nat) == 1,
        ;
    }
    let mut i: usize = 0;
    while i < k
        invariant
            i <= k,
            orig.len() + k <= usize::MAX,
            code@.len() == orig.len() + i,
            code@.take(orig.len() as int) == orig,
            forall|j: int| orig.len() <= j < code@.len() ==> !code@[j],
            bits_value(code@) == bits_value(orig) * pow2(i as nat),
        decreases k - i,
    {
        let ghost c0 = code@;
        code.push(false);
        proof {
            assert(code@.drop_last() =~= c0);
            assert(code@.take(orig.len() as int) =~= c0.take(orig.len() as int));
            assert(bits_value(code@) == 2 * bits_value(c0));
            lemma_pow2_unfold((i + 1) as nat);
            assert(bits_value(orig) * pow2((i + 1) as nat) == 2 * (bits_value(orig) * pow2(
                i as nat,
            ))) by (nonlinear_arith)
                requires
                    pow2((i + 1) as nat) == 2 * pow2(i as nat),
            ;
        }
        i = i + 1;
    }
    proof {
        if k == 0 {
            lemma2_to64();
            assert(code@.take(orig.len() as int) =~= code@);
        }
    }
}

/// Adds one to the number a bit sequence denotes, keeping its length.
/// Reports overflow instead when every bit is already set.
fn increment_code(code: &mut Vec<bool>) -> (overflow: bool)
    ensures
        overflow <==> all_true(old(code)@),
        !overflow ==> final(code)@.len() == old(code)@.len() && bits_value(final(code)@)
            == bits_value(old(code)@) + 1,
{
    let ghost orig = code@;
    let mut j: usize = code.len();
    while j > 0
        invariant
            orig == old(code)@,
            j <= code@.len(),
            code@.len() == orig.len(),
            forall|k: int| 0 <= k < j ==> code@[k] == orig[k],
            forall|k: int| j <= k < code@.len() ==> !code@[k],
            forall|k: int| j <= k < orig.len() ==> orig[k],
        decreases j,
    {
        let p = j - 1;
        if code[p] {
            code[p] = false;
            j = p;
        } else {
            code[p] = true;
            proof {
                assert(!orig[p as int]);
                assert(!all_true(orig));
                lemma_increment_value(orig, code@, p as int);
            }
            return false;
        }
    }
    proof {
        assert(all_true(orig));
    }
    true
}

/// The value bookkeeping behind `increment_code`: flipping the trailing run
/// of ones to zero and the lowest zero to one adds exactly one.
proof fn lemma_increment_value(orig: Seq<bool>, now: Seq<bool>, p: int)
    requires
        0 <= p < orig.len(),
        now.len() == orig.len(),
        forall|k: int| 0 <= k < p ==> now[k] == orig[k],
        !orig[p],
        now[p],
        forall|k: int| p < k < now.len() ==> !now[k],
        forall|k: int| p < k < orig.len() ==> orig[k],
    ensures
        bits_value(now) == bits_value(orig) + 1,
{
    let len = orig.len() as int;
    lemma_bits_value_split(orig, p);
    lemma_bits_value_split(now, p);
    assert(now.take(p) =~= orig.take(p));
    let os = orig.skip(p);
    let ns = now.skip(p);
    lemma_bits_value_split(os, 1);
    lemma_bits_value_split(ns, 1);
    assert(os.take(1) =~= seq![false]);
    assert(ns.take(1) =~= seq![true]);
    assert(bits_value(Seq::<bool>::empty()) == 0);
    assert(bits_value(seq![false]) == 0) by {
        assert(seq![false].drop_last() =~= Seq::<bool>::empty());
        assert(seq![false].last() == false);
    }
    assert(bits_value(seq![true]) == 1) by {
        assert(seq![true].drop_last() =~= Seq::<bool>::empty());
        assert(seq![true].last() == true);
    }
    assert(all_true(os.skip(1)));
    assert(all_false(ns.skip(1)));
    lemma_bits_value_all_true(os.skip(1));
    lemma_bits_value_all_false(ns.skip(1));
    assert(os.skip(1).len() == len - p - 1);
    assert(ns.skip(1).len() == len - p - 1);
    let q = pow2((len - p - 1) as nat);
    assert(0 * q == 0 && 1 * q == q) by (nonlinear_arith);
    assert(bits_value(os) == 0 * q + (q - 1));
    assert(bits_value(ns) == 1 * q + 0);
    assert(bits_value(ns) == bits_value(os) + 1);
    assert(bits_value(now.take(p)) == bits_value(orig.take(p)));
    assert(bits_value(now) == bits_value(now.take(p)) * pow2((now.len() - p) as nat) + bits_value(
        ns,
    ));
    assert(bits_value(orig) == bits_value(orig.take(p)) * pow2((orig.len() - p) as nat)
        + bits_value(os));
}

/// Assigns every entry of a sorted (symbol, length) table its canonical
/// code: codes of one length are consecutive, and a longer length continues
/// from the previous value shifted left, which keeps the table prefix-free.
///
/// Succeeds exactly when the lengths admit such an assignment, that is, when
/// no code value outgrows its declared length.
#[verifier::rlimit(100)]
pub fn assign_canonical(ss: &Vec<(char, usize)>) -> (r: Result<Vec<(char, Vec<bool>)>, EncodeError>)
    requires
        sorted_entries(ss@),
    ensures
        match r {
            Ok(t) => {
                &&& canon_fits(ss@)
                &&& t@.len() == ss@.len()
                &&& forall|i: int|
                    0 <= i < t@.len() ==> (#[trigger] t@[i]).0 == ss@[i].0 && t@[i].1@.len()
                        == ss@[i].1 && bits_value(t@[i].1@) == canon_val(ss@, i)
            },
            Err(e) => e == EncodeError::UnsupportedAlphabet && !canon_fits(ss@),
        },
{
    let mut out: Vec<(char, Vec<bool>)> = Vec::new();
    let mut code: Vec<bool> = Vec::new();
    let mut i: usize = 0;
    while i < ss.len()
        invariant
            sorted_entries(ss@),
            i <= ss@.len(),
            out@.len() == i,
            forall|k: int|
                0 <= k < i ==> (#[trigger] out@[k]).0 == ss@[k].0 && out@[k].1@.len() == ss@[k].1
                    && bits_value(out@[k].1@) == canon_val(ss@, k),
            forall|k: int| 0 <= k < i ==> canon_val(ss@, k) < pow2((#[trigger] ss@[k]).1 as nat),
            i == 0 ==> code@ == Seq::<bool>::empty(),
            i > 0 ==> code@.len() == ss@[i - 1].1 && bits_value(code@) == canon_val(ss@, i - 1),
        decreases ss@.len() - i,
    {
        let ghost out0 = out@;
        let this_len = ss[i].1;
        if i == 0 {
            proof {
                assert(bits_value(code@) == 0);
            }
            push_zeros(&mut code, this_len);
            proof {
                lemma_pow2_pos(this_len as nat);
                assert(0 * pow2(this_len as nat) == 0) by (nonlinear_arith);
                assert(bits_value(code@) == 0);
                assert(canon_val(ss@, 0) == 0);
            }
        } else {
            let prev_len = ss[i - 1].1;
            assert(prev_len <= this_len) by {
                assert(entry_le(ss@[i - 1], ss@[i as int]));
            }
            let ghost cv_prev = canon_val(ss@, (i - 1) as int);
            let ghost cpre = code@;
            let overflow = increment_code(&mut code);
            if overflow {
                proof {
                    lemma_bits_value_all_true(cpre);
                    lemma_bits_value_all_true_old(ss@, i as int, cv_prev, prev_len as nat);
                }
                return Err(EncodeError::UnsupportedAlphabet);
            }
            push_zeros(&mut code, this_len - prev_len);
            proof {
                assert(bits_value(code@) == (cv_prev + 1) * pow2((this_len - prev_len) as nat));
                assert(bits_value(code@) == canon_val(ss@, i as int));
                lemma_bits_value_bound(code@);
                assert(code@.len() == this_len);
            }
        }
        let sym = entry_key(ss, i);
        let code_copy = crate::tree::clone_bits(&code);
        out.push((sym, code_copy));
        proof {
            assert(out@.len() == i + 1);
            assert(out@[i as int].0 == ss@[i as int].0);
            assert(out@[i as int].1@ == code@);
            assert(forall|k: int| 0 <= k < i ==> out@[k] == out0[k]);
        }
        i = i + 1;
    }
    Ok(out)
}

/// True when `a` is an initial segment of `b`.
pub open spec fn is_bit_prefix(a: Seq<bool>, b: Seq<bool>) -> bool {
    a.len() <= b.len() && b.take(a.len() as int) == a
}

/// A canonical table entry list matching a sorted (symbol, length) table:
/// same symbols in order, each code of the declared length and value.
pub open spec fn matches_canonical(t: Seq<(char, Seq<bool>)>, ss: Seq<(char, usize)>) -> bool {
    &&& t.len() == ss.len()
    &&& forall|k: int|
        0 <= k < t.len() ==> (#[trigger] t[k]).0 == ss[k].0 && t[k].1.len() == ss[k].1
            && bits_value(t[k].1) == canon_val(ss, k)
}

/// Later canonical values dominate earlier ones: the value at `j`, read at
/// the scale of the length difference, lies strictly above the value at `i`.
pub proof fn lemma_canon_val_monotone(ss: Seq<(char, usize)>, i: int, j: int)
    requires
        sorted_entries(ss),
        0 <= i < j < ss.len(),
    ensures
        canon_val(ss, j) >= (canon_val(ss, i) + 1) * pow2((ss[j].1 - ss[i].1) as nat),
    decreases j - i,
{
    assert(entry_le(ss[j - 1], ss[j]));
    assert(entry_le(ss[i], ss[j]));
    if j == i + 1 {
    } else {
        lemma_canon_val_monotone(ss, i, j - 1);
        assert(entry_le(ss[i], ss[j - 1]));
        let d1 = (ss[j - 1].1 - ss[i].1) as nat;
        let d2 = (ss[j].1 - ss[j - 1].1) as nat;
        let vi1 = canon_val(ss, i) + 1;
        let vj1 = canon_val(ss, j - 1);
        lemma_pow2_adds(d1, d2);
        lemma_pow2_pos(d1);
        lemma_pow2_pos(d2);
        assert(canon_val(ss, j) == (vj1 + 1) * pow2(d2));
        assert((vj1 + 1) * pow2(d2) >= vi1 * pow2(d1) * pow2(d2) && vi1 * pow2(d1) * pow2(d2)
            == vi1 * (pow2(d1) * pow2(d2))) by (nonlinear_arith)
            requires
                vj1 >= vi1 * pow2(d1),
                pow2(d2) >= 1,
        ;
    }
}

/// The prefix-free invariant of canonical tables: the codes of two distinct
/// entries are never one an initial segment of the other.
pub proof fn lemma_canonical_prefix_free(
    ss: Seq<(char, usize)>,
    t: Seq<(char, Seq<bool>)>,
    i: int,
    j: int,
)
    requires
        sorted_entries(ss),
        canon_fits(ss),
        matches_canonical(t, ss),
        0 <= i < t.len(),
        0 <= j < t.len(),
        i != j,
    ensures
        !is_bit_prefix(t[i].1, t[j].1),
{
    let li = ss[i].1;
    let lj = ss[j].1;
    if is_bit_prefix(t[i].1, t[j].1) {
        if i < j {
            assert(entry_le(ss[i], ss[j]));
            assert(li <= lj);
            lemma_canon_val_monotone(ss, i, j);
            lemma_bits_value_split(t[j].1, li as int);
            assert(t[j].1.take(li as int) == t[i].1);
            lemma_bits_value_bound(t[j].1.skip(li as int));
            let q = pow2((lj - li) as nat);
            assert(t[j].1.skip(li as int).len() == lj - li);
            assert(canon_val(ss, j) == canon_val(ss, i) * q + bits_value(t[j].1.skip(li as int)));
            assert(canon_val(ss, j) < canon_val(ss, i) * q + q);
            assert((canon_val(ss, i) + 1) * q == canon_val(ss, i) * q + q) by (nonlinear_arith);
            assert(false);
        } else {
            assert(entry_le(ss[j], ss[i]));
            assert(lj <= li);
            assert(li <= lj);
            assert(li == lj);
            assert(t[j].1.take(li as int) =~= t[j].1);
            assert(t[i].1 == t[j].1);
            lemma_canon_val_monotone(ss, j, i);
            lemma2_to64();
            let v = canon_val(ss, j) + 1;
            assert(v * pow2(0nat) == v) by (nonlinear_arith)
                requires
                    pow2(0nat) == 1,
            ;
            assert(canon_val(ss, i) >= canon_val(ss, j) + 1);
            assert(false);
        }
    }
}

/// Canonical determinism: the (symbol, length) table pins the canonical
/// code table down completely, so two assignments from the same lengths are
/// identical, entry for entry.
pub proof fn lemma_canonical_deterministic(
    ss: Seq<(char, usize)>,
    t1: Seq<(char, Seq<bool>)>,
    t2: Seq<(char, Seq<bool>)>,
)
    requires
        matches_canonical(t1, ss),
        matches_canonical(t2, ss),
    ensures
        t1 == t2,
{
    assert forall|k: int| 0 <= k < t1.len() implies t1[k] == t2[k] by {
        crate::bits::lemma_bits_value_injective(t1[k].1, t2[k].1);
    }
    assert(t1 =~= t2);
}

/// Canonical ordering: within one code-length class, consecutive entries
/// carry consecutive code values — ascending symbol order with no gaps.
pub proof fn lemma_canonical_ordering(ss: Seq<(char, usize)>, i: int)
    requires
        sorted_entries(ss),
        distinct_keys(ss),
        0 <= i,
        i + 1 < ss.len(),
        ss[i + 1].1 == ss[i].1,
    ensures
        canon_val(ss, i + 1) == canon_val(ss, i) + 1,
        (ss[i].0 as u32) < (ss[i + 1].0 as u32),
{
    lemma2_to64();
    let v = canon_val(ss, i) + 1;
    assert(canon_val(ss, i + 1) == v * pow2(0nat));
    assert(v * pow2(0nat) == v) by (nonlinear_arith)
        requires
            pow2(0nat) == 1,
    ;
    assert(entry_le(ss[i], ss[i + 1]));
    assert(ss[i].0 != ss[i + 1].0);
    vstd::utf8::char_u32_cast(ss[i].0, ss[i].0 as u32);
    vstd::utf8::char_u32_cast(ss[i + 1].0, ss[i + 1].0 as u32);
}

/// The scaled running total of the assigner equals the Kraft weight of the
/// already-processed entries.
proof fn lemma_canon_val_scaled(ss: Seq<(char, usize)>, i: int, d: nat)
    requires
        sorted_entries(ss),
        forall|k: int| 0 <= k < ss.len() ==> (#[trigger] ss[k]).1 <= d,
        0 <= i < ss.len(),
    ensures
        canon_val(ss, i) * pow2((d - ss[i].1) as nat) == ksum(ss.take(i), d),
    decreases i,
{
    if i == 0 {
        assert(ss.take(0) =~= Seq::<(char, usize)>::empty());
        assert(canon_val(ss, 0) == 0);
        assert(0 * pow2((d - ss[0].1) as nat) == 0) by (nonlinear_arith);
    } else {
        lemma_canon_val_scaled(ss, i - 1, d);
        assert(entry_le(ss[i - 1], ss[i]));
        let li = ss[i].1 as nat;
        let lp = ss[i - 1].1 as nat;
        let cv = canon_val(ss, i - 1);
        lemma_pow2_adds((li - lp) as nat, (d - li) as nat);
        assert(canon_val(ss, i) == (cv + 1) * pow2((li - lp) as nat));
        assert((cv + 1) * pow2((li - lp) as nat) * pow2((d - li) as nat) == (cv + 1) * pow2(
            (d - lp) as nat,
        )) by (nonlinear_arith)
            requires
                pow2((li - lp) as nat) * pow2((d - li) as nat) == pow2((d - lp) as nat),
        ;
        assert((cv + 1) * pow2((d - lp) as nat) == cv * pow2((d - lp) as nat) + pow2(
            (d - lp) as nat,
        )) by (nonlinear_arith);
        assert(ss.take(i).drop_last() =~= ss.take(i - 1));
        assert(ss.take(i).last() == ss[i - 1]);
        assert(ksum(ss.take(i), d) == ksum(ss.take(i - 1), d) + pow2((d - lp) as nat));
    }
}

/// Lengths that satisfy the Kraft inequality admit the canonical assignment:
/// no code value outgrows its declared length.
pub proof fn lemma_kraft_fits(ss: Seq<(char, usize)>, d: nat)
    requires
        sorted_entries(ss),
        forall|k: int| 0 <= k < ss.len() ==> (#[trigger] ss[k]).1 <= d,
        ksum(ss, d) <= pow2(d),
    ensures
        canon_fits(ss),
{
    assert forall|i: int| 0 <= i < ss.len() implies canon_val(ss, i) < pow2(
        (#[trigger] ss[i]).1 as nat,
    ) by {
        lemma_canon_val_scaled(ss, i, d);
        let li = ss[i].1 as nat;
        let q = pow2((d - li) as nat);
        lemma_pow2_pos((d - li) as nat);
        assert(ss =~= ss.take(i + 1) + ss.skip(i + 1));
        lemma_ksum_concat(ss.take(i + 1), ss.skip(i + 1), d);
        assert(ss.take(i + 1).drop_last() =~= ss.take(i));
        assert(ss.take(i + 1).last() == ss[i]);
        assert(ksum(ss.take(i + 1), d) == ksum(ss.take(i), d) + q);
        assert(ksum(ss.take(i), d) + q <= pow2(d));
        lemma_pow2_adds(li, (d - li) as nat);
        if canon_val(ss, i) >= pow2(li) {
            assert(canon_val(ss, i) * q >= pow2(li) * q) by (nonlinear_arith)
                requires
                    canon_val(ss, i) >= pow2(li),
                    q >= 1,
            ;
            assert(pow2(li) * q == pow2(d));
            assert(false);
        }
    }
}

/// The (symbol, length) pairs of a code map.
pub open spec fn code_lens(s: Seq<(char, Vec<bool>)>) -> Seq<(char, usize)> {
    Seq::new(s.len(), |i: int| (s[i].0, s[i].1@.len() as usize))
}

/// The symbol of one code-map entry.
fn map_key(v: &Vec<(char, Vec<bool>)>, i: usize) -> (r: char)
    requires
        i < v@.len(),
    ensures
        r == v@[i as int].0,
{
    v[i].0
}

/// Assigns every symbol of a code map its canonical code: the map is
/// reduced to (symbol, length) pairs, sorted ascending by (length, symbol),
/// and renumbered so that codes of one length are consecutive. Only the
/// path lengths of the given codes matter; their bit patterns are replaced.
///
/// Succeeds exactly when the lengths admit a canonical assignment.
pub fn build_canonical_code_bitvec(code_map: Vec<(char, Vec<bool>)>) -> (r: Result<
    Vec<(char, Vec<bool>)>,
    EncodeError,
>)
    ensures
        match r {
            Ok(t) => exists|ss: Seq<(char, usize)>|
                {
                    &&& sorted_entries(ss)
                    &&& #[trigger] ss.to_multiset() == code_lens(code_map@).to_multiset()
                    &&& canon_fits(ss)
                    &&& matches_canonical(crate::tree::code_map_abs(t@), ss)
                },
            Err(e) => e == EncodeError::UnsupportedAlphabet && exists|ss: Seq<(char, usize)>|
                sorted_entries(ss) && #[trigger] ss.to_multiset() == code_lens(
                    code_map@,
                ).to_multiset() && !canon_fits(ss),
        },
{
    let ghost cm = code_map@;
    let mut lens: Vec<(char, usize)> = Vec::new();
    let mut k: usize = 0;
    while k < code_map.len()
        invariant
            k <= cm.len(),
            cm == code_map@,
            lens@ =~= code_lens(cm).take(k as int),
        decreases cm.len() - k,
    {
        let c = map_key(&code_map, k);
        let l = code_map[k].1.len();
        lens.push((c, l));
        proof {
            assert(lens@ =~= code_lens(cm).take(k as int + 1));
        }
        k = k + 1;
    }
    proof {
        assert(code_lens(cm).take(cm.len() as int) =~= code_lens(cm));
    }
    let ss = sort_entries(lens);
    match assign_canonical(&ss) {
        Ok(t) => {
            proof {
                let ta = crate::tree::code_map_abs(t@);
                assert(matches_canonical(ta, ss@)) by {
                    assert(forall|m: int|
                        0 <= m < t@.len() ==> (#[trigger] ta[m]).0 == t@[m].0 && ta[m].1
                            == t@[m].1@);
                }
                assert(sorted_entries(ss@) && ss@.to_multiset() == code_lens(cm).to_multiset()
                    && canon_fits(ss@) && matches_canonical(ta, ss@));
            }
            Ok(t)
        },
        Err(e) => {
            proof {
                assert(sorted_entries(ss@) && ss@.to_multiset() == code_lens(cm).to_multiset()
                    && !canon_fits(ss@));
            }
            Err(e)
        },
    }
}

/// When the running code is already all ones at the previous length, the
/// next canonical value reaches `pow2(length)` exactly, so no assignment fits.
proof fn lemma_bits_value_all_true_old(s: Seq<(char, usize)>, i: int, cv_prev: nat, prev_len: nat)
    requires
        sorted_entries(s),
        0 < i < s.len(),
        prev_len == s[i - 1].1,
        cv_prev == canon_val(s, i - 1),
        cv_prev == pow2(prev_len) - 1,
    ensures
        !canon_fits(s),
{
    let this_len = s[i].1 as nat;
    assert(entry_le(s[i - 1], s[i]));
    assert(prev_len <= this_len);
    lemma_pow2_pos(prev_len);
    assert(canon_val(s, i) == (cv_prev + 1) * pow2((this_len - prev_len) as nat));
    assert(canon_val(s, i) == pow2(prev_len) * pow2((this_len - prev_len) as nat));
    lemma_pow2_adds(prev_len, (this_len - prev_len) as nat);
    assert(canon_val(s, i) == pow2(this_len));
    assert(!(canon_val(s, i) < pow2(s[i].1 as nat)));
}

} // verus!
