//! Text-shaped helpers around the code tables: decimal rendering, the
//! human-readable header of a symbol-to-code map, code tables with codes as
//! strings of digit characters, and archive-name extraction.

use vstd::prelude::*;
use vstd::string::StrSliceExecFns;
use vstd::utf8::is_scalar;
use crate::bits::bits_value;
use crate::canonical::{sorted_entries, canon_fits, canon_val, code_lens, matches_canonical,
    build_canonical_code_bitvec};
use crate::EncodeError;

verus! {

/// The digit character of a value below ten.
pub open spec fn digit_char(d: nat) -> char
    recommends
        d < 10,
{
    ((d + 48) as u32) as char
}

/// The decimal digits of `n`, most significant first.
pub open spec fn dec_chars(n: nat) -> Seq<char>
    decreases n,
{
    if n < 10 {
        seq![digit_char(n)]
    } else {
        dec_chars(n / 10).push(digit_char(n % 10))
    }
}

/// The digit character of a value below ten.
fn digit_exec(d: usize) -> (c: char)
    requires
        d < 10,
    ensures
        c == digit_char(d as nat),
{
    let v = (d + 48) as u32;
    proof {
        assert(is_scalar(v));
    }
    match char::from_u32(v) {
        Some(c) => {
            proof {
                vstd::utf8::char_u32_cast(c, v);
            }
            c
        },
        None => {
            proof {
                assert(false);
            }
            ' '
        },
    }
}

/// The decimal rendering of `n`, most significant digit first.
pub fn usize_to_dec(n: usize) -> (r: Vec<char>)
    ensures
        r@ == dec_chars(n as nat),
    decreases n,
{
    if n < 10 {
        let mut r: Vec<char> = Vec::new();
        r.push(digit_exec(n));
        proof {
            assert(r@ =~= dec_chars(n as nat));
        }
        r
    } else {
        let mut r = usize_to_dec(n / 10);
        r.push(digit_exec(n % 10));
        r
    }
}

/// The text lines of a symbol-to-code map: one `symbol:code` line per entry.
pub open spec fn header_entries_text(m: Seq<(char, Seq<char>)>) -> Seq<char>
    decreases m.len(),
{
    if m.len() == 0 {
        Seq::empty()
    } else {
        seq![m[0].0, ':'] + m[0].1 + seq!['\n'] + header_entries_text(m.drop_first())
    }
}

/// The whole text header: the map size, the input length, then the map.
pub open spec fn header_text(m: Seq<(char, Seq<char>)>, count: nat, len: nat) -> Seq<char> {
    dec_chars(count) + seq!['\n'] + dec_chars(len) + seq!['\n'] + header_entries_text(m)
}

/// The mathematical content of a symbol-to-code-string map.
pub open spec fn text_map_abs(m: Seq<(char, String)>) -> Seq<(char, Seq<char>)> {
    m.map_values(|p: (char, String)| (p.0, p.1@))
}

/// Entry lines distribute over concatenation.
proof fn lemma_header_entries_concat(a: Seq<(char, Seq<char>)>, b: Seq<(char, Seq<char>)>)
    ensures
        header_entries_text(a + b) == header_entries_text(a) + header_entries_text(b),
    decreases a.len(),
{
    if a.len() == 0 {
        assert(a + b =~= b);
        assert(header_entries_text(a) + header_entries_text(b) =~= header_entries_text(b));
    } else {
        assert((a + b).drop_first() =~= a.drop_first() + b);
        assert((a + b)[0] == a[0]);
        lemma_header_entries_concat(a.drop_first(), b);
        assert(seq![a[0].0, ':'] + a[0].1 + seq!['\n'] + (header_entries_text(a.drop_first())
            + header_entries_text(b)) =~= (seq![a[0].0, ':'] + a[0].1 + seq!['\n']
            + header_entries_text(a.drop_first())) + header_entries_text(b));
    }
}

/// Appends every character of a vector to a string.
fn push_all(s: &mut String, v: &Vec<char>)
    ensures
        final(s)@ == old(s)@ + v@,
{
    let ghost s0 = s@;
    let mut i: usize = 0;
    while i < v.len()
        invariant
            i <= v@.len(),
            s@ =~= s0 + v@.take(i as int),
        decreases v@.len() - i,
    {
        s.push(v[i]);
        i = i + 1;
    }
    proof {
        assert(v@.take(v@.len() as int) =~= v@);
    }
}

/// Builds the text header of an encoded file: the map size and the input
/// length on one line each, then one `symbol:code` line per map entry.
pub fn add_header_to_encoded_file(map: &Vec<(char, String)>, input_length: usize) -> (r: String)
    ensures
        r@ == header_text(text_map_abs(map@), map@.len(), input_length as nat),
{
    let ghost ma = text_map_abs(map@);
    let mut header = String::new();
    let count_digits = usize_to_dec(map.len());
    push_all(&mut header, &count_digits);
    header.push('\n');
    let len_digits = usize_to_dec(input_length);
    push_all(&mut header, &len_digits);
    header.push('\n');
    let ghost pre = header@;
    proof {
        assert(pre =~= dec_chars(map@.len()) + seq!['\n'] + dec_chars(input_length as nat) + seq![
            '\n',
        ]);
        assert(header_entries_text(ma.take(0)) =~= Seq::<char>::empty());
        assert(header@ =~= pre + header_entries_text(ma.take(0)));
    }
    let mut k: usize = 0;
    while k < map.len()
        invariant
            k <= map@.len(),
            ma == text_map_abs(map@),
            header@ == pre + header_entries_text(ma.take(k as int)),
        decreases map@.len() - k,
    {
        let ghost h0 = header@;
        let c = map[k].0;
        header.push(c);
        header.push(':');
        header.push_str(map[k].1.as_str());
        header.push('\n');
        proof {
            assert(header@ =~= h0 + (seq![ma[k as int].0, ':'] + ma[k as int].1 + seq!['\n']));
            lemma_header_entries_concat(ma.take(k as int), seq![ma[k as int]]);
            assert(ma.take(k as int) + seq![ma[k as int]] =~= ma.take(k as int + 1));
            assert(header_entries_text(seq![ma[k as int]]) =~= seq![ma[k as int].0, ':'] + ma[
                k as int
            ].1 + seq!['\n']) by {
                assert(seq![ma[k as int]].drop_first() =~= Seq::<(char, Seq<char>)>::empty());
                assert(header_entries_text(Seq::<(char, Seq<char>)>::empty()) =~= Seq::<
                    char,
                >::empty());
                assert(seq![ma[k as int]][0] == ma[k as int]);
            }
            assert(header@ =~= pre + header_entries_text(ma.take(k as int + 1)));
        }
        k = k + 1;
    }
    proof {
        assert(ma.take(ma.len() as int) =~= ma);
    }
    header
}

/// The position of the last occurrence of `c` in `s`, or minus one.
pub open spec fn last_pos(s: Seq<char>, c: char) -> int
    decreases s.len(),
{
    if s.len() == 0 {
        -1
    } else if s.last() == c {
        s.len() - 1
    } else {
        last_pos(s.drop_last(), c)
    }
}

/// The base name of a path without its extension: what stands after the
/// last slash, cut before the last dot, if any.
pub open spec fn extract_spec(s: Seq<char>) -> Seq<char> {
    let base = s.skip(last_pos(s, '\u{2f}') + 1);
    let q = last_pos(base, '.');
    if q < 0 {
        base
    } else {
        base.take(q)
    }
}

/// The position of the last occurrence of `c` among the first `n` symbols
/// of the string, or `None`.
fn find_last(s: &String, n: usize, c: char) -> (r: Option<usize>)
    requires
        n <= s@.len(),
    ensures
        match r {
            Some(j) => j < n && last_pos(s@.take(n as int), c) == j,
            None => last_pos(s@.take(n as int), c) == -1,
        },
{
    let mut best: Option<usize> = None;
    let mut i: usize = 0;
    while i < n
        invariant
            i <= n <= s@.len(),
            match best {
                Some(j) => j < i && last_pos(s@.take(i as int), c) == j,
                None => last_pos(s@.take(i as int), c) == -1,
            },
        decreases n - i,
    {
        proof {
            assert(s@.take(i as int + 1).drop_last() =~= s@.take(i as int));
            assert(s@.take(i as int + 1).last() == s@[i as int]);
        }
        if s.as_str().get_char(i) == c {
            best = Some(i);
        }
        i = i + 1;
    }
    best
}

/// Extracts the name of the file from the provided path, without the
/// leading directories and without the extension.
pub fn extract_file_from_path(file: &String) -> (r: String)
    ensures
        r@ == extract_spec(file@),
{
    let n = file.as_str().unicode_len();
    proof {
        assert(file@.take(n as int) =~= file@);
    }
    let start: usize = match find_last(file, n, '\u{2f}') {
        Some(j) => j + 1,
        None => 0,
    };
    let ghost base = file@.skip(last_pos(file@, '\u{2f}') + 1);
    let mut name = String::new();
    let mut i: usize = start;
    while i < n
        invariant
            start <= i <= n,
            n == file@.len(),
            start == last_pos(file@, '\u{2f}') + 1,
            base == file@.skip(start as int),
            name@ =~= file@.subrange(start as int, i as int),
        decreases n - i,
    {
        name.push(file.as_str().get_char(i));
        i = i + 1;
    }
    proof {
        assert(name@ =~= base);
    }
    let blen = name.as_str().unicode_len();
    proof {
        assert(name@.take(blen as int) =~= name@);
    }
    match find_last(&name, blen, '.') {
        None => name,
        Some(q) => {
            let mut cut = String::new();
            let mut j: usize = 0;
            while j < q
                invariant
                    j <= q < name@.len(),
                    cut@ =~= name@.take(j as int),
                decreases q - j,
            {
                cut.push(name.as_str().get_char(j));
                j = j + 1;
            }
            cut
        },
    }
}

/// A code's bits written as digit characters, most significant bit first.
pub open spec fn bit_chars(s: Seq<bool>) -> Seq<char> {
    Seq::new(
        s.len(),
        |i: int|
            if s[i] {
                '1'
            } else {
                '0'
            },
    )
}

/// Assigns canonical codes and renders each as a string of digit
/// characters: the code map is reduced to (symbol, length) pairs, sorted by
/// (length, symbol), and renumbered canonically.
pub fn build_canonical_code(code_map: Vec<(char, Vec<bool>)>) -> (r: Result<
    Vec<(char, String)>,
    EncodeError,
>)
    ensures
        match r {
            Ok(t) => exists|ss: Seq<(char, usize)>|
                {
                    &&& sorted_entries(ss)
                    &&& #[trigger] ss.to_multiset() == code_lens(code_map@).to_multiset()
                    &&& canon_fits(ss)
                    &&& t@.len() == ss.len()
                    &&& forall|k: int|
                        0 <= k < t@.len() ==> (#[trigger] t@[k]).0 == ss[k].0 && exists|
                            b: Seq<bool>,
                        |
                            b.len() == ss[k].1 && bits_value(b) == canon_val(ss, k) && t@[k].1@
                                == #[trigger] bit_chars(b)
                },
            Err(e) => e == EncodeError::UnsupportedAlphabet && exists|ss: Seq<(char, usize)>|
                sorted_entries(ss) && #[trigger] ss.to_multiset() == code_lens(
                    code_map@,
                ).to_multiset() && !canon_fits(ss),
        },
{
    let ghost cm = code_map@;
    let table = match build_canonical_code_bitvec(code_map) {
        Ok(t) => t,
        Err(e) => {
            return Err(e);
        },
    };
    let ghost ss = choose|ss: Seq<(char, usize)>|
        {
            &&& sorted_entries(ss)
            &&& #[trigger] ss.to_multiset() == code_lens(cm).to_multiset()
            &&& canon_fits(ss)
            &&& matches_canonical(crate::tree::code_map_abs(table@), ss)
        };
    proof {
        let ta = crate::tree::code_map_abs(table@);
        assert forall|m: int| 0 <= m < table@.len() implies (#[trigger] table@[m]).0 == ss[m].0
            && table@[m].1@.len() == ss[m].1 && bits_value(table@[m].1@) == canon_val(ss, m) by {
            assert(ta[m] == (table@[m].0, table@[m].1@));
        }
    }
    let mut out: Vec<(char, String)> = Vec::new();
    let mut i: usize = 0;
    while i < table.len()
        invariant
            i <= table@.len(),
            table@.len() == ss.len(),
            sorted_entries(ss),
            canon_fits(ss),
            ss.to_multiset() == code_lens(cm).to_multiset(),
            forall|m: int|
                0 <= m < table@.len() ==> (#[trigger] table@[m]).0 == ss[m].0
                    && table@[m].1@.len() == ss[m].1 && bits_value(table@[m].1@) == canon_val(
                    ss,
                    m,
                ),
            out@.len() == i,
            forall|m: int|
                0 <= m < i ==> (#[trigger] out@[m]).0 == ss[m].0 && out@[m].1@ == bit_chars(
                    table@[m].1@,
                ),
        decreases table@.len() - i,
    {
        let c = table[i].0;
        let mut digits = String::new();
        let code = &table[i].1;
        let mut j: usize = 0;
        while j < code.len()
            invariant
                j <= code@.len(),
                code@ == table@[i as int].1@,
                i < table@.len(),
                digits@ =~= bit_chars(code@).take(j as int),
            decreases code@.len() - j,
        {
            if code[j] {
                digits.push('1');
            } else {
                digits.push('0');
            }
            proof {
                assert(digits@ =~= bit_chars(code@).take(j as int + 1));
            }
            j = j + 1;
        }
        proof {
            assert(bit_chars(code@).take(code@.len() as int) =~= bit_chars(code@));
        }
        out.push((c, digits));
        i = i + 1;
    }
    proof {
        assert forall|m: int| 0 <= m < out@.len() implies (#[trigger] out@[m]).0 == ss[m].0
            && exists|b: Seq<bool>|
            b.len() == ss[m].1 && bits_value(b) == canon_val(ss, m) && out@[m].1@
                == #[trigger] bit_chars(b) by {
            assert(table@[m].1@.len() == ss[m].1 && bits_value(table@[m].1@) == canon_val(ss, m)
                && out@[m].1@ == bit_chars(table@[m].1@));
        }
        assert(sorted_entries(ss) && ss.to_multiset() == code_lens(cm).to_multiset()
            && canon_fits(ss) && out@.len() == ss.len());
        assert(exists|ssx: Seq<(char, usize)>|
            {
                &&& sorted_entries(ssx)
                &&& #[trigger] ssx.to_multiset() == code_lens(cm).to_multiset()
                &&& canon_fits(ssx)
                &&& out@.len() == ssx.len()
                &&& forall|k: int|
                    0 <= k < out@.len() ==> (#[trigger] out@[k]).0 == ssx[k].0 && exists|
                        b: Seq<bool>,
                    |
                        b.len() == ssx[k].1 && bits_value(b) == canon_val(ssx, k) && out@[k].1@
                            == #[trigger] bit_chars(b)
            }) by {
            assert({
                &&& sorted_entries(ss)
                &&& ss.to_multiset() == code_lens(cm).to_multiset()
                &&& canon_fits(ss)
                &&& out@.len() == ss.len()
                &&& forall|k: int|
                    0 <= k < out@.len() ==> (#[trigger] out@[k]).0 == ss[k].0 && exists|
                        b: Seq<bool>,
                    |
                        b.len() == ss[k].1 && bits_value(b) == canon_val(ss, k) && out@[k].1@
                            == #[trigger] bit_chars(b)
            });
        }
    }
    Ok(out)
}

} // verus!
