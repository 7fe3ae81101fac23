//! The archive codec: the bit-exact binary header and payload format, the
//! encoder that writes it and the decoder state machine that reads it back.

use vstd::prelude::*;
use vstd::utf8::{encode_scalar, valid_first_scalar, decode_first_scalar, length_of_first_scalar};
use crate::bits::{BitBuf, bit_buf_bits, byte_bit, unpack_msb0};
use crate::frequency::{count_occurs, count_distinct};
use crate::DecodeError;
use vstd::string::StrSliceExecFns;

verus! {

/// The sentinel closing a file name in the payload.
pub const SENTINEL_NAME: char = '\u{0}';

/// The sentinel closing a whole (name, content) record in the payload.
pub const SENTINEL_RECORD: char = '\u{1}';

/// One file to be archived, or recovered from an archive: its base name and
/// its text content.
#[derive(Debug)]
pub struct FileRecord {
    pub name: String,
    pub content: String,
}

/// The mathematical content of a file record.
pub open spec fn record_abs(r: FileRecord) -> (Seq<char>, Seq<char>) {
    (r.name@, r.content@)
}

/// The mathematical content of a list of file records.
pub open spec fn records_abs(rs: Seq<FileRecord>) -> Seq<(Seq<char>, Seq<char>)> {
    rs.map_values(|r: FileRecord| record_abs(r))
}

/// The byte whose MSB-first bits are the eight given bits.
pub open spec fn byte_of8(s: Seq<bool>) -> u8
    recommends
        s.len() == 8,
{
    (((if s[0] {
        128int
    } else {
        0int
    }) + (if s[1] {
        64int
    } else {
        0int
    }) + (if s[2] {
        32int
    } else {
        0int
    }) + (if s[3] {
        16int
    } else {
        0int
    }) + (if s[4] {
        8int
    } else {
        0int
    }) + (if s[5] {
        4int
    } else {
        0int
    }) + (if s[6] {
        2int
    } else {
        0int
    }) + (if s[7] {
        1int
    } else {
        0int
    })) as u8)
}

/// The bytes that carry a whole number of bits, MSB-first.
pub open spec fn pack_msb0(s: Seq<bool>) -> Seq<u8>
    recommends
        s.len() % 8 == 0,
{
    Seq::new(s.len() / 8, |k: int| byte_of8(s.subrange(8 * k, 8 * k + 8)))
}

/// Each bit of a byte assembled from eight bits reads back as given.
proof fn lemma_byte_of8_bits(b0: bool, b1: bool, b2: bool, b3: bool, b4: bool, b5: bool, b6: bool, b7: bool, x: u8)
    by (bit_vector)
    requires
        x == (((if b0 {
            128int
        } else {
            0int
        }) + (if b1 {
            64int
        } else {
            0int
        }) + (if b2 {
            32int
        } else {
            0int
        }) + (if b3 {
            16int
        } else {
            0int
        }) + (if b4 {
            8int
        } else {
            0int
        }) + (if b5 {
            4int
        } else {
            0int
        }) + (if b6 {
            2int
        } else {
            0int
        }) + (if b7 {
            1int
        } else {
            0int
        })) as u8),
    ensures
        ((x >> 7u8) & 1u8 == 1u8) == b0,
        ((x >> 6u8) & 1u8 == 1u8) == b1,
        ((x >> 5u8) & 1u8 == 1u8) == b2,
        ((x >> 4u8) & 1u8 == 1u8) == b3,
        ((x >> 3u8) & 1u8 == 1u8) == b4,
        ((x >> 2u8) & 1u8 == 1u8) == b5,
        ((x >> 1u8) & 1u8 == 1u8) == b6,
        ((x >> 0u8) & 1u8 == 1u8) == b7,
{
}

/// Unpacking inverts packing: the bytes of a whole number of bits carry
/// exactly those bits.
pub proof fn lemma_unpack_pack(s: Seq<bool>)
    requires
        s.len() % 8 == 0,
    ensures
        unpack_msb0(pack_msb0(s)) == s,
{
    let p = pack_msb0(s);
    assert(p.len() * 8 == s.len());
    assert forall|i: int| 0 <= i < s.len() implies unpack_msb0(p)[i] == s[i] by {
        let k = i / 8;
        let j = i % 8;
        let w = s.subrange(8 * k, 8 * k + 8);
        lemma_byte_of8_bits(w[0], w[1], w[2], w[3], w[4], w[5], w[6], w[7], byte_of8(w));
        assert(p[k] == byte_of8(w));
        assert(w[j] == s[i]);
        assert(byte_bit(p[k], j) == w[j]);
    }
    assert(unpack_msb0(p) =~= s);
}

/// When two byte sequences carry the same bits, they are the same bytes.
pub proof fn lemma_unpack_injective(a: Seq<u8>, b: Seq<u8>)
    requires
        a.len() == b.len(),
        unpack_msb0(a) == unpack_msb0(b),
    ensures
        a == b,
{
    assert forall|k: int| 0 <= k < a.len() implies a[k] == b[k] by {
        assert forall|j: int| 0 <= j < 8 implies byte_bit(a[k], j) == byte_bit(b[k], j) by {
            assert(unpack_msb0(a)[8 * k + j] == byte_bit(a[k], j));
            assert(unpack_msb0(b)[8 * k + j] == byte_bit(b[k], j));
        }
        lemma_byte_bits_pin(a[k], b[k]);
    }
    assert(a =~= b);
}

/// A byte is pinned down by its eight bits.
proof fn lemma_byte_bits_pin(x: u8, y: u8)
    requires
        forall|j: int| 0 <= j < 8 ==> byte_bit(x, j) == byte_bit(y, j),
    ensures
        x == y,
{
    assert(byte_bit(x, 0) == byte_bit(y, 0));
    assert(byte_bit(x, 1) == byte_bit(y, 1));
    assert(byte_bit(x, 2) == byte_bit(y, 2));
    assert(byte_bit(x, 3) == byte_bit(y, 3));
    assert(byte_bit(x, 4) == byte_bit(y, 4));
    assert(byte_bit(x, 5) == byte_bit(y, 5));
    assert(byte_bit(x, 6) == byte_bit(y, 6));
    assert(byte_bit(x, 7) == byte_bit(y, 7));
    assert(x == y) by (bit_vector)
        requires
            ((x >> 7u8) & 1u8 == 1u8) == ((y >> 7u8) & 1u8 == 1u8),
            ((x >> 6u8) & 1u8 == 1u8) == ((y >> 6u8) & 1u8 == 1u8),
            ((x >> 5u8) & 1u8 == 1u8) == ((y >> 5u8) & 1u8 == 1u8),
            ((x >> 4u8) & 1u8 == 1u8) == ((y >> 4u8) & 1u8 == 1u8),
            ((x >> 3u8) & 1u8 == 1u8) == ((y >> 3u8) & 1u8 == 1u8),
            ((x >> 2u8) & 1u8 == 1u8) == ((y >> 2u8) & 1u8 == 1u8),
            ((x >> 1u8) & 1u8 == 1u8) == ((y >> 1u8) & 1u8 == 1u8),
            ((x >> 0u8) & 1u8 == 1u8) == ((y >> 0u8) & 1u8 == 1u8),
    ;
}

/// How many zero bits pad a bit count up to a whole byte.
pub open spec fn pad_len(n: nat) -> nat {
    ((8 - n % 8) % 8) as nat
}

/// A bit sequence zero-padded up to a whole number of bytes.
pub open spec fn padded_bits(s: Seq<bool>) -> Seq<bool> {
    s + Seq::new(pad_len(s.len()), |i: int| false)
}

/// The serialized form of one header entry: the symbol's UTF-8 bytes, one
/// length byte, then the code bits packed MSB-first and zero-padded.
pub open spec fn entry_bytes(e: (char, Seq<bool>)) -> Seq<u8> {
    encode_scalar(e.0 as u32) + seq![e.1.len() as u8] + pack_msb0(padded_bits(e.1))
}

/// The serialized forms of a list of header entries, in order.
pub open spec fn entries_bytes(t: Seq<(char, Seq<bool>)>) -> Seq<u8>
    decreases t.len(),
{
    if t.len() == 0 {
        Seq::empty()
    } else {
        entry_bytes(t[0]) + entries_bytes(t.drop_first())
    }
}

/// The whole header: the entry count in one byte, then every entry.
pub open spec fn header_bytes(t: Seq<(char, Seq<bool>)>) -> Seq<u8> {
    seq![t.len() as u8] + entries_bytes(t)
}

/// Entry serialization distributes over concatenation.
pub proof fn lemma_entries_bytes_concat(a: Seq<(char, Seq<bool>)>, b: Seq<(char, Seq<bool>)>)
    ensures
        entries_bytes(a + b) == entries_bytes(a) + entries_bytes(b),
    decreases a.len(),
{
    if a.len() == 0 {
        assert(a + b =~= b);
        assert(entries_bytes(a) + entries_bytes(b) =~= entries_bytes(b));
    } else {
        assert((a + b).drop_first() =~= a.drop_first() + b);
        assert((a + b)[0] == a[0]);
        lemma_entries_bytes_concat(a.drop_first(), b);
        assert(entry_bytes(a[0]) + (entries_bytes(a.drop_first()) + entries_bytes(b)) =~= (
        entry_bytes(a[0]) + entries_bytes(a.drop_first())) + entries_bytes(b));
    }
}

/// Appends the packed, zero-padded code bytes of one entry's bits.
fn write_code_bytes(bits: &Vec<bool>, out: &mut Vec<u8>)
    requires
        bits@.len() <= 255,
        old(out)@.len() + 40 <= usize::MAX,
    ensures
        final(out)@ == old(out)@ + pack_msb0(padded_bits(bits@)),
        final(out)@.len() <= old(out)@.len() + 32,
{
    let mut buf = BitBuf::new();
    let mut i: usize = 0;
    while i < bits.len()
        invariant
            i <= bits@.len() <= 255,
            bit_buf_bits(buf) =~= bits@.take(i as int),
        decreases bits@.len() - i,
    {
        buf.push(bits[i]);
        i = i + 1;
    }
    proof {
        assert(bits@.take(bits@.len() as int) =~= bits@);
    }
    while buf.len() % 8 != 0
        invariant
            bits@.len() <= 255,
            bits@.len() <= bit_buf_bits(buf).len() <= bits@.len() + pad_len(bits@.len()),
            bit_buf_bits(buf).take(bits@.len() as int) == bits@,
            forall|j: int| bits@.len() <= j < bit_buf_bits(buf).len() ==> !bit_buf_bits(buf)[j],
        decreases pad_len(bit_buf_bits(buf).len()),
    {
        let ghost b0 = bit_buf_bits(buf);
        proof {
            assert((bits@.len() + pad_len(bits@.len())) % 8 == 0);
            assert(b0.len() < bits@.len() + pad_len(bits@.len()));
        }
        buf.push(false);
        proof {
            assert(bit_buf_bits(buf).take(bits@.len() as int) =~= b0.take(bits@.len() as int));
        }
    }
    proof {
        assert(bit_buf_bits(buf) =~= padded_bits(bits@));
        lemma_unpack_pack(padded_bits(bits@));
    }
    let bytes = buf.into_bytes();
    proof {
        lemma_unpack_injective(bytes@, pack_msb0(padded_bits(bits@)));
    }
    let ghost out0 = out@;
    let mut k: usize = 0;
    while k < bytes.len()
        invariant
            k <= bytes@.len(),
            out@ =~= out0 + bytes@.take(k as int),
        decreases bytes@.len() - k,
    {
        out.push(bytes[k]);
        k = k + 1;
    }
    proof {
        assert(bytes@.take(bytes@.len() as int) =~= bytes@);
        assert(pack_msb0(padded_bits(bits@)).len() * 8 == padded_bits(bits@).len());
    }
}

/// Writes the archive header: one byte holding the entry count, then for
/// each entry the symbol's UTF-8 bytes, one bit-length byte, and the
/// packed canonical code.
pub fn write_header(table: &Vec<(char, Vec<bool>)>, out: &mut Vec<u8>)
    requires
        1 <= table@.len() <= 255,
        forall|k: int| 0 <= k < table@.len() ==> (#[trigger] table@[k]).1@.len() <= 255,
        old(out)@.len() + 16384 <= usize::MAX,
    ensures
        final(out)@ == old(out)@ + header_bytes(crate::tree::code_map_abs(table@)),
        final(out)@.len() <= old(out)@.len() + 1 + 37 * table@.len(),
{
    let ghost t = crate::tree::code_map_abs(table@);
    let ghost out0 = out@;
    out.push(table.len() as u8);
    let mut k: usize = 0;
    while k < table.len()
        invariant
            k <= table@.len() <= 255,
            t == crate::tree::code_map_abs(table@),
            forall|j: int| 0 <= j < table@.len() ==> (#[trigger] table@[j]).1@.len() <= 255,
            out@ =~= out0 + seq![table@.len() as u8] + entries_bytes(t.take(k as int)),
            out@.len() <= out0.len() + 1 + 37 * k,
            out0.len() + 16384 <= usize::MAX,
        decreases table@.len() - k,
    {
        let ghost outk = out@;
        let c = table_key(table, k);
        crate::utf8x::encode_char_utf8(c, out);
        let bl = table[k].1.len();
        out.push(bl as u8);
        write_code_bytes(&table[k].1, out);
        proof {
            vstd::utf8::char_is_scalar(c);
            assert(encode_scalar(c as u32).len() <= 4);
            assert(out@ =~= outk + entry_bytes(t[k as int]));
            lemma_entries_bytes_concat(t.take(k as int), seq![t[k as int]]);
            assert(t.take(k as int) + seq![t[k as int]] =~= t.take(k as int + 1));
            assert(entries_bytes(seq![t[k as int]]) =~= entry_bytes(t[k as int])) by {
                assert(seq![t[k as int]].drop_first() =~= Seq::<(char, Seq<bool>)>::empty());
                assert(entries_bytes(Seq::<(char, Seq<bool>)>::empty()) =~= Seq::<u8>::empty());
                assert(seq![t[k as int]][0] == t[k as int]);
            }
            assert(out@ =~= out0 + seq![table@.len() as u8] + entries_bytes(t.take(k as int + 1)));
        }
        k = k + 1;
    }
    proof {
        assert(t.take(t.len() as int) =~= t);
        assert(out@ =~= out0 + header_bytes(t));
    }
}

/// The symbol of one code-table entry.
fn table_key(v: &Vec<(char, Vec<bool>)>, i: usize) -> (r: char)
    requires
        i < v@.len(),
    ensures
        r == v@[i as int].0,
{
    v[i].0
}

/// What parsing `n` header entries starting at `pos` yields: the entries
/// and the position after them, or nothing when the bytes are truncated or
/// hold no well-formed UTF-8 symbol where one is due.
pub open spec fn parse_entries(bytes: Seq<u8>, n: nat, pos: int) -> Option<
    (Seq<(char, Seq<bool>)>, int),
>
    decreases n,
{
    if n == 0 {
        Some((Seq::empty(), pos))
    } else if !valid_first_scalar(bytes.skip(pos)) {
        None
    } else {
        let c = decode_first_scalar(bytes.skip(pos)) as char;
        let p1 = pos + length_of_first_scalar(bytes.skip(pos));
        if p1 + 1 > bytes.len() {
            None
        } else {
            let bl = bytes[p1] as int;
            let nb = (bl + 7) / 8;
            if p1 + 1 + nb > bytes.len() {
                None
            } else {
                let code = unpack_msb0(bytes.subrange(p1 + 1, p1 + 1 + nb)).take(bl);
                match parse_entries(bytes, (n - 1) as nat, p1 + 1 + nb) {
                    Some(r) => Some((seq![(c, code)] + r.0, r.1)),
                    None => None,
                }
            }
        }
    }
}

/// Reads `count` header entries starting at `start`: for each, the UTF-8
/// symbol, its bit length, and the packed code bits. Fails with
/// `InvalidHeader` exactly when the bytes are truncated mid-header or a
/// symbol's leading byte or encoding is malformed.
pub fn read_canonical_table(bytes: &Vec<u8>, count: usize, start: usize) -> (r: Result<
    (Vec<(char, Vec<bool>)>, usize),
    DecodeError,
>)
    requires
        start <= bytes@.len(),
    ensures
        match r {
            Ok(p) => {
                &&& parse_entries(bytes@, count as nat, start as int) == Some(
                    (crate::tree::code_map_abs(p.0@), p.1 as int),
                )
                &&& start <= p.1 <= bytes@.len()
            },
            Err(e) => e == DecodeError::InvalidHeader && parse_entries(
                bytes@,
                count as nat,
                start as int,
            ) is None,
        },
{
    let ghost whole = bytes@;
    let blen = bytes.len();
    let mut acc: Vec<(char, Vec<bool>)> = Vec::new();
    let mut pos: usize = start;
    let mut i: usize = 0;
    while i < count
        invariant
            whole == bytes@,
            blen == whole.len(),
            i <= count,
            start <= pos <= whole.len(),
            acc@.len() == i,
            parse_entries(whole, count as nat, start as int) == (match parse_entries(
                whole,
                (count - i) as nat,
                pos as int,
            ) {
                Some(r) => Some::<(Seq<(char, Seq<bool>)>, int)>(
                    (crate::tree::code_map_abs(acc@) + r.0, r.1),
                ),
                None => None::<(Seq<(char, Seq<bool>)>, int)>,
            }),
        decreases count - i,
    {
        let ghost accv = crate::tree::code_map_abs(acc@);
        let ghost pos0 = pos as int;
        match crate::utf8x::decode_char_utf8(bytes, pos) {
            None => {
                return Err(DecodeError::InvalidHeader);
            },
            Some((c, clen)) => {
                proof {
                    assert(pos + clen <= bytes@.len());
                }
                let p1 = pos + clen;
                if bytes.len() - p1 < 1 {
                    return Err(DecodeError::InvalidHeader);
                }
                let bl = bytes[p1] as usize;
                let nb = (bl + 7) / 8;
                if bytes.len() - (p1 + 1) < nb {
                    return Err(DecodeError::InvalidHeader);
                }
                let mut cb: Vec<u8> = Vec::new();
                let mut k: usize = 0;
                while k < nb
                    invariant
                        k <= nb,
                        p1 + 1 + nb <= bytes@.len(),
                        bytes@.len() <= usize::MAX,
                        cb@ =~= bytes@.subrange(p1 + 1, p1 + 1 + k),
                    decreases nb - k,
                {
                    cb.push(bytes[p1 + 1 + k]);
                    k = k + 1;
                }
                let cbits = BitBuf::from_bytes(&cb);
                let mut code: Vec<bool> = Vec::new();
                let mut b: usize = 0;
                while b < bl
                    invariant
                        b <= bl,
                        bl <= bit_buf_bits(cbits).len(),
                        code@ =~= bit_buf_bits(cbits).take(b as int),
                    decreases bl - b,
                {
                    code.push(cbits.bit_at(b));
                    b = b + 1;
                }
                let ghost entry_abs = (c, code@);
                acc.push((c, code));
                pos = p1 + 1 + nb;
                proof {
                    vstd::utf8::char_u32_cast(c, decode_first_scalar(whole.skip(pos0)));
                    assert(crate::tree::code_map_abs(acc@) =~= accv + seq![entry_abs]);
                    let inner = parse_entries(whole, (count - i - 1) as nat, pos as int);
                    assert(entry_abs.1 == unpack_msb0(whole.subrange(p1 + 1, p1 + 1 + nb as int)).take(bl as int));
                    assert(parse_entries(whole, (count - i) as nat, pos0) == (match inner {
                        Some(r) => Some::<(Seq<(char, Seq<bool>)>, int)>(
                            (seq![entry_abs] + r.0, r.1),
                        ),
                        None => None::<(Seq<(char, Seq<bool>)>, int)>,
                    }));
                    if inner is Some {
                        let r2 = inner->Some_0;
                        assert(accv + (seq![entry_abs] + r2.0) =~= (accv + seq![entry_abs])
                            + r2.0);
                    }
                }
                i = i + 1;
            },
        }
    }
    proof {
        assert(parse_entries(whole, 0, pos as int) == Some(
            (Seq::<(char, Seq<bool>)>::empty(), pos as int),
        ));
        assert(crate::tree::code_map_abs(acc@) + Seq::<(char, Seq<bool>)>::empty()
            =~= crate::tree::code_map_abs(acc@));
    }
    Ok((acc, pos))
}

/// A well-formed scalar at the front of a byte sequence stays well-formed,
/// and decodes the same, when more bytes follow.
proof fn lemma_first_scalar_append(s: Seq<u8>, u: Seq<u8>)
    requires
        valid_first_scalar(s),
        length_of_first_scalar(s) == s.len(),
    ensures
        valid_first_scalar(s + u),
        decode_first_scalar(s + u) == decode_first_scalar(s),
        length_of_first_scalar(s + u) == s.len(),
{
    let w = s + u;
    assert(w[0] == s[0]);
    if s.len() >= 2 {
        assert(w[1] == s[1]);
    }
    if s.len() >= 3 {
        assert(w[2] == s[2]);
    }
    if s.len() >= 4 {
        assert(w[3] == s[3]);
    }
}

/// The bit count plus its padding is the padded byte count times eight.
proof fn lemma_pad_arith(n: nat)
    ensures
        n + pad_len(n) == 8 * ((n + 7) / 8),
        (n + pad_len(n)) % 8 == 0,
{
    let r = n % 8;
    vstd::arithmetic::div_mod::lemma_fundamental_div_mod(n as int, 8);
    assert(n == 8 * (n / 8) + r);
    if r == 0 {
        assert((n + 7) / 8 == n / 8) by (nonlinear_arith)
            requires
                n == 8 * (n / 8),
        ;
    } else {
        assert((n + 7) / 8 == n / 8 + 1) by (nonlinear_arith)
            requires
                n == 8 * (n / 8) + r && 0 < r < 8,
        ;
    }
}

/// Parsing the serialized form of the entries from position `i` on yields
/// exactly those entries and stops right after them.
pub proof fn lemma_parse_of_written(
    bytes: Seq<u8>,
    t: Seq<(char, Seq<bool>)>,
    i: int,
    prefix: Seq<u8>,
    suffix: Seq<u8>,
)
    requires
        0 <= i <= t.len(),
        bytes == prefix + entries_bytes(t.skip(i)) + suffix,
        forall|k: int| 0 <= k < t.len() ==> (#[trigger] t[k]).1.len() <= 255,
    ensures
        parse_entries(bytes, (t.len() - i) as nat, prefix.len() as int) == Some(
            (t.skip(i), prefix.len() + entries_bytes(t.skip(i)).len() as int),
        ),
    decreases t.len() - i,
{
    let pos = prefix.len() as int;
    if i == t.len() {
        assert(t.skip(i) =~= Seq::<(char, Seq<bool>)>::empty());
        assert(entries_bytes(t.skip(i)).len() == 0);
    } else {
        let e = t[i];
        let enc = encode_scalar(e.0 as u32);
        let bl = e.1.len() as nat;
        let cbytes = pack_msb0(padded_bits(e.1));
        let eb = entry_bytes(e);
        assert(t.skip(i)[0] == e);
        assert(t.skip(i).drop_first() =~= t.skip(i + 1));
        assert(entries_bytes(t.skip(i)) == eb + entries_bytes(t.skip(i + 1)));
        lemma_pad_arith(bl);
        assert(padded_bits(e.1).len() == bl + pad_len(bl));
        assert(cbytes.len() == (bl + 7) / 8);

        vstd::utf8::char_is_scalar(e.0);
        vstd::utf8::encode_utf8_first_scalar(seq![e.0]);
        assert(vstd::utf8::encode_utf8(seq![e.0]) =~= enc) by {
            assert(seq![e.0].drop_first() =~= Seq::<char>::empty());
            assert(vstd::utf8::encode_utf8(Seq::<char>::empty()) =~= Seq::<u8>::empty());
            assert(seq![e.0][0] == e.0);
        }
        let tail = seq![bl as u8] + cbytes + entries_bytes(t.skip(i + 1)) + suffix;
        assert(bytes.skip(pos) =~= enc + tail);
        lemma_first_scalar_append(enc, tail);
        vstd::utf8::char_u32_cast(e.0, decode_first_scalar(bytes.skip(pos)));

        let p1 = pos + enc.len();
        assert(bytes[p1] == bl as u8) by {
            assert((enc + tail)[enc.len() as int] == tail[0]);
        }
        let nb = ((bl as u8) as int + 7) / 8;
        assert((bl as u8) as int == bl);
        assert(nb == cbytes.len());
        assert(p1 + 1 + nb <= bytes.len());
        assert(bytes.subrange(p1 + 1, p1 + 1 + nb) =~= cbytes);
        lemma_unpack_pack(padded_bits(e.1));
        assert(unpack_msb0(cbytes).take(bl as int) =~= e.1);

        let pos2 = p1 + 1 + nb;
        let prefix2 = prefix + eb;
        assert(prefix2.len() == pos2);
        assert(bytes =~= prefix2 + entries_bytes(t.skip(i + 1)) + suffix);
        lemma_parse_of_written(bytes, t, i + 1, prefix2, suffix);
        assert(seq![(e.0, e.1)] + t.skip(i + 1) =~= t.skip(i));
        assert((e.0, e.1) == e);
        assert(pos2 + entries_bytes(t.skip(i + 1)).len() == pos + entries_bytes(t.skip(i)).len());
    }
}

/// The first table entry whose code equals `w`, if any.
pub open spec fn table_lookup(t: Seq<(char, Seq<bool>)>, w: Seq<bool>) -> Option<char>
    decreases t.len(),
{
    if t.len() == 0 {
        None
    } else if t[0].1 == w {
        Some(t[0].0)
    } else {
        table_lookup(t.drop_first(), w)
    }
}

/// The first table entry for the symbol `c`, if any: its code.
pub open spec fn table_code(t: Seq<(char, Seq<bool>)>, c: char) -> Option<Seq<bool>>
    decreases t.len(),
{
    if t.len() == 0 {
        None
    } else if t[0].0 == c {
        Some(t[0].1)
    } else {
        table_code(t.drop_first(), c)
    }
}

/// The greedy payload walk: the bits between `start` and `i` form the
/// growing match buffer; after each new bit the buffer is matched against
/// the table, and a hit emits the symbol and empties the buffer. Bits left
/// in the buffer when the stream ends are discarded.
pub open spec fn scan_from(
    t: Seq<(char, Seq<bool>)>,
    stream: Seq<bool>,
    start: int,
    i: int,
) -> Seq<char>
    decreases stream.len() - i,
{
    if start < 0 || i < start || i >= stream.len() {
        Seq::empty()
    } else {
        match table_lookup(t, stream.subrange(start, i + 1)) {
            Some(c) => seq![c] + scan_from(t, stream, i + 1, i + 1),
            None => scan_from(t, stream, start, i + 1),
        }
    }
}

/// The symbols the greedy walk reads out of a whole bit stream.
pub open spec fn scan(t: Seq<(char, Seq<bool>)>, stream: Seq<bool>) -> Seq<char> {
    scan_from(t, stream, 0, 0)
}

/// Whether the window `[start, end)` of the stream equals the given code.
fn window_eq(bits: &BitBuf, start: usize, end: usize, code: &Vec<bool>) -> (r: bool)
    requires
        start <= end <= bit_buf_bits(*bits).len(),
    ensures
        r == (code@ == bit_buf_bits(*bits).subrange(start as int, end as int)),
{
    let ghost w = bit_buf_bits(*bits).subrange(start as int, end as int);
    if code.len() != end - start {
        return false;
    }
    let mut j: usize = 0;
    while j < code.len()
        invariant
            j <= code@.len(),
            code@.len() == end - start,
            start <= end <= bit_buf_bits(*bits).len(),
            w == bit_buf_bits(*bits).subrange(start as int, end as int),
            forall|m: int| 0 <= m < j ==> code@[m] == w[m],
        decreases code@.len() - j,
    {
        if code[j] != bits.bit_at(start + j) {
            return false;
        }
        j = j + 1;
    }
    proof {
        assert(code@ =~= w);
    }
    true
}

/// The first table entry whose code matches the current buffer, if any.
fn lookup_window(table: &Vec<(char, Vec<bool>)>, bits: &BitBuf, start: usize, end: usize) -> (r:
    Option<char>)
    requires
        start <= end <= bit_buf_bits(*bits).len(),
    ensures
        r == table_lookup(
            crate::tree::code_map_abs(table@),
            bit_buf_bits(*bits).subrange(start as int, end as int),
        ),
{
    let ghost t = crate::tree::code_map_abs(table@);
    let ghost w = bit_buf_bits(*bits).subrange(start as int, end as int);
    proof {
        assert(t.skip(0) =~= t);
    }
    let mut k: usize = 0;
    while k < table.len()
        invariant
            k <= table@.len(),
            t == crate::tree::code_map_abs(table@),
            w == bit_buf_bits(*bits).subrange(start as int, end as int),
            start <= end <= bit_buf_bits(*bits).len(),
            table_lookup(t, w) == table_lookup(t.skip(k as int), w),
        decreases table@.len() - k,
    {
        proof {
            assert(t.skip(k as int)[0] == t[k as int]);
            assert(t.skip(k as int).drop_first() =~= t.skip(k as int + 1));
        }
        if window_eq(bits, start, end, &table[k].1) {
            return Some(table_key(table, k));
        }
        k = k + 1;
    }
    proof {
        assert(t.skip(t.len() as int) =~= Seq::<(char, Seq<bool>)>::empty());
    }
    None
}

/// Walks the payload bits MSB-first, growing a match buffer bit by bit and
/// emitting a symbol whenever the buffer matches a code of the table.
pub fn scan_payload(table: &Vec<(char, Vec<bool>)>, bits: &BitBuf) -> (r: Vec<char>)
    ensures
        r@ == scan(crate::tree::code_map_abs(table@), bit_buf_bits(*bits)),
{
    let ghost t = crate::tree::code_map_abs(table@);
    let ghost stream = bit_buf_bits(*bits);
    let n = bits.len();
    let mut out: Vec<char> = Vec::new();
    let mut start: usize = 0;
    let mut i: usize = 0;
    while i < n
        invariant
            t == crate::tree::code_map_abs(table@),
            stream == bit_buf_bits(*bits),
            start <= i <= n,
            n == stream.len(),
            scan(t, stream) == out@ + scan_from(t, stream, start as int, i as int),
        decreases n - i,
    {
        let ghost out0 = out@;
        match lookup_window(table, bits, start, i + 1) {
            Some(c) => {
                out.push(c);
                start = i + 1;
                proof {
                    assert(out@ =~= out0 + seq![c]);
                    assert(out0 + (seq![c] + scan_from(t, stream, i + 1, i + 1)) =~= (out0 + seq![
                        c,
                    ]) + scan_from(t, stream, i + 1, i + 1));
                }
            },
            None => {
            },
        }
        i = i + 1;
    }
    proof {
        assert(scan_from(t, stream, start as int, n as int) =~= Seq::<char>::empty());
        assert(out@ + Seq::<char>::empty() =~= out@);
    }
    out
}

/// The payload symbol stream of a record list: each record's name, the
/// name sentinel, its content, and the record sentinel, in order.
pub open spec fn frame(rs: Seq<(Seq<char>, Seq<char>)>) -> Seq<char>
    decreases rs.len(),
{
    if rs.len() == 0 {
        Seq::empty()
    } else {
        rs[0].0 + seq![SENTINEL_NAME] + rs[0].1 + seq![SENTINEL_RECORD] + frame(rs.drop_first())
    }
}

/// The walk from a buffer boundary equals the walk of the stream from that
/// boundary on.
proof fn lemma_scan_from_skip(t: Seq<(char, Seq<bool>)>, stream: Seq<bool>, start: int, i: int)
    requires
        0 <= start <= i <= stream.len(),
    ensures
        scan_from(t, stream, start, i) == scan_from(t, stream.skip(start), 0, i - start),
    decreases stream.len() - i,
{
    if i >= stream.len() {
        assert(stream.skip(start).len() == stream.len() - start);
    } else {
        assert(stream.subrange(start, i + 1) =~= stream.skip(start).subrange(0, i - start + 1));
        match table_lookup(t, stream.subrange(start, i + 1)) {
            Some(c) => {
                lemma_scan_from_skip(t, stream, i + 1, i + 1);
                lemma_scan_from_skip(t, stream.skip(start), i - start + 1, i - start + 1);
                assert(stream.skip(start).skip(i - start + 1) =~= stream.skip(i + 1));
            },
            None => {
                lemma_scan_from_skip(t, stream, start, i + 1);
            },
        }
    }
}

/// No table entry carries `w`, so the lookup misses.
proof fn lemma_table_lookup_none(t: Seq<(char, Seq<bool>)>, w: Seq<bool>)
    requires
        forall|k: int| 0 <= k < t.len() ==> (#[trigger] t[k]).1 != w,
    ensures
        table_lookup(t, w) is None,
    decreases t.len(),
{
    if t.len() > 0 {
        assert(forall|k: int|
            0 <= k < t.drop_first().len() ==> (#[trigger] t.drop_first()[k]) == t[k + 1]);
        lemma_table_lookup_none(t.drop_first(), w);
    }
}

/// Restricting a prefix-free table to its tail keeps it prefix-free.
proof fn lemma_prefix_free_drop_first(t: Seq<(char, Seq<bool>)>)
    requires
        prefix_free(t),
        t.len() > 0,
    ensures
        prefix_free(t.drop_first()),
{
    assert(forall|k: int|
        0 <= k < t.drop_first().len() ==> (#[trigger] t.drop_first()[k]) == t[k + 1]);
}

/// In a prefix-free table the lookup of an entry's own code finds exactly
/// that entry's symbol.
proof fn lemma_table_lookup_hit(t: Seq<(char, Seq<bool>)>, ci: int)
    requires
        prefix_free(t),
        0 <= ci < t.len(),
    ensures
        table_lookup(t, t[ci].1) == Some(t[ci].0),
    decreases t.len(),
{
    if t[0].1 == t[ci].1 {
        if ci != 0 {
            assert(t[ci].1.take(t[ci].1.len() as int) =~= t[ci].1);
            assert(crate::canonical::is_bit_prefix(t[0].1, t[ci].1));
            assert(false);
        }
    } else {
        assert(ci != 0);
        lemma_prefix_free_drop_first(t);
        assert(t.drop_first()[ci - 1] == t[ci]);
        lemma_table_lookup_hit(t.drop_first(), ci - 1);
    }
}

/// A stream that starts with the code of table entry `ci` makes the greedy
/// walk emit exactly that entry's symbol first.
proof fn lemma_scan_code_steps(t: Seq<(char, Seq<bool>)>, stream: Seq<bool>, ci: int, i: int)
    requires
        prefix_free(t),
        0 <= ci < t.len(),
        1 <= t[ci].1.len() <= stream.len(),
        stream.take(t[ci].1.len() as int) == t[ci].1,
        0 <= i < t[ci].1.len(),
    ensures
        scan_from(t, stream, 0, i) == seq![t[ci].0] + scan(t, stream.skip(t[ci].1.len() as int)),
    decreases t[ci].1.len() - i,
{
    let code = t[ci].1;
    let ll = code.len() as int;
    let w = stream.subrange(0, i + 1);
    assert(w =~= code.take(i + 1));
    if i + 1 < ll {
        assert forall|k: int| 0 <= k < t.len() implies (#[trigger] t[k]).1 != w by {
            if t[k].1 == w {
                assert(crate::canonical::is_bit_prefix(t[k].1, code));
                assert(k != ci);
            }
        }
        lemma_table_lookup_none(t, w);
        lemma_scan_code_steps(t, stream, ci, i + 1);
    } else {
        assert(w =~= code);
        lemma_table_lookup_hit(t, ci);
        lemma_scan_from_skip(t, stream, ll, ll);
    }
}

/// Concatenated codes scan back to the symbols they encode, whatever bits
/// follow: the greedy walk peels one code after the other.
proof fn lemma_scan_concat(t: Seq<(char, Seq<bool>)>, msg: Seq<char>, tail: Seq<bool>)
    requires
        prefix_free(t),
        forall|k: int| 0 <= k < t.len() ==> (#[trigger] t[k]).1.len() >= 1,
        forall|k: int| 0 <= k < msg.len() ==> table_code(t, #[trigger] msg[k]) is Some,
    ensures
        scan(t, concat_codes(t, msg) + tail) == msg + scan(t, tail),
    decreases msg.len(),
{
    if msg.len() == 0 {
        assert(concat_codes(t, msg) + tail =~= tail);
        assert(msg + scan(t, tail) =~= scan(t, tail));
    } else {
        let c = msg[0];
        let code = table_code(t, c)->Some_0;
        lemma_table_code_index(t, c);
        let ci = choose|ci: int|
            0 <= ci < t.len() && (#[trigger] t[ci]).0 == c && t[ci].1 == table_code(t, c)->Some_0;
        let rest = concat_codes(t, msg.drop_first()) + tail;
        let stream = concat_codes(t, msg) + tail;
        assert(stream =~= code + rest);
        assert(stream.take(code.len() as int) =~= code);
        assert(code.len() >= 1);
        lemma_scan_code_steps(t, stream, ci, 0);
        assert(stream.skip(code.len() as int) =~= rest);
        lemma_scan_concat(t, msg.drop_first(), tail);
        assert(seq![c] + (msg.drop_first() + scan(t, tail)) =~= msg + scan(t, tail));
    }
}

/// A successful lookup names the code of some entry with that symbol.
proof fn lemma_table_lookup_some(t: Seq<(char, Seq<bool>)>, w: Seq<bool>)
    requires
        table_lookup(t, w) is Some,
    ensures
        exists|k: int|
            0 <= k < t.len() && (#[trigger] t[k]).0 == table_lookup(t, w)->Some_0 && t[k].1 == w,
    decreases t.len(),
{
    if t[0].1 == w {
        assert(t[0].0 == table_lookup(t, w)->Some_0 && t[0].1 == w);
    } else {
        lemma_table_lookup_some(t.drop_first(), w);
        let k2 = choose|k2: int|
            0 <= k2 < t.drop_first().len() && (#[trigger] t.drop_first()[k2]).0 == table_lookup(
                t.drop_first(),
                w,
            )->Some_0 && t.drop_first()[k2].1 == w;
        assert(t[k2 + 1] == t.drop_first()[k2]);
        assert(t[k2 + 1].0 == table_lookup(t, w)->Some_0 && t[k2 + 1].1 == w);
    }
}

/// Every symbol the greedy walk reads out of an all-zero stream carries an
/// all-zero code.
proof fn lemma_scan_all_false_chars(t: Seq<(char, Seq<bool>)>, zs: Seq<bool>, start: int, i: int)
    requires
        crate::bits::all_false(zs),
        0 <= start <= i,
    ensures
        forall|m: int|
            0 <= m < scan_from(t, zs, start, i).len() ==> exists|k: int|
                0 <= k < t.len() && (#[trigger] t[k]).0 == #[trigger] scan_from(
                    t,
                    zs,
                    start,
                    i,
                )[m] && crate::bits::all_false(t[k].1),
    decreases zs.len() - i,
{
    if i >= zs.len() {
    } else {
        let w = zs.subrange(start, i + 1);
        assert(crate::bits::all_false(w));
        match table_lookup(t, w) {
            Some(c) => {
                lemma_table_lookup_some(t, w);
                lemma_scan_all_false_chars(t, zs, i + 1, i + 1);
                let kw = choose|kw: int|
                    0 <= kw < t.len() && (#[trigger] t[kw]).0 == c && t[kw].1 == w;
                let tail = scan_from(t, zs, i + 1, i + 1);
                assert forall|m: int|
                    0 <= m < scan_from(t, zs, start, i).len() implies exists|k: int|
                    0 <= k < t.len() && (#[trigger] t[k]).0 == #[trigger] scan_from(
                        t,
                        zs,
                        start,
                        i,
                    )[m] && crate::bits::all_false(t[k].1) by {
                    if m == 0 {
                        assert(scan_from(t, zs, start, i)[0] == c);
                        assert(t[kw].0 == scan_from(t, zs, start, i)[0] && crate::bits::all_false(
                            t[kw].1,
                        ));
                    } else {
                        assert(scan_from(t, zs, start, i)[m] == tail[m - 1]);
                        let kk = choose|kk: int|
                            0 <= kk < t.len() && (#[trigger] t[kk]).0 == tail[m - 1]
                                && crate::bits::all_false(t[kk].1);
                        assert(t[kk].0 == scan_from(t, zs, start, i)[m] && crate::bits::all_false(
                            t[kk].1,
                        ));
                    }
                }
            },
            None => {
                lemma_scan_all_false_chars(t, zs, start, i + 1);
                let tail = scan_from(t, zs, start, i + 1);
                assert forall|m: int|
                    0 <= m < scan_from(t, zs, start, i).len() implies exists|k: int|
                    0 <= k < t.len() && (#[trigger] t[k]).0 == #[trigger] scan_from(
                        t,
                        zs,
                        start,
                        i,
                    )[m] && crate::bits::all_false(t[k].1) by {
                    assert(scan_from(t, zs, start, i)[m] == tail[m]);
                    let kk = choose|kk: int|
                        0 <= kk < t.len() && (#[trigger] t[kk]).0 == tail[m]
                            && crate::bits::all_false(t[kk].1);
                    assert(t[kk].0 == scan_from(t, zs, start, i)[m] && crate::bits::all_false(
                        t[kk].1,
                    ));
                }
            },
        }
    }
}

/// Two all-zero codes of a prefix-free table are the same entry, so the
/// greedy walk over an all-zero stream emits one single symbol over and
/// over: its output is homogeneous.
proof fn lemma_scan_all_false_homogeneous(t: Seq<(char, Seq<bool>)>, zs: Seq<bool>)
    requires
        prefix_free(t),
        crate::bits::all_false(zs),
    ensures
        forall|m1: int, m2: int|
            0 <= m1 < scan(t, zs).len() && 0 <= m2 < scan(t, zs).len() ==> #[trigger] scan(
                t,
                zs,
            )[m1] == #[trigger] scan(t, zs)[m2],
{
    lemma_scan_all_false_chars(t, zs, 0, 0);
    assert forall|m1: int, m2: int|
        0 <= m1 < scan(t, zs).len() && 0 <= m2 < scan(t, zs).len() implies #[trigger] scan(
        t,
        zs,
    )[m1] == #[trigger] scan(t, zs)[m2] by {
        let k1 = choose|k1: int|
            0 <= k1 < t.len() && (#[trigger] t[k1]).0 == scan(t, zs)[m1] && crate::bits::all_false(
                t[k1].1,
            );
        let k2 = choose|k2: int|
            0 <= k2 < t.len() && (#[trigger] t[k2]).0 == scan(t, zs)[m2] && crate::bits::all_false(
                t[k2].1,
            );
        if k1 != k2 {
            if t[k1].1.len() <= t[k2].1.len() {
                assert(t[k2].1.take(t[k1].1.len() as int) =~= t[k1].1);
                assert(crate::canonical::is_bit_prefix(t[k1].1, t[k2].1));
            } else {
                assert(t[k1].1.take(t[k2].1.len() as int) =~= t[k2].1);
                assert(crate::canonical::is_bit_prefix(t[k2].1, t[k1].1));
            }
            assert(false);
        }
    }
}

/// The payload symbols of one record: name, name sentinel, content, record
/// sentinel.
pub open spec fn record_syms(r: (Seq<char>, Seq<char>)) -> Seq<char> {
    r.0 + seq![SENTINEL_NAME] + r.1 + seq![SENTINEL_RECORD]
}

/// Framing one more record appends its symbols.
pub proof fn lemma_frame_snoc(rs: Seq<(Seq<char>, Seq<char>)>, r: (Seq<char>, Seq<char>))
    ensures
        frame(rs.push(r)) == frame(rs) + record_syms(r),
    decreases rs.len(),
{
    if rs.len() == 0 {
        assert(rs.push(r).drop_first() =~= Seq::<(Seq<char>, Seq<char>)>::empty());
        assert(frame(Seq::<(Seq<char>, Seq<char>)>::empty()) =~= Seq::<char>::empty());
        assert(frame(rs.push(r)) =~= frame(rs) + record_syms(r));
    } else {
        assert(rs.push(r).drop_first() =~= rs.drop_first().push(r));
        assert(rs.push(r)[0] == rs[0]);
        lemma_frame_snoc(rs.drop_first(), r);
        assert(frame(rs.push(r)) =~= frame(rs) + record_syms(r));
    }
}

/// Appends every character of a string to a symbol vector.
fn push_chars(s: &String, out: &mut Vec<char>)
    ensures
        final(out)@ == old(out)@ + s@,
{
    let ghost out0 = out@;
    let n = s.as_str().unicode_len();
    let mut i: usize = 0;
    while i < n
        invariant
            i <= n,
            n == s@.len(),
            out@ =~= out0 + s@.take(i as int),
        decreases n - i,
    {
        out.push(s.as_str().get_char(i));
        i = i + 1;
    }
    proof {
        assert(s@.take(s@.len() as int) =~= s@);
    }
}

/// Builds the payload symbol stream of the file list: each file's name,
/// the name sentinel, its content, and the record sentinel.
pub fn build_stream(files: &Vec<FileRecord>) -> (r: Vec<char>)
    ensures
        r@ == frame(records_abs(files@)),
{
    let ghost rs = records_abs(files@);
    let mut out: Vec<char> = Vec::new();
    proof {
        assert(frame(rs.take(0)) =~= Seq::<char>::empty());
        assert(out@ =~= frame(rs.take(0)));
    }
    let mut i: usize = 0;
    while i < files.len()
        invariant
            i <= files@.len(),
            rs == records_abs(files@),
            out@ == frame(rs.take(i as int)),
        decreases files@.len() - i,
    {
        let ghost o0 = out@;
        push_chars(&files[i].name, &mut out);
        out.push(SENTINEL_NAME);
        push_chars(&files[i].content, &mut out);
        out.push(SENTINEL_RECORD);
        proof {
            assert(out@ =~= o0 + record_syms(rs[i as int]));
            lemma_frame_snoc(rs.take(i as int), rs[i as int]);
            assert(rs.take(i as int).push(rs[i as int]) =~= rs.take(i as int + 1));
        }
        i = i + 1;
    }
    proof {
        assert(rs.take(rs.len() as int) =~= rs);
    }
    out
}

/// The payload bit stream of a symbol stream: each symbol's code from the
/// table, concatenated in order.
pub open spec fn concat_codes(t: Seq<(char, Seq<bool>)>, msg: Seq<char>) -> Seq<bool>
    decreases msg.len(),
{
    if msg.len() == 0 {
        Seq::empty()
    } else {
        (match table_code(t, msg[0]) {
            Some(cd) => cd,
            None => Seq::empty(),
        }) + concat_codes(t, msg.drop_first())
    }
}

/// The position of the first table entry for symbol `c`, if any.
fn lookup_code(table: &Vec<(char, Vec<bool>)>, c: char) -> (r: Option<usize>)
    ensures
        match r {
            Some(j) => j < table@.len() && table@[j as int].0 == c && table_code(
                crate::tree::code_map_abs(table@),
                c,
            ) == Some(table@[j as int].1@),
            None => table_code(crate::tree::code_map_abs(table@), c) is None,
        },
{
    let ghost t = crate::tree::code_map_abs(table@);
    proof {
        assert(t.skip(0) =~= t);
    }
    let mut k: usize = 0;
    while k < table.len()
        invariant
            k <= table@.len(),
            t == crate::tree::code_map_abs(table@),
            table_code(t, c) == table_code(t.skip(k as int), c),
        decreases table@.len() - k,
    {
        proof {
            assert(t.skip(k as int)[0] == t[k as int]);
            assert(t.skip(k as int).drop_first() =~= t.skip(k as int + 1));
        }
        if table_key(table, k) == c {
            return Some(k);
        }
        k = k + 1;
    }
    proof {
        assert(t.skip(t.len() as int) =~= Seq::<(char, Seq<bool>)>::empty());
    }
    None
}

/// Emits the code of every symbol of the stream into a bit buffer, MSB
/// first. Fails with `MissingSymbol` exactly when some symbol of the stream
/// has no code in the table.
pub fn encode_payload(table: &Vec<(char, Vec<bool>)>, msg: &Vec<char>) -> (r: Result<
    BitBuf,
    crate::EncodeError,
>)
    requires
        msg@.len() <= 0x000f_ffff,
        forall|k: int| 0 <= k < table@.len() ==> (#[trigger] table@[k]).1@.len() <= 255,
    ensures
        match r {
            Ok(b) => {
                &&& bit_buf_bits(b) == concat_codes(crate::tree::code_map_abs(table@), msg@)
                &&& bit_buf_bits(b).len() <= msg@.len() * 256
                &&& forall|k: int|
                    0 <= k < msg@.len() ==> table_code(
                        crate::tree::code_map_abs(table@),
                        #[trigger] msg@[k],
                    ) is Some
            },
            Err(e) => {
                &&& e == crate::EncodeError::MissingSymbol
                &&& exists|k: int|
                    0 <= k < msg@.len() && table_code(
                        crate::tree::code_map_abs(table@),
                        #[trigger] msg@[k],
                    ) is None
            },
        },
{
    let ghost t = crate::tree::code_map_abs(table@);
    let ghost mv = msg@;
    let mut out = BitBuf::new();
    proof {
        assert(mv.skip(0) =~= mv);
    }
    let mut i: usize = 0;
    while i < msg.len()
        invariant
            i <= mv.len() <= 0x000f_ffff,
            mv == msg@,
            t == crate::tree::code_map_abs(table@),
            forall|k: int| 0 <= k < table@.len() ==> (#[trigger] table@[k]).1@.len() <= 255,
            bit_buf_bits(out).len() <= i * 256,
            concat_codes(t, mv) == bit_buf_bits(out) + concat_codes(t, mv.skip(i as int)),
            forall|k: int| 0 <= k < i ==> table_code(t, #[trigger] mv[k]) is Some,
        decreases mv.len() - i,
    {
        let c = msg[i];
        proof {
            assert(mv.skip(i as int)[0] == c);
            assert(mv.skip(i as int).drop_first() =~= mv.skip(i as int + 1));
        }
        match lookup_code(table, c) {
            None => {
                return Err(crate::EncodeError::MissingSymbol);
            },
            Some(j) => {
                let ghost b0 = bit_buf_bits(out);
                let code = &table[j].1;
                let mut b: usize = 0;
                while b < code.len()
                    invariant
                        b <= code@.len() <= 255,
                        code@ == table@[j as int].1@,
                        j < table@.len(),
                        bit_buf_bits(out) =~= b0 + code@.take(b as int),
                        b0.len() <= 0x0fff_fe00,
                    decreases code@.len() - b,
                {
                    out.push(code[b]);
                    b = b + 1;
                }
                proof {
                    assert(code@.take(code@.len() as int) =~= code@);
                    assert(bit_buf_bits(out) =~= b0 + code@);
                    assert((i + 1) * 256 == i * 256 + 256) by (nonlinear_arith);
                    assert(b0 + (code@ + concat_codes(t, mv.skip(i as int + 1))) =~= (b0 + code@)
                        + concat_codes(t, mv.skip(i as int + 1)));
                }
            },
        }
        i = i + 1;
    }
    proof {
        assert(concat_codes(t, mv.skip(mv.len() as int)) =~= Seq::<bool>::empty());
        assert(bit_buf_bits(out) + Seq::<bool>::empty() =~= bit_buf_bits(out));
    }
    Ok(out)
}

/// Appends zero bits until the buffer holds a whole number of bytes.
fn pad_to_byte(buf: &mut BitBuf)
    requires
        bit_buf_bits(*old(buf)).len() <= 0x0fff_ff00,
    ensures
        bit_buf_bits(*final(buf)) == padded_bits(bit_buf_bits(*old(buf))),
{
    let ghost orig = bit_buf_bits(*old(buf));
    let ghost target = orig.len() + pad_len(orig.len());
    proof {
        assert(target % 8 == 0);
        assert(orig.len() <= target <= orig.len() + 7);
    }
    while buf.len() % 8 != 0
        invariant
            orig == bit_buf_bits(*old(buf)),
            target == orig.len() + pad_len(orig.len()),
            target % 8 == 0,
            orig.len() <= target <= orig.len() + 7,
            orig.len() <= 0x0fff_ff00,
            orig.len() <= bit_buf_bits(*buf).len() <= target,
            bit_buf_bits(*buf).take(orig.len() as int) == orig,
            forall|j: int| orig.len() <= j < bit_buf_bits(*buf).len() ==> !bit_buf_bits(*buf)[j],
        decreases target - bit_buf_bits(*buf).len(),
    {
        let ghost b0 = bit_buf_bits(*buf);
        proof {
            assert(b0.len() != target);
        }
        buf.push(false);
        proof {
            assert(bit_buf_bits(*buf).take(orig.len() as int) =~= b0.take(orig.len() as int));
        }
    }
    proof {
        let n = bit_buf_bits(*buf).len() as int;
        assert(n == target);
        assert(bit_buf_bits(*buf) =~= padded_bits(orig));
    }
}

/// Encodes the whole file list into one archive byte sequence: builds the
/// framed symbol stream, counts it, grows the canonical code table from the
/// Huffman tree, writes the header, and packs every symbol's code into the
/// payload bitstream, zero-padded to a whole byte.
///
/// The returned bytes are bit-exact — the header, then the framed symbol
/// stream's codes packed MSB-first with zero padding — and decode back to
/// exactly the given records: see [`decode_spec`] in the postcondition.
/// Encoding fails exactly on an empty file list (`EmptyAlphabet`) and on a
/// merged alphabet of more than 255 distinct symbols
/// (`UnsupportedAlphabet`). The two sentinels always join the alphabet, so
/// it never degenerates to a single symbol, and with at least two symbols
/// no code has length zero.
#[verifier::rlimit(80)]
pub fn encode_bitvec_huffman(files: &Vec<FileRecord>) -> (r: Result<Vec<u8>, crate::EncodeError>)
    requires
        wf_records(records_abs(files@)),
        forall|c: char|
            #[trigger] count_occurs(frame(records_abs(files@)), c) <= u16::MAX,
        frame(records_abs(files@)).len() <= 0x000f_ffff,
    ensures
        match r {
            Ok(out) => {
                &&& files@.len() > 0
                &&& count_distinct(frame(records_abs(files@))) <= 255
                &&& decode_spec(out@) == Ok::<Seq<(Seq<char>, Seq<char>)>, DecodeError>(
                    records_abs(files@),
                )
                &&& exists|t: Seq<(char, Seq<bool>)>|
                    prefix_free(t) && out@ == #[trigger] header_bytes(t) + pack_msb0(
                        padded_bits(concat_codes(t, frame(records_abs(files@)))),
                    )
            },
            Err(e) => {
                ||| (e == crate::EncodeError::EmptyAlphabet && files@.len() == 0)
                ||| (e == crate::EncodeError::UnsupportedAlphabet && files@.len() > 0
                    && count_distinct(frame(records_abs(files@))) > 255)
            },
        },
{
    let ghost rs = records_abs(files@);
    if files.len() == 0 {
        return Err(crate::EncodeError::EmptyAlphabet);
    }
    let msg = build_stream(files);
    let ghost mv = msg@;
    proof {
        assert(rs.len() == files@.len());
        let r0 = rs[0];
        assert(mv[r0.0.len() as int] == SENTINEL_NAME);
        assert(mv[r0.0.len() + 1 + r0.1.len() as int] == SENTINEL_RECORD);
        crate::frequency::lemma_count_of_index(mv, r0.0.len() as int);
        crate::frequency::lemma_count_of_index(mv, r0.0.len() + 1 + r0.1.len() as int);
        assert(count_occurs(mv, SENTINEL_NAME) > 0);
        assert(count_occurs(mv, SENTINEL_RECORD) > 0);
    }
    let table = match build_canonical_bitvec_map_from_string(&msg) {
        Ok(t) => t,
        Err(e) => {
            proof {
                assert(false);
            }
            return Err(e);
        },
    };
    let ghost ta = crate::tree::code_map_abs(table@);
    proof {
        lemma_table_code_index(ta, SENTINEL_NAME);
        lemma_table_code_index(ta, SENTINEL_RECORD);
        let k1 = choose|k1: int| 0 <= k1 < ta.len() && (#[trigger] ta[k1]).0 == SENTINEL_NAME;
        let k2 = choose|k2: int| 0 <= k2 < ta.len() && (#[trigger] ta[k2]).0 == SENTINEL_RECORD;
        assert(k1 != k2);
        assert(ta.len() >= 2);
    }
    if table.len() > 255 {
        return Err(crate::EncodeError::UnsupportedAlphabet);
    }
    let mut out: Vec<u8> = Vec::new();
    write_header(&table, &mut out);
    proof {
        assert(out@ =~= header_bytes(ta));
    }
    let mut payload = match encode_payload(&table, &msg) {
        Ok(b) => b,
        Err(e) => {
            proof {
                let kb = choose|kb: int|
                    0 <= kb < mv.len() && table_code(ta, #[trigger] mv[kb]) is None;
                crate::frequency::lemma_count_of_index(mv, kb);
                assert(false);
            }
            return Err(e);
        },
    };
    let ghost pbits = bit_buf_bits(payload);
    proof {
        assert(mv.len() * 256 <= 0x0fff_ff00) by (nonlinear_arith)
            requires
                mv.len() <= 0x000f_ffff,
        ;
    }
    pad_to_byte(&mut payload);
    let pbytes = payload.into_bytes();
    let ghost header = out@;
    let mut k: usize = 0;
    while k < pbytes.len()
        invariant
            k <= pbytes@.len(),
            out@ =~= header + pbytes@.take(k as int),
        decreases pbytes@.len() - k,
    {
        out.push(pbytes[k]);
        k = k + 1;
    }
    proof {
        assert(pbytes@.take(pbytes@.len() as int) =~= pbytes@);
        lemma_unpack_pack(padded_bits(pbits));
        lemma_unpack_injective(pbytes@, pack_msb0(padded_bits(pbits)));
        let n = ta.len() as u8;
        assert(out@ =~= seq![n] + entries_bytes(ta) + pbytes@);
        assert(out@[0] == n);
        assert(ta.skip(0) =~= ta);
        lemma_parse_of_written(out@, ta, 0, seq![n], pbytes@);
        let end = 1 + entries_bytes(ta).len() as int;
        assert(parse_entries(out@, ta.len(), 1) == Some((ta, end)));
        assert(out@.subrange(end, out@.len() as int) =~= pbytes@);
        let zs = Seq::new(pad_len(pbits.len()), |i: int| false);
        assert(crate::bits::all_false(zs));
        assert(padded_bits(pbits) =~= concat_codes(ta, mv) + zs);
        lemma_scan_concat(ta, mv, zs);
        assert(scan(ta, unpack_msb0(pbytes@)) == mv + scan(ta, zs));
        lemma_scan_all_false_homogeneous(ta, zs);
        lemma_demux_frame(rs, scan(ta, zs));
        assert(frame(rs) + scan(ta, zs) =~= mv + scan(ta, zs));
        assert(demux(scan(ta, unpack_msb0(pbytes@))) == rs);
        assert(out@[0] as nat == ta.len());
        assert(decode_spec(out@) == Ok::<Seq<(Seq<char>, Seq<char>)>, DecodeError>(rs));
        assert(out@ =~= header_bytes(ta) + pack_msb0(padded_bits(concat_codes(ta, frame(rs)))));
        assert(exists|t: Seq<(char, Seq<bool>)>|
            prefix_free(t) && out@ == #[trigger] header_bytes(t) + pack_msb0(
                padded_bits(concat_codes(t, frame(rs))),
            ));
    }
    Ok(out)
}

/// What decoding an archive byte sequence yields: the header is parsed into
/// the code table, then the remaining bytes are walked bit by bit through
/// the greedy matcher and the record state machine. An empty or truncated
/// or malformed header is `InvalidHeader`; a header declaring at most one
/// symbol is `DegenerateTable`.
pub open spec fn decode_spec(bytes: Seq<u8>) -> Result<Seq<(Seq<char>, Seq<char>)>, DecodeError> {
    if bytes.len() == 0 {
        Err(DecodeError::InvalidHeader)
    } else if bytes[0] <= 1 {
        Err(DecodeError::DegenerateTable)
    } else {
        match parse_entries(bytes, bytes[0] as nat, 1) {
            None => Err(DecodeError::InvalidHeader),
            Some(p) => Ok(
                demux(scan(p.0, unpack_msb0(bytes.subrange(p.1, bytes.len() as int)))),
            ),
        }
    }
}

/// The mathematical content of a decode result.
pub open spec fn decode_result_abs(r: Result<Vec<FileRecord>, DecodeError>) -> Result<
    Seq<(Seq<char>, Seq<char>)>,
    DecodeError,
> {
    match r {
        Ok(v) => Ok(records_abs(v@)),
        Err(e) => Err(e),
    }
}

/// Decodes an archive: reads the symbol count and the canonical code table
/// from the header, then demultiplexes the payload bitstream into (name,
/// content) records, consuming bits until the end of the bytes.
pub fn decode_bitvec_huffman(bytes: &Vec<u8>) -> (r: Result<Vec<FileRecord>, DecodeError>)
    requires
        bytes@.len() <= 0x03ff_ffff,
    ensures
        decode_result_abs(r) == decode_spec(bytes@),
{
    if bytes.len() == 0 {
        return Err(DecodeError::InvalidHeader);
    }
    let count = bytes[0];
    if count <= 1 {
        return Err(DecodeError::DegenerateTable);
    }
    let (table, end) = match read_canonical_table(bytes, count as usize, 1) {
        Ok(p) => p,
        Err(e) => {
            return Err(e);
        },
    };
    let mut payload: Vec<u8> = Vec::new();
    let mut k: usize = end;
    while k < bytes.len()
        invariant
            end <= k <= bytes@.len(),
            payload@ =~= bytes@.subrange(end as int, k as int),
        decreases bytes@.len() - k,
    {
        payload.push(bytes[k]);
        k = k + 1;
    }
    let pbits = BitBuf::from_bytes(&payload);
    let syms = scan_payload(&table, &pbits);
    let records = demux_symbols(&syms);
    Ok(records)
}

/// The decoder state machine over a symbol stream, with the name and
/// content gathered so far: the name sentinel switches from gathering the
/// name to gathering the content, the record sentinel emits the finished
/// record — unless both parts are empty, which only stray padding bits
/// produce — and anything gathered when the stream ends is discarded.
pub open spec fn demux_from(
    syms: Seq<char>,
    name: Seq<char>,
    content: Seq<char>,
    in_content: bool,
) -> Seq<(Seq<char>, Seq<char>)>
    decreases syms.len(),
{
    if syms.len() == 0 {
        Seq::empty()
    } else {
        let c = syms[0];
        let rest = syms.drop_first();
        if c == SENTINEL_NAME {
            demux_from(rest, name, content, true)
        } else if c == SENTINEL_RECORD {
            if name.len() == 0 && content.len() == 0 {
                demux_from(rest, Seq::empty(), Seq::empty(), false)
            } else {
                seq![(name, content)] + demux_from(rest, Seq::empty(), Seq::empty(), false)
            }
        } else if !in_content {
            demux_from(rest, name.push(c), content, false)
        } else {
            demux_from(rest, name, content.push(c), true)
        }
    }
}

/// The records a symbol stream demultiplexes into.
pub open spec fn demux(syms: Seq<char>) -> Seq<(Seq<char>, Seq<char>)> {
    demux_from(syms, Seq::empty(), Seq::empty(), false)
}

/// No code of the table is an initial segment of another entry's code.
pub open spec fn prefix_free(t: Seq<(char, Seq<bool>)>) -> bool {
    forall|i: int, j: int|
        0 <= i < t.len() && 0 <= j < t.len() && i != j ==> !crate::canonical::is_bit_prefix(
            (#[trigger] t[i]).1,
            (#[trigger] t[j]).1,
        )
}

/// A symbol that appears in the table has a code.
proof fn lemma_table_code_present(t: Seq<(char, Seq<bool>)>, c: char, k: int)
    requires
        0 <= k < t.len(),
        t[k].0 == c,
    ensures
        table_code(t, c) is Some,
    decreases t.len(),
{
    if t[0].0 != c {
        assert(t.drop_first()[k - 1] == t[k]);
        lemma_table_code_present(t.drop_first(), c, k - 1);
    }
}

/// A symbol's code is the code of some table entry for that symbol.
proof fn lemma_table_code_index(t: Seq<(char, Seq<bool>)>, c: char)
    requires
        table_code(t, c) is Some,
    ensures
        exists|k: int|
            0 <= k < t.len() && (#[trigger] t[k]).0 == c && t[k].1 == table_code(t, c)->Some_0,
    decreases t.len(),
{
    if t[0].0 == c {
        assert(t[0].0 == c && t[0].1 == table_code(t, c)->Some_0);
    } else {
        lemma_table_code_index(t.drop_first(), c);
        let k2 = choose|k2: int|
            0 <= k2 < t.drop_first().len() && (#[trigger] t.drop_first()[k2]).0 == c
                && t.drop_first()[k2].1 == table_code(t.drop_first(), c)->Some_0;
        assert(t[k2 + 1] == t.drop_first()[k2]);
        assert(t[k2 + 1].0 == c && t[k2 + 1].1 == table_code(t, c)->Some_0);
    }
}

/// Builds the canonical code table of a symbol stream: counts frequencies,
/// grows the Huffman tree, extracts each symbol's path length, and assigns
/// canonical codes in (length, symbol) order.
///
/// Succeeds exactly when the stream is nonempty and no symbol overflows the
/// 16-bit counter; the table then covers every symbol of the stream, is
/// prefix-free, and its size is the number of distinct symbols.
#[verifier::rlimit(50)]
pub fn build_canonical_bitvec_map_from_string(content: &Vec<char>) -> (r: Result<
    Vec<(char, Vec<bool>)>,
    crate::EncodeError,
>)
    requires
        content@.len() <= 0xffff_ffff,
    ensures
        match r {
            Ok(t) => {
                &&& content@.len() > 0
                &&& forall|c: char| count_occurs(content@, c) <= u16::MAX
                &&& crate::frequency::distinct_keys(crate::tree::code_map_abs(t@))
                &&& prefix_free(crate::tree::code_map_abs(t@))
                &&& forall|c: char|
                    #[trigger] count_occurs(content@, c) > 0 ==> table_code(
                        crate::tree::code_map_abs(t@),
                        c,
                    ) is Some
                &&& t@.len() == count_distinct(content@)
                &&& t@.len() >= 2 ==> forall|k: int|
                    0 <= k < t@.len() ==> 1 <= (#[trigger] t@[k]).1@.len() <= t@.len() - 1
            },
            Err(e) => {
                ||| (e == crate::EncodeError::EmptyAlphabet && content@.len() == 0)
                ||| (e == crate::EncodeError::FrequencyOverflow && exists|c: char|
                    #[trigger] count_occurs(content@, c) > u16::MAX)
            },
        },
{
    let freq = match crate::frequency::parser(content) {
        Ok(f) => f,
        Err(e) => {
            return Err(e);
        },
    };
    let ghost fv = freq@;
    let ghost keys = fv.map_values(|p: (char, u16)| p.0);
    if freq.len() == 0 {
        proof {
            if content@.len() > 0 {
                crate::frequency::lemma_count_distinct_pos(content@);
            }
        }
        return Err(crate::EncodeError::EmptyAlphabet);
    }
    proof {
        crate::frequency::lemma_count_distinct_le(content@);
        assert(keys.no_duplicates()) by {
            assert(forall|i: int| 0 <= i < fv.len() ==> keys[i] == (#[trigger] fv[i]).0);
        }
    }
    let nsyms = freq.len();
    let tree = crate::tree::create_tree(freq);
    let ghost lsyms = crate::tree::leaf_syms(tree);
    proof {
        broadcast use vstd::seq_lib::group_to_multiset_ensures;

        keys.lemma_multiset_has_no_duplicates();
        assert(lsyms.to_multiset().len() == lsyms.len());
        assert(keys.to_multiset().len() == keys.len());
        assert(lsyms.len() == nsyms);
        assert(forall|x: char| lsyms.to_multiset().contains(x) ==> lsyms.to_multiset().count(x) == 1);
        lsyms.lemma_multiset_has_no_duplicates_conv();
    }
    let code_map = crate::tree::build_code_map(&tree);
    let ghost cma = crate::tree::code_map_abs(code_map@);
    let ghost pp = crate::tree::paths(tree, Seq::<bool>::empty());
    let ghost d = crate::tree::height(tree);
    proof {
        crate::tree::lemma_paths_basic(tree, Seq::<bool>::empty());
        crate::tree::lemma_height_lt_leaves(tree);
        if nsyms >= 2 {
            assert(tree is Branch) by {
                if tree is Leaf {
                    assert(lsyms.len() == 1);
                }
            }
        }
    }
    let mut lens: Vec<(char, usize)> = Vec::new();
    let mut k: usize = 0;
    while k < code_map.len()
        invariant
            k <= code_map@.len(),
            cma == crate::tree::code_map_abs(code_map@),
            lens@.len() == k,
            forall|m: int|
                0 <= m < k ==> (#[trigger] lens@[m]).0 == cma[m].0 && lens@[m].1 == cma[m].1.len(),
        decreases code_map@.len() - k,
    {
        let c = table_key(&code_map, k);
        let l = code_map[k].1.len();
        lens.push((c, l));
        k = k + 1;
    }
    proof {
        broadcast use vstd::seq_lib::group_to_multiset_ensures;

        assert(crate::frequency::distinct_keys(lens@)) by {
            assert(forall|m: int| 0 <= m < lens@.len() ==> (#[trigger] lens@[m]).0 == lsyms[m]);
        }
        crate::canonical::lemma_ksum_of_paths(pp, lens@, d);
        crate::tree::lemma_kraft(tree, Seq::<bool>::empty(), d);
    }
    let ss = crate::canonical::sort_entries(lens);
    proof {
        broadcast use vstd::seq_lib::group_to_multiset_ensures;

        assert(ss@.to_multiset().len() == ss@.len());
        assert(lens@.to_multiset().len() == lens@.len());
        assert(ss@.len() == lens@.len());
        crate::canonical::lemma_distinct_keys_permutation(lens@, ss@);
        crate::canonical::lemma_ksum_permutation(lens@, ss@, d);
        assert forall|m: int| 0 <= m < ss@.len() implies (#[trigger] ss@[m]).1 <= d && (nsyms >= 2
            ==> 1 <= ss@[m].1 <= nsyms - 1) by {
            assert(ss@.to_multiset().contains(ss@[m]));
            assert(lens@.to_multiset().contains(ss@[m]));
            assert(lens@.contains(ss@[m]));
            let w = choose|w: int| 0 <= w < lens@.len() && lens@[w] == ss@[m];
            assert(lens@[w].1 == cma[w].1.len());
        }
        crate::canonical::lemma_kraft_fits(ss@, d);
    }
    let table = match crate::canonical::assign_canonical(&ss) {
        Ok(t) => t,
        Err(e) => {
            proof {
                assert(false);
            }
            return Err(e);
        },
    };
    proof {
        broadcast use vstd::seq_lib::group_to_multiset_ensures;

        let ta = crate::tree::code_map_abs(table@);
        assert(crate::canonical::matches_canonical(ta, ss@)) by {
            assert(forall|m: int|
                0 <= m < table@.len() ==> (#[trigger] ta[m]).0 == table@[m].0 && ta[m].1
                    == table@[m].1@);
        }
        assert(crate::frequency::distinct_keys(ta)) by {
            assert(forall|m: int| 0 <= m < ta.len() ==> (#[trigger] ta[m]).0 == ss@[m].0);
        }
        assert(prefix_free(ta)) by {
            assert forall|i: int, j: int|
                0 <= i < ta.len() && 0 <= j < ta.len() && i != j implies
                !crate::canonical::is_bit_prefix((#[trigger] ta[i]).1, (#[trigger] ta[j]).1) by {
                crate::canonical::lemma_canonical_prefix_free(ss@, ta, i, j);
            }
        }
        assert forall|c: char| #[trigger] count_occurs(content@, c) > 0 implies table_code(
            ta,
            c,
        ) is Some by {
            let kf = choose|kf: int| 0 <= kf < fv.len() && (#[trigger] fv[kf]).0 == c;
            assert(keys[kf] == c);
            assert(keys.contains(c));
            assert(lsyms.to_multiset().count(c) > 0);
            assert(lsyms.contains(c));
            let km = choose|km: int| 0 <= km < lsyms.len() && lsyms[km] == c;
            assert(lens@[km].0 == c);
            assert(lens@.contains(lens@[km]));
            assert(ss@.to_multiset().count(lens@[km]) > 0);
            assert(ss@.contains(lens@[km]));
            let kj = choose|kj: int| 0 <= kj < ss@.len() && ss@[kj] == lens@[km];
            assert(ta[kj].0 == c);
            lemma_table_code_present(ta, c, kj);
        }
        assert(table@.len() == ss@.len());
        if nsyms >= 2 {
            assert forall|m: int| 0 <= m < table@.len() implies 1 <= (#[trigger] table@[m]).1@.len()
                <= table@.len() - 1 by {
                assert(1 <= ss@[m].1 <= nsyms - 1);
                assert(table@[m].1@.len() == ss@[m].1);
            }
        }
    }
    Ok(table)
}

/// True when a stream holds no sentinel symbol: user data must not carry
/// the reserved delimiters.
pub open spec fn clean(s: Seq<char>) -> bool {
    forall|i: int| 0 <= i < s.len() ==> s[i] != SENTINEL_NAME && #[trigger] s[i] != SENTINEL_RECORD
}

/// A record list the encoder accepts: every name is nonempty, and neither
/// names nor contents carry a sentinel symbol.
pub open spec fn wf_records(rs: Seq<(Seq<char>, Seq<char>)>) -> bool {
    forall|k: int|
        0 <= k < rs.len() ==> (#[trigger] rs[k]).0.len() >= 1 && clean(rs[k].0) && clean(rs[k].1)
}

/// Sentinel-free symbols accumulate into the open name or content.
proof fn lemma_demux_data(
    seg: Seq<char>,
    rest: Seq<char>,
    name: Seq<char>,
    content: Seq<char>,
    in_content: bool,
)
    requires
        clean(seg),
    ensures
        demux_from(seg + rest, name, content, in_content) == (if !in_content {
            demux_from(rest, name + seg, content, false)
        } else {
            demux_from(rest, name, content + seg, true)
        }),
    decreases seg.len(),
{
    if seg.len() == 0 {
        assert(seg + rest =~= rest);
        assert(name + seg =~= name);
        assert(content + seg =~= content);
    } else {
        let c = seg[0];
        assert((seg + rest)[0] == c);
        assert((seg + rest).drop_first() =~= seg.drop_first() + rest);
        assert(clean(seg.drop_first()));
        if !in_content {
            lemma_demux_data(seg.drop_first(), rest, name.push(c), content, false);
            assert(name.push(c) + seg.drop_first() =~= name + seg);
        } else {
            lemma_demux_data(seg.drop_first(), rest, name, content.push(c), true);
            assert(content.push(c) + seg.drop_first() =~= content + seg);
        }
    }
}

/// A homogeneous trailing run of one symbol never completes a record: the
/// record sentinel only ever meets empty accumulators, and anything else
/// only gathers symbols that no record sentinel follows.
proof fn lemma_demux_homogeneous_tail(
    ts: Seq<char>,
    name: Seq<char>,
    content: Seq<char>,
    in_content: bool,
)
    requires
        forall|i: int, j: int| 0 <= i < ts.len() && 0 <= j < ts.len() ==> ts[i] == ts[j],
        ts.len() > 0 && ts[0] == SENTINEL_RECORD ==> name.len() == 0 && content.len() == 0,
    ensures
        demux_from(ts, name, content, in_content) == Seq::<(Seq<char>, Seq<char>)>::empty(),
    decreases ts.len(),
{
    if ts.len() > 0 {
        let c = ts[0];
        let rest = ts.drop_first();
        assert(forall|i: int| 0 <= i < rest.len() ==> rest[i] == c);
        if c == SENTINEL_NAME {
            lemma_demux_homogeneous_tail(rest, name, content, true);
        } else if c == SENTINEL_RECORD {
            lemma_demux_homogeneous_tail(rest, Seq::empty(), Seq::empty(), false);
        } else if !in_content {
            lemma_demux_homogeneous_tail(rest, name.push(c), content, in_content);
        } else {
            lemma_demux_homogeneous_tail(rest, name, content.push(c), in_content);
        }
    }
}

/// The round-trip heart of the state machine: a framed record list followed
/// by a homogeneous trailing run demultiplexes into exactly those records.
proof fn lemma_demux_frame(rs: Seq<(Seq<char>, Seq<char>)>, ts: Seq<char>)
    requires
        wf_records(rs),
        forall|i: int, j: int| 0 <= i < ts.len() && 0 <= j < ts.len() ==> ts[i] == ts[j],
    ensures
        demux(frame(rs) + ts) == rs,
    decreases rs.len(),
{
    if rs.len() == 0 {
        assert(frame(rs) + ts =~= ts);
        lemma_demux_homogeneous_tail(ts, Seq::empty(), Seq::empty(), false);
        assert(demux(frame(rs) + ts) =~= rs);
    } else {
        let r0 = rs[0];
        let rest_syms = frame(rs.drop_first()) + ts;
        let after_name = seq![SENTINEL_NAME] + r0.1 + seq![SENTINEL_RECORD] + rest_syms;
        assert(frame(rs) + ts =~= r0.0 + after_name);
        assert(clean(r0.0) && clean(r0.1) && r0.0.len() >= 1);
        lemma_demux_data(r0.0, after_name, Seq::empty(), Seq::empty(), false);
        assert(Seq::<char>::empty() + r0.0 =~= r0.0);
        let after_nul = r0.1 + (seq![SENTINEL_RECORD] + rest_syms);
        assert(after_name[0] == SENTINEL_NAME);
        assert(after_name.drop_first() =~= after_nul);
        lemma_demux_data(r0.1, seq![SENTINEL_RECORD] + rest_syms, r0.0, Seq::empty(), true);
        assert(Seq::<char>::empty() + r0.1 =~= r0.1);
        let at_rec = seq![SENTINEL_RECORD] + rest_syms;
        assert(at_rec[0] == SENTINEL_RECORD);
        assert(at_rec.drop_first() =~= rest_syms);
        assert(demux_from(at_rec, r0.0, r0.1, true) == seq![(r0.0, r0.1)] + demux_from(
            rest_syms,
            Seq::empty(),
            Seq::empty(),
            false,
        ));
        assert(wf_records(rs.drop_first())) by {
            assert(forall|k: int|
                0 <= k < rs.drop_first().len() ==> (#[trigger] rs.drop_first()[k]) == rs[k + 1]);
        }
        lemma_demux_frame(rs.drop_first(), ts);
        assert(seq![(r0.0, r0.1)] + rs.drop_first() =~= rs);
    }
}

/// Runs the decoder state machine over the scanned symbols: name symbols up
/// to the name sentinel, content symbols up to the record sentinel, one
/// record per record sentinel.
pub fn demux_symbols(syms: &Vec<char>) -> (r: Vec<FileRecord>)
    ensures
        records_abs(r@) == demux(syms@),
{
    let ghost sv = syms@;
    let mut out: Vec<FileRecord> = Vec::new();
    let mut name = String::new();
    let mut content = String::new();
    let mut in_content = false;
    proof {
        assert(sv.skip(0) =~= sv);
        assert(records_abs(out@) =~= Seq::<(Seq<char>, Seq<char>)>::empty());
        assert(records_abs(out@) + demux(sv) =~= demux(sv));
    }
    let mut i: usize = 0;
    while i < syms.len()
        invariant
            sv == syms@,
            i <= sv.len(),
            demux(sv) == records_abs(out@) + demux_from(
                sv.skip(i as int),
                name@,
                content@,
                in_content,
            ),
        decreases sv.len() - i,
    {
        let ghost out0 = out@;
        let c = syms[i];
        proof {
            assert(sv.skip(i as int)[0] == c);
            assert(sv.skip(i as int).drop_first() =~= sv.skip(i as int + 1));
        }
        if c == SENTINEL_NAME {
            in_content = true;
        } else if c == SENTINEL_RECORD {
            if !(name.as_str().is_empty() && content.as_str().is_empty()) {
                let ghost nv = name@;
                let ghost cv = content@;
                let rec = FileRecord { name, content };
                out.push(rec);
                proof {
                    assert(records_abs(out@) =~= records_abs(out0) + seq![(nv, cv)]);
                    assert(records_abs(out0) + (seq![(nv, cv)] + demux_from(
                        sv.skip(i as int + 1),
                        Seq::empty(),
                        Seq::empty(),
                        false,
                    )) =~= (records_abs(out0) + seq![(nv, cv)]) + demux_from(
                        sv.skip(i as int + 1),
                        Seq::empty(),
                        Seq::empty(),
                        false,
                    ));
                }
                name = String::new();
                content = String::new();
            } else {
                proof {
                    assert(name@ =~= Seq::<char>::empty());
                    assert(content@ =~= Seq::<char>::empty());
                }
            }
            in_content = false;
        } else if !in_content {
            name.push(c);
        } else {
            content.push(c);
        }
        i = i + 1;
    }
    proof {
        assert(sv.skip(sv.len() as int) =~= Seq::<char>::empty());
        assert(records_abs(out@) + Seq::<(Seq<char>, Seq<char>)>::empty() =~= records_abs(out@));
    }
    out
}

} // verus!
