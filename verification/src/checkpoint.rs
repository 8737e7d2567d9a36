//! The checkpoint byte format: a structured, versionless serialization of
//! agent state that round-trips losslessly.
//!
//! Every value is encoded with fixed little-endian integers and
//! length-prefixed UTF-8 text, so a checkpoint is portable bytes. The
//! decoder is total: any byte string either decodes to a state or is
//! rejected.

use vstd::prelude::*;

use vstd::utf8::{decode_utf8, encode_utf8, valid_utf8};

use crate::record::{pairs_view, records_view, MemoryRecord, RecordView};
use crate::types::{AgentState, AgentStateView};

verus! {

/// The eight little-endian bytes of `x`.
pub open spec fn enc_u64(x: u64) -> Seq<u8> {
    seq![
        (x & 0xff) as u8,
        ((x >> 8) & 0xff) as u8,
        ((x >> 16) & 0xff) as u8,
        ((x >> 24) & 0xff) as u8,
        ((x >> 32) & 0xff) as u8,
        ((x >> 40) & 0xff) as u8,
        ((x >> 48) & 0xff) as u8,
        ((x >> 56) & 0xff) as u8,
    ]
}

/// The value of eight little-endian bytes.
#[verifier::opaque]
pub open spec fn dec_u64(b: Seq<u8>) -> u64 {
    ((b[0] as u64) | ((b[1] as u64) << 8) | ((b[2] as u64) << 16) | ((b[3] as u64) << 24) | ((
    b[4] as u64) << 32) | ((b[5] as u64) << 40) | ((b[6] as u64) << 48) | ((b[7] as u64) << 56))
}

/// Eight little-endian bytes decode to the value they came from.
pub proof fn lemma_u64_roundtrip(x: u64)
    ensures
        dec_u64(enc_u64(x)) == x,
{
    let b0 = (x & 0xff) as u8;
    let b1 = ((x >> 8) & 0xff) as u8;
    let b2 = ((x >> 16) & 0xff) as u8;
    let b3 = ((x >> 24) & 0xff) as u8;
    let b4 = ((x >> 32) & 0xff) as u8;
    let b5 = ((x >> 40) & 0xff) as u8;
    let b6 = ((x >> 48) & 0xff) as u8;
    let b7 = ((x >> 56) & 0xff) as u8;
    reveal(dec_u64);
    assert((b0 as u64) | ((b1 as u64) << 8) | ((b2 as u64) << 16) | ((b3 as u64) << 24) | ((
    b4 as u64) << 32) | ((b5 as u64) << 40) | ((b6 as u64) << 48) | ((b7 as u64) << 56) == x)
        by (bit_vector)
        requires
            b0 == (x & 0xff) as u8,
            b1 == ((x >> 8) & 0xff) as u8,
            b2 == ((x >> 16) & 0xff) as u8,
            b3 == ((x >> 24) & 0xff) as u8,
            b4 == ((x >> 32) & 0xff) as u8,
            b5 == ((x >> 40) & 0xff) as u8,
            b6 == ((x >> 48) & 0xff) as u8,
            b7 == ((x >> 56) & 0xff) as u8,
    ;
}

/// Reading a `u64` at position `p`: the decoded value and the next
/// position, or nothing when fewer than eight bytes remain.
pub open spec fn read_u64(b: Seq<u8>, p: int) -> Option<(u64, int)> {
    if 0 <= p && p + 8 <= b.len() {
        Some((dec_u64(b.subrange(p, p + 8)), p + 8))
    } else {
        None
    }
}

/// Reading at the position where `enc_u64(x)` was placed yields `x`.
pub proof fn lemma_read_u64(b: Seq<u8>, p: int, x: u64)
    requires
        0 <= p,
        p + 8 <= b.len(),
        b.subrange(p, p + 8) == enc_u64(x),
    ensures
        read_u64(b, p) == Some((x, p + 8)),
{
    lemma_u64_roundtrip(x);
}

/// Appends the eight little-endian bytes of `x`.
pub fn write_u64(out: &mut Vec<u8>, x: u64)
    ensures
        final(out)@ == old(out)@ + enc_u64(x),
{
    let ghost before = out@;
    out.push((x & 0xff) as u8);
    out.push(((x >> 8) & 0xff) as u8);
    out.push(((x >> 16) & 0xff) as u8);
    out.push(((x >> 24) & 0xff) as u8);
    out.push(((x >> 32) & 0xff) as u8);
    out.push(((x >> 40) & 0xff) as u8);
    out.push(((x >> 48) & 0xff) as u8);
    out.push(((x >> 56) & 0xff) as u8);
    proof {
        assert(out@ =~= before + enc_u64(x));
    }
}

/// Reads a `u64` at position `p`.
pub fn get_u64(b: &Vec<u8>, p: usize) -> (r: Option<(u64, usize)>)
    ensures
        match r {
            Some((x, q)) => read_u64(b@, p as int) == Some((x, q as int)),
            None => read_u64(b@, p as int) is None,
        },
{
    let n = b.len();
    if p >= n || n - p < 8 {
        return None;
    }
    let x = (b[p] as u64) | ((b[p + 1] as u64) << 8) | ((b[p + 2] as u64) << 16) | ((b[p
        + 3] as u64) << 24) | ((b[p + 4] as u64) << 32) | ((b[p + 5] as u64) << 40) | ((b[p
        + 6] as u64) << 48) | ((b[p + 7] as u64) << 56);
    proof {
        reveal(dec_u64);
        let s = b@.subrange(p as int, p + 8 as int);
        assert(s[0] == b@[p as int]);
        assert(s[1] == b@[p + 1 as int]);
        assert(s[2] == b@[p + 2 as int]);
        assert(s[3] == b@[p + 3 as int]);
        assert(s[4] == b@[p + 4 as int]);
        assert(s[5] == b@[p + 5 as int]);
        assert(s[6] == b@[p + 6 as int]);
        assert(s[7] == b@[p + 7 as int]);
    }
    Some((x, p + 8))
}

/// The little-endian encoding of a signed 64-bit value: its two's
/// complement bits.
pub open spec fn enc_i64(x: i64) -> Seq<u8> {
    enc_u64(x as u64)
}

/// Reading an `i64` at position `p`.
pub open spec fn read_i64(b: Seq<u8>, p: int) -> Option<(i64, int)> {
    match read_u64(b, p) {
        Some((x, q)) => Some(((x as i64), q)),
        None => None,
    }
}

/// Reading at the position where `enc_i64(x)` was placed yields `x`.
pub proof fn lemma_read_i64(b: Seq<u8>, p: int, x: i64)
    requires
        0 <= p,
        p + 8 <= b.len(),
        b.subrange(p, p + 8) == enc_i64(x),
    ensures
        read_i64(b, p) == Some((x, p + 8)),
{
    lemma_read_u64(b, p, x as u64);
    let u = x as u64;
    assert(u as i64 == x) by (bit_vector)
        requires
            u == x as u64,
    ;
}

/// Appends the eight little-endian bytes of `x`.
pub fn write_i64(out: &mut Vec<u8>, x: i64)
    ensures
        final(out)@ == old(out)@ + enc_i64(x),
{
    write_u64(out, x as u64)
}

/// Reads an `i64` at position `p`.
pub fn get_i64(b: &Vec<u8>, p: usize) -> (r: Option<(i64, usize)>)
    ensures
        match r {
            Some((x, q)) => read_i64(b@, p as int) == Some((x, q as int)),
            None => read_i64(b@, p as int) is None,
        },
{
    match get_u64(b, p) {
        Some((x, q)) => Some(((x as i64), q)),
        None => None,
    }
}

/// The sixteen little-endian bytes of a 128-bit value: low half first.
pub open spec fn enc_u128(x: u128) -> Seq<u8> {
    enc_u64(x as u64) + enc_u64((x >> 64) as u64)
}

/// Reading a `u128` at position `p`.
pub open spec fn read_u128(b: Seq<u8>, p: int) -> Option<(u128, int)> {
    match read_u64(b, p) {
        Some((lo, q)) => match read_u64(b, q) {
            Some((hi, q2)) => Some(((lo as u128) | ((hi as u128) << 64), q2)),
            None => None,
        },
        None => None,
    }
}

/// Reading at the position where `enc_u128(x)` was placed yields `x`.
pub proof fn lemma_read_u128(b: Seq<u8>, p: int, x: u128)
    requires
        0 <= p,
        p + 16 <= b.len(),
        b.subrange(p, p + 16) == enc_u128(x),
    ensures
        read_u128(b, p) == Some((x, p + 16)),
{
    let lo = x as u64;
    let hi = (x >> 64) as u64;
    assert forall|i: int| 0 <= i < 8 implies b.subrange(p, p + 8)[i] == enc_u64(lo)[i] by {
        assert(b.subrange(p, p + 16)[i] == (enc_u64(lo) + enc_u64(hi))[i]);
    }
    assert(b.subrange(p, p + 8) =~= enc_u64(lo));
    assert forall|i: int| 0 <= i < 8 implies b.subrange(p + 8, p + 16)[i] == enc_u64(hi)[i] by {
        assert(b.subrange(p, p + 16)[8 + i] == (enc_u64(lo) + enc_u64(hi))[8 + i]);
    }
    assert(b.subrange(p + 8, p + 16) =~= enc_u64(hi));
    lemma_read_u64(b, p, lo);
    lemma_read_u64(b, p + 8, hi);
    assert((lo as u128) | ((hi as u128) << 64) == x) by (bit_vector)
        requires
            lo == x as u64,
            hi == (x >> 64) as u64,
    ;
}

/// Appends the sixteen little-endian bytes of `x`.
pub fn write_u128(out: &mut Vec<u8>, x: u128)
    ensures
        final(out)@ == old(out)@ + enc_u128(x),
{
    let ghost before = out@;
    write_u64(out, x as u64);
    write_u64(out, (x >> 64) as u64);
    proof {
        assert(out@ =~= before + enc_u128(x));
    }
}

/// Reads a `u128` at position `p`.
pub fn get_u128(b: &Vec<u8>, p: usize) -> (r: Option<(u128, usize)>)
    ensures
        match r {
            Some((x, q)) => read_u128(b@, p as int) == Some((x, q as int)),
            None => read_u128(b@, p as int) is None,
        },
{
    match get_u64(b, p) {
        Some((lo, q)) => match get_u64(b, q) {
            Some((hi, q2)) => Some(((lo as u128) | ((hi as u128) << 64), q2)),
            None => None,
        },
        None => None,
    }
}

/// A placed encoding splits into its two parts.
pub proof fn lemma_subrange_split(b: Seq<u8>, p: int, x: Seq<u8>, y: Seq<u8>)
    requires
        0 <= p,
        p + x.len() + y.len() <= b.len(),
        b.subrange(p, p + x.len() + y.len()) == x + y,
    ensures
        b.subrange(p, p + x.len() as int) == x,
        b.subrange(p + x.len(), p + x.len() + y.len()) == y,
{
    assert forall|i: int| 0 <= i < x.len() implies b.subrange(p, p + x.len() as int)[i]
        == x[i] by {
        assert(b.subrange(p, p + x.len() + y.len())[i] == (x + y)[i]);
    }
    assert(b.subrange(p, p + x.len() as int) =~= x);
    assert forall|i: int| 0 <= i < y.len() implies b.subrange(
        p + x.len(),
        p + x.len() + y.len(),
    )[i] == y[i] by {
        assert(b.subrange(p, p + x.len() + y.len())[x.len() + i] == (x + y)[x.len() + i]);
        assert((x + y)[x.len() + i] == y[i]);
        assert(b.subrange(p, p + x.len() + y.len())[x.len() + i] == b[p + x.len() + i]);
        assert(b.subrange(p + x.len(), p + x.len() + y.len())[i] == b[p + x.len() + i]);
    }
    assert(b.subrange(p + x.len(), p + x.len() + y.len()) =~= y);
}

/// The one-byte encoding of a tag.
pub open spec fn enc_u8(x: u8) -> Seq<u8> {
    seq![x]
}

/// Reading one byte at position `p`.
pub open spec fn read_u8(b: Seq<u8>, p: int) -> Option<(u8, int)> {
    if 0 <= p && p + 1 <= b.len() {
        Some((b[p], p + 1))
    } else {
        None
    }
}

/// Reading at the position where `enc_u8(x)` was placed yields `x`.
pub proof fn lemma_read_u8(b: Seq<u8>, p: int, x: u8)
    requires
        0 <= p,
        p + 1 <= b.len(),
        b.subrange(p, p + 1) == enc_u8(x),
    ensures
        read_u8(b, p) == Some((x, p + 1)),
{
    assert(b.subrange(p, p + 1)[0] == b[p]);
}

/// Reads one byte at position `p`.
pub fn get_u8(b: &Vec<u8>, p: usize) -> (r: Option<(u8, usize)>)
    ensures
        match r {
            Some((x, q)) => read_u8(b@, p as int) == Some((x, q as int)),
            None => read_u8(b@, p as int) is None,
        },
{
    if p < b.len() {
        Some((b[p], p + 1))
    } else {
        None
    }
}

/// The encoding of text: its UTF-8 byte count, then the bytes.
pub open spec fn enc_str(s: Seq<char>) -> Seq<u8> {
    enc_u64(encode_utf8(s).len() as u64) + encode_utf8(s)
}

/// Reading text at position `p`: a byte count, then that many bytes, which
/// must be valid UTF-8.
pub open spec fn read_str(b: Seq<u8>, p: int) -> Option<(Seq<char>, int)> {
    match read_u64(b, p) {
        Some((len, q)) => if q + len <= b.len() {
            if valid_utf8(b.subrange(q, q + len)) {
                Some((decode_utf8(b.subrange(q, q + len)), q + len))
            } else {
                None
            }
        } else {
            None
        },
        None => None,
    }
}

/// Reading at the position where `enc_str(s)` was placed yields `s`.
pub proof fn lemma_read_str(b: Seq<u8>, p: int, s: Seq<char>)
    requires
        0 <= p,
        encode_utf8(s).len() <= u64::MAX,
        p + enc_str(s).len() <= b.len(),
        b.subrange(p, p + enc_str(s).len()) == enc_str(s),
    ensures
        read_str(b, p) == Some((s, p + enc_str(s).len())),
{
    broadcast use vstd::utf8::encode_utf8_valid_utf8, vstd::utf8::encode_utf8_decode_utf8;

    let bytes = encode_utf8(s);
    let lenu = bytes.len() as u64;
    lemma_subrange_split(b, p, enc_u64(lenu), bytes);
    lemma_read_u64(b, p, lenu);
    assert(decode_utf8(bytes) == s);
}

/// Relies on `String::from_utf8`: it returns the string holding exactly the
/// given bytes when they are valid UTF-8, and fails exactly when they are
/// not.
#[verifier::external_body]
fn string_from_utf8(v: Vec<u8>) -> (r: Option<String>)
    ensures
        r is Some <==> valid_utf8(v@),
        r is Some ==> encode_utf8(r->Some_0@) == v@,
{
    String::from_utf8(v).ok()
}

/// Copies the byte range `lo..hi` of `v`.
fn copy_bytes(v: &Vec<u8>, lo: usize, hi: usize) -> (r: Vec<u8>)
    requires
        lo <= hi <= v@.len(),
    ensures
        r@ == v@.subrange(lo as int, hi as int),
{
    let mut out: Vec<u8> = Vec::new();
    let mut i: usize = lo;
    while i < hi
        invariant
            lo <= i <= hi <= v@.len(),
            out@ == v@.subrange(lo as int, i as int),
        decreases hi - i,
    {
        out.push(v[i]);
        assert(out@ =~= v@.subrange(lo as int, i + 1 as int));
        i = i + 1;
    }
    out
}

/// Appends the encoding of a string.
pub fn write_str(out: &mut Vec<u8>, s: &str)
    ensures
        final(out)@ == old(out)@ + enc_str(s@),
{
    let ghost before = out@;
    let bytes = s.as_bytes_vec();
    write_u64(out, bytes.len() as u64);
    let n = bytes.len();
    let mut i: usize = 0;
    while i < n
        invariant
            n == bytes@.len(),
            i <= n,
            out@ == before + enc_u64(bytes@.len() as u64) + bytes@.subrange(0, i as int),
        decreases n - i,
    {
        out.push(bytes[i]);
        assert(out@ =~= before + enc_u64(bytes@.len() as u64) + bytes@.subrange(0, i + 1 as int));
        i = i + 1;
    }
    proof {
        assert(out@ =~= before + enc_str(s@));
    }
}

/// Reads a string at position `p`.
pub fn get_str(b: &Vec<u8>, p: usize) -> (r: Option<(String, usize)>)
    ensures
        match r {
            Some((s, q)) => read_str(b@, p as int) == Some((s@, q as int)),
            None => read_str(b@, p as int) is None,
        },
{
    let n = b.len();
    match get_u64(b, p) {
        Some((len_u64, q)) => {
            if len_u64 > (n - q) as u64 {
                return None;
            }
            let len = len_u64 as usize;
            let bytes = copy_bytes(b, q, q + len);
            match string_from_utf8(bytes) {
                Some(s) => {
                    proof {
                        broadcast use vstd::utf8::encode_utf8_decode_utf8;

                        assert(decode_utf8(b@.subrange(q as int, q + len as int)) == s@);
                    }
                    Some((s, q + len))
                },
                None => None,
            }
        },
        None => None,
    }
}

/// The text is short enough for its byte count to be encoded.
pub open spec fn bounded_str(s: Seq<char>) -> bool {
    encode_utf8(s).len() <= u64::MAX
}

/// The encoding of a metadata pair: key, then value.
pub open spec fn enc_pair(p: (Seq<char>, Seq<char>)) -> Seq<u8> {
    enc_str(p.0) + enc_str(p.1)
}

/// The encoding of metadata pairs, in order.
pub open spec fn enc_pairs(ps: Seq<(Seq<char>, Seq<char>)>) -> Seq<u8>
    decreases ps.len(),
{
    if ps.len() == 0 {
        Seq::empty()
    } else {
        enc_pair(ps[0]) + enc_pairs(ps.skip(1))
    }
}

/// Reading `count` metadata pairs at position `p`.
pub open spec fn read_pairs(b: Seq<u8>, p: int, count: int) -> Option<
    (Seq<(Seq<char>, Seq<char>)>, int),
>
    decreases count,
{
    if count <= 0 {
        Some((Seq::empty(), p))
    } else {
        match read_str(b, p) {
            Some((k, q)) => match read_str(b, q) {
                Some((v, q2)) => match read_pairs(b, q2, count - 1) {
                    Some((rest, q3)) => Some((seq![(k, v)] + rest, q3)),
                    None => None,
                },
                None => None,
            },
            None => None,
        }
    }
}

/// Reading at the position where `enc_pairs(ps)` was placed yields `ps`.
pub proof fn lemma_read_pairs(b: Seq<u8>, p: int, ps: Seq<(Seq<char>, Seq<char>)>)
    requires
        0 <= p,
        forall|i: int|
            0 <= i < ps.len() ==> bounded_str((#[trigger] ps[i]).0) && bounded_str(ps[i].1),
        p + enc_pairs(ps).len() <= b.len(),
        b.subrange(p, p + enc_pairs(ps).len()) == enc_pairs(ps),
    ensures
        read_pairs(b, p, ps.len() as int) == Some((ps, p + enc_pairs(ps).len())),
    decreases ps.len(),
{
    if ps.len() == 0 {
        assert(ps =~= Seq::<(Seq<char>, Seq<char>)>::empty());
    } else {
        let k = ps[0].0;
        let v = ps[0].1;
        let rest = ps.skip(1);
        assert(enc_pair(ps[0]) + enc_pairs(rest) =~= enc_str(k) + (enc_str(v) + enc_pairs(rest)));
        lemma_subrange_split(b, p, enc_str(k), enc_str(v) + enc_pairs(rest));
        lemma_subrange_split(b, p + enc_str(k).len(), enc_str(v), enc_pairs(rest));
        lemma_read_str(b, p, k);
        lemma_read_str(b, p + enc_str(k).len(), v);
        lemma_read_pairs(b, p + enc_str(k).len() + enc_str(v).len(), rest);
        assert(seq![(k, v)] + rest =~= ps);
    }
}

/// Appends the encoding of metadata pairs.
pub fn write_pairs(out: &mut Vec<u8>, v: &Vec<(String, String)>)
    ensures
        final(out)@ == old(out)@ + enc_pairs(pairs_view(v@)),
{
    let ghost before = out@;
    let ghost ps = pairs_view(v@);
    let n = v.len();
    let mut i: usize = 0;
    proof {
        assert(ps.skip(0) =~= ps);
        assert(out@ + enc_pairs(ps.skip(0)) =~= before + enc_pairs(ps));
    }
    while i < n
        invariant
            n == v@.len(),
            i <= n,
            ps == pairs_view(v@),
            out@ + enc_pairs(ps.skip(i as int)) == before + enc_pairs(ps),
        decreases n - i,
    {
        let ghost tail = ps.skip(i as int);
        proof {
            assert(tail[0] == ps[i as int]);
            assert(tail.skip(1) =~= ps.skip(i + 1 as int));
            assert(enc_pairs(tail) == enc_pair(ps[i as int]) + enc_pairs(ps.skip(i + 1 as int)));
        }
        let ghost mid0 = out@;
        write_str(out, v[i].0.as_str());
        write_str(out, v[i].1.as_str());
        proof {
            assert(out@ =~= mid0 + enc_pair(ps[i as int]));
            assert(out@ + enc_pairs(ps.skip(i + 1 as int)) =~= mid0 + enc_pairs(tail));
        }
        i = i + 1;
    }
    proof {
        assert(ps.skip(n as int) =~= Seq::<(Seq<char>, Seq<char>)>::empty());
        assert(out@ + enc_pairs(ps.skip(n as int)) =~= out@);
    }
}

/// Reads `count` metadata pairs at position `p`.
pub fn get_pairs(b: &Vec<u8>, p: usize, count: u64) -> (r: Option<(Vec<(String, String)>, usize)>)
    ensures
        match r {
            Some((ps, q)) => read_pairs(b@, p as int, count as int) == Some(
                (pairs_view(ps@), q as int),
            ),
            None => read_pairs(b@, p as int, count as int) is None,
        },
    decreases count,
{
    if count == 0 {
        let empty: Vec<(String, String)> = Vec::new();
        proof {
            assert(pairs_view(empty@) =~= Seq::<(Seq<char>, Seq<char>)>::empty());
        }
        return Some((empty, p));
    }
    match get_str(b, p) {
        Some((k, q)) => match get_str(b, q) {
            Some((v, q2)) => match get_pairs(b, q2, count - 1) {
                Some((mut rest, q3)) => {
                    let ghost rest0 = rest@;
                    let ghost kv = (k@, v@);
                    rest.insert(0, (k, v));
                    proof {
                        assert(pairs_view(rest@) =~= seq![kv] + pairs_view(rest0));
                    }
                    Some((rest, q3))
                },
                None => None,
            },
            None => None,
        },
        None => None,
    }
}

/// The encoding of the fixed-point embedding components, in order.
pub open spec fn enc_i64s(s: Seq<i64>) -> Seq<u8>
    decreases s.len(),
{
    if s.len() == 0 {
        Seq::empty()
    } else {
        enc_i64(s[0]) + enc_i64s(s.skip(1))
    }
}

/// Reading `count` components at position `p`.
pub open spec fn read_i64s(b: Seq<u8>, p: int, count: int) -> Option<(Seq<i64>, int)>
    decreases count,
{
    if count <= 0 {
        Some((Seq::empty(), p))
    } else {
        match read_i64(b, p) {
            Some((x, q)) => match read_i64s(b, q, count - 1) {
                Some((rest, q2)) => Some((seq![x] + rest, q2)),
                None => None,
            },
            None => None,
        }
    }
}

/// Reading at the position where `enc_i64s(s)` was placed yields `s`.
pub proof fn lemma_read_i64s(b: Seq<u8>, p: int, s: Seq<i64>)
    requires
        0 <= p,
        p + enc_i64s(s).len() <= b.len(),
        b.subrange(p, p + enc_i64s(s).len()) == enc_i64s(s),
    ensures
        read_i64s(b, p, s.len() as int) == Some((s, p + enc_i64s(s).len())),
    decreases s.len(),
{
    if s.len() == 0 {
        assert(s =~= Seq::<i64>::empty());
    } else {
        let rest = s.skip(1);
        lemma_subrange_split(b, p, enc_i64(s[0]), enc_i64s(rest));
        lemma_read_i64(b, p, s[0]);
        lemma_read_i64s(b, p + 8, rest);
        assert(seq![s[0]] + rest =~= s);
    }
}

/// Appends the encoding of embedding components.
pub fn write_i64s(out: &mut Vec<u8>, v: &Vec<i64>)
    ensures
        final(out)@ == old(out)@ + enc_i64s(v@),
{
    let ghost before = out@;
    let n = v.len();
    let mut i: usize = 0;
    proof {
        assert(v@.skip(0) =~= v@);
        assert(out@ + enc_i64s(v@.skip(0)) =~= before + enc_i64s(v@));
    }
    while i < n
        invariant
            n == v@.len(),
            i <= n,
            out@ + enc_i64s(v@.skip(i as int)) == before + enc_i64s(v@),
        decreases n - i,
    {
        let ghost tail = v@.skip(i as int);
        proof {
            assert(tail[0] == v@[i as int]);
            assert(tail.skip(1) =~= v@.skip(i + 1 as int));
            assert(enc_i64s(tail) == enc_i64(v@[i as int]) + enc_i64s(v@.skip(i + 1 as int)));
        }
        let ghost mid0 = out@;
        write_i64(out, v[i]);
        proof {
            assert(out@ + enc_i64s(v@.skip(i + 1 as int)) =~= mid0 + enc_i64s(tail));
        }
        i = i + 1;
    }
    proof {
        assert(v@.skip(n as int) =~= Seq::<i64>::empty());
        assert(out@ + enc_i64s(v@.skip(n as int)) =~= out@);
    }
}

/// Reads `count` components at position `p`.
pub fn get_i64s(b: &Vec<u8>, p: usize, count: u64) -> (r: Option<(Vec<i64>, usize)>)
    ensures
        match r {
            Some((s, q)) => read_i64s(b@, p as int, count as int) == Some((s@, q as int)),
            None => read_i64s(b@, p as int, count as int) is None,
        },
    decreases count,
{
    if count == 0 {
        let empty: Vec<i64> = Vec::new();
        proof {
            assert(empty@ =~= Seq::<i64>::empty());
        }
        return Some((empty, p));
    }
    match get_i64(b, p) {
        Some((x, q)) => match get_i64s(b, q, count - 1) {
            Some((mut rest, q2)) => {
                let ghost rest0 = rest@;
                rest.insert(0, x);
                proof {
                    assert(rest@ =~= seq![x] + rest0);
                }
                Some((rest, q2))
            },
            None => None,
        },
        None => None,
    }
}

/// The encoding of a list of identifiers, in order.
pub open spec fn enc_strs(s: Seq<Seq<char>>) -> Seq<u8>
    decreases s.len(),
{
    if s.len() == 0 {
        Seq::empty()
    } else {
        enc_str(s[0]) + enc_strs(s.skip(1))
    }
}

/// Reading `count` identifiers at position `p`.
pub open spec fn read_strs(b: Seq<u8>, p: int, count: int) -> Option<(Seq<Seq<char>>, int)>
    decreases count,
{
    if count <= 0 {
        Some((Seq::empty(), p))
    } else {
        match read_str(b, p) {
            Some((x, q)) => match read_strs(b, q, count - 1) {
                Some((rest, q2)) => Some((seq![x] + rest, q2)),
                None => None,
            },
            None => None,
        }
    }
}

/// Reading at the position where `enc_strs(s)` was placed yields `s`.
pub proof fn lemma_read_strs(b: Seq<u8>, p: int, s: Seq<Seq<char>>)
    requires
        0 <= p,
        forall|i: int| 0 <= i < s.len() ==> bounded_str(#[trigger] s[i]),
        p + enc_strs(s).len() <= b.len(),
        b.subrange(p, p + enc_strs(s).len()) == enc_strs(s),
    ensures
        read_strs(b, p, s.len() as int) == Some((s, p + enc_strs(s).len())),
    decreases s.len(),
{
    if s.len() == 0 {
        assert(s =~= Seq::<Seq<char>>::empty());
    } else {
        let rest = s.skip(1);
        lemma_subrange_split(b, p, enc_str(s[0]), enc_strs(rest));
        lemma_read_str(b, p, s[0]);
        lemma_read_strs(b, p + enc_str(s[0]).len(), rest);
        assert(seq![s[0]] + rest =~= s);
    }
}

/// Appends the encoding of a list of identifiers.
pub fn write_strs(out: &mut Vec<u8>, v: &Vec<String>)
    ensures
        final(out)@ == old(out)@ + enc_strs(v@.map_values(|s: String| s@)),
{
    let ghost before = out@;
    let ghost ss = v@.map_values(|s: String| s@);
    let n = v.len();
    let mut i: usize = 0;
    proof {
        assert(ss.skip(0) =~= ss);
        assert(out@ + enc_strs(ss.skip(0)) =~= before + enc_strs(ss));
    }
    while i < n
        invariant
            n == v@.len(),
            i <= n,
            ss == v@.map_values(|s: String| s@),
            out@ + enc_strs(ss.skip(i as int)) == before + enc_strs(ss),
        decreases n - i,
    {
        let ghost tail = ss.skip(i as int);
        proof {
            assert(tail[0] == ss[i as int]);
            assert(tail.skip(1) =~= ss.skip(i + 1 as int));
            assert(enc_strs(tail) == enc_str(ss[i as int]) + enc_strs(ss.skip(i + 1 as int)));
        }
        let ghost mid0 = out@;
        write_str(out, v[i].as_str());
        proof {
            assert(out@ + enc_strs(ss.skip(i + 1 as int)) =~= mid0 + enc_strs(tail));
        }
        i = i + 1;
    }
    proof {
        assert(ss.skip(n as int) =~= Seq::<Seq<char>>::empty());
        assert(out@ + enc_strs(ss.skip(n as int)) =~= out@);
    }
}

/// Reads `count` identifiers at position `p`.
pub fn get_strs(b: &Vec<u8>, p: usize, count: u64) -> (r: Option<(Vec<String>, usize)>)
    ensures
        match r {
            Some((s, q)) => read_strs(b@, p as int, count as int) == Some(
                (s@.map_values(|x: String| x@), q as int),
            ),
            None => read_strs(b@, p as int, count as int) is None,
        },
    decreases count,
{
    if count == 0 {
        let empty: Vec<String> = Vec::new();
        proof {
            assert(empty@.map_values(|x: String| x@) =~= Seq::<Seq<char>>::empty());
        }
        return Some((empty, p));
    }
    match get_str(b, p) {
        Some((x, q)) => match get_strs(b, q, count - 1) {
            Some((mut rest, q2)) => {
                let ghost rest0 = rest@;
                let ghost xv = x@;
                rest.insert(0, x);
                proof {
                    assert(rest@.map_values(|s: String| s@) =~= seq![xv] + rest0.map_values(
                        |s: String| s@,
                    ));
                }
                Some((rest, q2))
            },
            None => None,
        },
        None => None,
    }
}

/// The encoding of optional metadata: a presence tag, then the count and
/// the pairs.
pub open spec fn enc_opt_pairs(m: Option<Seq<(Seq<char>, Seq<char>)>>) -> Seq<u8> {
    match m {
        None => enc_u8(0),
        Some(ps) => enc_u8(1) + (enc_u64(ps.len() as u64) + enc_pairs(ps)),
    }
}

/// Reading optional metadata at position `p`.
pub open spec fn read_opt_pairs(b: Seq<u8>, p: int) -> Option<
    (Option<Seq<(Seq<char>, Seq<char>)>>, int),
> {
    match read_u8(b, p) {
        Some((tag, q)) => if tag == 0 {
            Some((None, q))
        } else if tag == 1 {
            match read_u64(b, q) {
                Some((count, q2)) => match read_pairs(b, q2, count as int) {
                    Some((ps, q3)) => Some((Some(ps), q3)),
                    None => None,
                },
                None => None,
            }
        } else {
            None
        },
        None => None,
    }
}

/// Reading at the position where `enc_opt_pairs(m)` was placed yields `m`.
pub proof fn lemma_read_opt_pairs(b: Seq<u8>, p: int, m: Option<Seq<(Seq<char>, Seq<char>)>>)
    requires
        0 <= p,
        m is Some ==> m->Some_0.len() <= u64::MAX && forall|i: int|
            0 <= i < m->Some_0.len() ==> bounded_str((#[trigger] m->Some_0[i]).0) && bounded_str(
                m->Some_0[i].1,
            ),
        p + enc_opt_pairs(m).len() <= b.len(),
        b.subrange(p, p + enc_opt_pairs(m).len()) == enc_opt_pairs(m),
    ensures
        read_opt_pairs(b, p) == Some((m, p + enc_opt_pairs(m).len())),
{
    match m {
        None => {
            lemma_read_u8(b, p, 0);
        },
        Some(ps) => {
            let cnt = ps.len() as u64;
            lemma_subrange_split(b, p, enc_u8(1), enc_u64(cnt) + enc_pairs(ps));
            lemma_subrange_split(b, p + 1, enc_u64(cnt), enc_pairs(ps));
            lemma_read_u8(b, p, 1);
            lemma_read_u64(b, p + 1, cnt);
            lemma_read_pairs(b, p + 9, ps);
        },
    }
}

/// Appends the encoding of optional metadata.
pub fn write_opt_pairs(out: &mut Vec<u8>, m: &Option<Vec<(String, String)>>)
    ensures
        final(out)@ == old(out)@ + enc_opt_pairs(crate::record::opt_pairs_view(*m)),
{
    let ghost before = out@;
    match m {
        None => {
            out.push(0);
            proof {
                assert(out@ =~= before + enc_opt_pairs(None));
            }
        },
        Some(ps) => {
            out.push(1);
            write_u64(out, ps.len() as u64);
            write_pairs(out, ps);
            proof {
                assert(out@ =~= before + enc_opt_pairs(Some(pairs_view(ps@))));
            }
        },
    }
}

/// Reads optional metadata at position `p`.
pub fn get_opt_pairs(b: &Vec<u8>, p: usize) -> (r: Option<(Option<Vec<(String, String)>>, usize)>)
    ensures
        match r {
            Some((m, q)) => read_opt_pairs(b@, p as int) == Some(
                (crate::record::opt_pairs_view(m), q as int),
            ),
            None => read_opt_pairs(b@, p as int) is None,
        },
{
    match get_u8(b, p) {
        Some((tag, q)) => {
            if tag == 0 {
                Some((None, q))
            } else if tag == 1 {
                match get_u64(b, q) {
                    Some((count, q2)) => match get_pairs(b, q2, count) {
                        Some((ps, q3)) => Some((Some(ps), q3)),
                        None => None,
                    },
                    None => None,
                }
            } else {
                None
            }
        },
        None => None,
    }
}

/// The encoding of an optional embedding: a presence tag, then the count
/// and the components.
pub open spec fn enc_opt_i64s(m: Option<Seq<i64>>) -> Seq<u8> {
    match m {
        None => enc_u8(0),
        Some(s) => enc_u8(1) + (enc_u64(s.len() as u64) + enc_i64s(s)),
    }
}

/// Reading an optional embedding at position `p`.
pub open spec fn read_opt_i64s(b: Seq<u8>, p: int) -> Option<(Option<Seq<i64>>, int)> {
    match read_u8(b, p) {
        Some((tag, q)) => if tag == 0 {
            Some((None, q))
        } else if tag == 1 {
            match read_u64(b, q) {
                Some((count, q2)) => match read_i64s(b, q2, count as int) {
                    Some((s, q3)) => Some((Some(s), q3)),
                    None => None,
                },
                None => None,
            }
        } else {
            None
        },
        None => None,
    }
}

/// Reading at the position where `enc_opt_i64s(m)` was placed yields `m`.
pub proof fn lemma_read_opt_i64s(b: Seq<u8>, p: int, m: Option<Seq<i64>>)
    requires
        0 <= p,
        m is Some ==> m->Some_0.len() <= u64::MAX,
        p + enc_opt_i64s(m).len() <= b.len(),
        b.subrange(p, p + enc_opt_i64s(m).len()) == enc_opt_i64s(m),
    ensures
        read_opt_i64s(b, p) == Some((m, p + enc_opt_i64s(m).len())),
{
    match m {
        None => {
            lemma_read_u8(b, p, 0);
        },
        Some(s) => {
            let cnt = s.len() as u64;
            lemma_subrange_split(b, p, enc_u8(1), enc_u64(cnt) + enc_i64s(s));
            lemma_subrange_split(b, p + 1, enc_u64(cnt), enc_i64s(s));
            lemma_read_u8(b, p, 1);
            lemma_read_u64(b, p + 1, cnt);
            lemma_read_i64s(b, p + 9, s);
        },
    }
}

/// Appends the encoding of an optional embedding.
pub fn write_opt_i64s(out: &mut Vec<u8>, m: &Option<Vec<i64>>)
    ensures
        final(out)@ == old(out)@ + enc_opt_i64s(crate::record::opt_embedding_view(*m)),
{
    let ghost before = out@;
    match m {
        None => {
            out.push(0);
            proof {
                assert(out@ =~= before + enc_opt_i64s(None));
            }
        },
        Some(s) => {
            out.push(1);
            write_u64(out, s.len() as u64);
            write_i64s(out, s);
            proof {
                assert(out@ =~= before + enc_opt_i64s(Some(s@)));
            }
        },
    }
}

/// Reads an optional embedding at position `p`.
pub fn get_opt_i64s(b: &Vec<u8>, p: usize) -> (r: Option<(Option<Vec<i64>>, usize)>)
    ensures
        match r {
            Some((m, q)) => read_opt_i64s(b@, p as int) == Some(
                (crate::record::opt_embedding_view(m), q as int),
            ),
            None => read_opt_i64s(b@, p as int) is None,
        },
{
    match get_u8(b, p) {
        Some((tag, q)) => {
            if tag == 0 {
                Some((None, q))
            } else if tag == 1 {
                match get_u64(b, q) {
                    Some((count, q2)) => match get_i64s(b, q2, count) {
                        Some((s, q3)) => Some((Some(s), q3)),
                        None => None,
                    },
                    None => None,
                }
            } else {
                None
            }
        },
        None => None,
    }
}

/// The encoding of an optional identifier list: a presence tag, then the
/// count and the identifiers.
pub open spec fn enc_opt_strs(m: Option<Seq<Seq<char>>>) -> Seq<u8> {
    match m {
        None => enc_u8(0),
        Some(s) => enc_u8(1) + (enc_u64(s.len() as u64) + enc_strs(s)),
    }
}

/// Reading an optional identifier list at position `p`.
pub open spec fn read_opt_strs(b: Seq<u8>, p: int) -> Option<(Option<Seq<Seq<char>>>, int)> {
    match read_u8(b, p) {
        Some((tag, q)) => if tag == 0 {
            Some((None, q))
        } else if tag == 1 {
            match read_u64(b, q) {
                Some((count, q2)) => match read_strs(b, q2, count as int) {
                    Some((s, q3)) => Some((Some(s), q3)),
                    None => None,
                },
                None => None,
            }
        } else {
            None
        },
        None => None,
    }
}

/// Reading at the position where `enc_opt_strs(m)` was placed yields `m`.
pub proof fn lemma_read_opt_strs(b: Seq<u8>, p: int, m: Option<Seq<Seq<char>>>)
    requires
        0 <= p,
        m is Some ==> m->Some_0.len() <= u64::MAX && forall|i: int|
            0 <= i < m->Some_0.len() ==> bounded_str(#[trigger] m->Some_0[i]),
        p + enc_opt_strs(m).len() <= b.len(),
        b.subrange(p, p + enc_opt_strs(m).len()) == enc_opt_strs(m),
    ensures
        read_opt_strs(b, p) == Some((m, p + enc_opt_strs(m).len())),
{
    match m {
        None => {
            lemma_read_u8(b, p, 0);
        },
        Some(s) => {
            let cnt = s.len() as u64;
            lemma_subrange_split(b, p, enc_u8(1), enc_u64(cnt) + enc_strs(s));
            lemma_subrange_split(b, p + 1, enc_u64(cnt), enc_strs(s));
            lemma_read_u8(b, p, 1);
            lemma_read_u64(b, p + 1, cnt);
            lemma_read_strs(b, p + 9, s);
        },
    }
}

/// Appends the encoding of an optional identifier list.
pub fn write_opt_strs(out: &mut Vec<u8>, m: &Option<Vec<String>>)
    ensures
        final(out)@ == old(out)@ + enc_opt_strs(
            match *m {
                Some(s) => Some(s@.map_values(|x: String| x@)),
                None => None,
            },
        ),
{
    let ghost before = out@;
    match m {
        None => {
            out.push(0);
            proof {
                assert(out@ =~= before + enc_opt_strs(None));
            }
        },
        Some(s) => {
            out.push(1);
            write_u64(out, s.len() as u64);
            write_strs(out, s);
            proof {
                assert(out@ =~= before + enc_opt_strs(Some(s@.map_values(|x: String| x@))));
            }
        },
    }
}

/// Reads an optional identifier list at position `p`.
pub fn get_opt_strs(b: &Vec<u8>, p: usize) -> (r: Option<(Option<Vec<String>>, usize)>)
    ensures
        match r {
            Some((m, q)) => read_opt_strs(b@, p as int) == Some(
                (
                    match m {
                        Some(s) => Some(s@.map_values(|x: String| x@)),
                        None => None,
                    },
                    q as int,
                ),
            ),
            None => read_opt_strs(b@, p as int) is None,
        },
{
    match get_u8(b, p) {
        Some((tag, q)) => {
            if tag == 0 {
                Some((None, q))
            } else if tag == 1 {
                match get_u64(b, q) {
                    Some((count, q2)) => match get_strs(b, q2, count) {
                        Some((s, q3)) => Some((Some(s), q3)),
                        None => None,
                    },
                    None => None,
                }
            } else {
                None
            }
        },
        None => None,
    }
}

/// A record small enough to encode: every count fits in the length fields.
pub open spec fn bounded_record(r: RecordView) -> bool {
    bounded_str(r.session_id) && bounded_str(r.role) && bounded_str(r.content) && (r.metadata
        is Some ==> r.metadata->Some_0.len() <= u64::MAX && forall|i: int|
        0 <= i < r.metadata->Some_0.len() ==> bounded_str((#[trigger] r.metadata->Some_0[i]).0)
            && bounded_str(r.metadata->Some_0[i].1)) && (r.embedding is Some
        ==> r.embedding->Some_0.len() <= u64::MAX)
}

/// The encoding of one memory record: identifier, session, role, content,
/// importance, timestamp, metadata, embedding.
pub open spec fn enc_record(r: RecordView) -> Seq<u8> {
    enc_u128(r.id) + (enc_str(r.session_id) + (enc_str(r.role) + (enc_str(r.content) + (enc_i64(
        r.importance,
    ) + (enc_i64(r.timestamp) + (enc_opt_pairs(r.metadata) + enc_opt_i64s(r.embedding)))))))
}

/// Reading one memory record at position `p`.
pub open spec fn read_record(b: Seq<u8>, p: int) -> Option<(RecordView, int)> {
    match read_u128(b, p) {
        Some((id, p1)) => match read_str(b, p1) {
            Some((session_id, p2)) => match read_str(b, p2) {
                Some((role, p3)) => match read_str(b, p3) {
                    Some((content, p4)) => match read_i64(b, p4) {
                        Some((importance, p5)) => match read_i64(b, p5) {
                            Some((timestamp, p6)) => match read_opt_pairs(b, p6) {
                                Some((metadata, p7)) => match read_opt_i64s(b, p7) {
                                    Some((embedding, p8)) => Some(
                                        (
                                            RecordView {
                                                id,
                                                session_id,
                                                role,
                                                content,
                                                importance,
                                                timestamp,
                                                metadata,
                                                embedding,
                                            },
                                            p8,
                                        ),
                                    ),
                                    None => None,
                                },
                                None => None,
                            },
                            None => None,
                        },
                        None => None,
                    },
                    None => None,
                },
                None => None,
            },
            None => None,
        },
        None => None,
    }
}

/// Reading at the position where `enc_record(r)` was placed yields `r`.
pub proof fn lemma_read_record(b: Seq<u8>, p: int, r: RecordView)
    requires
        0 <= p,
        bounded_record(r),
        p + enc_record(r).len() <= b.len(),
        b.subrange(p, p + enc_record(r).len()) == enc_record(r),
    ensures
        read_record(b, p) == Some((r, p + enc_record(r).len())),
{
    let e1 = enc_u128(r.id);
    let e2 = enc_str(r.session_id);
    let e3 = enc_str(r.role);
    let e4 = enc_str(r.content);
    let e5 = enc_i64(r.importance);
    let e6 = enc_i64(r.timestamp);
    let e7 = enc_opt_pairs(r.metadata);
    let e8 = enc_opt_i64s(r.embedding);
    let p1 = p + e1.len();
    let p2 = p1 + e2.len();
    let p3 = p2 + e3.len();
    let p4 = p3 + e4.len();
    let p5 = p4 + e5.len();
    let p6 = p5 + e6.len();
    let p7 = p6 + e7.len();
    lemma_subrange_split(b, p, e1, e2 + (e3 + (e4 + (e5 + (e6 + (e7 + e8))))));
    lemma_subrange_split(b, p1, e2, e3 + (e4 + (e5 + (e6 + (e7 + e8)))));
    lemma_subrange_split(b, p2, e3, e4 + (e5 + (e6 + (e7 + e8))));
    lemma_subrange_split(b, p3, e4, e5 + (e6 + (e7 + e8)));
    lemma_subrange_split(b, p4, e5, e6 + (e7 + e8));
    lemma_subrange_split(b, p5, e6, e7 + e8);
    lemma_subrange_split(b, p6, e7, e8);
    lemma_read_u128(b, p, r.id);
    lemma_read_str(b, p1, r.session_id);
    lemma_read_str(b, p2, r.role);
    lemma_read_str(b, p3, r.content);
    lemma_read_i64(b, p4, r.importance);
    lemma_read_i64(b, p5, r.timestamp);
    lemma_read_opt_pairs(b, p6, r.metadata);
    lemma_read_opt_i64s(b, p7, r.embedding);
}

/// Appends the encoding of one memory record.
pub fn write_record(out: &mut Vec<u8>, r: &MemoryRecord)
    ensures
        final(out)@ == old(out)@ + enc_record(r@),
{
    let ghost before = out@;
    write_u128(out, r.id);
    write_str(out, r.session_id.as_str());
    write_str(out, r.role.as_str());
    write_str(out, r.content.as_str());
    write_i64(out, r.importance);
    write_i64(out, r.timestamp);
    write_opt_pairs(out, &r.metadata);
    write_opt_i64s(out, &r.embedding);
    proof {
        assert(out@ =~= before + enc_record(r@));
    }
}

/// Reads one memory record at position `p`.
pub fn get_record(b: &Vec<u8>, p: usize) -> (r: Option<(MemoryRecord, usize)>)
    ensures
        match r {
            Some((rec, q)) => read_record(b@, p as int) == Some((rec@, q as int)),
            None => read_record(b@, p as int) is None,
        },
{
    match get_u128(b, p) {
        Some((id, p1)) => match get_str(b, p1) {
            Some((session_id, p2)) => match get_str(b, p2) {
                Some((role, p3)) => match get_str(b, p3) {
                    Some((content, p4)) => match get_i64(b, p4) {
                        Some((importance, p5)) => match get_i64(b, p5) {
                            Some((timestamp, p6)) => match get_opt_pairs(b, p6) {
                                Some((metadata, p7)) => match get_opt_i64s(b, p7) {
                                    Some((embedding, p8)) => {
                                        let rec = MemoryRecord {
                                            id,
                                            session_id,
                                            role,
                                            content,
                                            importance,
                                            timestamp,
                                            metadata,
                                            embedding,
                                        };
                                        Some((rec, p8))
                                    },
                                    None => None,
                                },
                                None => None,
                            },
                            None => None,
                        },
                        None => None,
                    },
                    None => None,
                },
                None => None,
            },
            None => None,
        },
        None => None,
    }
}

/// The encoding of a list of records, in order.
pub open spec fn enc_records(rs: Seq<RecordView>) -> Seq<u8>
    decreases rs.len(),
{
    if rs.len() == 0 {
        Seq::empty()
    } else {
        enc_record(rs[0]) + enc_records(rs.skip(1))
    }
}

/// Reading `count` records at position `p`.
pub open spec fn read_records(b: Seq<u8>, p: int, count: int) -> Option<(Seq<RecordView>, int)>
    decreases count,
{
    if count <= 0 {
        Some((Seq::empty(), p))
    } else {
        match read_record(b, p) {
            Some((r, q)) => match read_records(b, q, count - 1) {
                Some((rest, q2)) => Some((seq![r] + rest, q2)),
                None => None,
            },
            None => None,
        }
    }
}

/// Reading at the position where `enc_records(rs)` was placed yields `rs`.
pub proof fn lemma_read_records(b: Seq<u8>, p: int, rs: Seq<RecordView>)
    requires
        0 <= p,
        forall|i: int| 0 <= i < rs.len() ==> bounded_record(#[trigger] rs[i]),
        p + enc_records(rs).len() <= b.len(),
        b.subrange(p, p + enc_records(rs).len()) == enc_records(rs),
    ensures
        read_records(b, p, rs.len() as int) == Some((rs, p + enc_records(rs).len())),
    decreases rs.len(),
{
    if rs.len() == 0 {
        assert(rs =~= Seq::<RecordView>::empty());
    } else {
        let rest = rs.skip(1);
        lemma_subrange_split(b, p, enc_record(rs[0]), enc_records(rest));
        lemma_read_record(b, p, rs[0]);
        lemma_read_records(b, p + enc_record(rs[0]).len(), rest);
        assert(seq![rs[0]] + rest =~= rs);
    }
}

/// Appends the encoding of a list of records.
pub fn write_records(out: &mut Vec<u8>, v: &Vec<MemoryRecord>)
    ensures
        final(out)@ == old(out)@ + enc_records(records_view(v@)),
{
    let ghost before = out@;
    let ghost rs = records_view(v@);
    let n = v.len();
    let mut i: usize = 0;
    proof {
        assert(rs.skip(0) =~= rs);
        assert(out@ + enc_records(rs.skip(0)) =~= before + enc_records(rs));
    }
    while i < n
        invariant
            n == v@.len(),
            i <= n,
            rs == records_view(v@),
            out@ + enc_records(rs.skip(i as int)) == before + enc_records(rs),
        decreases n - i,
    {
        let ghost tail = rs.skip(i as int);
        proof {
            assert(tail[0] == rs[i as int]);
            assert(tail.skip(1) =~= rs.skip(i + 1 as int));
            assert(enc_records(tail) == enc_record(rs[i as int]) + enc_records(
                rs.skip(i + 1 as int),
            ));
        }
        let ghost mid0 = out@;
        write_record(out, &v[i]);
        proof {
            assert(out@ + enc_records(rs.skip(i + 1 as int)) =~= mid0 + enc_records(tail));
        }
        i = i + 1;
    }
    proof {
        assert(rs.skip(n as int) =~= Seq::<RecordView>::empty());
        assert(out@ + enc_records(rs.skip(n as int)) =~= out@);
    }
}

/// Reads `count` records at position `p`.
pub fn get_records(b: &Vec<u8>, p: usize, count: u64) -> (r: Option<(Vec<MemoryRecord>, usize)>)
    ensures
        match r {
            Some((v, q)) => read_records(b@, p as int, count as int) == Some(
                (records_view(v@), q as int),
            ),
            None => read_records(b@, p as int, count as int) is None,
        },
    decreases count,
{
    if count == 0 {
        let empty: Vec<MemoryRecord> = Vec::new();
        proof {
            assert(records_view(empty@) =~= Seq::<RecordView>::empty());
        }
        return Some((empty, p));
    }
    match get_record(b, p) {
        Some((rec, q)) => match get_records(b, q, count - 1) {
            Some((mut rest, q2)) => {
                let ghost rest0 = rest@;
                let ghost rv = rec@;
                rest.insert(0, rec);
                proof {
                    assert(records_view(rest@) =~= seq![rv] + records_view(rest0));
                }
                Some((rest, q2))
            },
            None => None,
        },
        None => None,
    }
}

/// A checkpoint small enough to encode: every count fits in the length
/// fields.
pub open spec fn bounded_state(sv: AgentStateView) -> bool {
    bounded_str(sv.system_prompt) && sv.short_term.len() <= u64::MAX && (forall|i: int|
        0 <= i < sv.short_term.len() ==> bounded_record(#[trigger] sv.short_term[i])) && (
    sv.joined_spaces is Some ==> sv.joined_spaces->Some_0.len() <= u64::MAX && forall|i: int|
        0 <= i < sv.joined_spaces->Some_0.len() ==> bounded_str(
            #[trigger] sv.joined_spaces->Some_0[i],
        ))
}

/// The encoding of a checkpoint: system prompt, the cached records with
/// their count, the optional joined-space identifiers, and the timestamp.
pub open spec fn enc_state(sv: AgentStateView) -> Seq<u8> {
    enc_str(sv.system_prompt) + (enc_u64(sv.short_term.len() as u64) + (enc_records(sv.short_term)
        + (enc_opt_strs(sv.joined_spaces) + enc_i64(sv.timestamp))))
}

/// Reading a checkpoint at position `p`.
pub open spec fn read_state(b: Seq<u8>, p: int) -> Option<(AgentStateView, int)> {
    match read_str(b, p) {
        Some((system_prompt, p1)) => match read_u64(b, p1) {
            Some((count, p2)) => match read_records(b, p2, count as int) {
                Some((short_term, p3)) => match read_opt_strs(b, p3) {
                    Some((joined_spaces, p4)) => match read_i64(b, p4) {
                        Some((timestamp, p5)) => Some(
                            (
                                AgentStateView {
                                    system_prompt,
                                    short_term,
                                    joined_spaces,
                                    timestamp,
                                },
                                p5,
                            ),
                        ),
                        None => None,
                    },
                    None => None,
                },
                None => None,
            },
            None => None,
        },
        None => None,
    }
}

/// What a checkpoint byte string means: the state it encodes, provided the
/// whole byte string is consumed; anything else is rejected.
pub open spec fn parse_checkpoint(b: Seq<u8>) -> Option<AgentStateView> {
    match read_state(b, 0) {
        Some((sv, q)) => if q == b.len() {
            Some(sv)
        } else {
            None
        },
        None => None,
    }
}

/// A placed five-part encoding splits into its parts.
proof fn lemma_subrange_split5(
    b: Seq<u8>,
    p: int,
    x1: Seq<u8>,
    x2: Seq<u8>,
    x3: Seq<u8>,
    x4: Seq<u8>,
    x5: Seq<u8>,
)
    requires
        0 <= p,
        p + x1.len() + x2.len() + x3.len() + x4.len() + x5.len() <= b.len(),
        b.subrange(p, p + x1.len() + x2.len() + x3.len() + x4.len() + x5.len()) == x1 + (x2 + (x3
            + (x4 + x5))),
    ensures
        b.subrange(p, p + x1.len() as int) == x1,
        b.subrange(p + x1.len(), p + x1.len() + x2.len()) == x2,
        b.subrange(p + x1.len() + x2.len(), p + x1.len() + x2.len() + x3.len()) == x3,
        b.subrange(
            p + x1.len() + x2.len() + x3.len(),
            p + x1.len() + x2.len() + x3.len() + x4.len(),
        ) == x4,
        b.subrange(
            p + x1.len() + x2.len() + x3.len() + x4.len(),
            p + x1.len() + x2.len() + x3.len() + x4.len() + x5.len(),
        ) == x5,
{
    let rest1 = x2 + (x3 + (x4 + x5));
    assert(rest1.len() == x2.len() + x3.len() + x4.len() + x5.len());
    lemma_subrange_split(b, p, x1, rest1);
    let rest2 = x3 + (x4 + x5);
    lemma_subrange_split(b, p + x1.len(), x2, rest2);
    let rest3 = x4 + x5;
    lemma_subrange_split(b, p + x1.len() + x2.len(), x3, rest3);
    lemma_subrange_split(b, p + x1.len() + x2.len() + x3.len(), x4, x5);
}

/// Once each component of a checkpoint reads back as itself, the whole
/// checkpoint does.
#[verifier::spinoff_prover]
proof fn lemma_assemble_state(b: Seq<u8>, sv: AgentStateView, p1: int, p2: int, p3: int, p4: int)
    requires
        read_str(b, 0) == Some((sv.system_prompt, p1)),
        read_u64(b, p1) == Some((sv.short_term.len() as u64, p2)),
        sv.short_term.len() <= u64::MAX,
        read_records(b, p2, sv.short_term.len() as int) == Some((sv.short_term, p3)),
        read_opt_strs(b, p3) == Some((sv.joined_spaces, p4)),
        read_i64(b, p4) == Some((sv.timestamp, b.len() as int)),
    ensures
        parse_checkpoint(b) == Some(sv),
{
}

/// Checkpoint round-trip: decoding an encoded state yields that state,
/// losslessly.
#[verifier::rlimit(100)]
#[verifier::spinoff_prover]
pub proof fn lemma_checkpoint_roundtrip(sv: AgentStateView)
    requires
        bounded_state(sv),
    ensures
        parse_checkpoint(enc_state(sv)) == Some(sv),
{
    let b = enc_state(sv);
    let e1 = enc_str(sv.system_prompt);
    let e2 = enc_u64(sv.short_term.len() as u64);
    let e3 = enc_records(sv.short_term);
    let e4 = enc_opt_strs(sv.joined_spaces);
    let e5 = enc_i64(sv.timestamp);
    let p1 = e1.len() as int;
    let p2 = p1 + e2.len();
    let p3 = p2 + e3.len();
    let p4 = p3 + e4.len();
    assert(b == e1 + (e2 + (e3 + (e4 + e5))));
    assert(b.len() == e1.len() + e2.len() + e3.len() + e4.len() + e5.len());
    assert(b.subrange(0, b.len() as int) =~= b);
    lemma_subrange_split5(b, 0, e1, e2, e3, e4, e5);
    assert(read_str(b, 0) == Some((sv.system_prompt, p1))) by {
        lemma_read_str(b, 0, sv.system_prompt);
    }
    assert(read_u64(b, p1) == Some((sv.short_term.len() as u64, p2))) by {
        lemma_read_u64(b, p1, sv.short_term.len() as u64);
    }
    assert(read_records(b, p2, sv.short_term.len() as int) == Some((sv.short_term, p3))) by {
        lemma_read_records(b, p2, sv.short_term);
    }
    assert(read_opt_strs(b, p3) == Some((sv.joined_spaces, p4))) by {
        lemma_read_opt_strs(b, p3, sv.joined_spaces);
    }
    assert(read_i64(b, p4) == Some((sv.timestamp, b.len() as int))) by {
        lemma_read_i64(b, p4, sv.timestamp);
    }
    lemma_assemble_state(b, sv, p1, p2, p3, p4);
}

/// Serializes an agent checkpoint to its portable byte form.
pub fn encode_state(s: &AgentState) -> (r: Vec<u8>)
    ensures
        r@ == enc_state(s@),
{
    let mut out: Vec<u8> = Vec::new();
    write_str(&mut out, s.system_prompt.as_str());
    write_u64(&mut out, s.short_term.len() as u64);
    write_records(&mut out, &s.short_term);
    write_opt_strs(&mut out, &s.joined_spaces);
    write_i64(&mut out, s.timestamp);
    proof {
        assert(out@ =~= enc_state(s@));
    }
    out
}

/// Deserializes an agent checkpoint from its byte form; rejects any byte
/// string that is not exactly an encoded checkpoint.
pub fn decode_state(b: &Vec<u8>) -> (r: Option<AgentState>)
    ensures
        match r {
            Some(s) => parse_checkpoint(b@) == Some(s@),
            None => parse_checkpoint(b@) is None,
        },
{
    match get_str(b, 0) {
        Some((system_prompt, p1)) => match get_u64(b, p1) {
            Some((count, p2)) => match get_records(b, p2, count) {
                Some((short_term, p3)) => match get_opt_strs(b, p3) {
                    Some((joined_spaces, p4)) => match get_i64(b, p4) {
                        Some((timestamp, p5)) => {
                            if p5 == b.len() {
                                let s = AgentState {
                                    system_prompt,
                                    short_term,
                                    joined_spaces,
                                    timestamp,
                                };
                                Some(s)
                            } else {
                                None
                            }
                        },
                        None => None,
                    },
                    None => None,
                },
                None => None,
            },
            None => None,
        },
        None => None,
    }
}





} // verus!
