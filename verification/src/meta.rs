//! Durable program metadata and its stable binary encoding.
//!
//! The registry persists one `ProgramMeta` per program as an opaque byte
//! string. The encoding is defined here, together with its decoder; the
//! decoder's contract pins the round trip — decoding an encoded value
//! yields that value back — so a daemon restart rehydrates exactly the
//! metadata that was registered.
//!
//! Layout: the program type as four little-endian bytes; the path as its
//! UTF-8 bytes behind an eight-byte little-endian length; the address as
//! a one-byte tag (`0` absent, `1` present) followed, when present, by a
//! string in the same form; the argument count as eight little-endian
//! bytes, followed by each argument as a string in the same form.

use vstd::prelude::*;
use vstd::slice::slice_subrange;
use vstd::slice::slice_to_vec;
use vstd::string::StrSliceExecFns;
use vstd::string::StringSliceAdditionalSpecFns;
use vstd::utf8::decode_utf8;
use vstd::utf8::encode_utf8;
use vstd::utf8::valid_utf8;

verus! {

broadcast use vstd::utf8::encode_utf8_valid_utf8, vstd::utf8::encode_utf8_decode_utf8, vstd::utf8::decode_utf8_encode_utf8;

/// Durable description of one registered program.
pub struct ProgramMeta {
    /// Filesystem path or `http(s)` URL of the wasm artifact.
    pub path: String,
    /// Program type code: `PROGRAM_TYPE_CLI` or `PROGRAM_TYPE_HTTP`.
    pub program_type: u32,
    /// Socket address to serve on; present exactly for HTTP programs.
    pub addr: Option<String>,
    /// Arguments handed to the program; meaningful only for batch programs.
    pub args: Vec<String>,
}

/// The views of a sequence of strings.
pub open spec fn string_views(ss: Seq<String>) -> Seq<Seq<char>> {
    ss.map_values(|s: String| s@)
}

/// Two metadata values describe the same program.
pub open spec fn meta_equiv(a: ProgramMeta, b: ProgramMeta) -> bool {
    &&& a.path@ == b.path@
    &&& a.program_type == b.program_type
    &&& (a.addr is Some <==> b.addr is Some)
    &&& (a.addr matches Some(x) ==> b.addr matches Some(y) && x@ == y@)
    &&& string_views(a.args@) == string_views(b.args@)
}

impl Clone for ProgramMeta {
    /// Field-for-field copy.
    fn clone(&self) -> (r: Self)
        ensures
            meta_equiv(r, *self),
    {
        let addr = match &self.addr {
            Some(a) => Some(a.clone()),
            None => None,
        };
        let mut args: Vec<String> = Vec::new();
        let mut i: usize = 0;
        while i < self.args.len()
            invariant
                i <= self.args.len(),
                args@.len() == i as int,
                forall|j: int| 0 <= j < i ==> args@[j]@ == self.args@[j]@,
            decreases self.args.len() - i,
        {
            args.push(self.args[i].clone());
            i = i + 1;
        }
        proof {
            assert(string_views(args@) =~= string_views(self.args@));
        }
        ProgramMeta { path: self.path.clone(), program_type: self.program_type, addr, args }
    }
}

// ---------------------------------------------------------------------
// Little-endian integers
// ---------------------------------------------------------------------

/// The four little-endian bytes of `n`.
pub open spec fn spec_u32_le(n: u32) -> Seq<u8> {
    seq![
        (n & 0xff) as u8,
        ((n >> 8) & 0xff) as u8,
        ((n >> 16) & 0xff) as u8,
        ((n >> 24) & 0xff) as u8,
    ]
}

/// The value of four little-endian bytes.
pub open spec fn spec_u32_from_le(b: Seq<u8>) -> u32 {
    (b[0] as u32) | (b[1] as u32) << 8 | (b[2] as u32) << 16 | (b[3] as u32) << 24
}

/// The eight little-endian bytes of `n`.
pub open spec fn spec_u64_le(n: u64) -> Seq<u8> {
    seq![
        (n & 0xff) as u8,
        ((n >> 8) & 0xff) as u8,
        ((n >> 16) & 0xff) as u8,
        ((n >> 24) & 0xff) as u8,
        ((n >> 32) & 0xff) as u8,
        ((n >> 40) & 0xff) as u8,
        ((n >> 48) & 0xff) as u8,
        ((n >> 56) & 0xff) as u8,
    ]
}

/// The value of eight little-endian bytes.
pub open spec fn spec_u64_from_le(b: Seq<u8>) -> u64 {
    (b[0] as u64) | (b[1] as u64) << 8 | (b[2] as u64) << 16 | (b[3] as u64) << 24 | (
    b[4] as u64) << 32 | (b[5] as u64) << 40 | (b[6] as u64) << 48 | (b[7] as u64) << 56
}

/// Reading back the little-endian bytes of `n` yields `n`.
pub proof fn lemma_u32_le_round(n: u32)
    ensures
        spec_u32_from_le(spec_u32_le(n)) == n,
{
    assert((((n & 0xff) as u8) as u32) | ((((n >> 8) & 0xff) as u8) as u32) << 8 | ((((n >> 16)
        & 0xff) as u8) as u32) << 16 | ((((n >> 24) & 0xff) as u8) as u32) << 24 == n)
        by (bit_vector);
}

/// Four bytes are the little-endian bytes of the value they encode.
pub proof fn lemma_u32_from_le_round(b: Seq<u8>)
    requires
        b.len() == 4,
    ensures
        spec_u32_le(spec_u32_from_le(b)) == b,
{
    let x0 = b[0];
    let x1 = b[1];
    let x2 = b[2];
    let x3 = b[3];
    let n = spec_u32_from_le(b);
    assert(n == (x0 as u32) | (x1 as u32) << 8 | (x2 as u32) << 16 | (x3 as u32) << 24);
    assert((((x0 as u32) | (x1 as u32) << 8 | (x2 as u32) << 16 | (x3 as u32) << 24) & 0xff) as u8
        == x0 && ((((x0 as u32) | (x1 as u32) << 8 | (x2 as u32) << 16 | (x3 as u32) << 24) >> 8)
        & 0xff) as u8 == x1 && ((((x0 as u32) | (x1 as u32) << 8 | (x2 as u32) << 16 | (
    x3 as u32) << 24) >> 16) & 0xff) as u8 == x2 && ((((x0 as u32) | (x1 as u32) << 8 | (
    x2 as u32) << 16 | (x3 as u32) << 24) >> 24) & 0xff) as u8 == x3) by (bit_vector);
    assert(spec_u32_le(n) =~= b);
}

/// Reading back the little-endian bytes of `n` yields `n`.
pub proof fn lemma_u64_le_round(n: u64)
    ensures
        spec_u64_from_le(spec_u64_le(n)) == n,
{
    assert((((n & 0xff) as u8) as u64) | ((((n >> 8) & 0xff) as u8) as u64) << 8 | ((((n >> 16)
        & 0xff) as u8) as u64) << 16 | ((((n >> 24) & 0xff) as u8) as u64) << 24 | ((((n >> 32)
        & 0xff) as u8) as u64) << 32 | ((((n >> 40) & 0xff) as u8) as u64) << 40 | ((((n >> 48)
        & 0xff) as u8) as u64) << 48 | ((((n >> 56) & 0xff) as u8) as u64) << 56 == n)
        by (bit_vector);
}

/// Eight bytes are the little-endian bytes of the value they encode.
pub proof fn lemma_u64_from_le_round(b: Seq<u8>)
    requires
        b.len() == 8,
    ensures
        spec_u64_le(spec_u64_from_le(b)) == b,
{
    let x0 = b[0];
    let x1 = b[1];
    let x2 = b[2];
    let x3 = b[3];
    let x4 = b[4];
    let x5 = b[5];
    let x6 = b[6];
    let x7 = b[7];
    let n = spec_u64_from_le(b);
    assert(n == ((x0 as u64) | (x1 as u64) << 8 | (x2 as u64) << 16 | (x3 as u64) << 24 | (x4 as u64) << 32 | (x5 as u64) << 40 | (x6 as u64) << 48 | (x7 as u64) << 56));
    assert((((x0 as u64) | (x1 as u64) << 8 | (x2 as u64) << 16 | (x3 as u64) << 24 | (x4 as u64) << 32 | (x5 as u64) << 40 | (x6 as u64) << 48 | (x7 as u64) << 56) & 0xff) as u8 == x0 && ((((x0 as u64) | (x1 as u64) << 8 | (x2 as u64) << 16 | (x3 as u64) << 24 | (x4 as u64) << 32 | (x5 as u64) << 40 | (x6 as u64) << 48 | (x7 as u64) << 56) >> 8) & 0xff) as u8 == x1 && ((((x0 as u64) | (x1 as u64) << 8 | (x2 as u64) << 16 | (x3 as u64) << 24 | (x4 as u64) << 32 | (x5 as u64) << 40 | (x6 as u64) << 48 | (x7 as u64) << 56) >> 16) & 0xff) as u8 == x2 && ((((x0 as u64) | (x1 as u64) << 8 | (x2 as u64) << 16 | (x3 as u64) << 24 | (x4 as u64) << 32 | (x5 as u64) << 40 | (x6 as u64) << 48 | (x7 as u64) << 56) >> 24) & 0xff) as u8 == x3 && ((((x0 as u64) | (x1 as u64) << 8 | (x2 as u64) << 16 | (x3 as u64) << 24 | (x4 as u64) << 32 | (x5 as u64) << 40 | (x6 as u64) << 48 | (x7 as u64) << 56) >> 32) & 0xff) as u8 == x4 && ((((x0 as u64) | (x1 as u64) << 8 | (x2 as u64) << 16 | (x3 as u64) << 24 | (x4 as u64) << 32 | (x5 as u64) << 40 | (x6 as u64) << 48 | (x7 as u64) << 56) >> 40) & 0xff) as u8 == x5 && ((((x0 as u64) | (x1 as u64) << 8 | (x2 as u64) << 16 | (x3 as u64) << 24 | (x4 as u64) << 32 | (x5 as u64) << 40 | (x6 as u64) << 48 | (x7 as u64) << 56) >> 48) & 0xff) as u8 == x6 && ((((x0 as u64) | (x1 as u64) << 8 | (x2 as u64) << 16 | (x3 as u64) << 24 | (x4 as u64) << 32 | (x5 as u64) << 40 | (x6 as u64) << 48 | (x7 as u64) << 56) >> 56) & 0xff) as u8 == x7) by (bit_vector);
    assert(spec_u64_le(n) =~= b);
}

fn push_u32_le(out: &mut Vec<u8>, n: u32)
    ensures
        final(out)@ == old(out)@ + spec_u32_le(n),
{
    out.push((n & 0xff) as u8);
    out.push(((n >> 8) & 0xff) as u8);
    out.push(((n >> 16) & 0xff) as u8);
    out.push(((n >> 24) & 0xff) as u8);
    proof {
        assert(out@ =~= old(out)@ + spec_u32_le(n));
    }
}

fn push_u64_le(out: &mut Vec<u8>, n: u64)
    ensures
        final(out)@ == old(out)@ + spec_u64_le(n),
{
    out.push((n & 0xff) as u8);
    out.push(((n >> 8) & 0xff) as u8);
    out.push(((n >> 16) & 0xff) as u8);
    out.push(((n >> 24) & 0xff) as u8);
    out.push(((n >> 32) & 0xff) as u8);
    out.push(((n >> 40) & 0xff) as u8);
    out.push(((n >> 48) & 0xff) as u8);
    out.push(((n >> 56) & 0xff) as u8);
    proof {
        assert(out@ =~= old(out)@ + spec_u64_le(n));
    }
}

fn read_u32_le(b: &Vec<u8>, pos: usize) -> (r: u32)
    requires
        pos + 4 <= b@.len(),
    ensures
        r == spec_u32_from_le(b@.subrange(pos as int, pos + 4)),
{
    let blen = b.len();
    let r = (b[pos] as u32) | (b[pos + 1] as u32) << 8 | (b[pos + 2] as u32) << 16 | (b[pos
        + 3] as u32) << 24;
    proof {
        let sub = b@.subrange(pos as int, pos + 4);
        assert(sub[0] == b@[pos as int] && sub[1] == b@[pos + 1] && sub[2] == b@[pos + 2]
            && sub[3] == b@[pos + 3]);
    }
    r
}

fn read_u64_le(b: &Vec<u8>, pos: usize) -> (r: u64)
    requires
        pos + 8 <= b@.len(),
    ensures
        r == spec_u64_from_le(b@.subrange(pos as int, pos + 8)),
{
    let blen = b.len();
    let r = (b[pos] as u64) | (b[pos + 1] as u64) << 8 | (b[pos + 2] as u64) << 16 | (b[pos
        + 3] as u64) << 24 | (b[pos + 4] as u64) << 32 | (b[pos + 5] as u64) << 40 | (b[pos
        + 6] as u64) << 48 | (b[pos + 7] as u64) << 56;
    proof {
        let sub = b@.subrange(pos as int, pos + 8);
        assert(sub[0] == b@[pos as int] && sub[1] == b@[pos + 1] && sub[2] == b@[pos + 2]
            && sub[3] == b@[pos + 3] && sub[4] == b@[pos + 4] && sub[5] == b@[pos + 5] && sub[6]
            == b@[pos + 6] && sub[7] == b@[pos + 7]);
    }
    r
}

// ---------------------------------------------------------------------
// Strings
// ---------------------------------------------------------------------

/// The UTF-8 form of the string fits behind an eight-byte length.
pub open spec fn spec_str_fits(s: Seq<char>) -> bool {
    encode_utf8(s).len() <= u64::MAX
}

/// A string on the wire: its UTF-8 bytes behind their length.
pub open spec fn spec_str_enc(s: Seq<char>) -> Seq<u8> {
    spec_u64_le(encode_utf8(s).len() as u64) + encode_utf8(s)
}

/// Relies on std's `String::from_utf8`: it succeeds exactly on valid
/// UTF-8 input and returns the string those bytes encode.
#[verifier::external_body]
pub(crate) fn utf8_to_string(bytes: Vec<u8>) -> (r: Option<String>)
    ensures
        r matches Some(s) ==> valid_utf8(bytes@) && s@ == decode_utf8(bytes@),
        valid_utf8(bytes@) ==> r is Some,
{
    String::from_utf8(bytes).ok()
}

fn push_str_enc(out: &mut Vec<u8>, s: &str)
    ensures
        final(out)@ == old(out)@ + spec_str_enc(s@),
        spec_str_fits(s@),
{
    let mut bytes = s.as_bytes_vec();
    let n = bytes.len();
    push_u64_le(out, n as u64);
    out.append(&mut bytes);
}

fn read_str_enc(b: &Vec<u8>, pos: usize) -> (r: Option<(String, usize)>)
    requires
        pos <= b@.len(),
    ensures
        r matches Some((s, end)) ==> pos <= end <= b@.len() && b@.subrange(
            pos as int,
            end as int,
        ) == spec_str_enc(s@) && spec_str_fits(s@),
        forall|s2: Seq<char>, rest: Seq<u8>|
            spec_str_fits(s2) && b@.subrange(pos as int, b@.len() as int) == #[trigger] (
            spec_str_enc(s2) + rest) ==> (r matches Some((s, end)) && s@ == s2 && b@.subrange(
                end as int,
                b@.len() as int,
            ) == rest),
{
    let blen = b.len();
    if blen - pos < 8 {
        proof {
            assert forall|s2: Seq<char>, rest: Seq<u8>|
                spec_str_fits(s2) && b@.subrange(pos as int, blen as int) == #[trigger] (
                spec_str_enc(s2) + rest) implies false by {
                assert(b@.subrange(pos as int, blen as int).len() >= 8);
            }
        }
        return None;
    }
    let plen = read_u64_le(b, pos);
    let rem = (blen - (pos + 8)) as u64;
    proof {
        assert forall|s2: Seq<char>, rest: Seq<u8>|
            spec_str_fits(s2) && b@.subrange(pos as int, blen as int) == #[trigger] (spec_str_enc(
                s2,
            ) + rest) implies plen == encode_utf8(s2).len() && encode_utf8(s2).len() <= rem by {
            let whole = b@.subrange(pos as int, blen as int);
            let lnat = encode_utf8(s2).len();
            assert(whole.len() == 8 + lnat + rest.len());
            assert(b@.subrange(pos as int, pos + 8) =~= spec_u64_le(lnat as u64));
            lemma_u64_le_round(lnat as u64);
            assert(plen == lnat as u64);
            assert(lnat <= u64::MAX);
        }
    }
    if plen > rem {
        return None;
    }
    let plen_us = plen as usize;
    let end = pos + 8 + plen_us;
    let slice = slice_subrange(b.as_slice(), pos + 8, end);
    let bytes = slice_to_vec(slice);
    proof {
        assert(bytes@ == b@.subrange(pos + 8, end as int));
        assert forall|s2: Seq<char>, rest: Seq<u8>|
            spec_str_fits(s2) && b@.subrange(pos as int, blen as int) == #[trigger] (spec_str_enc(
                s2,
            ) + rest) implies bytes@ == encode_utf8(s2) && b@.subrange(end as int, blen as int)
            == rest by {
            let whole = b@.subrange(pos as int, blen as int);
            assert(bytes@ =~= whole.subrange(8, 8 + plen));
            assert(whole.subrange(8, 8 + plen) =~= encode_utf8(s2));
            assert(b@.subrange(end as int, blen as int) =~= whole.subrange(
                8 + plen,
                whole.len() as int,
            ));
            assert(whole.subrange(8 + plen, whole.len() as int) =~= rest);
        }
    }
    match utf8_to_string(bytes) {
        Some(s) => {
            proof {
                let ghost bs = b@.subrange(pos + 8, end as int);
                assert(encode_utf8(s@) == bs);
                lemma_u64_from_le_round(b@.subrange(pos as int, pos + 8));
                assert(spec_u64_le(plen) =~= b@.subrange(pos as int, pos + 8));
                assert(b@.subrange(pos as int, end as int) =~= spec_u64_le(plen) + bs);
                assert(encode_utf8(s@).len() as u64 == plen);
                assert(b@.subrange(pos as int, end as int) == spec_str_enc(s@));
            }
            Some((s, end))
        },
        None => {
            proof {
                assert forall|s2: Seq<char>, rest: Seq<u8>|
                    spec_str_fits(s2) && b@.subrange(pos as int, blen as int) == #[trigger] (
                    spec_str_enc(s2) + rest) implies false by {
                    assert(valid_utf8(encode_utf8(s2)));
                }
            }
            None
        },
    }
}

// ---------------------------------------------------------------------
// Metadata
// ---------------------------------------------------------------------

/// Every string of the metadata fits behind an eight-byte length, and the
/// argument count behind one too; every value built in memory satisfies
/// this.
pub open spec fn spec_meta_fits(m: ProgramMeta) -> bool {
    &&& spec_str_fits(m.path@)
    &&& (m.addr matches Some(a) ==> spec_str_fits(a@))
    &&& m.args@.len() <= u64::MAX
    &&& (forall|i: int| 0 <= i < m.args@.len() ==> spec_str_fits(#[trigger] string_views(m.args@)[i]))
}

/// The concatenated encodings of the arguments.
pub open spec fn spec_args_enc_items(vs: Seq<Seq<char>>) -> Seq<u8>
    decreases vs.len(),
{
    if vs.len() == 0 {
        Seq::empty()
    } else {
        spec_str_enc(vs[0]) + spec_args_enc_items(vs.drop_first())
    }
}

/// Appending one argument appends its encoding.
pub proof fn lemma_args_enc_push(vs: Seq<Seq<char>>, v: Seq<char>)
    ensures
        spec_args_enc_items(vs.push(v)) == spec_args_enc_items(vs) + spec_str_enc(v),
    decreases vs.len(),
{
    if vs.len() == 0 {
        assert(vs.push(v).drop_first() =~= vs);
        assert(spec_args_enc_items(vs.push(v)) =~= spec_args_enc_items(vs) + spec_str_enc(v));
    } else {
        assert(vs.push(v).drop_first() =~= vs.drop_first().push(v));
        lemma_args_enc_push(vs.drop_first(), v);
        assert(spec_args_enc_items(vs.push(v)) =~= spec_args_enc_items(vs) + spec_str_enc(v));
    }
}

/// Each argument takes at least its eight length bytes.
pub proof fn lemma_args_enc_min_len(vs: Seq<Seq<char>>)
    ensures
        spec_args_enc_items(vs).len() >= 8 * vs.len(),
    decreases vs.len(),
{
    if vs.len() > 0 {
        lemma_args_enc_min_len(vs.drop_first());
    }
}

/// The address on the wire: an absence tag, or a presence tag and the
/// address string.
pub open spec fn spec_addr_enc(addr: Option<String>) -> Seq<u8> {
    match addr {
        None => seq![0u8],
        Some(a) => seq![1u8] + spec_str_enc(a@),
    }
}

/// The full encoding of a metadata value.
pub open spec fn spec_meta_enc(m: ProgramMeta) -> Seq<u8> {
    spec_u32_le(m.program_type) + spec_str_enc(m.path@) + spec_addr_enc(m.addr) + spec_u64_le(
        m.args@.len() as u64,
    ) + spec_args_enc_items(string_views(m.args@))
}

/// Serializes a metadata value into the registry's byte form.
pub fn encode_meta(m: &ProgramMeta) -> (r: Vec<u8>)
    ensures
        r@ == spec_meta_enc(*m),
        spec_meta_fits(*m),
{
    let mut out: Vec<u8> = Vec::new();
    push_u32_le(&mut out, m.program_type);
    push_str_enc(&mut out, m.path.as_str());
    match &m.addr {
        Some(a) => {
            out.push(1);
            push_str_enc(&mut out, a.as_str());
            proof {
                assert(out@ =~= spec_u32_le(m.program_type) + spec_str_enc(m.path@)
                    + spec_addr_enc(m.addr));
            }
        },
        None => {
            out.push(0);
            proof {
                assert(out@ =~= spec_u32_le(m.program_type) + spec_str_enc(m.path@)
                    + spec_addr_enc(m.addr));
            }
        },
    }
    let count = m.args.len();
    push_u64_le(&mut out, count as u64);
    let ghost head = spec_u32_le(m.program_type) + spec_str_enc(m.path@) + spec_addr_enc(m.addr)
        + spec_u64_le(m.args@.len() as u64);
    let mut i: usize = 0;
    while i < count
        invariant
            i <= count,
            count == m.args@.len(),
            out@ == head + spec_args_enc_items(string_views(m.args@).take(i as int)),
            forall|j: int| 0 <= j < i ==> spec_str_fits(#[trigger] string_views(m.args@)[j]),
        decreases count - i,
    {
        push_str_enc(&mut out, m.args[i].as_str());
        proof {
            let vs = string_views(m.args@);
            assert(vs.take(i + 1) =~= vs.take(i as int).push(vs[i as int]));
            lemma_args_enc_push(vs.take(i as int), vs[i as int]);
        }
        i = i + 1;
    }
    proof {
        assert(string_views(m.args@).take(count as int) =~= string_views(m.args@));
    }
    out
}

/// Whether a metadata value encodes to exactly these bytes.
pub open spec fn spec_meta_encodes(b: Seq<u8>, m: ProgramMeta) -> bool {
    spec_meta_fits(m) && b == spec_meta_enc(m)
}

/// Reads `count` argument strings that must exactly fill the bytes from
/// `start` to the end of the input.
#[verifier::loop_isolation(false)]
#[verifier::rlimit(60)]
fn decode_args(b: &Vec<u8>, start: usize, count: usize) -> (r: Option<Vec<String>>)
    requires
        start <= b@.len(),
    ensures
        r matches Some(args) ==> args@.len() == count && b@.subrange(
            start as int,
            b@.len() as int,
        ) == spec_args_enc_items(string_views(args@)) && (forall|j: int|
            0 <= j < count ==> spec_str_fits(#[trigger] string_views(args@)[j])),
        forall|vs: Seq<Seq<char>>|
            vs.len() == count && (forall|i: int| 0 <= i < vs.len() ==> spec_str_fits(
                #[trigger] vs[i],
            )) && b@.subrange(start as int, b@.len() as int) == #[trigger] spec_args_enc_items(vs)
                ==> (r matches Some(args) && string_views(args@) == vs),
{
    let blen = b.len();
    let mut args: Vec<String> = Vec::new();
    let mut pos = start;
    let mut k: usize = 0;
    proof {
        assert(string_views(args@) =~= Seq::<Seq<char>>::empty());
        assert(b@.subrange(start as int, start as int) =~= spec_args_enc_items(
            string_views(args@),
        ));
        assert forall|vs: Seq<Seq<char>>|
            vs.len() == count && (forall|i: int| 0 <= i < vs.len() ==> spec_str_fits(
                #[trigger] vs[i],
            )) && b@.subrange(start as int, blen as int) == #[trigger] spec_args_enc_items(
                vs,
            ) implies vs.take(0) == string_views(args@) && b@.subrange(pos as int, blen as int)
            == spec_args_enc_items(vs.skip(0)) by {
            assert(vs.take(0) =~= string_views(args@));
            assert(vs.skip(0) =~= vs);
        }
    }
    while k < count
        invariant
            k <= count,
            args@.len() == k as int,
            start <= pos <= blen,
            b@.subrange(start as int, pos as int) == spec_args_enc_items(string_views(args@)),
            forall|j: int| 0 <= j < k ==> spec_str_fits(#[trigger] string_views(args@)[j]),
            forall|vs: Seq<Seq<char>>|
                vs.len() == count && (forall|i: int| 0 <= i < vs.len() ==> spec_str_fits(
                    #[trigger] vs[i],
                )) && b@.subrange(start as int, blen as int) == #[trigger] spec_args_enc_items(vs)
                    ==> vs.take(k as int) == string_views(args@) && b@.subrange(
                    pos as int,
                    blen as int,
                ) == spec_args_enc_items(vs.skip(k as int)),
        decreases count - k,
    {
        let item_read = read_str_enc(b, pos);
        let (s, e) = match item_read {
            Some(p) => p,
            None => {
                proof {
                    assert forall|vs: Seq<Seq<char>>|
                        vs.len() == count && (forall|i: int| 0 <= i < vs.len() ==> spec_str_fits(
                            #[trigger] vs[i],
                        )) && b@.subrange(start as int, blen as int)
                            == #[trigger] spec_args_enc_items(vs) implies false by {
                        assert(vs.skip(k as int).len() > 0);
                        assert(spec_args_enc_items(vs.skip(k as int)) == spec_str_enc(
                            vs.skip(k as int)[0],
                        ) + spec_args_enc_items(vs.skip(k as int).drop_first()));
                        assert(vs.skip(k as int)[0] == vs[k as int]);
                        assert(spec_str_fits(vs[k as int]));
                    }
                }
                return None;
            },
        };
        proof {
            let ghost old_views = string_views(args@);
            assert(string_views(args@.push(s)) =~= old_views.push(s@));
            lemma_args_enc_push(old_views, s@);
            assert(b@.subrange(start as int, e as int) =~= b@.subrange(start as int, pos as int)
                + b@.subrange(pos as int, e as int));
            assert forall|vs: Seq<Seq<char>>|
                vs.len() == count && (forall|i: int| 0 <= i < vs.len() ==> spec_str_fits(
                    #[trigger] vs[i],
                )) && b@.subrange(start as int, blen as int) == #[trigger] spec_args_enc_items(
                    vs,
                ) implies vs.take(k + 1) == string_views(args@.push(s)) && b@.subrange(
                e as int,
                blen as int,
            ) == spec_args_enc_items(vs.skip(k + 1)) by {
                assert(vs.skip(k as int).len() > 0);
                assert(spec_args_enc_items(vs.skip(k as int)) == spec_str_enc(
                    vs.skip(k as int)[0],
                ) + spec_args_enc_items(vs.skip(k as int).drop_first()));
                assert(vs.skip(k as int)[0] == vs[k as int]);
                assert(spec_str_fits(vs[k as int]));
                assert(vs.skip(k as int).drop_first() =~= vs.skip(k + 1));
                assert(s@ == vs[k as int]);
                assert(vs.take(k + 1) =~= vs.take(k as int).push(vs[k as int]));
                assert(string_views(args@.push(s)) =~= vs.take(k + 1));
            }
        }
        args.push(s);
        pos = e;
        k = k + 1;
    }
    if pos != blen {
        proof {
            assert forall|vs: Seq<Seq<char>>|
                vs.len() == count && (forall|i: int| 0 <= i < vs.len() ==> spec_str_fits(
                    #[trigger] vs[i],
                )) && b@.subrange(start as int, blen as int) == #[trigger] spec_args_enc_items(
                    vs,
                ) implies false by {
                assert(vs.skip(count as int) =~= Seq::<Seq<char>>::empty());
                assert(b@.subrange(pos as int, blen as int).len() == 0);
            }
        }
        return None;
    }
    proof {
        assert forall|vs: Seq<Seq<char>>|
            vs.len() == count && (forall|i: int| 0 <= i < vs.len() ==> spec_str_fits(
                #[trigger] vs[i],
            )) && b@.subrange(start as int, blen as int) == #[trigger] spec_args_enc_items(
                vs,
            ) implies string_views(args@) == vs by {
            assert(vs.take(count as int) =~= vs);
        }
    }
    Some(args)
}

/// Splits an encoding into its leading pieces.
proof fn lemma_meta_enc_split(m: ProgramMeta, b: Seq<u8>)
    requires
        b == spec_meta_enc(m),
    ensures
        b.len() >= 13,
        b.subrange(0, 4) == spec_u32_le(m.program_type),
        b.subrange(4, b.len() as int) == spec_str_enc(m.path@) + (spec_addr_enc(m.addr)
            + spec_u64_le(m.args@.len() as u64) + spec_args_enc_items(string_views(m.args@))),
{
    assert(b.subrange(0, 4) =~= spec_u32_le(m.program_type));
    assert(b.subrange(4, b.len() as int) =~= spec_str_enc(m.path@) + (spec_addr_enc(m.addr)
        + spec_u64_le(m.args@.len() as u64) + spec_args_enc_items(string_views(m.args@))));
}

/// Reads the program type, path, and address from the front of an
/// encoding.
#[verifier::rlimit(60)]
fn decode_head(b: &Vec<u8>) -> (r: Option<(u32, String, Option<String>, usize)>)
    ensures
        r matches Some((t, path, addr, end)) ==> 0 < end <= b@.len() && b@.subrange(0, end as int)
            == spec_u32_le(t) + spec_str_enc(path@) + spec_addr_enc(addr) && spec_str_fits(path@)
            && (addr matches Some(a) ==> spec_str_fits(a@)),
        forall|m: ProgramMeta|
            #[trigger] spec_meta_encodes(b@, m) ==> (r matches Some((t, path, addr, end)) && t
                == m.program_type && path@ == m.path@ && (m.addr is Some <==> addr is Some) && (
            m.addr matches Some(a) ==> addr matches Some(a2) && a2@ == a@) && b@.subrange(
                end as int,
                b@.len() as int,
            ) == spec_u64_le(m.args@.len() as u64) + spec_args_enc_items(string_views(m.args@))),
{
    let blen = b.len();
    if blen < 13 {
        proof {
            assert forall|m: ProgramMeta| #[trigger] spec_meta_encodes(b@, m) implies false by {
                lemma_meta_enc_split(m, b@);
            }
        }
        return None;
    }
    let program_type = read_u32_le(b, 0);
    proof {
        assert forall|m: ProgramMeta| #[trigger] spec_meta_encodes(b@, m) implies m.program_type
            == program_type && b@.subrange(4, blen as int) == spec_str_enc(m.path@) + (
        spec_addr_enc(m.addr) + spec_u64_le(m.args@.len() as u64) + spec_args_enc_items(
            string_views(m.args@),
        )) by {
            lemma_meta_enc_split(m, b@);
            lemma_u32_le_round(m.program_type);
        }
    }
    let path_read = read_str_enc(b, 4);
    let (path, pos1) = match path_read {
        Some(p) => p,
        None => {
            proof {
                assert forall|m: ProgramMeta| #[trigger] spec_meta_encodes(b@, m) implies false by {
                }
            }
            return None;
        },
    };
    proof {
        assert forall|m: ProgramMeta| #[trigger] spec_meta_encodes(b@, m) implies m.path@ == path@
            && b@.subrange(pos1 as int, blen as int) == spec_addr_enc(m.addr) + (spec_u64_le(
            m.args@.len() as u64,
        ) + spec_args_enc_items(string_views(m.args@))) by {
            let tail = spec_addr_enc(m.addr) + spec_u64_le(m.args@.len() as u64)
                + spec_args_enc_items(string_views(m.args@));
            assert(spec_str_enc(m.path@) + tail =~= spec_str_enc(m.path@) + (spec_addr_enc(m.addr)
                + (spec_u64_le(m.args@.len() as u64) + spec_args_enc_items(
                string_views(m.args@),
            ))));
        }
    }
    if pos1 >= blen {
        proof {
            assert forall|m: ProgramMeta| #[trigger] spec_meta_encodes(b@, m) implies false by {
                assert(b@.subrange(pos1 as int, blen as int).len() >= 1);
            }
        }
        return None;
    }
    let tag = b[pos1];
    let mut addr: Option<String> = None;
    let pos2: usize;
    if tag == 0 {
        proof {
            assert forall|m: ProgramMeta| #[trigger] spec_meta_encodes(b@, m) implies m.addr
                is None && b@.subrange(pos1 + 1, blen as int) == spec_u64_le(m.args@.len() as u64)
                + spec_args_enc_items(string_views(m.args@)) by {
                let rest = spec_u64_le(m.args@.len() as u64) + spec_args_enc_items(
                    string_views(m.args@),
                );
                if m.addr is Some {
                    assert((spec_addr_enc(m.addr) + rest)[0] == 1u8);
                }
                assert(b@.subrange(pos1 + 1, blen as int) =~= (spec_addr_enc(m.addr)
                    + rest).drop_first());
                assert((spec_addr_enc(m.addr) + rest).drop_first() =~= rest);
            }
        }
        pos2 = pos1 + 1;
    } else if tag == 1 {
        proof {
            assert forall|m: ProgramMeta| #[trigger] spec_meta_encodes(b@, m) implies (
            m.addr matches Some(a) && spec_str_fits(a@) && b@.subrange(pos1 + 1, blen as int)
                == spec_str_enc(a@) + (spec_u64_le(m.args@.len() as u64) + spec_args_enc_items(
                string_views(m.args@),
            ))) by {
                let rest = spec_u64_le(m.args@.len() as u64) + spec_args_enc_items(
                    string_views(m.args@),
                );
                if m.addr is None {
                    assert((spec_addr_enc(m.addr) + rest)[0] == 0u8);
                }
                let a = m.addr->0;
                assert(b@.subrange(pos1 + 1, blen as int) =~= (spec_addr_enc(m.addr)
                    + rest).drop_first());
                assert((spec_addr_enc(m.addr) + rest).drop_first() =~= spec_str_enc(a@) + rest);
            }
        }
        let addr_read = read_str_enc(b, pos1 + 1);
        match addr_read {
            Some((a, e)) => {
                addr = Some(a);
                pos2 = e;
            },
            None => {
                proof {
                    assert forall|m: ProgramMeta| #[trigger] spec_meta_encodes(
                        b@,
                        m,
                    ) implies false by {}
                }
                return None;
            },
        }
    } else {
        proof {
            assert forall|m: ProgramMeta| #[trigger] spec_meta_encodes(b@, m) implies false by {
                let rest = spec_u64_le(m.args@.len() as u64) + spec_args_enc_items(
                    string_views(m.args@),
                );
                assert((spec_addr_enc(m.addr) + rest)[0] == 0u8 || (spec_addr_enc(m.addr)
                    + rest)[0] == 1u8);
            }
        }
        return None;
    }
    proof {
        lemma_u32_from_le_round(b@.subrange(0, 4));
        assert(b@.subrange(pos1 as int, pos2 as int) == spec_addr_enc(addr)) by {
            match addr {
                None => {
                    assert(b@[pos1 as int] == 0u8);
                    assert(b@.subrange(pos1 as int, pos2 as int) =~= seq![0u8]);
                },
                Some(a) => {
                    assert(b@[pos1 as int] == 1u8);
                    assert(b@.subrange(pos1 as int, pos2 as int) =~= seq![1u8] + b@.subrange(
                        pos1 + 1,
                        pos2 as int,
                    ));
                },
            }
        }
        assert(b@.subrange(0, pos2 as int) =~= b@.subrange(0, 4) + b@.subrange(4, pos1 as int)
            + b@.subrange(pos1 as int, pos2 as int));
        assert forall|m: ProgramMeta| #[trigger] spec_meta_encodes(b@, m) implies (match m.addr {
            Some(a) => addr matches Some(a2) && a2@ == a@,
            None => addr is None,
        }) && b@.subrange(pos2 as int, blen as int) == spec_u64_le(m.args@.len() as u64)
            + spec_args_enc_items(string_views(m.args@)) by {}
    }
    Some((program_type, path, addr, pos2))
}

/// Deserializes a metadata value from the registry's byte form.
///
/// The contract carries the round trip: bytes produced by `encode_meta`
/// from a value decode to that value, and whatever decodes successfully
/// re-encodes to the input bytes.
#[verifier::rlimit(60)]
pub fn decode_meta(b: &Vec<u8>) -> (r: Option<ProgramMeta>)
    ensures
        r matches Some(m) ==> spec_meta_encodes(b@, m),
        forall|m: ProgramMeta|
            #[trigger] spec_meta_encodes(b@, m) ==> (r matches Some(m2) && meta_equiv(m2, m)),
{
    let blen = b.len();
    let head = decode_head(b);
    let (program_type, path, addr, pos2) = match head {
        Some(h) => h,
        None => {
            proof {
                assert forall|m: ProgramMeta| #[trigger] spec_meta_encodes(b@, m) implies false by {
                }
            }
            return None;
        },
    };
    if blen - pos2 < 8 {
        proof {
            assert forall|m: ProgramMeta| #[trigger] spec_meta_encodes(b@, m) implies false by {
                assert(b@.subrange(pos2 as int, blen as int).len() >= 8);
            }
        }
        return None;
    }
    let count = read_u64_le(b, pos2);
    let pos3 = pos2 + 8;
    proof {
        assert forall|m: ProgramMeta| #[trigger] spec_meta_encodes(b@, m) implies count
            == m.args@.len() && b@.subrange(pos3 as int, blen as int) == spec_args_enc_items(
            string_views(m.args@),
        ) by {
            let items = spec_args_enc_items(string_views(m.args@));
            let whole = b@.subrange(pos2 as int, blen as int);
            assert(b@.subrange(pos2 as int, pos2 + 8) =~= whole.subrange(0, 8));
            assert(whole.subrange(0, 8) =~= spec_u64_le(m.args@.len() as u64));
            lemma_u64_le_round(m.args@.len() as u64);
            assert(b@.subrange(pos3 as int, blen as int) =~= whole.subrange(
                8,
                whole.len() as int,
            ));
            assert(whole.subrange(8, whole.len() as int) =~= items);
        }
    }
    if count > ((blen - pos3) / 8) as u64 {
        proof {
            assert forall|m: ProgramMeta| #[trigger] spec_meta_encodes(b@, m) implies false by {
                lemma_args_enc_min_len(string_views(m.args@));
            }
        }
        return None;
    }
    let count_us = count as usize;
    let args = match decode_args(b, pos3, count_us) {
        Some(a) => a,
        None => {
            proof {
                assert forall|m: ProgramMeta| #[trigger] spec_meta_encodes(b@, m) implies false by {
                    let vs = string_views(m.args@);
                    assert(vs.len() == count_us);
                    assert(b@.subrange(pos3 as int, blen as int) == spec_args_enc_items(vs));
                }
            }
            return None;
        },
    };
    proof {
        assert forall|m: ProgramMeta| #[trigger] spec_meta_encodes(b@, m) implies string_views(
            m.args@,
        ) == string_views(args@) by {
            let vs = string_views(m.args@);
            assert(vs.len() == count_us);
            assert(b@.subrange(pos3 as int, blen as int) == spec_args_enc_items(vs));
        }
    }
    let m2 = ProgramMeta { path, program_type, addr, args };
    proof {
        lemma_u64_from_le_round(b@.subrange(pos2 as int, pos3 as int));
        assert(count as usize as u64 == count);
        assert(m2.args@.len() as u64 == count);
        assert(b@ =~= b@.subrange(0, pos2 as int) + b@.subrange(pos2 as int, pos3 as int)
            + b@.subrange(pos3 as int, blen as int));
        assert(b@ =~= spec_meta_enc(m2));
    }
    Some(m2)
}

} // verus!
