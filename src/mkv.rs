//! Matroska element identifiers, errors, and reading the children of a master.
use crate::ebml::{
    be_value, read_be_prefix, read_element_header, slice_from, slice_range, spec_parse_children,
    spec_read_header, EbmlError, EbmlId, EbmlLength,
};
use vstd::arithmetic::power2::{lemma2_to64, lemma2_to64_rest, lemma_pow2_unfold, pow2};
use vstd::prelude::*;

verus! {

pub const EBML_HEADER: u64 = 0x1a45dfa3;
pub const EBML_DOC_TYPE: u64 = 0x4282;
pub const EBML_DOC_MAX_ID_LENGTH: u64 = 0x42f2;
pub const EBML_DOC_MAX_SIZE_LENGTH: u64 = 0x42f3;
pub const EBML_READ_VERSION: u64 = 0x42f7;
pub const EBML_VERSION: u64 = 0x4286;
pub const EBML_DOC_TYPE_VERSION: u64 = 0x4287;
pub const EBML_DOC_TYPE_READ_VERSION: u64 = 0x4285;
pub const SEGMENT: u64 = 0x18538067;
pub const INFO: u64 = 0x1549a966;
pub const WRITING_APP: u64 = 0x4d80;
pub const MUXING_APP: u64 = 0x5741;
pub const TIMESTAMP_SCALE: u64 = 0x2ad7b1;
pub const TRACKS: u64 = 0x1654ae6b;
pub const TRACK_ENTRY: u64 = 0xae;
pub const TRACK_NUMBER: u64 = 0xd7;
pub const TRACK_UID: u64 = 0x73c5;
pub const TRACK_TYPE: u64 = 0x83;
pub const CODEC_ID: u64 = 0x86;
pub const CODEC_PRIVATE: u64 = 0x63a2;
pub const VIDEO: u64 = 0xe0;
pub const PIXEL_WIDTH: u64 = 0xb0;
pub const PIXEL_HEIGHT: u64 = 0xba;
pub const FLAG_INTERLACED: u64 = 0x9a;
pub const AUDIO: u64 = 0xe1;
pub const SAMPLING_FREQUENCY: u64 = 0xb5;
pub const CHANNELS: u64 = 0x9f;
pub const CLUSTER: u64 = 0x1f43b675;
pub const TIMESTAMP: u64 = 0xe7;
pub const SIMPLE_BLOCK: u64 = 0xa3;
pub const BLOCK_GROUP: u64 = 0xa0;
pub const BLOCK: u64 = 0xa1;
pub const BLOCK_DURATION: u64 = 0x9b;
pub const CUES: u64 = 0x1c53bb6b;

/// Failures while reading a Matroska stream.
#[derive(Clone, Copy, Debug, PartialEq, Eq, Structural)]
pub enum MkvError {
    /// The EBML layer failed.
    Ebml(EbmlError),
    /// A master's children do not split into whole elements of known length.
    MalformedChildren(u64),
    /// An integer element wider than eight bytes.
    UnsupportedVint(u64),
    /// A mandatory element was absent.
    MissingElement(u64),
    /// A track type other than video, audio or subtitle.
    UnsupportedTrackType(u64),
    /// A block shorter than its header.
    TruncatedBlock,
    /// An element of unknown length where a known one is needed.
    UnknownSize(u64),
    /// Another element than the expected one: expected, found.
    UnexpectedElement(u64, u64),
    /// A timestamp scale that gives no time base.
    InvalidTimestampScale(u64),
    /// A float element whose size is not 0, 4 or 8 bytes.
    InvalidFloatSize(u64),
    /// The input ended before the headers were complete.
    UnexpectedEnd,
}

/// A child of a master: identifier and the bounds of its content.
pub struct Child {
    pub id: u64,
    pub start: usize,
    pub end: usize,
}

/// The found children agree with the split of `content` into `(id, content)` pairs.
pub open spec fn children_match(content: Seq<u8>, v: Seq<Child>, cs: Seq<(u64, Seq<u8>)>) -> bool {
    &&& v.len() == cs.len()
    &&& forall|i: int|
        0 <= i < v.len() ==> {
            &&& (#[trigger] v[i]).id == cs[i].0
            &&& v[i].start <= v[i].end <= content.len()
            &&& content.subrange(v[i].start as int, v[i].end as int) == cs[i].1
        }
}

/// Splits the content of a master into its children.
pub fn parse_children(content: &[u8], master: u64) -> (r: Result<Vec<Child>, MkvError>)
    ensures
        r is Ok <==> spec_parse_children(content@) is Some,
        r is Ok ==> children_match(content@, r->Ok_0@, spec_parse_children(content@)->0),
        r is Err ==> r == Err::<Vec<Child>, MkvError>(MkvError::MalformedChildren(master)),
{
    let mut out: Vec<Child> = Vec::new();
    let mut pos: usize = 0;
    let ghost mut done: Seq<(u64, Seq<u8>)> = Seq::empty();
    proof {
        assert(content@.subrange(0, content@.len() as int) =~= content@);
        match spec_parse_children(content@) {
            Some(all) => {
                assert(done + all =~= all);
            },
            None => {},
        }
    }
    while pos < content.len()
        invariant
            pos <= content@.len(),
            children_match(content@, out@, done),
            spec_parse_children(content@) == match spec_parse_children(
                content@.subrange(pos as int, content@.len() as int),
            ) {
                Some(rest) => Some(done + rest),
                None => None::<Seq<(u64, Seq<u8>)>>,
            },
        decreases content@.len() - pos,
    {
        let ghost t = content@.subrange(pos as int, content@.len() as int);
        let tail = slice_from(content, pos);
        proof {
            reveal(spec_read_header);
        }
        match read_element_header(tail) {
            Ok((id, EbmlLength::Known(len), h)) => {
                if len > (tail.len() - h) as u64 {
                    proof {
                        assert(spec_parse_children(t) is None);
                    }
                    return Err(MkvError::MalformedChildren(master));
                }
                let start = pos + h;
                let end = start + len as usize;
                let ghost c = t.subrange(h as int, h + len);
                proof {
                    assert(c =~= content@.subrange(start as int, end as int));
                    assert(t.subrange(h + len, t.len() as int) =~= content@.subrange(
                        end as int,
                        content@.len() as int,
                    ));
                }
                let ghost before = out@;
                out.push(Child { id: id.0, start, end });
                proof {
                    let nd = done.push((id.0, c));
                    assert forall|i: int| 0 <= i < out@.len() implies {
                        &&& (#[trigger] out@[i]).id == nd[i].0
                        &&& out@[i].start <= out@[i].end <= content@.len()
                        &&& content@.subrange(out@[i].start as int, out@[i].end as int) == nd[i].1
                    } by {
                        if i < before.len() {
                            assert(out@[i] == before[i]);
                        }
                    }
                    match spec_parse_children(content@.subrange(end as int, content@.len() as int)) {
                        Some(rest) => {
                            assert(done + (seq![(id.0, c)] + rest) =~= nd + rest);
                        },
                        None => {},
                    }
                    done = nd;
                }
                pos = end;
            },
            Ok((id, EbmlLength::Unknown(_), h)) => {
                proof {
                    assert(spec_parse_children(t) is None);
                }
                return Err(MkvError::MalformedChildren(master));
            },
            Err(_) => {
                proof {
                    assert(spec_parse_children(t) is None);
                }
                return Err(MkvError::MalformedChildren(master));
            },
        }
    }
    proof {
        assert(content@.subrange(pos as int, content@.len() as int) =~= Seq::<u8>::empty());
        assert(done + Seq::<(u64, Seq<u8>)>::empty() =~= done);
    }
    Ok(out)
}

/// The content of the first child with identifier `id`.
pub open spec fn find_child(cs: Seq<(u64, Seq<u8>)>, id: u64) -> Option<Seq<u8>>
    decreases cs.len(),
{
    if cs.len() == 0 {
        None
    } else if cs[0].0 == id {
        Some(cs[0].1)
    } else {
        find_child(cs.drop_first(), id)
    }
}

/// The first child with identifier `id`, as bounds into the content.
pub fn first_child(children: &Vec<Child>, id: u64, Ghost(content): Ghost<Seq<u8>>, Ghost(cs): Ghost<
    Seq<(u64, Seq<u8>)>,
>) -> (r: Option<(usize, usize)>)
    requires
        children_match(content, children@, cs),
    ensures
        find_child(cs, id) is None <==> r is None,
        r matches Some((s, e)) ==> s <= e <= content.len() && find_child(cs, id) == Some(
            content.subrange(s as int, e as int),
        ),
{
    let mut i: usize = 0;
    proof {
        assert(cs.subrange(0, cs.len() as int) =~= cs);
    }
    while i < children.len()
        invariant
            children_match(content, children@, cs),
            i <= children@.len(),
            find_child(cs, id) == find_child(cs.subrange(i as int, cs.len() as int), id),
        decreases children@.len() - i,
    {
        let ghost t = cs.subrange(i as int, cs.len() as int);
        proof {
            assert(t[0] == cs[i as int]);
            assert(t.drop_first() =~= cs.subrange(i + 1, cs.len() as int));
        }
        if children[i].id == id {
            return Some((children[i].start, children[i].end));
        }
        i = i + 1;
    }
    proof {
        assert(cs.subrange(i as int, cs.len() as int) =~= Seq::<(u64, Seq<u8>)>::empty());
    }
    None
}

/// The value of an unsigned integer element's content: big-endian, at most eight bytes.
pub open spec fn spec_uint(content: Seq<u8>) -> Option<u64> {
    if content.len() <= 8 {
        Some(be_value(content) as u64)
    } else {
        None
    }
}

/// Reads an unsigned integer element's content.
pub fn read_uint(content: &[u8], id: u64) -> (r: Result<u64, MkvError>)
    ensures
        r is Ok <==> spec_uint(content@) is Some,
        r is Ok ==> Some(r->Ok_0) == spec_uint(content@),
        r is Err ==> r == Err::<u64, MkvError>(MkvError::UnsupportedVint(id)),
{
    if content.len() > 8 {
        return Err(MkvError::UnsupportedVint(id));
    }
    let v = read_be_prefix(content, content.len());
    proof {
        assert(content@.subrange(0, content@.len() as int) =~= content@);
    }
    Ok(v)
}

/// The optional unsigned integer child `id`: absent, or its value.
pub open spec fn spec_uint_child(cs: Seq<(u64, Seq<u8>)>, id: u64) -> Option<Option<u64>> {
    match find_child(cs, id) {
        None => Some(None),
        Some(c) => match spec_uint(c) {
            Some(v) => Some(Some(v)),
            None => None,
        },
    }
}

/// Reads the optional unsigned integer child `id`.
pub fn uint_child(
    content: &[u8],
    children: &Vec<Child>,
    id: u64,
    Ghost(cs): Ghost<Seq<(u64, Seq<u8>)>>,
) -> (r: Result<Option<u64>, MkvError>)
    requires
        children_match(content@, children@, cs),
    ensures
        r is Ok <==> spec_uint_child(cs, id) is Some,
        r is Ok ==> Some(r->Ok_0) == spec_uint_child(cs, id),
        r is Err ==> r == Err::<Option<u64>, MkvError>(MkvError::UnsupportedVint(id)),
{
    match first_child(children, id, Ghost(content@), Ghost(cs)) {
        None => Ok(None),
        Some((s, e)) => {
            let v = read_uint(slice_range(content, s, e), id)?;
            Ok(Some(v))
        },
    }
}


/// The integer part of the IEEE-754 binary float with the given bits, exponent
/// width `eb`, bias `bias` and fraction width `mb`, as an unsigned 32-bit value:
/// negative values and NaN give 0, values of 2^32 and above saturate.
pub open spec fn float_integer_part(bits: nat, eb: nat, bias: nat, mb: nat) -> nat {
    let sign = bits / pow2(eb + mb);
    let e = (bits / pow2(mb)) % pow2(eb);
    let m = bits % pow2(mb);
    if e == pow2(eb) - 1 && m != 0 {
        0
    } else if sign != 0 || e < bias {
        0
    } else if e - bias >= 32 {
        u32::MAX as nat
    } else {
        (pow2(mb) + m) * pow2((e - bias) as nat) / pow2(mb)
    }
}

/// What a float element's content reads as: 0 for no bytes, else a big-endian
/// binary32 or binary64 truncated to an integer.
pub open spec fn spec_float_hz(content: Seq<u8>) -> Option<u32> {
    if content.len() == 0 {
        Some(0)
    } else if content.len() == 4 {
        Some(float_integer_part(be_value(content), 8, 127, 23) as u32)
    } else if content.len() == 8 {
        Some(float_integer_part(be_value(content), 11, 1023, 52) as u32)
    } else {
        None
    }
}

/// `2^n` for `n <= 63`.
fn pow2_exec(n: u64) -> (p: u64)
    requires
        n <= 63,
    ensures
        p == pow2(n as nat),
{
    let mut p: u64 = 1;
    let mut k: u64 = 0;
    proof {
        lemma_pow2_consts();
        lemma2_to64();
    }
    while k < n
        invariant
            k <= n <= 63,
            p == pow2(k as nat),
            p <= pow2(63),
        decreases n - k,
    {
        proof {
            lemma_pow2_mono(k as nat + 1, 63);
            lemma_pow2_consts();
            lemma_pow2_unfold(k as nat + 1);
        }
        p = p * 2;
        k = k + 1;
    }
    p
}

pub proof fn lemma_pow2_mono(a: nat, b: nat)
    requires
        a <= b,
    ensures
        pow2(a) <= pow2(b),
    decreases b - a,
{
    if a < b {
        lemma_pow2_mono(a, (b - 1) as nat);
        lemma_pow2_unfold(b);
    }
}

/// The powers of two used by float reading.
pub proof fn lemma_pow2_consts()
    ensures
        pow2(8) == 0x100,
        pow2(11) == 0x800,
        pow2(23) == 0x80_0000,
        pow2(31) == 0x8000_0000,
        pow2(52) == 0x10_0000_0000_0000,
        pow2(63) == 0x8000_0000_0000_0000,
        pow2(64) == 0x1_0000_0000_0000_0000,
{
    lemma2_to64();
    lemma2_to64_rest();
}

/// The integer part of a float given by its bits.
#[verifier::rlimit(50)]
fn float_bits_integer_part(bits: u64, eb: u64, bias: u64, mb: u64) -> (r: u32)
    requires
        (eb == 8 && bias == 127 && mb == 23 && bits < 0x1_0000_0000) || (eb == 11 && bias == 1023
            && mb == 52),
    ensures
        r == float_integer_part(bits as nat, eb as nat, bias as nat, mb as nat),
{
    proof {
        lemma_pow2_consts();
        lemma_pow2_mono((eb + mb) as nat, 63);
        lemma_pow2_mono(mb as nat, 63);
        lemma_pow2_mono(eb as nat, 63);
    }
    let sign = bits / pow2_exec(eb + mb);
    let e = (bits / pow2_exec(mb)) % pow2_exec(eb);
    let m = bits % pow2_exec(mb);
    if e == pow2_exec(eb) - 1 && m != 0 {
        return 0;
    }
    if sign != 0 || e < bias {
        return 0;
    }
    if e - bias >= 32 {
        return 0xFFFF_FFFF;
    }
    let shift = e - bias;
    let pm = pow2_exec(mb);
    let ps = pow2_exec(shift);
    // (2^mb + m) * 2^shift / 2^mb, computed in 128 bits
    let a: u128 = pm as u128 + m as u128;
    proof {
        assert(a < 2 * pow2(mb as nat));
        lemma_pow2_mono(shift as nat, 31);
        assert(a * ps <= 2 * pow2(63) * pow2(31)) by (nonlinear_arith)
            requires
                a < 2 * pow2(mb as nat),
                pow2(mb as nat) <= pow2(63),
                ps <= pow2(31),
        ;
    }
    let v: u128 = a * ps as u128 / pm as u128;
    proof {
        assert(v as nat == ((pow2(mb as nat) + m) * pow2(shift as nat)) as nat / pow2(mb as nat));
        assert(v < 0x1_0000_0000) by (nonlinear_arith)
            requires
                v == a * ps / (pm as int),
                a < 2 * pm,
                ps <= pow2(31),
                pow2(31) == 0x8000_0000,
                pm > 0,
        ;
    }
    v as u32
}

/// Reads a float element's content as an integer: the sampling frequency in Hz.
pub fn read_float_hz(content: &[u8], id: u64) -> (r: Result<u32, MkvError>)
    ensures
        r is Ok <==> spec_float_hz(content@) is Some,
        r is Ok ==> Some(r->Ok_0) == spec_float_hz(content@),
        r is Err ==> r == Err::<u32, MkvError>(MkvError::InvalidFloatSize(content@.len() as u64)),
{
    let n = content.len();
    if n == 0 {
        return Ok(0);
    }
    if n != 4 && n != 8 {
        return Err(MkvError::InvalidFloatSize(n as u64));
    }
    let bits = read_be_prefix(content, n);
    proof {
        assert(content@.subrange(0, n as int) =~= content@);
        if n == 4 {
            crate::ebml::lemma_be_value_bound(content@);
            crate::ebml::lemma_pow256_values();
        }
    }
    if n == 4 {
        Ok(float_bits_integer_part(bits, 8, 127, 23))
    } else {
        Ok(float_bits_integer_part(bits, 11, 1023, 52))
    }
}


/// The value of a signed integer element's content: big-endian two's complement,
/// at most eight bytes; no bytes read as zero.
pub open spec fn spec_int(content: Seq<u8>) -> Option<i64> {
    if content.len() > 8 {
        None
    } else if content.len() > 0 && content[0] >= 0x80 {
        Some((be_value(content) - crate::ebml::pow256(content.len())) as i64)
    } else {
        Some(be_value(content) as i64)
    }
}

/// Reads a signed integer element's content.
pub fn read_int(content: &[u8], id: u64) -> (r: Result<i64, MkvError>)
    ensures
        r is Ok <==> spec_int(content@) is Some,
        r is Ok ==> Some(r->Ok_0) == spec_int(content@),
        r is Err ==> r == Err::<i64, MkvError>(MkvError::UnsupportedVint(id)),
{
    let n = content.len();
    if n > 8 {
        return Err(MkvError::UnsupportedVint(id));
    }
    let v = read_be_prefix(content, n);
    proof {
        assert(content@.subrange(0, n as int) =~= content@);
        crate::ebml::lemma_be_value_bound(content@);
        crate::ebml::lemma_pow256_values();
        if n > 0 {
            crate::ebml::lemma_be_value_first(content@);
        }
    }
    if n > 0 && content[0] >= 0x80 {
        // the value lies in [2^(8n-1), 2^(8n)); subtracting 2^(8n) stays in i64
        let wide: i128 = v as i128 - pow256_exec(n) as i128;
        proof {
            crate::ebml::lemma_pow256_mono((n - 1) as nat, 7);
            assert((v as nat) >= 0x80 * crate::ebml::pow256((n - 1) as nat)) by (nonlinear_arith)
                requires
                    (v as nat) >= content@[0] as nat * crate::ebml::pow256((n - 1) as nat),
                    content@[0] >= 0x80,
            ;
            assert(crate::ebml::pow256(n as nat) == 256 * crate::ebml::pow256((n - 1) as nat));
        }
        Ok(wide as i64)
    } else {
        proof {
            if n == 8 {
                assert((v as nat) < (content@[0] as nat + 1) * crate::ebml::pow256(7));
                assert((v as nat) < 0x80 * crate::ebml::pow256(7)) by (nonlinear_arith)
                    requires
                        (v as nat) < (content@[0] as nat + 1) * crate::ebml::pow256(7),
                        content@[0] < 0x80,
                ;
            } else if n > 0 {
                crate::ebml::lemma_pow256_mono(n as nat, 7);
            }
        }
        Ok(v as i64)
    }
}

/// `256^n` for `n <= 8`, as a wide integer.
fn pow256_exec(n: usize) -> (p: u128)
    requires
        n <= 8,
    ensures
        p == crate::ebml::pow256(n as nat),
{
    let mut p: u128 = 1;
    let mut k: usize = 0;
    while k < n
        invariant
            k <= n <= 8,
            p == crate::ebml::pow256(k as nat),
        decreases n - k,
    {
        proof {
            crate::ebml::lemma_pow256_mono(k as nat, 8);
            crate::ebml::lemma_pow256_values();
        }
        p = p * 256;
        k = k + 1;
    }
    p
}

} // verus!
