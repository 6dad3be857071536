//! EBML variable-length integers, identifiers, element headers and values.
use vstd::prelude::*;
use vstd::string::StringSliceAdditionalSpecFns;

verus! {

/// `256^n`.
pub open spec fn pow256(n: nat) -> nat
    decreases n,
{
    if n == 0 {
        1
    } else {
        256 * pow256((n - 1) as nat)
    }
}

/// The number whose big-endian bytes are `s`.
pub open spec fn be_value(s: Seq<u8>) -> nat
    decreases s.len(),
{
    if s.len() == 0 {
        0
    } else {
        be_value(s.drop_last()) * 256 + s.last() as nat
    }
}

/// The `n` low bytes of `v`, big-endian.
pub open spec fn be_bytes(v: nat, n: nat) -> Seq<u8>
    decreases n,
{
    if n == 0 {
        Seq::<u8>::empty()
    } else {
        be_bytes(v / 256, (n - 1) as nat).push((v % 256) as u8)
    }
}

/// The marker bit of a VINT of `w` bytes, as a value over all `w` bytes: `2^(7w)`.
pub open spec fn vint_marker(w: nat) -> nat {
    if w == 1 {
        0x80
    } else if w == 2 {
        0x4000
    } else if w == 3 {
        0x20_0000
    } else if w == 4 {
        0x1000_0000
    } else if w == 5 {
        0x8_0000_0000
    } else if w == 6 {
        0x400_0000_0000
    } else if w == 7 {
        0x2_0000_0000_0000
    } else {
        0x100_0000_0000_0000
    }
}

/// The width in bytes that a VINT starting with `b` declares (9: no marker in the byte).
pub open spec fn vint_width(b: u8) -> nat {
    if b >= 0x80 {
        1
    } else if b >= 0x40 {
        2
    } else if b >= 0x20 {
        3
    } else if b >= 0x10 {
        4
    } else if b >= 0x08 {
        5
    } else if b >= 0x04 {
        6
    } else if b >= 0x02 {
        7
    } else if b >= 0x01 {
        8
    } else {
        9
    }
}

/// The fewest bytes whose 7-bits-per-byte payload holds `v`.
pub open spec fn vint_size(v: nat) -> nat {
    if v < vint_marker(1) {
        1
    } else if v < vint_marker(2) {
        2
    } else if v < vint_marker(3) {
        3
    } else if v < vint_marker(4) {
        4
    } else if v < vint_marker(5) {
        5
    } else if v < vint_marker(6) {
        6
    } else if v < vint_marker(7) {
        7
    } else {
        8
    }
}

/// The fewest bytes that hold the length `v` without reading as the all-ones
/// "unknown length" payload.
pub open spec fn length_size(v: nat) -> nat {
    vint_size(v + 1)
}

/// The VINT of `w` bytes carrying `v`.
pub open spec fn vint_bytes(v: nat, w: nat) -> Seq<u8> {
    be_bytes(v + vint_marker(w), w)
}

/// Errors of the EBML codec.
#[derive(Clone, Copy, Debug, PartialEq, Eq, Structural)]
pub enum EbmlError {
    /// At least this many more bytes are needed.
    NeedMore(usize),
    /// A VINT or an identifier declares a width that is not supported; holds the
    /// count of leading zero bits of its first byte.
    UnsupportedSize(u8),
    /// An element with another identifier than the expected one was found.
    UnexpectedElement(EbmlId, EbmlId),
    /// A length was required to be known, but was the unknown marker.
    UnknownSize,
    /// A float element with a size other than 0, 4 or 8.
    InvalidFloatSize(u64),
    /// An integer element wider than eight bytes.
    UnsupportedIntSize(u64),
    /// A mandatory child element was absent.
    MissingElement(EbmlId),
}

/// An EBML element identifier, its marker bit kept.
#[derive(Clone, Copy, Debug, PartialEq, Eq, Structural)]
pub struct EbmlId(pub u64);

/// What `read_vint` returns on the bytes `s`.
pub open spec fn spec_read_vint(s: Seq<u8>) -> Result<(u64, usize), EbmlError> {
    if s.len() == 0 {
        Err(EbmlError::NeedMore(1))
    } else if vint_width(s[0]) > 8 {
        Err(EbmlError::UnsupportedSize(8))
    } else if s.len() < vint_width(s[0]) {
        Err(EbmlError::NeedMore((vint_width(s[0]) - s.len()) as usize))
    } else {
        let w = vint_width(s[0]);
        Ok(((be_value(s.subrange(0, w as int)) - vint_marker(w)) as u64, w as usize))
    }
}

pub proof fn lemma_be_value_bound(s: Seq<u8>)
    ensures
        be_value(s) < pow256(s.len()),
    decreases s.len(),
{
    if s.len() > 0 {
        lemma_be_value_bound(s.drop_last());
        assert(be_value(s.drop_last()) * 256 + (s.last() as nat) < pow256(s.len())) by (nonlinear_arith)
            requires
                be_value(s.drop_last()) < pow256((s.len() - 1) as nat),
                pow256(s.len()) == 256 * pow256((s.len() - 1) as nat),
                s.last() < 256,
        ;
    }
}

/// The first byte weighs `256^(len-1)` in the value.
pub proof fn lemma_be_value_first(s: Seq<u8>)
    requires
        s.len() > 0,
    ensures
        be_value(s) >= s[0] as nat * pow256((s.len() - 1) as nat),
        be_value(s) < (s[0] as nat + 1) * pow256((s.len() - 1) as nat),
    decreases s.len(),
{
    let t = s.drop_last();
    let bv = be_value(s);
    let lo = s[0] as nat * pow256((s.len() - 1) as nat);
    let hi = (s[0] as nat + 1) * pow256((s.len() - 1) as nat);
    assert(bv == be_value(t) * 256 + (s.last() as nat));
    if s.len() == 1 {
        assert(t.len() == 0);
        assert(be_value(t) == 0);
        assert(pow256(0) == 1);
        assert(s.last() == s[0]);
        assert((s.len() - 1) as nat == 0);
        assert(pow256((s.len() - 1) as nat) == 1);
        assert(lo == s[0] as nat * 1);
        assert(hi == (s[0] as nat + 1) * 1);
    } else {
        lemma_be_value_first(t);
        assert(t[0] == s[0]);
        let p = pow256((t.len() - 1) as nat);
        let q = pow256((s.len() - 1) as nat);
        assert((s.len() - 1) as nat == t.len());
        assert(q == 256 * p);
        let x = s[0] as nat;
        let bt = be_value(t);
        let l = s.last() as nat;
        assert(bt * 256 + l >= x * (256 * p)) by (nonlinear_arith)
            requires
                bt >= x * p,
        ;
        assert(bt * 256 + l < (x + 1) * (256 * p)) by (nonlinear_arith)
            requires
                bt + 1 <= (x + 1) * p,
                l < 256,
        ;
        assert(lo == x * (256 * p));
        assert(hi == (x + 1) * (256 * p));
    }
}

pub proof fn lemma_be_bytes_len(v: nat, n: nat)
    ensures
        be_bytes(v, n).len() == n,
    decreases n,
{
    if n > 0 {
        lemma_be_bytes_len(v / 256, (n - 1) as nat);
    }
}

/// Reading back `n` big-endian bytes of `v` gives `v` when it fits.
pub proof fn lemma_be_round_trip(v: nat, n: nat)
    requires
        v < pow256(n),
    ensures
        be_value(be_bytes(v, n)) == v,
        be_bytes(v, n).len() == n,
    decreases n,
{
    lemma_be_bytes_len(v, n);
    if n > 0 {
        let p = pow256((n - 1) as nat);
        assert(v / 256 < p) by (nonlinear_arith)
            requires
                v < 256 * p,
        ;
        lemma_be_round_trip(v / 256, (n - 1) as nat);
        let b = be_bytes(v, n);
        assert(b.drop_last() =~= be_bytes(v / 256, (n - 1) as nat));
        assert(v == (v / 256) * 256 + v % 256) by (nonlinear_arith);
    }
}

/// `read_vint` in the executable code: the width from the first byte, then the
/// payload with its marker stripped.
pub fn read_vint(input: &[u8]) -> (r: Result<(u64, usize), EbmlError>)
    ensures
        r == spec_read_vint(input@),
{
    if input.len() == 0 {
        return Err(EbmlError::NeedMore(1));
    }
    let w = width_of(input[0]);
    if w > 8 {
        return Err(EbmlError::UnsupportedSize(8));
    }
    if input.len() < w {
        return Err(EbmlError::NeedMore(w - input.len()));
    }
    let v = read_be(input, w);
    proof {
        lemma_be_value_first(input@.subrange(0, w as int));
        assert(input@.subrange(0, w as int)[0] == input@[0]);
        lemma_marker_below_first(input@[0], w as nat);
    }
    Ok((v - marker_of(w), w))
}

/// The width that the first byte `b` declares.
fn width_of(b: u8) -> (w: usize)
    ensures
        w == vint_width(b),
{
    if b >= 0x80 {
        1
    } else if b >= 0x40 {
        2
    } else if b >= 0x20 {
        3
    } else if b >= 0x10 {
        4
    } else if b >= 0x08 {
        5
    } else if b >= 0x04 {
        6
    } else if b >= 0x02 {
        7
    } else if b >= 0x01 {
        8
    } else {
        9
    }
}

fn marker_of(w: usize) -> (m: u64)
    requires
        1 <= w <= 8,
    ensures
        m == vint_marker(w as nat),
{
    if w == 1 {
        0x80
    } else if w == 2 {
        0x4000
    } else if w == 3 {
        0x20_0000
    } else if w == 4 {
        0x1000_0000
    } else if w == 5 {
        0x8_0000_0000
    } else if w == 6 {
        0x400_0000_0000
    } else if w == 7 {
        0x2_0000_0000_0000
    } else {
        0x100_0000_0000_0000
    }
}

pub proof fn lemma_pow256_values()
    ensures
        pow256(0) == 1,
        pow256(1) == 0x100,
        pow256(2) == 0x1_0000,
        pow256(3) == 0x100_0000,
        pow256(4) == 0x1_0000_0000,
        pow256(5) == 0x100_0000_0000,
        pow256(6) == 0x1_0000_0000_0000,
        pow256(7) == 0x100_0000_0000_0000,
        pow256(8) == 0x1_0000_0000_0000_0000,
{
    reveal_with_fuel(pow256, 9);
}

/// A first byte that declares width `w` puts the value at or above the marker.
proof fn lemma_marker_below_first(b: u8, w: nat)
    requires
        1 <= w <= 8,
        w == vint_width(b),
    ensures
        vint_marker(w) <= b as nat * pow256((w - 1) as nat),
        (b as nat + 1) * pow256((w - 1) as nat) <= 2 * vint_marker(w),
{
    lemma_pow256_values();
    let p = pow256((w - 1) as nat);
    let x = b as nat;
    let m = vint_marker(w);
    if w == 1 {
        assert(p == 1);
        assert(m == 0x80);
        assert(first_byte_floor(w) == 0x80);
        assert(m == first_byte_floor(w) * p) by (nonlinear_arith)
            requires
                p == 1,
                m == 0x80,
                first_byte_floor(w) == 0x80,
        ;
    } else if w == 2 {
        assert(p == 0x100);
        assert(m == 0x4000);
        assert(m == first_byte_floor(w) * p);
    } else if w == 3 {
        assert(p == 0x1_0000);
        assert(m == 0x20_0000);
        assert(m == first_byte_floor(w) * p);
    } else if w == 4 {
        assert(p == 0x100_0000);
        assert(m == 0x1000_0000);
        assert(m == first_byte_floor(w) * p);
    } else if w == 5 {
        assert(p == 0x1_0000_0000);
        assert(m == 0x8_0000_0000);
        assert(m == first_byte_floor(w) * p);
    } else if w == 6 {
        assert(p == 0x100_0000_0000);
        assert(m == 0x400_0000_0000);
        assert(m == first_byte_floor(w) * p);
    } else if w == 7 {
        assert(p == 0x1_0000_0000_0000);
        assert(m == 0x2_0000_0000_0000);
        assert(m == first_byte_floor(w) * p);
    } else {
        assert(p == 0x100_0000_0000_0000);
        assert(m == 0x100_0000_0000_0000);
        assert(m == first_byte_floor(w) * p);
    }
    assert(m <= x * p) by (nonlinear_arith)
        requires
            m == first_byte_floor(w) * p,
            x >= first_byte_floor(w),
    ;
    assert((x + 1) * p <= 2 * m) by (nonlinear_arith)
        requires
            x + 1 <= 2 * first_byte_floor(w),
            m == first_byte_floor(w) * p,
    ;
}

/// The least first byte of a VINT of width `w`: its marker bit alone.
pub open spec fn first_byte_floor(w: nat) -> nat {
    if w == 1 {
        0x80
    } else if w == 2 {
        0x40
    } else if w == 3 {
        0x20
    } else if w == 4 {
        0x10
    } else if w == 5 {
        0x08
    } else if w == 6 {
        0x04
    } else if w == 7 {
        0x02
    } else {
        0x01
    }
}

/// The big-endian value of the first `n` bytes of `input`.
fn read_be(input: &[u8], n: usize) -> (v: u64)
    requires
        n <= 8,
        n <= input@.len(),
    ensures
        v as nat == be_value(input@.subrange(0, n as int)),
{
    let mut v: u64 = 0;
    let mut i: usize = 0;
    while i < n
        invariant
            i <= n,
            n <= 8,
            n <= input@.len(),
            v as nat == be_value(input@.subrange(0, i as int)),
        decreases n - i,
    {
        proof {
            lemma_be_value_bound(input@.subrange(0, i as int));
            lemma_pow256_values();
            assert(pow256(i as nat) <= pow256(7)) by {
                lemma_pow256_mono(i as nat, 7);
            }
            assert(input@.subrange(0, i as int + 1).drop_last() =~= input@.subrange(0, i as int));
        }
        v = v * 256 + input[i] as u64;
        i = i + 1;
    }
    v
}

pub proof fn lemma_pow256_mono(a: nat, b: nat)
    requires
        a <= b,
    ensures
        pow256(a) <= pow256(b),
    decreases b - a,
{
    if a < b {
        lemma_pow256_mono(a, (b - 1) as nat);
    }
}


/// `2 * marker(w)` fits in `w` bytes, and the marker is a multiple of `256^(w-1)`.
pub proof fn lemma_marker_facts(w: nat)
    requires
        1 <= w <= 8,
    ensures
        2 * vint_marker(w) <= pow256(w),
        vint_marker(w) == first_byte_floor(w) * pow256((w - 1) as nat),
        pow256((w - 1) as nat) <= vint_marker(w),
{
    lemma_pow256_values();
    let p = pow256((w - 1) as nat);
    if w == 1 {
        assert(p == 1);
        assert(first_byte_floor(w) * p == 0x80) by (nonlinear_arith)
            requires
                p == 1,
                first_byte_floor(w) == 0x80,
        ;
    } else if w == 2 {
        assert(p == 0x100);
    } else if w == 3 {
        assert(p == 0x1_0000);
    } else if w == 4 {
        assert(p == 0x100_0000);
    } else if w == 5 {
        assert(p == 0x1_0000_0000);
    } else if w == 6 {
        assert(p == 0x100_0000_0000);
    } else if w == 7 {
        assert(p == 0x1_0000_0000_0000);
    } else {
        assert(p == 0x100_0000_0000_0000);
    }
}

/// Bytes of width `w` whose value lies in `[marker(w), 2 marker(w))` start with a
/// byte that declares width `w`.
pub proof fn lemma_width_from_value(s: Seq<u8>, w: nat)
    requires
        1 <= w <= 8,
        s.len() == w,
        vint_marker(w) <= be_value(s) < 2 * vint_marker(w),
    ensures
        vint_width(s[0]) == w,
{
    lemma_be_value_first(s);
    lemma_marker_facts(w);
    let p = pow256((w - 1) as nat);
    let f = first_byte_floor(w);
    let x = s[0] as nat;
    let v = be_value(s);
    lemma_pow256_values();
    assert(p > 0);
    assert(x >= f) by (nonlinear_arith)
        requires
            v < (x + 1) * p,
            f * p <= v,
            p > 0,
    ;
    assert(x < 2 * f) by (nonlinear_arith)
        requires
            x * p <= v,
            v < 2 * (f * p),
            p > 0,
    ;
}

/// Appends the `n` low bytes of `v`, big-endian.
fn write_be(buf: &mut Vec<u8>, v: u64, n: usize)
    ensures
        final(buf)@ == old(buf)@ + be_bytes(v as nat, n as nat),
    decreases n,
{
    if n > 0 {
        write_be(buf, v / 256, n - 1);
        buf.push((v % 256) as u8);
        proof {
            assert(final(buf)@ =~= old(buf)@ + be_bytes(v as nat, n as nat));
        }
    }
}

/// The fewest bytes that a VINT carrying `value` needs.
pub fn vint_bytes_required(value: u64) -> (n: u64)
    requires
        value < 0x100_0000_0000_0000,
    ensures
        n == vint_size(value as nat),
{
    if value < 0x80 {
        1
    } else if value < 0x4000 {
        2
    } else if value < 0x20_0000 {
        3
    } else if value < 0x1000_0000 {
        4
    } else if value < 0x8_0000_0000 {
        5
    } else if value < 0x400_0000_0000 {
        6
    } else if value < 0x2_0000_0000_0000 {
        7
    } else {
        8
    }
}

/// Appends `value` as a VINT of the fewest bytes.
pub fn write_vint(buf: &mut Vec<u8>, value: u64)
    requires
        value < 0x100_0000_0000_0000,
    ensures
        final(buf)@ == old(buf)@ + vint_bytes(value as nat, vint_size(value as nat)),
{
    let w = vint_bytes_required(value) as usize;
    let m = marker_of(w);
    write_be(buf, value + m, w);
}

/// A VINT written with `write_vint` reads back as its value and its width,
/// whatever follows it; the width is the least that holds the value.
pub proof fn lemma_vint_round_trip(v: u64, rest: Seq<u8>)
    requires
        v < 0x100_0000_0000_0000,
    ensures
        spec_read_vint(vint_bytes(v as nat, vint_size(v as nat)) + rest) == Ok::<(u64, usize), EbmlError>(
            (v, vint_size(v as nat) as usize),
        ),
        forall|w: nat| 1 <= w < vint_size(v as nat) ==> v >= vint_marker(w),
{
    lemma_vint_read_width(v, vint_size(v as nat), rest);
}

/// A VINT of any width that holds `v` reads back as `v` and that width.
pub proof fn lemma_vint_read_width(v: u64, w: nat, rest: Seq<u8>)
    requires
        1 <= w <= 8,
        v < vint_marker(w),
    ensures
        spec_read_vint(vint_bytes(v as nat, w) + rest) == Ok::<(u64, usize), EbmlError>((v, w as usize)),
        vint_bytes(v as nat, w).len() == w,
{
    let x = v as nat + vint_marker(w);
    lemma_marker_facts(w);
    lemma_be_round_trip(x, w);
    let b = vint_bytes(v as nat, w);
    let s = b + rest;
    lemma_width_from_value(b, w);
    assert(s[0] == b[0]);
    assert(s.subrange(0, w as int) =~= b);
}

/// What `read_id` returns on the bytes `s`: the identifier keeps its marker bit.
pub open spec fn spec_read_id(s: Seq<u8>) -> Result<(EbmlId, usize), EbmlError> {
    if s.len() == 0 {
        Err(EbmlError::NeedMore(1))
    } else if vint_width(s[0]) > 4 {
        Err(EbmlError::UnsupportedSize(4))
    } else if s.len() < vint_width(s[0]) {
        Err(EbmlError::NeedMore((vint_width(s[0]) - s.len()) as usize))
    } else {
        let w = vint_width(s[0]);
        Ok((EbmlId(be_value(s.subrange(0, w as int)) as u64), w as usize))
    }
}

/// Reads an element identifier of at most four bytes.
pub fn read_id(input: &[u8]) -> (r: Result<(EbmlId, usize), EbmlError>)
    ensures
        r == spec_read_id(input@),
{
    if input.len() == 0 {
        return Err(EbmlError::NeedMore(1));
    }
    let w = width_of(input[0]);
    if w > 4 {
        return Err(EbmlError::UnsupportedSize(4));
    }
    if input.len() < w {
        return Err(EbmlError::NeedMore(w - input.len()));
    }
    let v = read_be(input, w);
    Ok((EbmlId(v), w))
}

/// The fewest bytes that hold `v` big-endian (at least one).
pub open spec fn byte_size(v: nat) -> nat {
    if v < pow256(1) {
        1
    } else if v < pow256(2) {
        2
    } else if v < pow256(3) {
        3
    } else if v < pow256(4) {
        4
    } else if v < pow256(5) {
        5
    } else if v < pow256(6) {
        6
    } else if v < pow256(7) {
        7
    } else {
        8
    }
}

/// An identifier as the EBML tables write it: its first byte's marker declares its
/// byte count, of one to four.
pub open spec fn is_canonical_id(id: u64) -> bool {
    (0x80 <= id < 0x100) || (0x4000 <= id < 0x8000) || (0x20_0000 <= id < 0x40_0000) || (
    0x1000_0000 <= id < 0x2000_0000)
}

/// The bytes that `EbmlId::write` appends.
pub open spec fn id_bytes(id: u64) -> Seq<u8> {
    be_bytes(id as nat, byte_size(id as nat))
}

fn byte_size_of(v: u64) -> (n: usize)
    ensures
        n == byte_size(v as nat),
        v < pow256(n as nat),
{
    proof {
        lemma_pow256_values();
    }
    if v < 0x100 {
        1
    } else if v < 0x1_0000 {
        2
    } else if v < 0x100_0000 {
        3
    } else if v < 0x1_0000_0000 {
        4
    } else if v < 0x100_0000_0000 {
        5
    } else if v < 0x1_0000_0000_0000 {
        6
    } else if v < 0x100_0000_0000_0000 {
        7
    } else {
        8
    }
}

impl EbmlId {
    /// The number of bytes the identifier takes when written.
    pub fn size(&self) -> (n: u64)
        ensures
            n == byte_size(self.0 as nat),
            n == id_bytes(self.0).len(),
    {
        let n = byte_size_of(self.0);
        proof {
            lemma_be_bytes_len(self.0 as nat, n as nat);
        }
        n as u64
    }

    /// Appends the identifier's bytes.
    pub fn write(&self, buf: &mut Vec<u8>)
        ensures
            final(buf)@ == old(buf)@ + id_bytes(self.0),
    {
        write_vid(buf, self.0);
    }
}

/// Appends the big-endian bytes of an identifier.
pub fn write_vid(buf: &mut Vec<u8>, id: u64)
    ensures
        final(buf)@ == old(buf)@ + id_bytes(id),
{
    let n = byte_size_of(id);
    write_be(buf, id, n);
}

/// A canonical identifier written with `write_vid` reads back bit for bit,
/// whatever follows it.
pub proof fn lemma_id_round_trip(id: u64, rest: Seq<u8>)
    requires
        is_canonical_id(id),
    ensures
        spec_read_id(id_bytes(id) + rest) == Ok::<(EbmlId, usize), EbmlError>(
            (EbmlId(id), byte_size(id as nat) as usize),
        ),
{
    let w: nat = if id < 0x100 {
        1
    } else if id < 0x8000 {
        2
    } else if id < 0x40_0000 {
        3
    } else {
        4
    };
    lemma_marker_facts(w);
    lemma_pow256_values();
    assert(byte_size(id as nat) == w);
    lemma_be_round_trip(id as nat, w);
    let b = id_bytes(id);
    lemma_width_from_value(b, w);
    let s = b + rest;
    assert(s[0] == b[0]);
    assert(s.subrange(0, w as int) =~= b);
}


/// The length of an element's content: known, or the all-ones marker of the given width.
#[derive(Clone, Copy, Debug, PartialEq, Eq, Structural)]
pub enum EbmlLength {
    Known(u64),
    Unknown(u8),
}

/// What `read_length` returns on the bytes `s`.
pub open spec fn spec_read_length(s: Seq<u8>) -> Result<(EbmlLength, usize), EbmlError> {
    match spec_read_vint(s) {
        Ok((v, w)) => if v as nat == vint_marker(w as nat) - 1 {
            Ok((EbmlLength::Unknown(w as u8), w))
        } else {
            Ok((EbmlLength::Known(v), w))
        },
        Err(e) => Err(e),
    }
}

/// Reads an element's content length; an all-ones payload is the unknown length.
pub fn read_length(input: &[u8]) -> (r: Result<(EbmlLength, usize), EbmlError>)
    ensures
        r == spec_read_length(input@),
{
    match read_vint(input) {
        Ok((v, w)) => {
            if v == marker_of(w) - 1 {
                Ok((EbmlLength::Unknown(w as u8), w))
            } else {
                Ok((EbmlLength::Known(v), w))
            }
        },
        Err(e) => Err(e),
    }
}

/// Whether a length can be written: a known length below the widest all-ones
/// payload, or an unknown length of one to eight bytes.
pub open spec fn length_writable(l: EbmlLength) -> bool {
    match l {
        EbmlLength::Known(v) => v + 1 < 0x100_0000_0000_0000,
        EbmlLength::Unknown(n) => 1 <= n <= 8,
    }
}

/// The bytes that `EbmlLength::write` appends.
pub open spec fn length_bytes(l: EbmlLength) -> Seq<u8> {
    match l {
        EbmlLength::Known(v) => vint_bytes(v as nat, length_size(v as nat)),
        EbmlLength::Unknown(n) => vint_bytes((vint_marker(n as nat) - 1) as nat, n as nat),
    }
}

impl EbmlLength {
    /// The known length, or `UnknownSize`.
    pub fn require(self) -> (r: Result<u64, EbmlError>)
        ensures
            r == (match self {
                EbmlLength::Known(v) => Ok::<u64, EbmlError>(v),
                EbmlLength::Unknown(_) => Err(EbmlError::UnknownSize),
            }),
    {
        match self {
            EbmlLength::Known(size) => Ok(size),
            EbmlLength::Unknown(_) => Err(EbmlError::UnknownSize),
        }
    }

    /// The number of bytes the length takes when written.
    pub fn size(&self) -> (n: u64)
        requires
            length_writable(*self),
        ensures
            n == length_bytes(*self).len(),
    {
        proof {
            lemma_length_bytes(*self);
        }
        match self {
            EbmlLength::Known(v) => vint_bytes_required(*v + 1),
            EbmlLength::Unknown(n) => *n as u64,
        }
    }

    /// Appends the length as a VINT.
    pub fn write(&self, buf: &mut Vec<u8>)
        requires
            length_writable(*self),
        ensures
            final(buf)@ == old(buf)@ + length_bytes(*self),
    {
        match self {
            EbmlLength::Known(v) => {
                let w = vint_bytes_required(*v + 1) as usize;
                let m = marker_of(w);
                write_be(buf, *v + m, w);
            },
            EbmlLength::Unknown(n) => {
                let w = *n as usize;
                let m = marker_of(w);
                write_be(buf, m - 1 + m, w);
            },
        }
    }
}

/// A written length reads back as itself, whatever follows it.
pub proof fn lemma_length_bytes(l: EbmlLength)
    requires
        length_writable(l),
    ensures
        forall|rest: Seq<u8>|
            #![trigger length_bytes(l) + rest]
            spec_read_length(length_bytes(l) + rest) == Ok::<(EbmlLength, usize), EbmlError>(
                (l, length_bytes(l).len() as usize),
            ),
        length_bytes(l).len() == (match l {
            EbmlLength::Known(v) => length_size(v as nat),
            EbmlLength::Unknown(n) => n as nat,
        }),
        1 <= length_bytes(l).len() <= 8,
{
    match l {
        EbmlLength::Known(v) => {
            let w = length_size(v as nat);
            assert forall|rest: Seq<u8>|
                #![trigger length_bytes(l) + rest]
                spec_read_length(length_bytes(l) + rest) == Ok::<(EbmlLength, usize), EbmlError>(
                    (l, length_bytes(l).len() as usize),
                ) by {
                lemma_vint_read_width(v, w, rest);
            }
            lemma_vint_read_width(v, w, Seq::empty());
        },
        EbmlLength::Unknown(n) => {
            let w = n as nat;
            let v = (vint_marker(w) - 1) as u64;
            assert forall|rest: Seq<u8>|
                #![trigger length_bytes(l) + rest]
                spec_read_length(length_bytes(l) + rest) == Ok::<(EbmlLength, usize), EbmlError>(
                    (l, length_bytes(l).len() as usize),
                ) by {
                lemma_vint_read_width(v, w, rest);
            }
            lemma_vint_read_width(v, w, Seq::empty());
        },
    }
}

/// What `read_element_header` returns: the identifier, then the length, and the
/// number of bytes the two take; nothing is taken unless both are complete.
#[verifier::opaque]
pub open spec fn spec_read_header(s: Seq<u8>) -> Result<(EbmlId, EbmlLength, usize), EbmlError> {
    match spec_read_id(s) {
        Ok((id, n)) => match spec_read_length(s.subrange(n as int, s.len() as int)) {
            Ok((l, m)) => Ok((id, l, (n + m) as usize)),
            Err(e) => Err(e),
        },
        Err(e) => Err(e),
    }
}

/// Reads an element header: identifier and content length.
pub fn read_element_header(input: &[u8]) -> (r: Result<(EbmlId, EbmlLength, usize), EbmlError>)
    ensures
        r == spec_read_header(input@),
        r is Ok ==> 2 <= r->Ok_0.2 <= input@.len(),
{
    proof {
        reveal(spec_read_header);
    }
    let (id, n) = read_id(input)?;
    let tail = slice_from(input, n);
    let (l, m) = read_length(tail)?;
    Ok((id, l, n + m))
}

/// `input[start..]`.
pub fn slice_from(input: &[u8], start: usize) -> (r: &[u8])
    requires
        start <= input@.len(),
    ensures
        r@ == input@.subrange(start as int, input@.len() as int),
{
    slice_range(input, start, input.len())
}

/// `input[start..end]`.
pub fn slice_range(input: &[u8], start: usize, end: usize) -> (r: &[u8])
    requires
        start <= end <= input@.len(),
    ensures
        r@ == input@.subrange(start as int, end as int),
{
    let (a, _) = input.split_at(end);
    let (_, b) = a.split_at(start);
    proof {
        assert(b@ =~= input@.subrange(start as int, end as int));
    }
    b
}

/// The bytes of an element with identifier `id` and the given content.
pub open spec fn element_bytes(id: u64, content: Seq<u8>) -> Seq<u8> {
    id_bytes(id) + length_bytes(EbmlLength::Known(content.len() as u64)) + content
}

/// The header of a written element reads back as its identifier and the content's
/// length, whatever follows it.
pub proof fn lemma_header_round_trip(id: u64, content: Seq<u8>, rest: Seq<u8>)
    requires
        is_canonical_id(id),
        content.len() + 1 < 0x100_0000_0000_0000,
    ensures
        spec_read_header(element_bytes(id, content) + rest) == Ok::<(EbmlId, EbmlLength, usize), EbmlError>(
            (
                EbmlId(id),
                EbmlLength::Known(content.len() as u64),
                (id_bytes(id).len() + length_bytes(EbmlLength::Known(content.len() as u64)).len()) as usize,
            ),
        ),
        1 <= id_bytes(id).len() <= 4,
        1 <= length_bytes(EbmlLength::Known(content.len() as u64)).len() <= 8,
{
    reveal(spec_read_header);
    let l = EbmlLength::Known(content.len() as u64);
    let ib = id_bytes(id);
    let lb = length_bytes(l);
    let s = element_bytes(id, content) + rest;
    let after = lb + (content + rest);
    assert(s =~= ib + after);
    lemma_id_round_trip(id, after);
    lemma_pow256_values();
    lemma_be_bytes_len(id as nat, byte_size(id as nat));
    assert(s.subrange(ib.len() as int, s.len() as int) =~= lb + (content + rest));
    lemma_length_bytes(l);
}

/// Splits a byte run into elements `(id, content)`, front to back; `None` where an
/// element does not fit or has no known length.
pub open spec fn spec_parse_children(s: Seq<u8>) -> Option<Seq<(u64, Seq<u8>)>>
    decreases s.len(),
{
    if s.len() == 0 {
        Some(Seq::empty())
    } else {
        match spec_read_header(s) {
            Ok((id, EbmlLength::Known(len), h)) => if h > 0 && h + len <= s.len() {
                match spec_parse_children(s.subrange(h + len, s.len() as int)) {
                    Some(cs) => Some(seq![(id.0, s.subrange(h as int, h + len))] + cs),
                    None => None,
                }
            } else {
                None
            },
            _ => None,
        }
    }
}

/// The bytes of a run of elements `(id, content)` written one after another.
pub open spec fn children_bytes(cs: Seq<(u64, Seq<u8>)>) -> Seq<u8>
    decreases cs.len(),
{
    if cs.len() == 0 {
        Seq::empty()
    } else {
        element_bytes(cs[0].0, cs[0].1) + children_bytes(cs.drop_first())
    }
}

/// Elements that a master can hold and read back: canonical identifiers and
/// contents whose length can be written.
pub open spec fn children_writable(cs: Seq<(u64, Seq<u8>)>) -> bool {
    forall|i: int|
        0 <= i < cs.len() ==> is_canonical_id(#[trigger] cs[i].0) && cs[i].1.len() + 1
            < 0x100_0000_0000_0000
}

/// Element composition: the children of a master, written in order, read back as
/// the same identifiers and contents.
#[verifier::rlimit(50)]
pub proof fn lemma_children_round_trip(cs: Seq<(u64, Seq<u8>)>)
    requires
        children_writable(cs),
    ensures
        spec_parse_children(children_bytes(cs)) == Some(cs),
    decreases cs.len(),
{
    if cs.len() > 0 {
        let (id, c) = cs[0];
        let rest = children_bytes(cs.drop_first());
        assert(children_writable(cs.drop_first())) by {
            assert forall|i: int| 0 <= i < cs.drop_first().len() implies is_canonical_id(
                #[trigger] cs.drop_first()[i].0,
            ) && cs.drop_first()[i].1.len() + 1 < 0x100_0000_0000_0000 by {
                assert(cs.drop_first()[i] == cs[i + 1]);
            }
        }
        lemma_children_round_trip(cs.drop_first());
        let s = children_bytes(cs);
        assert(s == element_bytes(id, c) + rest);
        lemma_header_round_trip(id, c, rest);
        let h = id_bytes(id).len() + length_bytes(EbmlLength::Known(c.len() as u64)).len();
        assert(element_bytes(id, c).len() == h + c.len());
        assert(s.subrange(h as int, (h + c.len()) as int) =~= c);
        assert(s.subrange((h + c.len()) as int, s.len() as int) =~= rest);
        assert(seq![(id, c)] + cs.drop_first() =~= cs);
        assert(h > 0);
        assert(h <= 12);
        assert((h as usize) as nat == h);
        let len = c.len() as u64;
        assert(len as int == c.len());
        assert(s.len() == h + c.len() + rest.len());
        assert(s.len() > 0);
        let tail = s.subrange((h + c.len()) as int, s.len() as int);
        assert(spec_parse_children(tail) == Some(cs.drop_first()));
        assert(seq![(EbmlId(id).0, s.subrange(h as int, h + len))] =~= seq![(id, c)]);
        assert(spec_read_header(s) == Ok::<(EbmlId, EbmlLength, usize), EbmlError>(
            (EbmlId(id), EbmlLength::Known(c.len() as u64), h as usize),
        ));
        assert(spec_parse_children(s) == Some(seq![(id, c)] + cs.drop_first()));
    } else {
        assert(children_bytes(cs) =~= Seq::<u8>::empty());
    }
}


/// Appends the bytes of `src`.
pub fn append_bytes(buf: &mut Vec<u8>, src: &[u8])
    ensures
        final(buf)@ == old(buf)@ + src@,
{
    let mut i: usize = 0;
    while i < src.len()
        invariant
            i <= src@.len(),
            buf@ == old(buf)@ + src@.subrange(0, i as int),
        decreases src@.len() - i,
    {
        buf.push(src[i]);
        i = i + 1;
        proof {
            assert(buf@ =~= old(buf)@ + src@.subrange(0, i as int));
        }
    }
    proof {
        assert(src@.subrange(0, src@.len() as int) =~= src@);
    }
}

/// The value of an element.
#[derive(Clone, Debug)]
pub enum EbmlValue {
    Int(i64),
    UInt(u64),
    String(&'static str),
    Binary(Vec<u8>),
}

/// The fewest bytes that hold `v` in two's complement (at least one).
pub open spec fn int_size(v: int) -> nat {
    if -pow256(1) / 2 <= v < pow256(1) / 2 {
        1
    } else if -pow256(2) / 2 <= v < pow256(2) / 2 {
        2
    } else if -pow256(3) / 2 <= v < pow256(3) / 2 {
        3
    } else if -pow256(4) / 2 <= v < pow256(4) / 2 {
        4
    } else if -pow256(5) / 2 <= v < pow256(5) / 2 {
        5
    } else if -pow256(6) / 2 <= v < pow256(6) / 2 {
        6
    } else if -pow256(7) / 2 <= v < pow256(7) / 2 {
        7
    } else {
        8
    }
}

/// The content bytes of a value: integers big-endian in the fewest bytes (one at
/// least), strings as their UTF-8 bytes, binary as it is.
pub open spec fn value_bytes(v: EbmlValue) -> Seq<u8> {
    match v {
        EbmlValue::Int(i) => be_bytes(
            (if i >= 0 {
                i as int
            } else {
                pow256(int_size(i as int)) + i
            }) as nat,
            int_size(i as int),
        ),
        EbmlValue::UInt(u) => be_bytes(u as nat, byte_size(u as nat)),
        EbmlValue::String(s) => s.spec_bytes(),
        EbmlValue::Binary(b) => b@,
    }
}

fn int_size_of(v: i64) -> (r: (usize, u64))
    ensures
        r.0 == int_size(v as int),
        r.1 as int == (if v >= 0 {
            v as int
        } else {
            pow256(int_size(v as int)) + v
        }),
        r.1 < pow256(r.0 as nat),
{
    proof {
        lemma_pow256_values();
    }
    let n: usize = if -0x80 <= v && v < 0x80 {
        1
    } else if -0x8000 <= v && v < 0x8000 {
        2
    } else if -0x80_0000 <= v && v < 0x80_0000 {
        3
    } else if -0x8000_0000 <= v && v < 0x8000_0000 {
        4
    } else if -0x80_0000_0000 <= v && v < 0x80_0000_0000 {
        5
    } else if -0x8000_0000_0000 <= v && v < 0x8000_0000_0000 {
        6
    } else if -0x80_0000_0000_0000 <= v && v < 0x80_0000_0000_0000 {
        7
    } else {
        8
    };
    if v >= 0 {
        (n, v as u64)
    } else {
        // two's complement in n bytes: 256^n + v, computed without overflow
        let pos: u64 = (-(v + 1)) as u64;
        let full: u64 = if n == 8 {
            0xFFFF_FFFF_FFFF_FFFF
        } else {
            let mut f: u64 = 1;
            let mut k: usize = 0;
            while k < n
                invariant
                    k <= n,
                    n < 8,
                    f as nat == pow256(k as nat),
                decreases n - k,
            {
                proof {
                    lemma_pow256_mono(k as nat, 6);
                    lemma_pow256_values();
                }
                f = f * 256;
                k = k + 1;
            }
            f - 1
        };
        (n, full - pos)
    }
}

impl EbmlValue {
    /// The number of content bytes the value takes.
    pub fn size(&self) -> (n: u64)
        ensures
            n == value_bytes(*self).len(),
    {
        match self {
            EbmlValue::Int(v) => {
                let (n, _) = int_size_of(*v);
                proof {
                    lemma_be_bytes_len(value_bytes(*self).len(), 0);
                    lemma_be_bytes_len(
                        (if *v >= 0 {
                            *v as int
                        } else {
                            pow256(int_size(*v as int)) + *v
                        }) as nat,
                        int_size(*v as int),
                    );
                }
                n as u64
            },
            EbmlValue::UInt(v) => {
                let n = byte_size_of(*v);
                proof {
                    lemma_be_bytes_len(*v as nat, n as nat);
                }
                n as u64
            },
            EbmlValue::String(s) => s.as_bytes().len() as u64,
            EbmlValue::Binary(b) => b.len() as u64,
        }
    }

    /// Appends the value's content bytes.
    pub fn write(&self, buf: &mut Vec<u8>)
        ensures
            final(buf)@ == old(buf)@ + value_bytes(*self),
    {
        match self {
            EbmlValue::Int(v) => {
                let (n, u) = int_size_of(*v);
                write_be(buf, u, n);
            },
            EbmlValue::UInt(v) => write_vid(buf, *v),
            EbmlValue::String(s) => append_bytes(buf, s.as_bytes()),
            EbmlValue::Binary(b) => append_bytes(buf, b.as_slice()),
        }
    }
}

/// An element: identifier and value.
#[derive(Clone, Debug)]
pub struct EbmlElement(pub EbmlId, pub EbmlValue);

/// A master element: identifier and children, written in order.
#[derive(Clone, Debug)]
pub struct EbmlMasterElement(pub EbmlId, pub Vec<EbmlElement>);

impl EbmlElement {
    /// The element as `(id, content)`.
    pub open spec fn view_pair(self) -> (u64, Seq<u8>) {
        (self.0.0, value_bytes(self.1))
    }

    /// Whether the element can be written and read back.
    pub open spec fn writable(self) -> bool {
        is_canonical_id(self.0.0) && value_bytes(self.1).len() + 1 < 0x100_0000_0000_0000
    }

    /// The number of bytes of the whole element: header and content.
    pub fn full_size(&self) -> (n: u64)
        requires
            self.writable(),
        ensures
            n == element_bytes(self.0.0, value_bytes(self.1)).len(),
    {
        let content = self.1.size();
        let l = EbmlLength::Known(content);
        proof {
            lemma_be_bytes_len(self.0.0 as nat, byte_size(self.0.0 as nat));
            lemma_length_bytes(l);
        }
        self.0.size() + l.size() + content
    }

    /// Appends the element: identifier, content length, content.
    pub fn write(&self, buf: &mut Vec<u8>)
        requires
            self.writable(),
        ensures
            final(buf)@ == old(buf)@ + element_bytes(self.0.0, value_bytes(self.1)),
    {
        let ghost start = buf@;
        self.0.write(buf);
        let l = EbmlLength::Known(self.1.size());
        l.write(buf);
        self.1.write(buf);
        proof {
            assert(buf@ =~= start + element_bytes(self.0.0, value_bytes(self.1)));
        }
    }
}

/// `children_bytes` of a prefix grows by one element at a time.
pub proof fn lemma_children_bytes_push(cs: Seq<(u64, Seq<u8>)>, c: (u64, Seq<u8>))
    ensures
        children_bytes(cs.push(c)) == children_bytes(cs) + element_bytes(c.0, c.1),
    decreases cs.len(),
{
    if cs.len() == 0 {
        assert(cs.push(c).drop_first() =~= Seq::<(u64, Seq<u8>)>::empty());
        assert(children_bytes(Seq::<(u64, Seq<u8>)>::empty()) =~= Seq::<u8>::empty());
        assert(children_bytes(cs) =~= Seq::<u8>::empty());
        assert(children_bytes(cs.push(c)) =~= element_bytes(c.0, c.1));
    } else {
        lemma_children_bytes_push(cs.drop_first(), c);
        assert(cs.push(c).drop_first() =~= cs.drop_first().push(c));
        assert(children_bytes(cs.push(c)) =~= children_bytes(cs) + element_bytes(c.0, c.1));
    }
}

impl EbmlMasterElement {
    /// The children as `(id, content)`.
    pub open spec fn children_view(self) -> Seq<(u64, Seq<u8>)> {
        self.1@.map_values(|e: EbmlElement| e.view_pair())
    }

    /// Whether the master can be written: canonical identifiers and a content that
    /// a length can describe.
    pub open spec fn writable(self) -> bool {
        &&& is_canonical_id(self.0.0)
        &&& forall|i: int| 0 <= i < self.1@.len() ==> (#[trigger] self.1@[i]).writable()
        &&& children_bytes(self.children_view()).len() + 1 < 0x100_0000_0000_0000
    }

    /// The content: the children written in order.
    pub open spec fn content(self) -> Seq<u8> {
        children_bytes(self.children_view())
    }

    /// The number of content bytes.
    pub fn size(&self) -> (n: u64)
        requires
            self.writable(),
        ensures
            n == self.content().len(),
    {
        let mut total: u64 = 0;
        let mut i: usize = 0;
        while i < self.1.len()
            invariant
                self.writable(),
                i <= self.1@.len(),
                total == children_bytes(self.children_view().take(i as int)).len(),
            decreases self.1@.len() - i,
        {
            proof {
                let cv = self.children_view();
                assert(cv.take(i as int + 1) =~= cv.take(i as int).push(cv[i as int]));
                lemma_children_bytes_push(cv.take(i as int), cv[i as int]);
                lemma_children_prefix_len(cv, i as int + 1);
            }
            let n = self.1[i].full_size();
            total = total + n;
            i = i + 1;
        }
        proof {
            assert(self.children_view().take(i as int) =~= self.children_view());
        }
        total
    }

    /// The number of bytes of the whole master: header and content.
    pub fn full_size(&self) -> (n: u64)
        requires
            self.writable(),
        ensures
            n == element_bytes(self.0.0, self.content()).len(),
    {
        let content = self.size();
        let l = EbmlLength::Known(content);
        proof {
            lemma_be_bytes_len(self.0.0 as nat, byte_size(self.0.0 as nat));
            lemma_length_bytes(l);
        }
        self.0.size() + l.size() + content
    }

    /// Appends the master: identifier, the content's length, the children in order.
    pub fn write(&self, buf: &mut Vec<u8>)
        requires
            self.writable(),
        ensures
            final(buf)@ == old(buf)@ + element_bytes(self.0.0, self.content()),
    {
        let ghost start = buf@;
        self.0.write(buf);
        let l = EbmlLength::Known(self.size());
        l.write(buf);
        let ghost header = buf@;
        let mut i: usize = 0;
        while i < self.1.len()
            invariant
                self.writable(),
                i <= self.1@.len(),
                buf@ == header + children_bytes(self.children_view().take(i as int)),
            decreases self.1@.len() - i,
        {
            proof {
                let cv = self.children_view();
                assert(cv.take(i as int + 1) =~= cv.take(i as int).push(cv[i as int]));
                lemma_children_bytes_push(cv.take(i as int), cv[i as int]);
            }
            self.1[i].write(buf);
            i = i + 1;
        }
        proof {
            assert(self.children_view().take(i as int) =~= self.children_view());
            assert(buf@ =~= start + element_bytes(self.0.0, self.content()));
        }
    }

    /// The master as a plain element whose binary value is its content, for nesting
    /// inside another master.
    pub fn to_element(&self) -> (e: EbmlElement)
        requires
            self.writable(),
        ensures
            e.view_pair() == (self.0.0, self.content()),
            e.writable(),
    {
        let mut content: Vec<u8> = Vec::new();
        let mut i: usize = 0;
        while i < self.1.len()
            invariant
                self.writable(),
                i <= self.1@.len(),
                content@ == children_bytes(self.children_view().take(i as int)),
            decreases self.1@.len() - i,
        {
            proof {
                let cv = self.children_view();
                assert(cv.take(i as int + 1) =~= cv.take(i as int).push(cv[i as int]));
                lemma_children_bytes_push(cv.take(i as int), cv[i as int]);
            }
            self.1[i].write(&mut content);
            i = i + 1;
        }
        proof {
            assert(self.children_view().take(i as int) =~= self.children_view());
        }
        EbmlElement(self.0, EbmlValue::Binary(content))
    }
}

/// The bytes of a prefix of children are no longer than those of all of them.
pub proof fn lemma_children_prefix_len(cs: Seq<(u64, Seq<u8>)>, k: int)
    requires
        0 <= k <= cs.len(),
    ensures
        children_bytes(cs.take(k)).len() <= children_bytes(cs).len(),
    decreases cs.len() - k,
{
    if k < cs.len() {
        lemma_children_prefix_len(cs, k + 1);
        assert(cs.take(k + 1) =~= cs.take(k).push(cs[k]));
        lemma_children_bytes_push(cs.take(k), cs[k]);
    } else {
        assert(cs.take(k) =~= cs);
    }
}

/// Element composition for a master: its bytes read back as its identifier, the
/// content's length, and then its children with their identifiers and contents.
pub proof fn lemma_master_round_trip(m: EbmlMasterElement, rest: Seq<u8>)
    requires
        m.writable(),
    ensures
        spec_read_header(element_bytes(m.0.0, m.content()) + rest) is Ok,
        ({
            let (id, l, h) = spec_read_header(element_bytes(m.0.0, m.content()) + rest)->Ok_0;
            let s = element_bytes(m.0.0, m.content()) + rest;
            &&& id == m.0
            &&& l == EbmlLength::Known(m.content().len() as u64)
            &&& spec_parse_children(s.subrange(h as int, h + m.content().len()))
                == Some(m.children_view())
        }),
{
    lemma_header_round_trip(m.0.0, m.content(), rest);
    let h = id_bytes(m.0.0).len() + length_bytes(EbmlLength::Known(m.content().len() as u64)).len();
    let s = element_bytes(m.0.0, m.content()) + rest;
    assert(s.subrange(h as int, (h + m.content().len()) as int) =~= m.content());
    let cv = m.children_view();
    assert(children_writable(cv)) by {
        assert forall|i: int| 0 <= i < cv.len() implies is_canonical_id(#[trigger] cv[i].0)
            && cv[i].1.len() + 1 < 0x100_0000_0000_0000 by {
            assert(m.1@[i].writable());
        }
    }
    lemma_children_round_trip(cv);
}


/// The big-endian value of the first `n` bytes of `input`, for other modules.
pub fn read_be_prefix(input: &[u8], n: usize) -> (v: u64)
    requires
        n <= 8,
        n <= input@.len(),
    ensures
        v as nat == be_value(input@.subrange(0, n as int)),
{
    read_be(input, n)
}

/// Appends the `n` low bytes of `v`, big-endian, for other modules.
pub fn write_be_pub(buf: &mut Vec<u8>, v: u64, n: usize)
    ensures
        final(buf)@ == old(buf)@ + be_bytes(v as nat, n as nat),
{
    write_be(buf, v, n)
}


/// A VINT's payload is below its width's marker, so below `2^56`.
pub proof fn lemma_vint_bound(s: Seq<u8>)
    requires
        spec_read_vint(s) is Ok,
    ensures
        spec_read_vint(s)->Ok_0.0 < vint_marker(spec_read_vint(s)->Ok_0.1 as nat),
        spec_read_vint(s)->Ok_0.0 < 0x100_0000_0000_0000,
        1 <= spec_read_vint(s)->Ok_0.1 <= 8,
{
    let w = vint_width(s[0]);
    let t = s.subrange(0, w as int);
    lemma_be_value_first(t);
    assert(t[0] == s[0]);
    lemma_marker_below_first(s[0], w);
    lemma_marker_facts(w);
}

/// The length in a header is below `2^56`.
pub proof fn lemma_header_len_bound(s: Seq<u8>)
    requires
        spec_read_header(s) is Ok,
    ensures
        spec_read_header(s)->Ok_0.1 matches EbmlLength::Known(len) ==> len < 0x100_0000_0000_0000,
        spec_read_header(s)->Ok_0.2 <= 12,
{
    reveal(spec_read_header);
    let n = spec_read_id(s)->Ok_0.1;
    lemma_vint_bound(s.subrange(n as int, s.len() as int));
}


/// The largest content an element may carry here: lengths stay well within the
/// widest VINT.
pub const MAX_CONTENT: u64 = 0x80_0000_0000_0000;

/// Whether `id` is canonical.
pub fn canonical_id(id: u64) -> (b: bool)
    ensures
        b == is_canonical_id(id),
{
    (0x80 <= id && id < 0x100) || (0x4000 <= id && id < 0x8000) || (0x20_0000 <= id && id
        < 0x40_0000) || (0x1000_0000 <= id && id < 0x2000_0000)
}

impl EbmlElement {
    /// The element, where its identifier is canonical and its content not over
    /// `MAX_CONTENT` bytes.
    pub fn checked(id: u64, value: EbmlValue) -> (r: Option<EbmlElement>)
        ensures
            r is Some <==> is_canonical_id(id) && value_bytes(value).len() <= MAX_CONTENT,
            r matches Some(e) ==> e.0.0 == id && e.1 == value && e.writable(),
    {
        if !canonical_id(id) {
            return None;
        }
        if value.size() > MAX_CONTENT {
            return None;
        }
        Some(EbmlElement(EbmlId(id), value))
    }
}

impl EbmlMasterElement {
    /// The master, where its identifier is canonical, its children writable and
    /// its content not over `MAX_CONTENT` bytes.
    pub fn checked(id: u64, children: Vec<EbmlElement>) -> (r: Option<EbmlMasterElement>)
        requires
            forall|i: int| 0 <= i < children@.len() ==> (#[trigger] children@[i]).writable(),
        ensures
            r is Some <==> is_canonical_id(id) && children_bytes(
                children@.map_values(|e: EbmlElement| e.view_pair()),
            ).len() <= MAX_CONTENT,
            r matches Some(m) ==> m.0.0 == id && m.1@ == children@ && m.writable(),
    {
        if !canonical_id(id) {
            return None;
        }
        let ghost cv = children@.map_values(|e: EbmlElement| e.view_pair());
        let mut total: u64 = 0;
        let mut i: usize = 0;
        while i < children.len()
            invariant
                forall|k: int| 0 <= k < children@.len() ==> (#[trigger] children@[k]).writable(),
                cv == children@.map_values(|e: EbmlElement| e.view_pair()),
                i <= children@.len(),
                total <= MAX_CONTENT,
                total == children_bytes(cv.take(i as int)).len(),
            decreases children@.len() - i,
        {
            proof {
                assert(cv.take(i as int + 1) =~= cv.take(i as int).push(cv[i as int]));
                lemma_children_bytes_push(cv.take(i as int), cv[i as int]);
                lemma_children_prefix_len(cv, i as int + 1);
            }
            let n = children[i].full_size();
            if n > MAX_CONTENT - total {
                proof {
                    lemma_children_prefix_len(cv, i as int + 1);
                }
                return None;
            }
            total = total + n;
            i = i + 1;
        }
        proof {
            assert(cv.take(i as int) =~= cv);
        }
        Some(EbmlMasterElement(EbmlId(id), children))
    }
}


/// A child's content is no longer than the bytes of all children.
pub proof fn lemma_child_content_le(cs: Seq<(u64, Seq<u8>)>, i: int)
    requires
        0 <= i < cs.len(),
    ensures
        cs[i].1.len() <= children_bytes(cs).len(),
    decreases cs.len(),
{
    if i > 0 {
        lemma_child_content_le(cs.drop_first(), i - 1);
        assert(cs.drop_first()[i - 1] == cs[i]);
    }
}

/// The bytes of children with canonical identifiers and contents of at most `l`
/// bytes take at most `12 + l` bytes each.
pub proof fn lemma_children_len_bound(cs: Seq<(u64, Seq<u8>)>, l: nat)
    requires
        l + 1 < 0x100_0000_0000_0000,
        forall|i: int| 0 <= i < cs.len() ==> is_canonical_id(#[trigger] cs[i].0) && cs[i].1.len() <= l,
    ensures
        children_bytes(cs).len() <= cs.len() * (12 + l),
    decreases cs.len(),
{
    if cs.len() > 0 {
        let t = cs.drop_first();
        assert forall|i: int| 0 <= i < t.len() implies is_canonical_id(#[trigger] t[i].0) && t[i].1.len() <= l by {
            assert(t[i] == cs[i + 1]);
        }
        lemma_children_len_bound(t, l);
        assert(is_canonical_id(cs[0].0) && cs[0].1.len() <= l);
        lemma_header_round_trip(cs[0].0, cs[0].1, Seq::empty());
        assert(children_bytes(cs).len() == element_bytes(cs[0].0, cs[0].1).len() + children_bytes(t).len());
        assert(t.len() * (12 + l) + (12 + l) == cs.len() * (12 + l)) by (nonlinear_arith)
            requires
                t.len() + 1 == cs.len(),
        ;
    }
}

/// Big-endian bytes of `v` in the fewest bytes take at most eight.
pub proof fn lemma_byte_size_le(v: nat)
    ensures
        be_bytes(v, byte_size(v)).len() == byte_size(v),
        1 <= byte_size(v) <= 8,
{
    lemma_be_bytes_len(v, byte_size(v));
}


/// The first of `w` big-endian bytes of `x` is its quotient by `256^(w-1)`; the
/// others are the remainder's bytes.
pub proof fn lemma_be_bytes_split(x: nat, w: nat)
    requires
        w >= 1,
        x < pow256(w),
    ensures
        be_bytes(x, w) == seq![(x / pow256((w - 1) as nat)) as u8] + be_bytes(
            x % pow256((w - 1) as nat),
            (w - 1) as nat,
        ),
    decreases w,
{
    if w == 1 {
        assert(pow256(0) == 1);
        assert(x / 1 == x);
        assert(x % 256 == x);
        assert(be_bytes(x / 256, 0) =~= Seq::<u8>::empty());
        assert(be_bytes(x % 1, 0) =~= Seq::<u8>::empty());
        assert(be_bytes(x, 1) =~= seq![(x / pow256(0)) as u8] + be_bytes(x % pow256(0), 0));
    } else {
        let q = pow256((w - 2) as nat);
        let p = pow256((w - 1) as nat);
        assert(p == 256 * q);
        lemma_pow256_mono(0, (w - 2) as nat);
        assert(q > 0) by {
            reveal_with_fuel(pow256, 1);
        }
        assert(x / 256 < p) by (nonlinear_arith)
            requires
                x < 256 * p,
                pow256(w) == 256 * p,
                x < pow256(w),
        ;
        lemma_be_bytes_split(x / 256, (w - 1) as nat);
        vstd::arithmetic::div_mod::lemma_div_denominator(x as int, 256, q as int);
        vstd::arithmetic::div_mod::lemma_mod_breakdown(x as int, 256, q as int);
        let r = x % p;
        assert(r == 256 * ((x / 256) % q) + x % 256);
        vstd::arithmetic::div_mod::lemma_fundamental_div_mod_converse(
            r as int,
            256,
            ((x / 256) % q) as int,
            (x % 256) as int,
        );
        assert(r / 256 == (x / 256) % q);
        assert(r % 256 == x % 256);
        assert(be_bytes(r, (w - 1) as nat) == be_bytes(r / 256, (w - 2) as nat).push((r % 256) as u8));
        assert(be_bytes(x, w) == be_bytes(x / 256, (w - 1) as nat).push((x % 256) as u8));
        assert(be_bytes(x, w) =~= seq![(x / p) as u8] + be_bytes(r, (w - 1) as nat));
    }
}

/// The bytes of a VINT written for `v`: the first carries the width's marker bit
/// and, below it, the payload's high bits; the rest are the payload's low bytes,
/// big-endian.
pub proof fn lemma_vint_byte_form(v: u64)
    requires
        v < 0x100_0000_0000_0000,
    ensures
        ({
            let w = vint_size(v as nat);
            let p = pow256((w - 1) as nat);
            let b = vint_bytes(v as nat, w);
            &&& b.len() == w
            &&& v as nat / p < first_byte_floor(w)
            &&& b[0] == first_byte_floor(w) + v as nat / p
            &&& b.subrange(1, w as int) == be_bytes(v as nat % p, (w - 1) as nat)
        }),
{
    let w = vint_size(v as nat);
    let p = pow256((w - 1) as nat);
    let f = first_byte_floor(w);
    let m = vint_marker(w);
    lemma_marker_facts(w);
    lemma_pow256_values();
    assert(p > 0);
    let x = v as nat + m;
    assert(x < pow256(w));
    lemma_be_bytes_split(x, w);
    lemma_be_bytes_len(x % p, (w - 1) as nat);
    assert(v as nat / p < f) by (nonlinear_arith)
        requires
            (v as nat) < f * p,
            p > 0,
    ;
    vstd::arithmetic::div_mod::lemma_fundamental_div_mod(v as int, p as int);
    vstd::arithmetic::div_mod::lemma_mod_pos_bound(v as int, p as int);
    assert(x == (f + v as nat / p) * p + v as nat % p) by (nonlinear_arith)
        requires
            x == v as nat + m,
            m == f * p,
            v as int == p * (v as int / p as int) + v as int % p as int,
    ;
    vstd::arithmetic::div_mod::lemma_fundamental_div_mod_converse(
        x as int,
        p as int,
        (f + v as nat / p) as int,
        (v as nat % p) as int,
    );
    assert(x / p == f + v as nat / p);
    assert(x % p == v as nat % p);
    let b = vint_bytes(v as nat, w);
    assert(b.subrange(1, w as int) =~= be_bytes(v as nat % p, (w - 1) as nat));
}

} // verus!
