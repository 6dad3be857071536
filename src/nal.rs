//! H.264 NAL units: splitting a bitstream by its framing, and framing units again.
use crate::ebml::{append_bytes, be_bytes, be_value, pow256, slice_range, lemma_be_round_trip, lemma_pow256_values};
use crate::span::copy_bytes;
use h264_reader::annexb::AnnexBReader;
use h264_reader::nal::{Nal, RefNal};
use h264_reader::push::NalInterest;
use vstd::prelude::*;

verus! {

/// Describes how NAL units are framed.
#[derive(Clone, Copy, Debug, PartialEq, Eq, Structural)]
pub enum BitstreamFraming {
    /// Each unit is prefixed with its length as a 4-byte big-endian integer.
    FourByteLength,
    /// Each unit is prefixed with its length as a 2-byte big-endian integer.
    TwoByteLength,
    /// Each unit is prefixed with the start code `00 00 00 01`.
    FourByteStartCode,
}

/// The width of a length prefix; zero for start codes.
pub open spec fn prefix_width(f: BitstreamFraming) -> nat {
    match f {
        BitstreamFraming::FourByteLength => 4,
        BitstreamFraming::TwoByteLength => 2,
        BitstreamFraming::FourByteStartCode => 0,
    }
}

impl BitstreamFraming {
    /// Whether units are delimited by start codes.
    pub fn is_start_code(&self) -> (b: bool)
        ensures
            b == (*self == BitstreamFraming::FourByteStartCode),
    {
        match self {
            BitstreamFraming::FourByteStartCode => true,
            _ => false,
        }
    }
}

/// The bytes of each unit.
pub open spec fn units_view(v: Seq<Vec<u8>>) -> Seq<Seq<u8>> {
    v.map_values(|x: Vec<u8>| x@)
}

/// The units that h264-reader's Annex B reader delivers for a start-code stream.
pub uninterp spec fn annexb_nal_units(data: Seq<u8>) -> Seq<Seq<u8>>;

/// Relies on `h264_reader::annexb::AnnexBReader::accumulate`: the complete NAL units
/// between start codes, in order, without the start codes.
#[verifier::external_body]
fn split_annexb(data: &[u8]) -> (r: Vec<Vec<u8>>)
    ensures
        units_view(r@) == annexb_nal_units(data@),
{
    let mut units: Vec<Vec<u8>> = Vec::new();
    let mut acc = AnnexBReader::accumulate(|nal: RefNal<'_>| {
        if nal.is_complete() {
            let mut unit = Vec::new();
            let _ = std::io::Read::read_to_end(&mut nal.reader(), &mut unit);
            units.push(unit);
        }
        NalInterest::Buffer
    });
    acc.push(data);
    acc.reset();
    units
}

/// The prefix put before a unit of `len` bytes.
pub open spec fn nal_prefix(f: BitstreamFraming, len: nat) -> Seq<u8> {
    match f {
        BitstreamFraming::FourByteStartCode => seq![0u8, 0u8, 0u8, 1u8],
        _ => be_bytes(len, prefix_width(f)),
    }
}

/// Units framed one after another.
pub open spec fn spec_frame(nals: Seq<Seq<u8>>, f: BitstreamFraming) -> Seq<u8>
    decreases nals.len(),
{
    if nals.len() == 0 {
        Seq::empty()
    } else {
        nal_prefix(f, nals[0].len()) + nals[0] + spec_frame(nals.drop_first(), f)
    }
}

/// Every unit's length fits the framing's prefix.
pub open spec fn frameable(nals: Seq<Seq<u8>>, f: BitstreamFraming) -> bool {
    f != BitstreamFraming::FourByteStartCode ==> forall|i: int|
        0 <= i < nals.len() ==> (#[trigger] nals[i]).len() < pow256(prefix_width(f))
}

/// Splits a length-prefixed stream: a prefix of `n` bytes, then that many bytes, until
/// the input ends; `None` where a prefix or a unit runs past the end.
pub open spec fn spec_parse_length(s: Seq<u8>, n: nat) -> Option<Seq<Seq<u8>>>
    decreases s.len(),
{
    if s.len() == 0 {
        Some(Seq::empty())
    } else if s.len() < n || n == 0 {
        None
    } else {
        let l = be_value(s.subrange(0, n as int));
        if n + l > s.len() {
            None
        } else {
            match spec_parse_length(s.subrange((n + l) as int, s.len() as int), n) {
                Some(rest) => Some(seq![s.subrange(n as int, (n + l) as int)] + rest),
                None => None,
            }
        }
    }
}

/// What `parse_bitstream` returns.
pub open spec fn spec_parse(s: Seq<u8>, f: BitstreamFraming) -> Option<Seq<Seq<u8>>> {
    match f {
        BitstreamFraming::FourByteStartCode => Some(annexb_nal_units(s)),
        _ => spec_parse_length(s, prefix_width(f)),
    }
}

/// `Some(out + rest)` where `r` is `Some(rest)`.
pub open spec fn prepend(out: Seq<Seq<u8>>, r: Option<Seq<Seq<u8>>>) -> Option<Seq<Seq<u8>>> {
    match r {
        Some(rest) => Some(out + rest),
        None => None,
    }
}

/// Splits a bitstream in the given framing into its NAL units.
pub fn parse_bitstream(bitstream: &[u8], source: BitstreamFraming) -> (r: Option<Vec<Vec<u8>>>)
    ensures
        match r {
            Some(v) => spec_parse(bitstream@, source) == Some(units_view(v@)),
            None => spec_parse(bitstream@, source) is None,
        },
{
    match source {
        BitstreamFraming::FourByteStartCode => Some(split_annexb(bitstream)),
        BitstreamFraming::FourByteLength => parse_bitstream_length_field(bitstream, 4),
        BitstreamFraming::TwoByteLength => parse_bitstream_length_field(bitstream, 2),
    }
}

/// Splits a stream whose units are prefixed with an `n`-byte big-endian length.
fn parse_bitstream_length_field(s: &[u8], n: usize) -> (r: Option<Vec<Vec<u8>>>)
    requires
        n == 2 || n == 4,
    ensures
        r is Some ==> spec_parse_length(s@, n as nat) == Some(units_view(r->0@)),
        r is None ==> spec_parse_length(s@, n as nat) is None,
{
    let mut out: Vec<Vec<u8>> = Vec::new();
    let mut pos: usize = 0;
    proof {
        assert(s@.subrange(0, s@.len() as int) =~= s@);
        assert(units_view(out@) =~= Seq::<Seq<u8>>::empty());
        match spec_parse_length(s@, n as nat) {
            Some(all) => {
                assert(Seq::<Seq<u8>>::empty() + all =~= all);
            },
            None => {},
        }
    }
    while pos < s.len()
        invariant
            n == 2 || n == 4,
            pos <= s@.len(),
            spec_parse_length(s@, n as nat) == prepend(
                units_view(out@),
                spec_parse_length(s@.subrange(pos as int, s@.len() as int), n as nat),
            ),
        decreases s@.len() - pos,
    {
        let ghost t = s@.subrange(pos as int, s@.len() as int);
        if s.len() - pos < n {
            proof {
                assert(t.len() == s@.len() - pos);
                assert(spec_parse_length(t, n as nat) is None);
                assert(spec_parse_length(s@, n as nat) is None);
            }
            return None;
        }
        let l = read_be_n(s, pos, n);
        proof {
            assert(s@.subrange(pos as int, pos + n) =~= t.subrange(0, n as int));
        }
        if l > (s.len() - pos - n) as u64 {
            proof {
                assert(spec_parse_length(t, n as nat) is None);
                assert(spec_parse_length(s@, n as nat) is None);
            }
            return None;
        }
        let l = l as usize;
        let unit = copy_bytes(slice_range(s, pos + n, pos + n + l));
        let ghost before = units_view(out@);
        out.push(unit);
        proof {
            assert(t.subrange(n as int, n + l) =~= s@.subrange((pos + n) as int, (pos + n + l) as int));
            assert(units_view(out@) =~= before.push(t.subrange(n as int, n + l)));
            assert(t.subrange((n + l) as int, t.len() as int) =~= s@.subrange(
                (pos + n + l) as int,
                s@.len() as int,
            ));
            assert(seq![t.subrange(n as int, n + l)] + spec_parse_length(
                t.subrange((n + l) as int, t.len() as int),
                n as nat,
            ).unwrap_or(Seq::empty()) == seq![t.subrange(n as int, n + l)] + spec_parse_length(
                t.subrange((n + l) as int, t.len() as int),
                n as nat,
            ).unwrap_or(Seq::empty()));
            match spec_parse_length(t.subrange((n + l) as int, t.len() as int), n as nat) {
                Some(rest) => {
                    assert(before + (seq![t.subrange(n as int, n + l)] + rest) =~= before.push(
                        t.subrange(n as int, n + l),
                    ) + rest);
                },
                None => {},
            }
        }
        pos = pos + n + l;
    }
    proof {
        assert(s@.subrange(pos as int, s@.len() as int) =~= Seq::<u8>::empty());
        assert(units_view(out@) + Seq::<Seq<u8>>::empty() =~= units_view(out@));
    }
    Some(out)
}

/// The big-endian value of `s[pos..pos + n]`.
fn read_be_n(s: &[u8], pos: usize, n: usize) -> (v: u64)
    requires
        n <= 8,
        pos + n <= s@.len(),
    ensures
        v as nat == be_value(s@.subrange(pos as int, pos + n)),
{
    let _len = s.len();
    let t = slice_range(s, pos, pos + n);
    let v = crate::ebml::read_be_prefix(t, n);
    proof {
        assert(t@.subrange(0, n as int) =~= t@);
    }
    v
}

/// Frames NAL units with the given framing's prefix before each.
pub fn frame_nal_units(nal_units: &Vec<Vec<u8>>, target: BitstreamFraming) -> (r: Vec<u8>)
    requires
        frameable(units_view(nal_units@), target),
    ensures
        r@ == spec_frame(units_view(nal_units@), target),
{
    let mut out: Vec<u8> = Vec::new();
    let ghost nals = units_view(nal_units@);
    let mut i: usize = 0;
    while i < nal_units.len()
        invariant
            nals == units_view(nal_units@),
            frameable(nals, target),
            i <= nals.len(),
            out@ == spec_frame(nals.take(i as int), target),
        decreases nals.len() - i,
    {
        let nal = &nal_units[i];
        proof {
            assert(nals[i as int] == nal@);
        }
        let ghost before = out@;
        match target {
            BitstreamFraming::FourByteStartCode => {
                out.push(0);
                out.push(0);
                out.push(0);
                out.push(1);
            },
            BitstreamFraming::FourByteLength => {
                crate::ebml::write_be_pub(&mut out, nal.len() as u64, 4);
            },
            BitstreamFraming::TwoByteLength => {
                crate::ebml::write_be_pub(&mut out, nal.len() as u64, 2);
            },
        }
        proof {
            assert(out@ =~= before + nal_prefix(target, nal@.len()));
        }
        append_bytes(&mut out, nal.as_slice());
        proof {
            assert(nals.take(i as int + 1) =~= nals.take(i as int).push(nals[i as int]));
            lemma_frame_push(nals.take(i as int), nals[i as int], target);
        }
        i = i + 1;
    }
    proof {
        assert(nals.take(i as int) =~= nals);
    }
    out
}

/// Framing one more unit appends its prefix and its bytes.
pub proof fn lemma_frame_push(nals: Seq<Seq<u8>>, nal: Seq<u8>, f: BitstreamFraming)
    ensures
        spec_frame(nals.push(nal), f) == spec_frame(nals, f) + nal_prefix(f, nal.len()) + nal,
    decreases nals.len(),
{
    if nals.len() == 0 {
        assert(nals.push(nal).drop_first() =~= Seq::<Seq<u8>>::empty());
        assert(nals.push(nal)[0] == nal);
        assert(spec_frame(Seq::<Seq<u8>>::empty(), f) =~= Seq::<u8>::empty());
        assert(spec_frame(nals, f) =~= Seq::<u8>::empty());
        assert(spec_frame(nals.push(nal), f) =~= spec_frame(nals, f) + nal_prefix(f, nal.len()) + nal);
    } else {
        lemma_frame_push(nals.drop_first(), nal, f);
        assert(nals.push(nal).drop_first() =~= nals.drop_first().push(nal));
        assert(spec_frame(nals.push(nal), f) =~= spec_frame(nals, f) + nal_prefix(f, nal.len()) + nal);
    }
}


/// What `convert_bitstream` returns: the input where the framings agree, else its
/// units framed anew; `None` where the input does not parse or a unit is too long
/// for the target's prefix.
pub open spec fn spec_convert(s: Seq<u8>, source: BitstreamFraming, target: BitstreamFraming) -> Option<
    Seq<u8>,
> {
    if source == target {
        Some(s)
    } else {
        match spec_parse(s, source) {
            Some(nals) => if frameable(nals, target) {
                Some(spec_frame(nals, target))
            } else {
                None
            },
            None => None,
        }
    }
}

/// Whether every unit fits the framing's prefix.
fn check_frameable(units: &Vec<Vec<u8>>, target: BitstreamFraming) -> (b: bool)
    ensures
        b == frameable(units_view(units@), target),
{
    proof {
        lemma_pow256_values();
    }
    let limit: usize = match target {
        BitstreamFraming::FourByteStartCode => {
            return true;
        },
        BitstreamFraming::FourByteLength => 0xFFFF_FFFF,
        BitstreamFraming::TwoByteLength => 0xFFFF,
    };
    let ghost v = units_view(units@);
    let mut i: usize = 0;
    while i < units.len()
        invariant
            v == units_view(units@),
            limit + 1 == pow256(prefix_width(target)),
            target != BitstreamFraming::FourByteStartCode,
            i <= units@.len(),
            forall|j: int| 0 <= j < i ==> (#[trigger] v[j]).len() < pow256(prefix_width(target)),
        decreases units@.len() - i,
    {
        if units[i].len() > limit {
            proof {
                assert(v[i as int] == units@[i as int]@);
                assert(!((v[i as int]).len() < pow256(prefix_width(target))));
            }
            return false;
        }
        i = i + 1;
    }
    true
}

/// Converts a bitstream from one framing to another.
pub fn convert_bitstream(
    bitstream: &[u8],
    source: BitstreamFraming,
    target: BitstreamFraming,
) -> (r: Option<Vec<u8>>)
    ensures
        r is Some ==> spec_convert(bitstream@, source, target) == Some(r->0@),
        r is None ==> spec_convert(bitstream@, source, target) is None,
{
    if source == target {
        return Some(copy_bytes(bitstream));
    }
    match parse_bitstream(bitstream, source) {
        Some(units) => {
            if check_frameable(&units, target) {
                Some(frame_nal_units(&units, target))
            } else {
                None
            }
        },
        None => None,
    }
}

/// Bitstream conversion, first half: framed units in a length-prefixed framing
/// parse back to the same units.
#[verifier::rlimit(60)]
pub proof fn lemma_parse_frame(nals: Seq<Seq<u8>>, f: BitstreamFraming)
    requires
        f != BitstreamFraming::FourByteStartCode,
        frameable(nals, f),
    ensures
        spec_parse(spec_frame(nals, f), f) == Some(nals),
    decreases nals.len(),
{
    let w = prefix_width(f);
    if nals.len() == 0 {
        assert(spec_frame(nals, f) =~= Seq::<u8>::empty());
    } else {
        let nal = nals[0];
        let tail = nals.drop_first();
        assert(frameable(tail, f)) by {
            assert forall|i: int| 0 <= i < tail.len() implies (#[trigger] tail[i]).len() < pow256(
                prefix_width(f),
            ) by {
                assert(tail[i] == nals[i + 1]);
            }
        }
        lemma_parse_frame(tail, f);
        let rest = spec_frame(tail, f);
        let s = spec_frame(nals, f);
        lemma_be_round_trip(nal.len(), w);
        let pre = be_bytes(nal.len(), w);
        assert(s == pre + nal + rest);
        assert(s.subrange(0, w as int) =~= pre);
        let l = nal.len();
        assert(s.subrange(w as int, (w + l) as int) =~= nal);
        assert(s.subrange((w + l) as int, s.len() as int) =~= rest);
        assert(spec_parse_length(rest, w) == Some(tail));
        assert(seq![nal] + tail =~= nals);
    }
}

/// Bitstream conversion, second half: converting framed units from a
/// length-prefixed framing gives the units framed in the target framing.
pub proof fn lemma_convert_frame(nals: Seq<Seq<u8>>, source: BitstreamFraming, target: BitstreamFraming)
    requires
        source != BitstreamFraming::FourByteStartCode || source == target,
        frameable(nals, source),
        frameable(nals, target),
    ensures
        spec_convert(spec_frame(nals, source), source, target) == Some(spec_frame(nals, target)),
{
    if source != target {
        lemma_parse_frame(nals, source);
    }
}


/// The unit type in a NAL header byte: its five low bits; `None` where the
/// forbidden zero bit is set.
pub open spec fn spec_nut(b: u8) -> Option<u8> {
    if b >= 0x80 {
        None
    } else {
        Some(b % 32)
    }
}

/// The unit type of a NAL unit, from its first byte.
pub fn nut_header(nal: &[u8]) -> (r: Option<u8>)
    requires
        nal@.len() > 0,
    ensures
        r == spec_nut(nal@[0]),
{
    let b = nal[0];
    if b >= 0x80 {
        None
    } else {
        Some(b % 32)
    }
}

/// Whether a NAL unit is a sequence or picture parameter set or a coded slice
/// (IDR or not).
pub fn is_video_nal_unit(nal: &[u8]) -> (b: bool)
    requires
        nal@.len() > 0,
    ensures
        b == (spec_nut(nal@[0]) matches Some(t) && (t == 7 || t == 8 || t == 1 || t == 5)),
{
    match nut_header(nal) {
        Some(t) => t == 7 || t == 8 || t == 1 || t == 5,
        None => false,
    }
}

} // verus!
