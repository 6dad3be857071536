//! The Matroska demuxer: a pull parser that reads the headers into a `Movie`, then
//! one packet per call, over whatever bytes the caller has buffered.
use crate::buffer::SeekFrom;
use crate::ebml::{
    read_element_header, read_vint, slice_from, slice_range, spec_parse_children, spec_read_header,
    spec_read_vint, EbmlError, EbmlLength,
};
use crate::media::{CodecId, Fraction, MediaInfo, MediaTime, Movie, Packet, SoundType, Track};
use crate::mkv::{
    find_child, first_child, parse_children, spec_uint, spec_uint_child, uint_child, read_uint,
    read_float_hz, spec_float_hz,
    MkvError, AUDIO, BLOCK, BLOCK_DURATION, BLOCK_GROUP, CHANNELS, CLUSTER, CODEC_ID,
    CODEC_PRIVATE, CUES, EBML_DOC_MAX_ID_LENGTH, EBML_DOC_MAX_SIZE_LENGTH, EBML_DOC_TYPE,
    EBML_DOC_TYPE_READ_VERSION, EBML_DOC_TYPE_VERSION, EBML_HEADER, EBML_READ_VERSION,
    EBML_VERSION, INFO, PIXEL_HEIGHT, PIXEL_WIDTH, SAMPLING_FREQUENCY,
    SEGMENT, SIMPLE_BLOCK, TIMESTAMP, TIMESTAMP_SCALE, TRACKS, TRACK_ENTRY, TRACK_NUMBER,
    TRACK_TYPE, VIDEO,
};
use crate::span::{copy_bytes, Span};
use aho_corasick::AhoCorasick;
use std::sync::Arc;
use vstd::prelude::*;
use vstd::string::StringSliceAdditionalSpecFns;

verus! {

/// What a step of the demuxer returns besides progress.
#[derive(Debug)]
pub enum DemuxerError {
    /// At least this many more bytes are needed before progress can be made.
    NeedMore(usize),
    /// The caller seeks as asked, then calls again.
    Seek(SeekFrom),
    /// The stream ended normally.
    EndOfStream,
    /// The stream cannot be read.
    Misc(MkvError),
}

/// Whether two byte runs are equal.
pub fn bytes_eq(a: &[u8], b: &[u8]) -> (r: bool)
    ensures
        r == (a@ == b@),
{
    if a.len() != b.len() {
        return false;
    }
    let mut i: usize = 0;
    while i < a.len()
        invariant
            a@.len() == b@.len(),
            i <= a@.len(),
            forall|k: int| 0 <= k < i ==> a@[k] == b@[k],
        decreases a@.len() - i,
    {
        if a[i] != b[i] {
            return false;
        }
        i = i + 1;
    }
    proof {
        assert(a@ =~= b@);
    }
    true
}

/// The codec that a Matroska codec identifier names.
pub open spec fn codec_of(name: Seq<u8>) -> CodecId {
    if name == "V_MPEG4/ISO/AVC".spec_bytes() {
        CodecId::H264
    } else if name == "A_AAC".spec_bytes() {
        CodecId::Aac
    } else if name == "S_TEXT/WEBVTT".spec_bytes() {
        CodecId::WebVtt
    } else if name == "S_TEXT/ASS".spec_bytes() {
        CodecId::Ass
    } else {
        CodecId::Unknown
    }
}

/// Maps a Matroska codec identifier to a codec; unknown names give `Unknown`.
pub fn convert_codec_id(name: &[u8]) -> (c: CodecId)
    ensures
        c == codec_of(name@),
{
    if bytes_eq(name, "V_MPEG4/ISO/AVC".as_bytes()) {
        CodecId::H264
    } else if bytes_eq(name, "A_AAC".as_bytes()) {
        CodecId::Aac
    } else if bytes_eq(name, "S_TEXT/WEBVTT".as_bytes()) {
        CodecId::WebVtt
    } else if bytes_eq(name, "S_TEXT/ASS".as_bytes()) {
        CodecId::Ass
    } else {
        CodecId::Unknown
    }
}

/// The fields of the EBML header.
pub struct EbmlHeader {
    pub version: Option<u64>,
    pub read_version: Option<u64>,
    pub max_id_length: Option<u64>,
    pub max_size_length: Option<u64>,
    pub doc_type: Option<Vec<u8>>,
    pub doc_type_version: Option<u64>,
    pub doc_type_read_version: Option<u64>,
}

/// Whether the content of an EBML header reads: its children split, and each
/// integer field present is at most eight bytes.
pub open spec fn ebml_header_ok(c: Seq<u8>) -> bool {
    &&& spec_parse_children(c) matches Some(cs)
    &&& spec_uint_child(cs, EBML_VERSION) is Some
    &&& spec_uint_child(cs, EBML_READ_VERSION) is Some
    &&& spec_uint_child(cs, EBML_DOC_MAX_ID_LENGTH) is Some
    &&& spec_uint_child(cs, EBML_DOC_MAX_SIZE_LENGTH) is Some
    &&& spec_uint_child(cs, EBML_DOC_TYPE_VERSION) is Some
    &&& spec_uint_child(cs, EBML_DOC_TYPE_READ_VERSION) is Some
}

/// Reads the content of the EBML header; the first of each field counts.
pub fn read_ebml_header(content: &[u8]) -> (r: Result<EbmlHeader, MkvError>)
    ensures
        r is Ok <==> ebml_header_ok(content@),
        r matches Ok(h) ==> ({
            let cs = spec_parse_children(content@)->0;
            &&& Some(h.version) == spec_uint_child(cs, EBML_VERSION)
            &&& Some(h.read_version) == spec_uint_child(cs, EBML_READ_VERSION)
            &&& Some(h.max_id_length) == spec_uint_child(cs, EBML_DOC_MAX_ID_LENGTH)
            &&& Some(h.max_size_length) == spec_uint_child(cs, EBML_DOC_MAX_SIZE_LENGTH)
            &&& Some(h.doc_type_version) == spec_uint_child(cs, EBML_DOC_TYPE_VERSION)
            &&& Some(h.doc_type_read_version) == spec_uint_child(cs, EBML_DOC_TYPE_READ_VERSION)
            &&& (h.doc_type is None <==> find_child(cs, EBML_DOC_TYPE) is None)
            &&& (h.doc_type matches Some(d) ==> Some(d@) == find_child(cs, EBML_DOC_TYPE))
        }),
{
    let children = parse_children(content, EBML_HEADER)?;
    let ghost cs = spec_parse_children(content@)->0;
    let version = uint_child(content, &children, EBML_VERSION, Ghost(cs))?;
    let read_version = uint_child(content, &children, EBML_READ_VERSION, Ghost(cs))?;
    let max_id_length = uint_child(content, &children, EBML_DOC_MAX_ID_LENGTH, Ghost(cs))?;
    let max_size_length = uint_child(content, &children, EBML_DOC_MAX_SIZE_LENGTH, Ghost(cs))?;
    let doc_type_version = uint_child(content, &children, EBML_DOC_TYPE_VERSION, Ghost(cs))?;
    let doc_type_read_version = uint_child(content, &children, EBML_DOC_TYPE_READ_VERSION, Ghost(cs))?;
    let doc_type = match first_child(&children, EBML_DOC_TYPE, Ghost(content@), Ghost(cs)) {
        Some((s, e)) => Some(copy_bytes(slice_range(content, s, e))),
        None => None,
    };
    Ok(
        EbmlHeader {
            version,
            read_version,
            max_id_length,
            max_size_length,
            doc_type,
            doc_type_version,
            doc_type_read_version,
        },
    )
}

pub const TRACK_TYPE_VIDEO: u64 = 1;
pub const TRACK_TYPE_AUDIO: u64 = 2;
pub const TRACK_TYPE_SUBTITLE: u64 = 17;

/// The value of a mandatory element, or `MissingElement`.
fn mand<T>(value: Option<T>, id: u64) -> (r: Result<T, MkvError>)
    ensures
        value matches Some(v) ==> r == Ok::<T, MkvError>(v),
        value is None ==> r == Err::<T, MkvError>(MkvError::MissingElement(id)),
{
    match value {
        Some(v) => Ok(v),
        None => Err(MkvError::MissingElement(id)),
    }
}

/// The channel layout for a channel count.
pub open spec fn sound_of(channels: u64) -> SoundType {
    if channels == 1 {
        SoundType::Mono
    } else if channels == 2 {
        SoundType::Stereo
    } else {
        SoundType::Unknown
    }
}

/// Whether a `TrackEntry` with children `cs` converts to a track: number, type and
/// codec identifier are present and readable; video has a `Video` master with both
/// pixel dimensions, and H.264 its codec private data; audio has an `Audio` master
/// with sampling frequency and channel count; subtitles have codec private data.
pub open spec fn track_ok(cs: Seq<(u64, Seq<u8>)>) -> bool {
    &&& spec_uint_child(cs, TRACK_NUMBER) matches Some(Some(_))
    &&& spec_uint_child(cs, TRACK_TYPE) matches Some(Some(ty))
    &&& find_child(cs, CODEC_ID) is Some
    &&& {
        let ty = spec_uint_child(cs, TRACK_TYPE)->0->0;
        let codec = codec_of(find_child(cs, CODEC_ID)->0);
        if ty == TRACK_TYPE_VIDEO {
            &&& find_child(cs, VIDEO) matches Some(v)
            &&& spec_parse_children(v) matches Some(vcs)
            &&& spec_uint_child(vcs, PIXEL_WIDTH) matches Some(Some(_))
            &&& spec_uint_child(vcs, PIXEL_HEIGHT) matches Some(Some(_))
            &&& codec == CodecId::H264 ==> find_child(cs, CODEC_PRIVATE) is Some
        } else if ty == TRACK_TYPE_AUDIO {
            &&& find_child(cs, AUDIO) matches Some(a)
            &&& spec_parse_children(a) matches Some(acs)
            &&& find_child(acs, SAMPLING_FREQUENCY) is Some
            &&& spec_float_hz(find_child(acs, SAMPLING_FREQUENCY)->0) is Some
            &&& spec_uint_child(acs, CHANNELS) matches Some(Some(_))
        } else if ty == TRACK_TYPE_SUBTITLE {
            find_child(cs, CODEC_PRIVATE) is Some
        } else {
            false
        }
    }
}

/// What a converted `TrackEntry` content says of the track: its number, codec,
/// video dimensions and codec private data, or audio layout and sampling rate.
pub open spec fn entry_info_ok(content: Seq<u8>, number: u64, info: MediaInfo) -> bool {
    let cs = spec_parse_children(content)->0;
    let ty = spec_uint_child(cs, TRACK_TYPE)->0->0;
    &&& Some(Some(number)) == spec_uint_child(cs, TRACK_NUMBER)
    &&& info.codec_id == codec_of(find_child(cs, CODEC_ID)->0)
    &&& ty == TRACK_TYPE_VIDEO ==> {
        let vcs = spec_parse_children(find_child(cs, VIDEO)->0)->0;
        &&& Some(Some(info.width as u64)) == spec_uint_child(vcs, PIXEL_WIDTH) || spec_uint_child(vcs, PIXEL_WIDTH)->0->0 > u32::MAX
        &&& Some(Some(info.height as u64)) == spec_uint_child(vcs, PIXEL_HEIGHT) || spec_uint_child(vcs, PIXEL_HEIGHT)->0->0 > u32::MAX
        &&& info.codec_id == CodecId::H264 ==> info.codec_private@ == find_child(cs, CODEC_PRIVATE)->0
    }
    &&& ty == TRACK_TYPE_AUDIO ==> info.sound_type == sound_of(
        spec_uint_child(spec_parse_children(find_child(cs, AUDIO)->0)->0, CHANNELS)->0->0,
    ) && Some(info.sample_freq) == spec_float_hz(
        find_child(spec_parse_children(find_child(cs, AUDIO)->0)->0, SAMPLING_FREQUENCY)->0,
    )
    &&& ty == TRACK_TYPE_SUBTITLE ==> info.codec_private@ == find_child(cs, CODEC_PRIVATE)->0
}

/// Converts the content of a `TrackEntry` to its track number and media info.
pub fn parse_track(content: &[u8]) -> (r: Result<(u64, MediaInfo), MkvError>)
    ensures
        r is Ok <==> (spec_parse_children(content@) matches Some(cs) && track_ok(cs)),
        r matches Ok((number, info)) ==> entry_info_ok(content@, number, info),
{
    let children = parse_children(content, TRACK_ENTRY)?;
    let ghost cs = spec_parse_children(content@)->0;
    let number = mand(uint_child(content, &children, TRACK_NUMBER, Ghost(cs))?, TRACK_NUMBER)?;
    let ty = mand(uint_child(content, &children, TRACK_TYPE, Ghost(cs))?, TRACK_TYPE)?;
    let (cs0, ce0) = mand(first_child(&children, CODEC_ID, Ghost(content@), Ghost(cs)), CODEC_ID)?;
    let mut info = MediaInfo::empty();
    info.codec_id = convert_codec_id(slice_range(content, cs0, ce0));
    if ty == TRACK_TYPE_VIDEO {
        let (vs, ve) = mand(first_child(&children, VIDEO, Ghost(content@), Ghost(cs)), VIDEO)?;
        let video = slice_range(content, vs, ve);
        let vchildren = parse_children(video, VIDEO)?;
        let ghost vcs = spec_parse_children(video@)->0;
        let width = mand(uint_child(video, &vchildren, PIXEL_WIDTH, Ghost(vcs))?, PIXEL_WIDTH)?;
        let height = mand(uint_child(video, &vchildren, PIXEL_HEIGHT, Ghost(vcs))?, PIXEL_HEIGHT)?;
        info.width = if width <= 0xFFFF_FFFF { width as u32 } else { 0xFFFF_FFFF };
        info.height = if height <= 0xFFFF_FFFF { height as u32 } else { 0xFFFF_FFFF };
        if info.codec_id.is_video() {
            let (ps, pe) = mand(
                first_child(&children, CODEC_PRIVATE, Ghost(content@), Ghost(cs)),
                CODEC_PRIVATE,
            )?;
            info.codec_private = copy_bytes(slice_range(content, ps, pe));
        }
    } else if ty == TRACK_TYPE_AUDIO {
        let (a_s, a_e) = mand(first_child(&children, AUDIO, Ghost(content@), Ghost(cs)), AUDIO)?;
        let audio = slice_range(content, a_s, a_e);
        let achildren = parse_children(audio, AUDIO)?;
        let ghost acs = spec_parse_children(audio@)->0;
        let (fs, fe) = mand(
            first_child(&achildren, SAMPLING_FREQUENCY, Ghost(audio@), Ghost(acs)),
            SAMPLING_FREQUENCY,
        )?;
        info.sample_freq = read_float_hz(slice_range(audio, fs, fe), SAMPLING_FREQUENCY)?;
        let channels = mand(uint_child(audio, &achildren, CHANNELS, Ghost(acs))?, CHANNELS)?;
        info.channels = if channels <= 0xFFFF_FFFF { channels as u32 } else { 0xFFFF_FFFF };
        info.sound_type = if channels == 1 {
            SoundType::Mono
        } else if channels == 2 {
            SoundType::Stereo
        } else {
            SoundType::Unknown
        };
    } else if ty == TRACK_TYPE_SUBTITLE {
        let (ps, pe) = mand(
            first_child(&children, CODEC_PRIVATE, Ghost(content@), Ghost(cs)),
            CODEC_PRIVATE,
        )?;
        info.codec_private = copy_bytes(slice_range(content, ps, pe));
    } else {
        return Err(MkvError::UnsupportedTrackType(ty));
    }
    Ok((number, info))
}


/// The number of a `TrackEntry` child that converts to a track.
pub open spec fn entry_number(c: (u64, Seq<u8>)) -> Option<u64> {
    if c.0 == TRACK_ENTRY && spec_parse_children(c.1) is Some && track_ok(
        spec_parse_children(c.1)->0,
    ) {
        Some(spec_uint_child(spec_parse_children(c.1)->0, TRACK_NUMBER)->0->0)
    } else {
        None
    }
}

/// The track numbers that a run of `Tracks` children adds to tracks numbered
/// `seen`: each `TrackEntry` that converts, whose number fits a `u32` and is new.
pub open spec fn entry_ids(cs: Seq<(u64, Seq<u8>)>, seen: Seq<u64>) -> Seq<u64>
    decreases cs.len(),
{
    if cs.len() == 0 {
        Seq::empty()
    } else {
        let prev = entry_ids(cs.drop_last(), seen);
        match entry_number(cs.last()) {
            Some(n) => if n <= u32::MAX && !(seen + prev).contains(n) {
                prev.push(n)
            } else {
                prev
            },
            None => prev,
        }
    }
}

/// The numbers of tracks.
pub open spec fn track_ids(ts: Seq<Track>) -> Seq<u64> {
    ts.map_values(|t: Track| t.id as u64)
}

/// Whether `tracks` holds a track numbered `id`.
fn has_track(tracks: &Vec<Track>, id: u64) -> (b: bool)
    ensures
        b == track_ids(tracks@).contains(id),
{
    let mut i: usize = 0;
    while i < tracks.len()
        invariant
            i <= tracks@.len(),
            forall|k: int| 0 <= k < i ==> tracks@[k].id as u64 != id,
        decreases tracks@.len() - i,
    {
        if tracks[i].id as u64 == id {
            proof {
                assert(track_ids(tracks@)[i as int] == id);
            }
            return true;
        }
        i = i + 1;
    }
    proof {
        if track_ids(tracks@).contains(id) {
            let k = choose|k: int| 0 <= k < track_ids(tracks@).len() && track_ids(tracks@)[k] == id;
            assert(tracks@[k].id as u64 == id);
        }
    }
    false
}

/// Whether every `TrackEntry` among the children converts to a track.
pub open spec fn entries_ok(cs: Seq<(u64, Seq<u8>)>) -> bool {
    forall|i: int| 0 <= i < cs.len() && (#[trigger] cs[i]).0 == TRACK_ENTRY ==> entry_number(cs[i]) is Some
}

/// The track `t` is what the child `c` converts to.
pub open spec fn entry_gives(c: (u64, Seq<u8>), t: Track) -> bool {
    c.0 == TRACK_ENTRY && entry_info_ok(c.1, t.id as u64, *t.info)
}

/// Some child converts to the track `t`.
pub open spec fn entry_given(cs: Seq<(u64, Seq<u8>)>, t: Track) -> bool {
    exists|i: int| 0 <= i < cs.len() && #[trigger] entry_gives(cs[i], t)
}

/// New tracks `v` made from the children `cs` of `Tracks`, given tracks numbered
/// `seen`: their numbers, in order, the time base, and each track's info as its
/// entry gives it.
pub open spec fn tracks_from(cs: Seq<(u64, Seq<u8>)>, seen: Seq<u64>, v: Seq<Track>, timebase: Fraction) -> bool {
    &&& track_ids(v) == entry_ids(cs, seen)
    &&& forall|k: int| 0 <= k < v.len() ==> (#[trigger] v[k]).timebase == timebase
    &&& forall|k: int| 0 <= k < v.len() ==> entry_given(cs, #[trigger] v[k])
}

/// Appends `src` to `dst`.
fn append_tracks(dst: &mut Vec<Track>, src: Vec<Track>)
    ensures
        final(dst)@ == old(dst)@ + src@,
{
    let mut i: usize = 0;
    while i < src.len()
        invariant
            i <= src@.len(),
            dst@ == old(dst)@ + src@.subrange(0, i as int),
        decreases src@.len() - i,
    {
        dst.push(src[i].copy());
        i = i + 1;
        proof {
            assert(dst@ =~= old(dst)@ + src@.subrange(0, i as int));
        }
    }
    proof {
        assert(src@.subrange(0, i as int) =~= src@);
    }
}

/// Reads the `Tracks` content: appends, in order, a track for each `TrackEntry`
/// whose number is new; a `TrackEntry` that does not convert fails the whole
/// element, and then nothing is appended.
pub fn parse_tracks(content: &[u8], timebase: Fraction, tracks: &mut Vec<Track>) -> (r: Result<
    (),
    MkvError,
>)
    ensures
        r is Ok <==> (spec_parse_children(content@) matches Some(cs) && entries_ok(cs)),
        r is Err ==> final(tracks)@ == old(tracks)@,
        final(tracks)@.len() >= old(tracks)@.len(),
        final(tracks)@.subrange(0, old(tracks)@.len() as int) == old(tracks)@,
        r is Ok ==> tracks_from(
            spec_parse_children(content@)->0,
            track_ids(old(tracks)@),
            final(tracks)@.subrange(old(tracks)@.len() as int, final(tracks)@.len() as int),
            timebase,
        ),
{
    let children = parse_children(content, TRACKS)?;
    let ghost cs = spec_parse_children(content@)->0;
    let ghost seen = track_ids(tracks@);
    let ghost mut idx: Seq<int> = Seq::empty();
    let mut added: Vec<Track> = Vec::new();
    let mut i: usize = 0;
    proof {
        assert(cs.take(0) =~= Seq::<(u64, Seq<u8>)>::empty());
        assert(track_ids(added@) =~= Seq::<u64>::empty());
    }
    while i < children.len()
        invariant
            crate::mkv::children_match(content@, children@, cs),
            spec_parse_children(content@) == Some(cs),
            i <= children@.len(),
            seen == track_ids(tracks@),
            tracks@ == old(tracks)@,
            forall|j: int| 0 <= j < i && (#[trigger] cs[j]).0 == TRACK_ENTRY ==> entry_number(cs[j]) is Some,
            track_ids(added@) == entry_ids(cs.take(i as int), seen),
            forall|k: int| 0 <= k < added@.len() ==> (#[trigger] added@[k]).timebase == timebase,
            idx.len() == added@.len(),
            forall|k: int|
                0 <= k < added@.len() ==> 0 <= #[trigger] idx[k] < i && entry_gives(cs[idx[k]], added@[k]),
        decreases children@.len() - i,
    {
        let c = &children[i];
        let ghost before = added@;
        let ghost tk = cs.take(i as int + 1);
        proof {
            assert(tk.drop_last() =~= cs.take(i as int));
            assert(tk.last() == cs[i as int]);
            assert(c.id == cs[i as int].0);
            if c.id != TRACK_ENTRY {
                assert(entry_number(cs[i as int]) is None);
            }
        }
        if c.id == TRACK_ENTRY {
            let entry = slice_range(content, c.start, c.end);
            proof {
                assert(entry@ == cs[i as int].1);
            }
            match parse_track(entry) {
                Ok((number, info)) => {
                    proof {
                        assert(entry_number(cs[i as int]) == Some(number));
                    }
                    let known = has_track(tracks, number) || has_track(&added, number);
                    proof {
                        let all = seen + track_ids(before);
                        assert(all.contains(number) <==> (seen.contains(number) || track_ids(
                            before,
                        ).contains(number))) by {
                            if all.contains(number) {
                                let k = choose|k: int| 0 <= k < all.len() && all[k] == number;
                                if k >= seen.len() {
                                    assert(track_ids(before)[k - seen.len()] == number);
                                } else {
                                    assert(seen[k] == number);
                                }
                            }
                            if seen.contains(number) {
                                let k = choose|k: int| 0 <= k < seen.len() && seen[k] == number;
                                assert(all[k] == number);
                            }
                            if track_ids(before).contains(number) {
                                let k = choose|k: int| 0 <= k < track_ids(before).len() && track_ids(before)[k] == number;
                                assert(all[k + seen.len()] == number);
                            }
                        }
                    }
                    if number <= 0xFFFF_FFFF && !known {
                        let t = Track { id: number as u32, info: Arc::new(info), timebase };
                        added.push(t);
                        proof {
                            assert(track_ids(added@) =~= track_ids(before).push(number));
                            assert(entry_gives(cs[i as int], t));
                            idx = idx.push(i as int);
                            assert forall|k: int| 0 <= k < added@.len() implies 0 <= #[trigger] idx[k] < i + 1
                                && entry_gives(cs[idx[k]], added@[k]) by {
                                if k < before.len() {
                                    assert(added@[k] == before[k]);
                                }
                            }
                        }
                    }
                },
                Err(e) => {
                    proof {
                        assert(entry_number(cs[i as int]) is None);
                        assert(!entries_ok(cs));
                    }
                    return Err(e);
                },
            }
        }
        proof {
            assert(track_ids(added@) == entry_ids(tk, seen));
            assert forall|k: int| 0 <= k < added@.len() implies (#[trigger] added@[k]).timebase == timebase by {
                if k < before.len() {
                    assert(added@[k] == before[k]);
                }
            }
        }
        i = i + 1;
    }
    proof {
        assert(cs.take(i as int) =~= cs);
        assert forall|k: int| 0 <= k < added@.len() implies entry_given(cs, #[trigger] added@[k]) by {
            assert(entry_gives(cs[idx[k]], added@[k]));
        }
        assert(track_ids(added@) == entry_ids(cs, seen));
        assert(forall|k: int| 0 <= k < added@.len() ==> (#[trigger] added@[k]).timebase == timebase);
        assert(tracks_from(cs, seen, added@, timebase));
    }
    let ghost new_tracks = added@;
    append_tracks(tracks, added);
    proof {
        assert(tracks@.subrange(0, old(tracks)@.len() as int) =~= old(tracks)@);
        assert(tracks@.subrange(old(tracks)@.len() as int, tracks@.len() as int) =~= new_tracks);
    }
    Ok(())
}

/// Reads the `Info` content: its `TimestampScale`, if present.
pub fn parse_info(content: &[u8]) -> (r: Result<Option<u64>, MkvError>)
    ensures
        r is Ok <==> (spec_parse_children(content@) matches Some(cs) && spec_uint_child(
            cs,
            TIMESTAMP_SCALE,
        ) is Some),
        r is Ok ==> Some(r->Ok_0) == spec_uint_child(
            spec_parse_children(content@)->0,
            TIMESTAMP_SCALE,
        ),
{
    let children = parse_children(content, INFO)?;
    let ghost cs = spec_parse_children(content@)->0;
    uint_child(content, &children, TIMESTAMP_SCALE, Ghost(cs))
}

/// The time base for a timestamp scale in nanoseconds (default one millisecond):
/// `1 / (scale / 1000)`.
pub open spec fn spec_timebase(scale: Option<u64>) -> Option<Fraction> {
    let s = match scale {
        Some(v) => v,
        None => 1_000_000,
    };
    if 1 <= s / 1000 <= u32::MAX {
        Some(Fraction { numerator: 1, denominator: (s / 1000) as u32 })
    } else {
        None
    }
}

/// A signed 16-bit big-endian value.
pub open spec fn i16_of(hi: u8, lo: u8) -> int {
    let v = hi as int * 256 + lo as int;
    if v >= 0x8000 {
        v - 0x10000
    } else {
        v
    }
}

/// A block's header and body: track number, relative timestamp, flags, payload.
pub open spec fn spec_block(content: Seq<u8>) -> Option<(u64, int, u8, Seq<u8>)> {
    match spec_read_vint(content) {
        Ok((tn, w)) => if content.len() >= w + 3 {
            Some(
                (
                    tn,
                    i16_of(content[w as int], content[w + 1]),
                    content[w + 2],
                    content.subrange(w + 3, content.len() as int),
                ),
            )
        } else {
            None
        },
        Err(_) => None,
    }
}

/// Reads a block header; returns track number, timestamp, flags and where the
/// payload starts.
pub fn read_simple_block_header(content: &[u8]) -> (r: Result<(u64, i64, u8, usize), MkvError>)
    ensures
        r is Ok <==> spec_block(content@) is Some,
        r matches Ok((tn, ts, flags, body)) ==> ({
            let b = spec_block(content@)->0;
            &&& tn == b.0
            &&& ts == b.1
            &&& flags == b.2
            &&& body <= content@.len()
            &&& content@.subrange(body as int, content@.len() as int) == b.3
        }),
        r is Err ==> r == Err::<(u64, i64, u8, usize), MkvError>(MkvError::TruncatedBlock),
{
    match read_vint(content) {
        Ok((tn, w)) => {
            if content.len() < w + 3 {
                return Err(MkvError::TruncatedBlock);
            }
            let v: i64 = content[w] as i64 * 256 + content[w + 1] as i64;
            let ts: i64 = if v >= 0x8000 {
                v - 0x10000
            } else {
                v
            };
            Ok((tn, ts, content[w + 2], w + 3))
        },
        Err(_) => Err(MkvError::TruncatedBlock),
    }
}

/// The presentation time of a block: cluster timestamp plus the block's offset,
/// saturating at zero below and at `u64::MAX` above.
pub open spec fn spec_pts(cluster_ts: u64, ts: int) -> u64 {
    let t = cluster_ts + ts;
    if t < 0 {
        0
    } else if t > u64::MAX {
        u64::MAX
    } else {
        t as u64
    }
}

/// The state of the demuxer.
#[derive(Clone, Copy, Debug, PartialEq, Eq, Structural)]
pub enum State {
    LookingForEbmlHeader,
    LookingForSegment,
    ParseUntilFirstCluster { tracks: bool, info: bool },
    ParseClusters,
}

/// The Matroska demuxer.
pub struct MatroskaDemuxer {
    pub header: Option<EbmlHeader>,
    pub movie: Movie,
    pub timebase: Fraction,
    pub current_cluster_ts: u64,
    pub state: State,
}

/// Reads an element header, a `NeedMore` where the input is short.
fn element_header(input: &[u8]) -> (r: Result<(u64, EbmlLength, usize), DemuxerError>)
    ensures
        match spec_read_header(input@) {
            Ok((id, l, h)) => r matches Ok((i2, l2, h2)) && i2 == id.0 && l2 == l && h2 == h,
            Err(EbmlError::NeedMore(k)) => r matches Err(DemuxerError::NeedMore(k2)) && k2 == k,
            Err(e) => r matches Err(DemuxerError::Misc(MkvError::Ebml(e2))) && e2 == e,
        },
        r matches Ok((_, _, h)) ==> 2 <= h <= input@.len(),
        r is Ok && r->Ok_0.1 is Known ==> r->Ok_0.1->Known_0 < 0x100_0000_0000_0000,
        r is Ok ==> r->Ok_0.2 <= 12,
{
    proof {
        if spec_read_header(input@) is Ok {
            crate::ebml::lemma_header_len_bound(input@);
        }
    }
    match read_element_header(input) {
        Ok((id, l, h)) => Ok((id.0, l, h)),
        Err(EbmlError::NeedMore(k)) => Err(DemuxerError::NeedMore(k)),
        Err(e) => Err(DemuxerError::Misc(MkvError::Ebml(e))),
    }
}

/// Whether the whole element of header `h` and length `len` is in `input`; else the
/// number of bytes still missing.
pub open spec fn missing(input_len: nat, h: nat, len: u64) -> nat {
    if h + len <= input_len {
        0
    } else {
        (h + len - input_len) as nat
    }
}

/// A missing byte count as a `usize`, saturated.
pub open spec fn need(m: nat) -> usize {
    if m <= usize::MAX {
        m as usize
    } else {
        usize::MAX
    }
}

/// The bytes missing from an element of header `h` and length `len`.
fn need_more(input_len: usize, h: usize, len: u64) -> (n: usize)
    requires
        h <= input_len,
        len > input_len - h,
    ensures
        n == need(missing(input_len as nat, h as nat, len)),
{
    let m: u64 = len - (input_len - h) as u64;
    if m <= usize::MAX as u64 {
        m as usize
    } else {
        usize::MAX
    }
}

impl MatroskaDemuxer {
    /// A demuxer looking for the EBML header.
    pub fn new() -> (d: MatroskaDemuxer)
        ensures
            d.state == State::LookingForEbmlHeader,
            d.movie.tracks@.len() == 0,
            d.current_cluster_ts == 0,
    {
        MatroskaDemuxer {
            header: None,
            movie: Movie::new(),
            timebase: Fraction::new(1, 1000),
            current_cluster_ts: 0,
            state: State::LookingForEbmlHeader,
        }
    }
}


/// The first track numbered `id`.
pub open spec fn find_track(tracks: Seq<Track>, id: u64) -> Option<Track>
    decreases tracks.len(),
{
    if tracks.len() == 0 {
        None
    } else if tracks[0].id as u64 == id {
        Some(tracks[0])
    } else {
        find_track(tracks.drop_first(), id)
    }
}

/// The packet made of a block `b` of a cluster at `cluster_ts`: none where no track
/// has the block's number.
pub open spec fn packet_matches(
    p: Option<Packet>,
    b: (u64, int, u8, Seq<u8>),
    cluster_ts: u64,
    tracks: Seq<Track>,
    duration: Option<u64>,
) -> bool {
    match find_track(tracks, b.0) {
        None => p is None,
        Some(t) => p matches Some(pk) && {
            &&& pk.track == t
            &&& pk.time.pts == spec_pts(cluster_ts, b.1)
            &&& pk.time.dts is None
            &&& pk.time.duration == duration
            &&& pk.time.timebase == t.timebase
            &&& pk.key == (b.2 >= 0x80)
            &&& pk.buffer.wf()
            &&& pk.buffer.is_realized()
            &&& pk.buffer.bytes_in(Seq::empty()) == b.3
        },
    }
}

/// The state after the headers step read an `Info` or `Tracks` element.
pub open spec fn next_state(tracks: bool, info: bool) -> State {
    if tracks && info {
        State::ParseClusters
    } else {
        State::ParseUntilFirstCluster { tracks, info }
    }
}

/// What one step of `read_headers_internal` does, as a function of the state and
/// the element header at the front of the input.
pub open spec fn headers_step_post(
    st: State,
    s: Seq<u8>,
    r: Result<usize, DemuxerError>,
    st2: State,
) -> bool {
    match spec_read_header(s) {
        Err(EbmlError::NeedMore(k)) => r == Err::<usize, DemuxerError>(DemuxerError::NeedMore(k))
            && st2 == st,
        Err(e) => r == Err::<usize, DemuxerError>(DemuxerError::Misc(MkvError::Ebml(e))) && st2
            == st,
        Ok((id, l, h)) => match l {
            EbmlLength::Unknown(_) => if st == State::LookingForSegment && id.0 == SEGMENT {
                r == Ok::<usize, DemuxerError>(h) && st2 == State::ParseUntilFirstCluster {
                    tracks: false,
                    info: false,
                }
            } else if st == State::LookingForEbmlHeader && id.0 != EBML_HEADER {
                r == Err::<usize, DemuxerError>(
                    DemuxerError::Misc(MkvError::UnexpectedElement(EBML_HEADER, id.0)),
                ) && st2 == st
            } else {
                r == Err::<usize, DemuxerError>(DemuxerError::Misc(MkvError::UnknownSize(id.0)))
                    && st2 == st
            },
            EbmlLength::Known(len) => {
                let m = missing(s.len(), h as nat, len);
                match st {
                    State::LookingForEbmlHeader => if id.0 != EBML_HEADER {
                        r == Err::<usize, DemuxerError>(
                            DemuxerError::Misc(MkvError::UnexpectedElement(EBML_HEADER, id.0)),
                        ) && st2 == st
                    } else if m > 0 {
                        r == Err::<usize, DemuxerError>(DemuxerError::NeedMore(need(m))) && st2
                            == st
                    } else if !ebml_header_ok(s.subrange(h as int, h + len)) {
                        r is Err && r->Err_0 is Misc && st2 == st
                    } else {
                        r == Ok::<usize, DemuxerError>((h + len) as usize) && st2
                            == State::LookingForSegment
                    },
                    State::LookingForSegment => if id.0 == SEGMENT {
                        r == Ok::<usize, DemuxerError>(h) && st2 == State::ParseUntilFirstCluster {
                            tracks: false,
                            info: false,
                        }
                    } else {
                        r == Err::<usize, DemuxerError>(
                            DemuxerError::Seek(SeekFrom::Current((h + len) as i64)),
                        ) && st2 == st
                    },
                    State::ParseUntilFirstCluster { tracks, info } => if id.0 == INFO || id.0
                        == TRACKS {
                        if m > 0 {
                            r == Err::<usize, DemuxerError>(DemuxerError::NeedMore(need(m)))
                                && st2 == st
                        } else {
                            (r is Ok ==> r == Ok::<usize, DemuxerError>((h + len) as usize) && st2
                                == next_state(tracks || id.0 == TRACKS, info || id.0 == INFO)) && (
                            r is Err ==> st2 == st && r->Err_0 is Misc)
                        }
                    } else {
                        r == Err::<usize, DemuxerError>(
                            DemuxerError::Seek(SeekFrom::Current((h + len) as i64)),
                        ) && st2 == st
                    },
                    State::ParseClusters => false,
                }
            },
        },
    }
}

/// What one step of `read_packet_internal` does, as a function of the element
/// header at the front of the input.
pub open spec fn packet_step_post(
    ts: u64,
    tracks: Seq<Track>,
    s: Seq<u8>,
    r: Result<(usize, Option<Packet>), DemuxerError>,
    ts2: u64,
) -> bool {
    match spec_read_header(s) {
        Err(EbmlError::NeedMore(k)) => r matches Err(DemuxerError::NeedMore(k2)) && k2 == k && ts2
            == ts,
        Err(e) => r matches Err(DemuxerError::Misc(MkvError::Ebml(e2))) && e2 == e && ts2 == ts,
        Ok((id, l, h)) => if id.0 == CLUSTER {
            r matches Ok((n, None)) && n == h && ts2 == ts
        } else if id.0 == CUES {
            r matches Err(DemuxerError::EndOfStream) && ts2 == ts
        } else {
            match l {
                EbmlLength::Unknown(_) => r matches Err(DemuxerError::Misc(MkvError::UnknownSize(i)))
                    && i == id.0 && ts2 == ts,
                EbmlLength::Known(len) => {
                    let m = missing(s.len(), h as nat, len);
                    let content = s.subrange(h as int, h + len);
                    if id.0 == TIMESTAMP || id.0 == SIMPLE_BLOCK || id.0 == BLOCK_GROUP {
                        if m > 0 {
                            r matches Err(DemuxerError::NeedMore(k)) && k == need(m) && ts2 == ts
                        } else if id.0 == TIMESTAMP {
                            match spec_uint(content) {
                                Some(v) => r matches Ok((n, None)) && n == h + len && ts2 == v,
                                None => r is Err && ts2 == ts,
                            }
                        } else if id.0 == SIMPLE_BLOCK {
                            match spec_block(content) {
                                Some(b) => r matches Ok((n, p)) && n == h + len && ts2 == ts
                                    && packet_matches(p, b, ts, tracks, None),
                                None => r is Err && ts2 == ts,
                            }
                        } else if block_group_ok(content) {
                            let cs = spec_parse_children(content)->0;
                            r matches Ok((n, p)) && n == h + len && ts2 == ts && packet_matches(
                                p,
                                spec_block(find_child(cs, BLOCK)->0)->0,
                                ts,
                                tracks,
                                spec_uint_child(cs, BLOCK_DURATION)->0,
                            )
                        } else {
                            r is Err && ts2 == ts
                        }
                    } else {
                        r matches Err(DemuxerError::Seek(SeekFrom::Current(d))) && d == h + len
                            && ts2 == ts
                    }
                },
            }
        },
    }
}

/// The element at the front of the input, where its header reads, its length is
/// known and its content is all there: identifier and content.
pub open spec fn whole_element(s: Seq<u8>) -> Option<(u64, Seq<u8>)> {
    match spec_read_header(s) {
        Ok((id, EbmlLength::Known(len), h)) => if h + len <= s.len() {
            Some((id.0, s.subrange(h as int, h + len)))
        } else {
            None
        },
        _ => None,
    }
}

/// Whether an `Info` content gives a time base.
pub open spec fn info_ok(c: Seq<u8>) -> bool {
    &&& spec_parse_children(c) is Some
    &&& spec_uint_child(spec_parse_children(c)->0, TIMESTAMP_SCALE) is Some
    &&& spec_timebase(spec_uint_child(spec_parse_children(c)->0, TIMESTAMP_SCALE)->0) is Some
}

/// The time base an `Info` content gives.
pub open spec fn info_timebase(c: Seq<u8>) -> Fraction {
    spec_timebase(spec_uint_child(spec_parse_children(c)->0, TIMESTAMP_SCALE)->0)->0
}

/// The BlockGroup content holds a readable Block and an optional readable duration.
pub open spec fn block_group_ok(c: Seq<u8>) -> bool {
    &&& spec_parse_children(c) matches Some(cs)
    &&& find_child(cs, BLOCK) matches Some(b)
    &&& spec_block(b) is Some
    &&& spec_uint_child(cs, BLOCK_DURATION) is Some
}

/// What the headers step does with a whole `Info` or `Tracks` element before the
/// first cluster: Info sets the time base of the demuxer and of every track, Tracks
/// appends the tracks that convert.
pub open spec fn segment_step_post(
    pre: MatroskaDemuxer,
    post: MatroskaDemuxer,
    s: Seq<u8>,
    r: Result<usize, DemuxerError>,
) -> bool {
    match whole_element(s) {
        Some((id, c)) => if pre.state is ParseUntilFirstCluster && id == INFO {
            &&& (r is Ok <==> info_ok(c))
            &&& r is Ok ==> {
                &&& post.timebase == info_timebase(c)
                &&& track_ids(post.movie.tracks@) == track_ids(pre.movie.tracks@)
                &&& post.movie.tracks@.len() == pre.movie.tracks@.len()
                &&& forall|i: int|
                    0 <= i < post.movie.tracks@.len() ==> (#[trigger] post.movie.tracks@[i]).timebase
                        == post.timebase && post.movie.tracks@[i].info == pre.movie.tracks@[i].info
            }
        } else if pre.state is ParseUntilFirstCluster && id == TRACKS {
            &&& (r is Ok <==> (spec_parse_children(c) matches Some(cs) && entries_ok(cs)))
            &&& r is Ok ==> {
                &&& post.movie.tracks@.len() >= pre.movie.tracks@.len()
                &&& post.movie.tracks@.subrange(0, pre.movie.tracks@.len() as int) == pre.movie.tracks@
                &&& tracks_from(
                    spec_parse_children(c)->0,
                    track_ids(pre.movie.tracks@),
                    post.movie.tracks@.subrange(
                        pre.movie.tracks@.len() as int,
                        post.movie.tracks@.len() as int,
                    ),
                    pre.timebase,
                )
                &&& post.timebase == pre.timebase
            }
        } else {
            true
        },
        None => true,
    }
}

/// The packet `p` is what a step starting at some offset before `end`, in some
/// cluster state, made of the bytes from there, ending at `end`.
pub open spec fn packet_ends_at(tracks: Seq<Track>, s: Seq<u8>, end: int, p: Packet, ts2: u64) -> bool {
    exists|k: int, ts0: u64|
        0 <= k < end && #[trigger] packet_step_post(
            ts0,
            tracks,
            s.subrange(k, s.len() as int),
            Ok::<(usize, Option<Packet>), DemuxerError>(((end - k) as usize, Some(p))),
            ts2,
        )
}

/// Where a header step succeeds: the bytes it uses and the state it leaves.
pub open spec fn header_step(st: State, s: Seq<u8>) -> Option<(nat, State)> {
    match spec_read_header(s) {
        Ok((id, l, h)) => match l {
            EbmlLength::Unknown(_) => if st == State::LookingForSegment && id.0 == SEGMENT {
                Some((h as nat, State::ParseUntilFirstCluster { tracks: false, info: false }))
            } else {
                None
            },
            EbmlLength::Known(len) => {
                let whole = h + len <= s.len();
                let c = s.subrange(h as int, h + len);
                match st {
                    State::LookingForEbmlHeader => if id.0 == EBML_HEADER && whole
                        && ebml_header_ok(c) {
                        Some(((h + len) as nat, State::LookingForSegment))
                    } else {
                        None
                    },
                    State::LookingForSegment => if id.0 == SEGMENT {
                        Some((h as nat, State::ParseUntilFirstCluster { tracks: false, info: false }))
                    } else {
                        None
                    },
                    State::ParseUntilFirstCluster { tracks, info } => if whole && ((id.0 == INFO
                        && info_ok(c)) || (id.0 == TRACKS && spec_parse_children(c) is Some
                        && entries_ok(spec_parse_children(c)->0))) {
                        Some(
                            (
                                (h + len) as nat,
                                next_state(tracks || id.0 == TRACKS, info || id.0 == INFO),
                            ),
                        )
                    } else {
                        None
                    },
                    State::ParseClusters => None,
                }
            },
        },
        Err(_) => None,
    }
}

/// The header steps run over `s` from state `st`: the bytes used and the state
/// reached, stopping at the first failing step or once the clusters are reached.
pub open spec fn header_run(st: State, s: Seq<u8>) -> (nat, State)
    decreases s.len(),
{
    match header_step(st, s) {
        Some((n, st2)) => if st2 == State::ParseClusters || n == 0 || n > s.len() {
            (n, st2)
        } else {
            let rest = header_run(st2, s.subrange(n as int, s.len() as int));
            (n + rest.0, rest.1)
        },
        None => (0, st),
    }
}

/// Where a packet step succeeds: the bytes it uses, the cluster timestamp it
/// leaves, and whether it yields a packet.
pub open spec fn packet_step(ts: u64, tracks: Seq<Track>, s: Seq<u8>) -> Option<(nat, u64, bool)> {
    match spec_read_header(s) {
        Ok((id, l, h)) => if id.0 == CLUSTER {
            Some((h as nat, ts, false))
        } else {
            match l {
                EbmlLength::Known(len) => {
                    let c = s.subrange(h as int, h + len);
                    if h + len > s.len() {
                        None
                    } else if id.0 == TIMESTAMP {
                        match spec_uint(c) {
                            Some(v) => Some(((h + len) as nat, v, false)),
                            None => None,
                        }
                    } else if id.0 == SIMPLE_BLOCK {
                        match spec_block(c) {
                            Some(b) => Some(((h + len) as nat, ts, find_track(tracks, b.0) is Some)),
                            None => None,
                        }
                    } else if id.0 == BLOCK_GROUP && block_group_ok(c) {
                        let b = spec_block(find_child(spec_parse_children(c)->0, BLOCK)->0)->0;
                        Some(((h + len) as nat, ts, find_track(tracks, b.0) is Some))
                    } else {
                        None
                    }
                },
                EbmlLength::Unknown(_) => None,
            }
        },
        Err(_) => None,
    }
}

/// The packet steps run over `s`: the bytes used and the cluster timestamp reached,
/// stopping at the first failing step or the first packet.
pub open spec fn packet_run(ts: u64, tracks: Seq<Track>, s: Seq<u8>) -> (nat, u64)
    decreases s.len(),
{
    match packet_step(ts, tracks, s) {
        Some((n, ts2, yields)) => if yields || n == 0 || n > s.len() {
            (n, ts2)
        } else {
            let rest = packet_run(ts2, tracks, s.subrange(n as int, s.len() as int));
            (n + rest.0, rest.1)
        },
        None => (0, ts),
    }
}

/// Ids of tracks stay unique.
pub open spec fn unique_ids(tracks: Seq<Track>) -> bool {
    forall|i: int, j: int|
        0 <= i < j < tracks.len() ==> (#[trigger] tracks[i]).id != (#[trigger] tracks[j]).id
}

/// A successful packet step is the one `packet_step` names.
proof fn lemma_packet_step_ok(
    ts: u64,
    tracks: Seq<Track>,
    s: Seq<u8>,
    n: usize,
    p: Option<Packet>,
    ts2: u64,
)
    requires
        packet_step_post(ts, tracks, s, Ok((n, p)), ts2),
        0 < n <= s.len(),
        s.len() <= usize::MAX,
    ensures
        packet_step(ts, tracks, s) == Some((n as nat, ts2, p is Some)),
{
    if spec_read_header(s) is Ok {
        crate::ebml::lemma_header_len_bound(s);
    }
}

/// A failing packet step is one where `packet_step` names none.
proof fn lemma_packet_step_err(ts: u64, tracks: Seq<Track>, s: Seq<u8>, e: DemuxerError, ts2: u64)
    requires
        packet_step_post(ts, tracks, s, Err(e), ts2),
    ensures
        packet_step(ts, tracks, s) is None,
        ts2 == ts,
{
}

/// A successful header step is the one `header_step` names.
proof fn lemma_header_step_ok(pre: MatroskaDemuxer, post: MatroskaDemuxer, s: Seq<u8>, n: usize)
    requires
        pre.state != State::ParseClusters,
        headers_step_post(pre.state, s, Ok(n), post.state),
        segment_step_post(pre, post, s, Ok(n)),
        0 < n <= s.len(),
        s.len() <= usize::MAX,
    ensures
        header_step(pre.state, s) == Some((n as nat, post.state)),
{
    if spec_read_header(s) is Ok {
        crate::ebml::lemma_header_len_bound(s);
    }
}

/// A failing header step is one where `header_step` names none.
proof fn lemma_header_step_err(pre: MatroskaDemuxer, post: MatroskaDemuxer, s: Seq<u8>, e: DemuxerError)
    requires
        pre.state != State::ParseClusters,
        headers_step_post(pre.state, s, Err(e), post.state),
        segment_step_post(pre, post, s, Err(e)),
    ensures
        header_step(pre.state, s) is None,
{
}

impl MatroskaDemuxer {
    /// One step of reading the headers: the EBML header, the Segment, then Info and
    /// Tracks; other elements are skipped by a seek past them.
    pub fn read_headers_internal(&mut self, input: &[u8]) -> (r: Result<usize, DemuxerError>)
        requires
            old(self).state != State::ParseClusters,
        ensures
            headers_step_post(old(self).state, input@, r, final(self).state),
            r matches Ok(n) ==> 0 < n <= input@.len(),
            final(self).current_cluster_ts == old(self).current_cluster_ts,
            r is Err ==> track_ids(final(self).movie.tracks@) == track_ids(old(self).movie.tracks@),
            segment_step_post(*old(self), *final(self), input@, r),
    {
        let (id, l, h) = element_header(input)?;
        proof {
            crate::ebml::lemma_header_len_bound(input@);
        }
        match self.state {
            State::LookingForEbmlHeader => {
                if id != EBML_HEADER {
                    return Err(DemuxerError::Misc(MkvError::UnexpectedElement(EBML_HEADER, id)));
                }
                let len = match l {
                    EbmlLength::Known(len) => len,
                    EbmlLength::Unknown(_) => {
                        return Err(DemuxerError::Misc(MkvError::UnknownSize(id)));
                    },
                };
                if len > (input.len() - h) as u64 {
                    return Err(DemuxerError::NeedMore(need_more(input.len(), h, len)));
                }
                let content = slice_range(input, h, h + len as usize);
                match read_ebml_header(content) {
                    Ok(header) => {
                        self.header = Some(header);
                    },
                    Err(e) => {
                        return Err(DemuxerError::Misc(e));
                    },
                }
                self.state = State::LookingForSegment;
                Ok(h + len as usize)
            },
            State::LookingForSegment => {
                if id == SEGMENT {
                    self.state = State::ParseUntilFirstCluster { tracks: false, info: false };
                    return Ok(h);
                }
                match l {
                    EbmlLength::Known(len) => Err(
                        DemuxerError::Seek(SeekFrom::Current((h as u64 + len) as i64)),
                    ),
                    EbmlLength::Unknown(_) => Err(DemuxerError::Misc(MkvError::UnknownSize(id))),
                }
            },
            State::ParseUntilFirstCluster { tracks, info } => {
                let len = match l {
                    EbmlLength::Known(len) => len,
                    EbmlLength::Unknown(_) => {
                        return Err(DemuxerError::Misc(MkvError::UnknownSize(id)));
                    },
                };
                if id != INFO && id != TRACKS {
                    return Err(DemuxerError::Seek(SeekFrom::Current((h as u64 + len) as i64)));
                }
                if len > (input.len() - h) as u64 {
                    return Err(DemuxerError::NeedMore(need_more(input.len(), h, len)));
                }
                let content = slice_range(input, h, h + len as usize);
                if id == INFO {
                    let scale = match parse_info(content) {
                        Ok(s) => s,
                        Err(e) => {
                            return Err(DemuxerError::Misc(e));
                        },
                    };
                    let s = match scale {
                        Some(v) => v,
                        None => 1_000_000,
                    };
                    if s / 1000 == 0 || s / 1000 > 0xFFFF_FFFF {
                        return Err(DemuxerError::Misc(MkvError::InvalidTimestampScale(s)));
                    }
                    self.timebase = Fraction::new(1, (s / 1000) as u32);
                    self.retime_tracks();
                } else {
                    let tb = self.timebase;
                    match parse_tracks(content, tb, &mut self.movie.tracks) {
                        Ok(()) => {},
                        Err(e) => {
                            return Err(DemuxerError::Misc(e));
                        },
                    }
                }
                let t2 = tracks || id == TRACKS;
                let i2 = info || id == INFO;
                self.state = if t2 && i2 {
                    State::ParseClusters
                } else {
                    State::ParseUntilFirstCluster { tracks: t2, info: i2 }
                };
                Ok(h + len as usize)
            },
            State::ParseClusters => Err(DemuxerError::EndOfStream),
        }
    }

    /// Gives every track the demuxer's time base.
    fn retime_tracks(&mut self)
        ensures
            final(self).state == old(self).state,
            final(self).timebase == old(self).timebase,
            final(self).current_cluster_ts == old(self).current_cluster_ts,
            track_ids(final(self).movie.tracks@) == track_ids(old(self).movie.tracks@),
            final(self).movie.tracks@.len() == old(self).movie.tracks@.len(),
            forall|i: int|
                0 <= i < final(self).movie.tracks@.len() ==> (#[trigger] final(self).movie.tracks@[i]).timebase
                    == old(self).timebase && final(self).movie.tracks@[i].info == old(
                    self).movie.tracks@[i].info && final(self).movie.tracks@[i].id == old(
                    self).movie.tracks@[i].id,
    {
        let mut i: usize = 0;
        let ghost ids = track_ids(self.movie.tracks@);
        while i < self.movie.tracks.len()
            invariant
                i <= self.movie.tracks@.len(),
                track_ids(self.movie.tracks@) == ids,
                self.state == old(self).state,
                self.timebase == old(self).timebase,
                self.current_cluster_ts == old(self).current_cluster_ts,
                forall|k: int| 0 <= k < i ==> (#[trigger] self.movie.tracks@[k]).timebase == self.timebase,
                self.movie.tracks@.len() == old(self).movie.tracks@.len(),
                forall|k: int|
                    0 <= k < self.movie.tracks@.len() ==> (#[trigger] self.movie.tracks@[k]).info == old(
                    self).movie.tracks@[k].info && self.movie.tracks@[k].id == old(self).movie.tracks@[k].id,
            decreases self.movie.tracks@.len() - i,
        {
            let t = self.movie.tracks[i].copy();
            let nt = Track { id: t.id, info: t.info, timebase: self.timebase };
            let ghost before = self.movie.tracks@;
            self.movie.tracks.set(i, nt);
            proof {
                assert(track_ids(self.movie.tracks@) =~= track_ids(before));
            }
            i = i + 1;
        }
    }
}


impl MatroskaDemuxer {
    /// The packet of a block of the current cluster, if a track has its number.
    pub fn convert_block_to_packet(
        &self,
        track_number: u64,
        ts: i64,
        flags: u8,
        body: &[u8],
        duration: Option<u64>,
    ) -> (r: Option<Packet>)
        ensures
            packet_matches(
                r,
                (track_number, ts as int, flags, body@),
                self.current_cluster_ts,
                self.movie.tracks@,
                duration,
            ),
    {
        let tracks = &self.movie.tracks;
        let ghost ts0 = tracks@;
        let mut i: usize = 0;
        proof {
            assert(ts0.subrange(0, ts0.len() as int) =~= ts0);
        }
        while i < tracks.len()
            invariant
                ts0 == tracks@,
                ts0 == self.movie.tracks@,
                i <= ts0.len(),
                find_track(ts0, track_number) == find_track(
                    ts0.subrange(i as int, ts0.len() as int),
                    track_number,
                ),
            decreases ts0.len() - i,
        {
            let ghost t = ts0.subrange(i as int, ts0.len() as int);
            proof {
                assert(t[0] == ts0[i as int]);
                assert(t.drop_first() =~= ts0.subrange(i + 1, ts0.len() as int));
            }
            if tracks[i].id as u64 == track_number {
                proof {
                    assert(find_track(t, track_number) == Some(ts0[i as int]));
                }
                let track = tracks[i].copy();
                proof {
                    assert(ts0 == self.movie.tracks@);
                    assert(find_track(ts0, track_number) == Some(ts0[i as int]));
                    assert(track == ts0[i as int]);
                }
                let t: i128 = self.current_cluster_ts as i128 + ts as i128;
                let pts: u64 = if t < 0 {
                    0
                } else if t > 0xFFFF_FFFF_FFFF_FFFF {
                    0xFFFF_FFFF_FFFF_FFFF
                } else {
                    t as u64
                };
                let timebase = track.timebase;
                let buffer = Span::from_vec(copy_bytes(body));
                return Some(
                    Packet {
                        time: MediaTime { pts, dts: None, duration, timebase },
                        key: flags >= 0x80,
                        track,
                        buffer,
                    },
                );
            }
            i = i + 1;
        }
        proof {
            assert(ts0.subrange(i as int, ts0.len() as int) =~= Seq::<Track>::empty());
        }
        None
    }

    /// Reads a `BlockGroup`'s content: its `Block` and optional `BlockDuration`.
    pub fn parse_block_group(&self, content: &[u8]) -> (r: Result<Option<Packet>, MkvError>)
        ensures
            r is Ok <==> ({
                &&& spec_parse_children(content@) matches Some(cs)
                &&& find_child(cs, BLOCK) matches Some(b)
                &&& spec_block(b) is Some
                &&& spec_uint_child(cs, BLOCK_DURATION) is Some
            }),
            r matches Ok(p) ==> ({
                let cs = spec_parse_children(content@)->0;
                packet_matches(
                    p,
                    spec_block(find_child(cs, BLOCK)->0)->0,
                    self.current_cluster_ts,
                    self.movie.tracks@,
                    spec_uint_child(cs, BLOCK_DURATION)->0,
                )
            }),
    {
        let children = parse_children(content, BLOCK_GROUP)?;
        let ghost cs = spec_parse_children(content@)->0;
        let (bs, be) = mand(first_child(&children, BLOCK, Ghost(content@), Ghost(cs)), BLOCK)?;
        let duration = uint_child(content, &children, BLOCK_DURATION, Ghost(cs))?;
        let block = slice_range(content, bs, be);
        let (tn, ts, flags, body_start) = read_simple_block_header(block)?;
        let body = slice_from(block, body_start);
        Ok(self.convert_block_to_packet(tn, ts, flags, body, duration))
    }

    /// One step of reading packets: a Cluster header is entered, its Timestamp read,
    /// a SimpleBlock or BlockGroup turned into a packet; Cues end the stream; other
    /// elements are skipped by a seek past them.
    pub fn read_packet_internal(&mut self, input: &[u8]) -> (r: Result<(usize, Option<Packet>), DemuxerError>)
        ensures
            packet_step_post(
                old(self).current_cluster_ts,
                old(self).movie.tracks@,
                input@,
                r,
                final(self).current_cluster_ts,
            ),
            final(self).movie.tracks@ == old(self).movie.tracks@,
            final(self).state == old(self).state,
            r matches Ok((n, _)) ==> 0 < n <= input@.len(),
    {
        let (id, l, h) = element_header(input)?;
        if id == CLUSTER {
            return Ok((h, None));
        }
        if id == CUES {
            return Err(DemuxerError::EndOfStream);
        }
        let len = match l {
            EbmlLength::Known(len) => len,
            EbmlLength::Unknown(_) => {
                return Err(DemuxerError::Misc(MkvError::UnknownSize(id)));
            },
        };
        if id != TIMESTAMP && id != SIMPLE_BLOCK && id != BLOCK_GROUP {
            return Err(DemuxerError::Seek(SeekFrom::Current((h as u64 + len) as i64)));
        }
        if len > (input.len() - h) as u64 {
            return Err(DemuxerError::NeedMore(need_more(input.len(), h, len)));
        }
        let end = h + len as usize;
        let content = slice_range(input, h, end);
        if id == TIMESTAMP {
            match read_uint(content, TIMESTAMP) {
                Ok(v) => {
                    self.current_cluster_ts = v;
                    Ok((end, None))
                },
                Err(e) => Err(DemuxerError::Misc(e)),
            }
        } else if id == SIMPLE_BLOCK {
            match read_simple_block_header(content) {
                Ok((tn, ts, flags, body_start)) => {
                    let body = slice_from(content, body_start);
                    Ok((end, self.convert_block_to_packet(tn, ts, flags, body, None)))
                },
                Err(e) => Err(DemuxerError::Misc(e)),
            }
        } else {
            match self.parse_block_group(content) {
                Ok(p) => Ok((end, p)),
                Err(e) => Err(DemuxerError::Misc(e)),
            }
        }
    }

    /// Reads the headers from `input`, one step at a time, until the movie is
    /// complete or a step fails; returns how many bytes the successful steps used up,
    /// and the movie, or the failing step's error (a step on no bytes asks for one).
    pub fn read_headers(&mut self, input: &[u8]) -> (r: (usize, Result<Movie, DemuxerError>))
        requires
            old(self).state != State::ParseClusters,
        ensures
            r.0 <= input@.len(),
            r.1 is Ok <==> final(self).state == State::ParseClusters,
            r.1 matches Ok(m) ==> m.tracks@ == final(self).movie.tracks@,
            (r.0 as nat, final(self).state) == header_run(old(self).state, input@),
            r.1 matches Err(e) ==> headers_step_post(
                final(self).state,
                input@.subrange(r.0 as int, input@.len() as int),
                Err(e),
                final(self).state,
            ),
            final(self).current_cluster_ts == old(self).current_cluster_ts,
    {
        let mut consumed: usize = 0;
        let total = input.len();
        proof {
            assert(input@.subrange(0, input@.len() as int) =~= input@);
        }
        loop
            invariant
                total == input@.len(),
                consumed <= input@.len(),
                self.state != State::ParseClusters,
                self.current_cluster_ts == old(self).current_cluster_ts,
                header_run(old(self).state, input@) == ({
                    let rest = header_run(
                        self.state,
                        input@.subrange(consumed as int, input@.len() as int),
                    );
                    ((consumed + rest.0) as nat, rest.1)
                }),
            decreases input@.len() - consumed,
        {
            let rest = slice_from(input, consumed);
            let _rest_len = rest.len();
            let ghost st = self.state;
            let ghost pre = *self;
            match self.read_headers_internal(rest) {
                Ok(n) => {
                    proof {
                        lemma_header_step_ok(pre, *self, rest@, n);
                        assert(rest@.subrange(n as int, rest@.len() as int) =~= input@.subrange(
                            (consumed + n) as int,
                            input@.len() as int,
                        ));
                    }
                    consumed = consumed + n;
                },
                Err(e) => {
                    proof {
                        assert(self.state == st);
                        lemma_header_step_err(pre, *self, rest@, e);
                    }
                    return (consumed, Err(e));
                },
            }
            if self.state == State::ParseClusters {
                return (consumed, Ok(self.movie_copy()));
            }
        }
    }

    /// Reads the next packet from `input`, one step at a time, until a step yields
    /// a packet or fails; returns how many bytes the successful steps used up, and
    /// the packet, as the last step made it, or the failing step's error.
    pub fn read_packet(&mut self, input: &[u8]) -> (r: (usize, Result<Packet, DemuxerError>))
        ensures
            r.0 <= input@.len(),
            final(self).movie.tracks@ == old(self).movie.tracks@,
            final(self).state == old(self).state,
            r.1 matches Err(e) ==> packet_step_post(
                final(self).current_cluster_ts,
                old(self).movie.tracks@,
                input@.subrange(r.0 as int, input@.len() as int),
                Err(e),
                final(self).current_cluster_ts,
            ),
            (r.0 as nat, final(self).current_cluster_ts) == packet_run(
                old(self).current_cluster_ts,
                old(self).movie.tracks@,
                input@,
            ),
            r.1 matches Ok(p) ==> packet_ends_at(
                old(self).movie.tracks@,
                input@,
                r.0 as int,
                p,
                final(self).current_cluster_ts,
            ),
    {
        let mut consumed: usize = 0;
        let total = input.len();
        proof {
            assert(input@.subrange(0, input@.len() as int) =~= input@);
        }
        loop
            invariant
                total == input@.len(),
                consumed <= input@.len(),
                self.movie.tracks@ == old(self).movie.tracks@,
                self.state == old(self).state,
                packet_run(old(self).current_cluster_ts, old(self).movie.tracks@, input@) == ({
                    let rest = packet_run(
                        self.current_cluster_ts,
                        old(self).movie.tracks@,
                        input@.subrange(consumed as int, input@.len() as int),
                    );
                    ((consumed + rest.0) as nat, rest.1)
                }),
            decreases input@.len() - consumed,
        {
            let rest = slice_from(input, consumed);
            let _rest_len = rest.len();
            let ghost ts0 = self.current_cluster_ts;
            let ghost k = consumed;
            match self.read_packet_internal(rest) {
                Ok((n, p)) => {
                    proof {
                        lemma_packet_step_ok(ts0, old(self).movie.tracks@, rest@, n, p, self.current_cluster_ts);
                        assert(rest@.subrange(n as int, rest@.len() as int) =~= input@.subrange(
                            (consumed + n) as int,
                            input@.len() as int,
                        ));
                    }
                    consumed = consumed + n;
                    match p {
                        Some(p) => {
                            proof {
                                assert(packet_step_post(
                                    ts0,
                                    old(self).movie.tracks@,
                                    input@.subrange(k as int, input@.len() as int),
                                    Ok(((consumed - k) as usize, Some(p))),
                                    self.current_cluster_ts,
                                ));
                            }
                            return (consumed, Ok(p));
                        },
                        None => {},
                    }
                },
                Err(e) => {
                    proof {
                        lemma_packet_step_err(ts0, old(self).movie.tracks@, rest@, e, self.current_cluster_ts);
                    }
                    return (consumed, Err(e));
                },
            }
        }
    }

    /// A copy of the movie read so far (tracks shared, no attachments).
    pub fn movie_copy(&self) -> (m: Movie)
        ensures
            m.tracks@ == self.movie.tracks@,
    {
        let mut tracks: Vec<Track> = Vec::new();
        let mut i: usize = 0;
        while i < self.movie.tracks.len()
            invariant
                i <= self.movie.tracks@.len(),
                tracks@ == self.movie.tracks@.subrange(0, i as int),
            decreases self.movie.tracks@.len() - i,
        {
            tracks.push(self.movie.tracks[i].copy());
            i = i + 1;
            proof {
                assert(tracks@ =~= self.movie.tracks@.subrange(0, i as int));
            }
        }
        proof {
            assert(self.movie.tracks@.subrange(0, i as int) =~= self.movie.tracks@);
        }
        Movie { tracks, attachments: Vec::new() }
    }
}


/// How sure a probe is that data is Matroska.
#[derive(Clone, Copy, Debug, PartialEq, Eq, Structural)]
pub enum ProbeResult {
    /// Positive identification.
    Yup,
    /// Possibly; holds the score in quarters (one per signature found).
    Maybe(u32),
    /// No sign of the format.
    Unsure,
}

/// The number of non-overlapping matches of `patterns` in `data` that aho-corasick's
/// search with standard match semantics (the default of `AhoCorasick::new`)
/// reports. For the Matroska signatures, none of which is a prefix or an infix of
/// another, the count does not depend on the match semantics.
pub uninterp spec fn pattern_match_count(patterns: Seq<Seq<u8>>, data: Seq<u8>) -> nat;

/// Relies on `aho_corasick::AhoCorasick::new` (standard match semantics, unanchored)
/// and `find_iter`: the count of matches of the patterns in `data`; building the
/// automaton fails only for patterns far larger than these, counted as no match.
#[verifier::external_body]
fn count_pattern_matches(patterns: &Vec<Vec<u8>>, data: &[u8]) -> (n: usize)
    ensures
        n == pattern_match_count(crate::nal::units_view(patterns@), data@),
{
    match AhoCorasick::new(patterns) {
        Ok(ac) => ac.find_iter(data).count(),
        Err(_) => 0,
    }
}

/// The signatures of a Matroska stream: the EBML header, Segment and Cluster
/// identifiers and the doc type.
pub open spec fn signatures() -> Seq<Seq<u8>> {
    seq![
        seq![0x1au8, 0x45u8, 0xdfu8, 0xa3u8],
        "matroska".spec_bytes(),
        seq![0x18u8, 0x53u8, 0x80u8, 0x67u8],
        seq![0x1fu8, 0x43u8, 0xb6u8, 0x75u8],
    ]
}

/// The probe result for a count of signatures found, a quarter each: a score of one
/// or more identifies the format, a positive one below one is a maybe.
pub open spec fn spec_probe_score(count: nat) -> ProbeResult {
    if count >= 4 {
        ProbeResult::Yup
    } else if count > 0 {
        ProbeResult::Maybe(count as u32)
    } else {
        ProbeResult::Unsure
    }
}

/// The probe result for a count of signatures found.
pub fn probe_score(count: usize) -> (r: ProbeResult)
    ensures
        r == spec_probe_score(count as nat),
{
    if count >= 4 {
        ProbeResult::Yup
    } else if count > 0 {
        ProbeResult::Maybe(count as u32)
    } else {
        ProbeResult::Unsure
    }
}

impl MatroskaDemuxer {
    /// Scores `data` by the Matroska signatures it holds.
    pub fn probe(data: &[u8]) -> (r: ProbeResult)
        ensures
            r == spec_probe_score(pattern_match_count(signatures(), data@)),
    {
        let mut patterns: Vec<Vec<u8>> = Vec::new();
        patterns.push(vec![0x1a, 0x45, 0xdf, 0xa3]);
        patterns.push(copy_bytes("matroska".as_bytes()));
        patterns.push(vec![0x18, 0x53, 0x80, 0x67]);
        patterns.push(vec![0x1f, 0x43, 0xb6, 0x75]);
        proof {
            assert(crate::nal::units_view(patterns@) =~= signatures());
        }
        probe_score(count_pattern_matches(&patterns, data))
    }
}

} // verus!
