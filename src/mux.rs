//! The Matroska muxer: writes the headers for a movie, then one block per packet,
//! into scratch memory, and hands back a span of what to emit.
use crate::ebml::{
    be_bytes, byte_size, children_bytes, element_bytes, id_bytes, length_bytes, vint_bytes,
    vint_size, EbmlElement, EbmlId, EbmlLength, EbmlMasterElement, EbmlValue, value_bytes,
    lemma_be_bytes_len, lemma_byte_size_le, lemma_child_content_le, lemma_children_len_bound,
    is_canonical_id, MAX_CONTENT,
};
use crate::media::{CodecId, Movie, Packet, Track};
use crate::memory::Memory;
use crate::mkv::{
    CLUSTER, CODEC_ID, CODEC_PRIVATE, EBML_DOC_MAX_ID_LENGTH, EBML_DOC_MAX_SIZE_LENGTH,
    EBML_DOC_TYPE, EBML_DOC_TYPE_READ_VERSION, EBML_DOC_TYPE_VERSION, EBML_HEADER,
    EBML_READ_VERSION, EBML_VERSION, FLAG_INTERLACED, INFO, MUXING_APP, PIXEL_HEIGHT,
    PIXEL_WIDTH, SEGMENT, SIMPLE_BLOCK, TIMESTAMP, TRACKS, TRACK_ENTRY, TRACK_NUMBER, TRACK_TYPE,
    TRACK_UID, VIDEO, WRITING_APP,
};
use crate::buffer::SeekFrom;
use crate::span::{copy_bytes, Span};
use vstd::prelude::*;
use vstd::string::StringSliceAdditionalSpecFns;

verus! {

/// What a muxer step returns besides output.
#[derive(Debug)]
pub enum MuxerError {
    /// The scratch memory is this many bytes short; retry with more.
    NeedMore(usize),
    /// Seek the output first (not used by the forward-only Matroska muxer).
    Seek(SeekFrom),
    /// A track whose codec gives no track type.
    UnknownTrackType(u32),
    /// An element too large to describe.
    TooLarge,
}

/// Scratch memory: a pool buffer written front to back; what is written is named by
/// unbound spans until the buffer is bound to them.
pub struct ScratchMemory {
    memory: Memory,
    pos: usize,
}

impl ScratchMemory {
    pub closed spec fn bytes(&self) -> Seq<u8> {
        self.memory@
    }

    pub closed spec fn spec_pos(&self) -> nat {
        self.pos as nat
    }

    pub open spec fn wf(&self) -> bool {
        self.spec_pos() <= self.bytes().len()
    }

    /// Scratch memory over `memory`, written from its start.
    pub fn new(memory: Memory) -> (s: ScratchMemory)
        ensures
            s.wf(),
            s.bytes() == memory@,
            s.spec_pos() == 0,
    {
        ScratchMemory { memory, pos: 0 }
    }

    /// The underlying buffer, to bind the spans to.
    pub fn into_memory(self) -> (m: Memory)
        ensures
            m@ == self.bytes(),
    {
        self.memory
    }

    /// Writes `data` next; `NeedMore` with the shortfall where it does not fit.
    pub fn write(&mut self, data: &[u8]) -> (r: Result<Span, MuxerError>)
        requires
            old(self).wf(),
        ensures
            final(self).wf(),
            final(self).bytes().len() == old(self).bytes().len(),
            final(self).bytes().subrange(0, old(self).spec_pos() as int) == old(self).bytes().subrange(
                0,
                old(self).spec_pos() as int,
            ),
            old(self).spec_pos() + data@.len() > old(self).bytes().len() <==> r is Err,
            r is Err ==> *final(self) == *old(self) && r->Err_0 is NeedMore && r->Err_0->NeedMore_0
                == old(self).spec_pos() + data@.len() - old(self).bytes().len(),
            r matches Ok(span) ==> {
                &&& span.wf()
                &&& span.spec_len() == data@.len()
                &&& span.fits(final(self).spec_pos())
                &&& final(self).spec_pos() == old(self).spec_pos() + data@.len()
                &&& forall|sc: Seq<u8>|
                    sc.subrange(0, final(self).spec_pos() as int) == final(self).bytes().subrange(
                        0,
                        final(self).spec_pos() as int,
                    ) && sc.len() >= final(self).spec_pos() ==> #[trigger] span.bytes_in(sc)
                        == data@
            },
    {
        let len = self.memory.len();
        if data.len() > len - self.pos {
            return Err(MuxerError::NeedMore(data.len() - (len - self.pos)));
        }
        let start = self.pos;
        let end = self.pos + data.len();
        self.memory.write_at(start, data);
        self.pos = end;
        let span = Span::non_realized(start, end);
        proof {
            assert(self.bytes().subrange(0, start as int) =~= old(self).bytes().subrange(0, start as int));
            assert forall|sc: Seq<u8>|
                sc.subrange(0, end as int) == self.bytes().subrange(0, end as int) && sc.len() >= end
                    implies #[trigger] span.bytes_in(sc) == data@ by {
                assert(sc.subrange(start as int, end as int) =~= self.bytes().subrange(0, end as int).subrange(
                    start as int,
                    end as int,
                ));
                assert(self.bytes().subrange(start as int, end as int) =~= data@);
            }
        }
        Ok(span)
    }
}

/// `v` big-endian in the fewest bytes.
pub open spec fn uint_bytes(v: nat) -> Seq<u8> {
    be_bytes(v, byte_size(v))
}

/// The Matroska codec identifier written for a codec.
pub open spec fn codec_name(c: CodecId) -> Seq<u8> {
    match c {
        CodecId::H264 => "V_MPEG4/ISO/AVC".spec_bytes(),
        CodecId::Aac => "A_AAC".spec_bytes(),
        CodecId::WebVtt => "S_TEXT/WEBVTT".spec_bytes(),
        CodecId::Ass => "S_TEXT/ASS".spec_bytes(),
        CodecId::Unknown => "unknown".spec_bytes(),
    }
}

/// The Matroska codec identifier for a codec.
pub fn to_mkv_codec_id(id: CodecId) -> (s: &'static str)
    ensures
        s.spec_bytes() == codec_name(id),
{
    match id {
        CodecId::H264 => "V_MPEG4/ISO/AVC",
        CodecId::Aac => "A_AAC",
        CodecId::WebVtt => "S_TEXT/WEBVTT",
        CodecId::Ass => "S_TEXT/ASS",
        CodecId::Unknown => "unknown",
    }
}

/// The Matroska track type of a codec: video 1, audio 2, subtitle 17.
pub open spec fn track_type_of(c: CodecId) -> Option<u64> {
    if c.spec_is_video() {
        Some(1)
    } else if c.spec_is_audio() {
        Some(2)
    } else if c.spec_is_subtitle() {
        Some(17)
    } else {
        None
    }
}

pub fn get_track_type(codec: CodecId) -> (r: Option<u64>)
    ensures
        r == track_type_of(codec),
{
    if codec.is_video() {
        Some(1)
    } else if codec.is_audio() {
        Some(2)
    } else if codec.is_subtitle() {
        Some(17)
    } else {
        None
    }
}

/// The document type written: `matroska`.
pub open spec fn doc_type_bytes() -> Seq<u8> {
    seq![0x6du8, 0x61u8, 0x74u8, 0x72u8, 0x6fu8, 0x73u8, 0x6bu8, 0x61u8]
}

/// The application name written: `mediabox`.
pub open spec fn app_name_bytes() -> Seq<u8> {
    seq![0x6du8, 0x65u8, 0x64u8, 0x69u8, 0x61u8, 0x62u8, 0x6fu8, 0x78u8]
}

/// The children of the EBML header the muxer writes.
pub open spec fn ebml_header_children() -> Seq<(u64, Seq<u8>)> {
    seq![
        (EBML_VERSION, uint_bytes(1)),
        (EBML_READ_VERSION, uint_bytes(1)),
        (EBML_DOC_MAX_ID_LENGTH, uint_bytes(4)),
        (EBML_DOC_MAX_SIZE_LENGTH, uint_bytes(8)),
        (EBML_DOC_TYPE, doc_type_bytes()),
        (EBML_DOC_TYPE_VERSION, uint_bytes(1)),
        (EBML_DOC_TYPE_READ_VERSION, uint_bytes(1)),
    ]
}

/// The children of the Info element the muxer writes.
pub open spec fn info_children() -> Seq<(u64, Seq<u8>)> {
    seq![(WRITING_APP, app_name_bytes()), (MUXING_APP, app_name_bytes())]
}

/// The children of a track's `TrackEntry`.
pub open spec fn entry_children(t: Track) -> Seq<(u64, Seq<u8>)> {
    let c = t.info.codec_id;
    seq![
        (TRACK_NUMBER, uint_bytes(t.id as nat)),
        (TRACK_UID, uint_bytes(t.id as nat)),
        (TRACK_TYPE, uint_bytes(track_type_of(c)->0 as nat)),
        (CODEC_ID, codec_name(c)),
        (CODEC_PRIVATE, t.info.codec_private@),
    ] + if c.spec_is_video() {
        seq![
            (
                VIDEO,
                children_bytes(
                    seq![
                        (PIXEL_WIDTH, uint_bytes(t.info.width as nat)),
                        (PIXEL_HEIGHT, uint_bytes(t.info.height as nat)),
                        (FLAG_INTERLACED, uint_bytes(2)),
                    ],
                ),
            ),
        ]
    } else {
        Seq::empty()
    }
}

/// The `TrackEntry` elements of tracks, one after another.
pub open spec fn entries_bytes(ts: Seq<Track>) -> Seq<u8>
    decreases ts.len(),
{
    if ts.len() == 0 {
        Seq::empty()
    } else {
        entries_bytes(ts.drop_last()) + element_bytes(
            TRACK_ENTRY,
            children_bytes(entry_children(ts.last())),
        )
    }
}

/// What `start` emits for tracks `ts`: EBML header, Segment header of unknown
/// length, Info, Tracks.
pub open spec fn start_bytes(ts: Seq<Track>) -> Seq<u8> {
    element_bytes(EBML_HEADER, children_bytes(ebml_header_children())) + id_bytes(SEGMENT)
        + length_bytes(EbmlLength::Unknown(8)) + element_bytes(
        INFO,
        children_bytes(info_children()),
    ) + element_bytes(TRACKS, entries_bytes(ts))
}

/// The largest number of blocks in one cluster.
pub const MAX_CLUSTER_BLOCKS: u64 = 30;

/// The Matroska muxer's cluster state.
pub struct MatroskaMuxer {
    pub current_cluster_pts: u64,
    pub current_cluster_len: u64,
}

/// A uint element, checked.
fn uint_elem(id: u64, v: u64) -> (r: Result<EbmlElement, MuxerError>)
    ensures
        (0x80 <= id < 0x100 || 0x4000 <= id < 0x8000 || 0x20_0000 <= id < 0x40_0000 || 0x1000_0000
            <= id < 0x2000_0000) ==> r is Ok,
        r matches Ok(e) ==> e.writable() && e.view_pair() == (id, uint_bytes(v as nat)),
        r is Err ==> r->Err_0 is TooLarge,
{
    proof {
        lemma_be_bytes_len(v as nat, byte_size(v as nat));
    }
    match EbmlElement::checked(id, EbmlValue::UInt(v)) {
        Some(e) => Ok(e),
        None => Err(MuxerError::TooLarge),
    }
}

/// A string or binary element, checked.
fn bytes_elem(id: u64, v: EbmlValue) -> (r: Result<EbmlElement, MuxerError>)
    ensures
        r is Ok <==> crate::ebml::is_canonical_id(id) && value_bytes(v).len() <= MAX_CONTENT,
        r matches Ok(e) ==> e.writable() && e.view_pair() == (id, value_bytes(v)),
        r is Err ==> r->Err_0 is TooLarge,
{
    match EbmlElement::checked(id, v) {
        Some(e) => Ok(e),
        None => Err(MuxerError::TooLarge),
    }
}

/// A master, checked.
fn master(id: u64, children: Vec<EbmlElement>) -> (r: Result<EbmlMasterElement, MuxerError>)
    requires
        forall|i: int| 0 <= i < children@.len() ==> (#[trigger] children@[i]).writable(),
    ensures
        r matches Ok(m) ==> m.writable() && m.0.0 == id && m.children_view() == children@.map_values(
            |e: EbmlElement| e.view_pair(),
        ),
        r is Err ==> r->Err_0 is TooLarge,
        r is Ok <==> is_canonical_id(id) && children_bytes(
            children@.map_values(|e: EbmlElement| e.view_pair()),
        ).len() <= MAX_CONTENT,
{
    match EbmlMasterElement::checked(id, children) {
        Some(m) => Ok(m),
        None => Err(MuxerError::TooLarge),
    }
}


/// A track the muxer can write: its codec has a track type and its entry's content
/// is not over `MAX_CONTENT` bytes.
pub open spec fn entry_writable(t: Track) -> bool {
    track_type_of(t.info.codec_id) is Some && children_bytes(entry_children(t)).len() <= MAX_CONTENT
}

/// Tracks the muxer can write, with room for all their entries in one element.
pub open spec fn tracks_writable(ts: Seq<Track>) -> bool {
    &&& forall|i: int| 0 <= i < ts.len() ==> entry_writable(#[trigger] ts[i])
    &&& entries_bytes(ts).len() <= MAX_CONTENT
}

/// The fixed header children are small: at most 20 bytes each.
proof fn lemma_fixed_children_small(cs: Seq<(u64, Seq<u8>)>)
    requires
        forall|i: int| 0 <= i < cs.len() ==> is_canonical_id(#[trigger] cs[i].0) && cs[i].1.len() <= 8,
        cs.len() <= 7,
    ensures
        children_bytes(cs).len() <= 140,
{
    lemma_children_len_bound(cs, 8);
    assert(cs.len() * (12 + 8nat) <= 140) by (nonlinear_arith)
        requires
            cs.len() <= 7,
    ;
}

/// The `TrackEntry` element of a track.
fn track_entry(track: &Track) -> (r: Result<EbmlElement, MuxerError>)
    ensures
        r is Err ==> track_type_of(track.info.codec_id) is None || r->Err_0 is TooLarge,
        r is Err ==> r->Err_0 is TooLarge || r->Err_0 is UnknownTrackType,
        track_type_of(track.info.codec_id) is None ==> r is Err,
        entry_writable(*track) ==> r is Ok,
        r matches Ok(e) ==> e.writable() && e.view_pair() == (
            TRACK_ENTRY,
            children_bytes(entry_children(*track)),
        ),
{
    let codec_id = track.info.codec_id;
    let ty = match get_track_type(codec_id) {
        Some(t) => t,
        None => {
            return Err(MuxerError::UnknownTrackType(track.id));
        },
    };
    let mut children: Vec<EbmlElement> = Vec::new();
    children.push(uint_elem(TRACK_NUMBER, track.id as u64)?);
    children.push(uint_elem(TRACK_UID, track.id as u64)?);
    children.push(uint_elem(TRACK_TYPE, ty)?);
    proof {
        if entry_writable(*track) {
            lemma_child_content_le(entry_children(*track), 3);
            lemma_child_content_le(entry_children(*track), 4);
            if codec_id.spec_is_video() {
                lemma_child_content_le(entry_children(*track), 5);
            }
        }
    }
    children.push(bytes_elem(CODEC_ID, EbmlValue::String(to_mkv_codec_id(codec_id)))?);
    children.push(
        bytes_elem(CODEC_PRIVATE, EbmlValue::Binary(copy_bytes(track.info.codec_private.as_slice())))?,
    );
    let ghost base = children@;
    if codec_id.is_video() {
        let mut video: Vec<EbmlElement> = Vec::new();
        video.push(uint_elem(PIXEL_WIDTH, track.info.width as u64)?);
        video.push(uint_elem(PIXEL_HEIGHT, track.info.height as u64)?);
        video.push(uint_elem(FLAG_INTERLACED, 2)?);
        proof {
            assert(video@.map_values(|e: EbmlElement| e.view_pair()) =~= seq![
                (PIXEL_WIDTH, uint_bytes(track.info.width as nat)),
                (PIXEL_HEIGHT, uint_bytes(track.info.height as nat)),
                (FLAG_INTERLACED, uint_bytes(2)),
            ]);
        }
        let vm = master(VIDEO, video)?;
        children.push(vm.to_element());
    }
    let ghost cv = children@;
    proof {
        assert(cv.map_values(|e: EbmlElement| e.view_pair()) =~= entry_children(*track));
        assert forall|i: int| 0 <= i < cv.len() implies (#[trigger] cv[i]).writable() by {}
    }
    let m = master(TRACK_ENTRY, children)?;
    Ok(m.to_element())
}

/// Appends an element with identifier `id` around `content`.
fn write_element(buf: &mut Vec<u8>, id: u64, content: &[u8]) -> (r: Result<(), MuxerError>)
    requires
        crate::ebml::is_canonical_id(id),
    ensures
        r is Ok <==> content@.len() <= MAX_CONTENT,
        r is Ok ==> final(buf)@ == old(buf)@ + element_bytes(id, content@),
        r is Err ==> final(buf)@ == old(buf)@,
        r is Err ==> r->Err_0 is TooLarge,
{
    if content.len() as u64 > MAX_CONTENT {
        return Err(MuxerError::TooLarge);
    }
    let ghost start = buf@;
    crate::ebml::write_vid(buf, id);
    let l = EbmlLength::Known(content.len() as u64);
    l.write(buf);
    crate::ebml::append_bytes(buf, content);
    proof {
        assert(buf@ =~= start + element_bytes(id, content@));
    }
    Ok(())
}

/// The `Tracks` element of a movie.
pub fn get_tracks(movie: &Movie) -> (r: Result<Vec<u8>, MuxerError>)
    ensures
        r matches Ok(v) ==> v@ == element_bytes(TRACKS, entries_bytes(movie.tracks@)),
        tracks_writable(movie.tracks@) ==> r is Ok,
        r is Err ==> r->Err_0 is TooLarge || r->Err_0 is UnknownTrackType,
        (exists|i: int|
            0 <= i < movie.tracks@.len() && track_type_of(
                (#[trigger] movie.tracks@[i]).info.codec_id,
            ) is None) ==> r is Err,
{
    let mut content: Vec<u8> = Vec::new();
    let mut i: usize = 0;
    while i < movie.tracks.len()
        invariant
            i <= movie.tracks@.len(),
            content@ == entries_bytes(movie.tracks@.take(i as int)),
            forall|k: int| 0 <= k < i ==> track_type_of(#[trigger] movie.tracks@[k].info.codec_id) is Some,
        decreases movie.tracks@.len() - i,
    {
        proof {
            if tracks_writable(movie.tracks@) {
                assert(entry_writable(movie.tracks@[i as int]));
            }
        }
        let e = track_entry(&movie.tracks[i])?;
        let ghost before = content@;
        e.write(&mut content);
        proof {
            assert(movie.tracks@.take(i as int + 1).drop_last() =~= movie.tracks@.take(i as int));
            assert(movie.tracks@.take(i as int + 1).last() == movie.tracks@[i as int]);
        }
        i = i + 1;
    }
    proof {
        assert(movie.tracks@.take(i as int) =~= movie.tracks@);
    }
    let mut out: Vec<u8> = Vec::new();
    write_element(&mut out, TRACKS, content.as_slice())?;
    proof {
        assert(out@ =~= element_bytes(TRACKS, entries_bytes(movie.tracks@)));
    }
    Ok(out)
}

/// The bytes before the tracks: EBML header, Segment header of unknown length, Info.
pub open spec fn prefix_bytes() -> Seq<u8> {
    element_bytes(EBML_HEADER, children_bytes(ebml_header_children())) + id_bytes(SEGMENT)
        + length_bytes(EbmlLength::Unknown(8)) + element_bytes(INFO, children_bytes(info_children()))
}

/// Writes the bytes before the tracks; never fails.
fn start_prefix() -> (r: Result<Vec<u8>, MuxerError>)
    ensures
        r matches Ok(v) && v@ == prefix_bytes(),
{
        let mut header: Vec<EbmlElement> = Vec::new();
        header.push(uint_elem(EBML_VERSION, 1)?);
        header.push(uint_elem(EBML_READ_VERSION, 1)?);
        header.push(uint_elem(EBML_DOC_MAX_ID_LENGTH, 4)?);
        header.push(uint_elem(EBML_DOC_MAX_SIZE_LENGTH, 8)?);
        let doc_type: Vec<u8> = vec![0x6d, 0x61, 0x74, 0x72, 0x6f, 0x73, 0x6b, 0x61];
        proof {
            assert(doc_type@ =~= doc_type_bytes());
        }
        header.push(bytes_elem(EBML_DOC_TYPE, EbmlValue::Binary(doc_type))?);
        header.push(uint_elem(EBML_DOC_TYPE_VERSION, 1)?);
        header.push(uint_elem(EBML_DOC_TYPE_READ_VERSION, 1)?);
        proof {
            assert(header@.map_values(|e: EbmlElement| e.view_pair()) =~= ebml_header_children());
            lemma_byte_size_le(1);
            lemma_byte_size_le(4);
            lemma_byte_size_le(8);
            let cs = ebml_header_children();
            assert forall|i: int| 0 <= i < cs.len() implies is_canonical_id(#[trigger] cs[i].0)
                && cs[i].1.len() <= 8 by {}
            lemma_fixed_children_small(ebml_header_children());
        }
        let ghost hv = header@;
        let ebml_header = master(EBML_HEADER, header)?;
        let writing: Vec<u8> = vec![0x6d, 0x65, 0x64, 0x69, 0x61, 0x62, 0x6f, 0x78];
        let muxing: Vec<u8> = vec![0x6d, 0x65, 0x64, 0x69, 0x61, 0x62, 0x6f, 0x78];
        proof {
            assert(writing@ =~= app_name_bytes());
            assert(muxing@ =~= app_name_bytes());
        }
        let mut info_children_v: Vec<EbmlElement> = Vec::new();
        info_children_v.push(bytes_elem(WRITING_APP, EbmlValue::Binary(writing))?);
        info_children_v.push(bytes_elem(MUXING_APP, EbmlValue::Binary(muxing))?);
        proof {
            assert(info_children_v@.map_values(|e: EbmlElement| e.view_pair()) =~= info_children());
            lemma_fixed_children_small(info_children());
        }
        let ghost iv = info_children_v@;
        let info = master(INFO, info_children_v)?;
        let mut out: Vec<u8> = Vec::new();
        ebml_header.write(&mut out);
        crate::ebml::write_vid(&mut out, SEGMENT);
        EbmlLength::Unknown(8).write(&mut out);
        info.write(&mut out);
        proof {
            assert(hv.map_values(|e: EbmlElement| e.view_pair()) =~= ebml_header_children());
            assert(iv.map_values(|e: EbmlElement| e.view_pair()) =~= info_children());
            assert(out@ =~= prefix_bytes());
        }
        Ok(out)
}

impl MatroskaMuxer {
    /// A muxer with no cluster open.
    pub fn new() -> (m: MatroskaMuxer)
        ensures
            m.current_cluster_len == 0,
            m.current_cluster_pts == 0,
    {
        MatroskaMuxer { current_cluster_pts: 0, current_cluster_len: 0 }
    }

    /// Writes the headers for `movie`: EBML header, Segment of unknown length, Info and
    /// Tracks; the span names the bytes written into `scratch`.
    pub fn start(&mut self, scratch: &mut ScratchMemory, movie: &Movie) -> (r: Result<Span, MuxerError>)
        requires
            old(scratch).wf(),
        ensures
            final(scratch).wf(),
            *final(self) == *old(self),
            (exists|i: int|
                0 <= i < movie.tracks@.len() && track_type_of(
                    (#[trigger] movie.tracks@[i]).info.codec_id,
                ) is None) ==> r is Err,
            r matches Ok(span) ==> {
                &&& span.wf()
                &&& span.fits(final(scratch).spec_pos())
                &&& span.bytes_in(final(scratch).bytes()) == start_bytes(movie.tracks@)
            },
            tracks_writable(movie.tracks@) ==> (r is Ok <==> old(scratch).spec_pos() + start_bytes(
                movie.tracks@,
            ).len() <= old(scratch).bytes().len()),
            r is Err && r->Err_0 is NeedMore ==> r->Err_0->NeedMore_0 == old(scratch).spec_pos()
                + start_bytes(movie.tracks@).len() - old(scratch).bytes().len(),
            r is Err && !(r->Err_0 is NeedMore) ==> !tracks_writable(movie.tracks@),
    {
        let mut out = start_prefix()?;
        let tracks = get_tracks(movie)?;
        crate::ebml::append_bytes(&mut out, tracks.as_slice());
        proof {
            assert(out@ =~= start_bytes(movie.tracks@));
        }
        let span = scratch.write(out.as_slice())?;
        proof {
            assert(final(scratch).bytes().subrange(0, final(scratch).spec_pos() as int) == final(scratch).bytes().subrange(0, final(scratch).spec_pos() as int));
        }
        Ok(span)
    }
}


/// Whether a block at `pts` can sit in a cluster at `cluster_pts`: the offset fits
/// a signed 16-bit field.
pub open spec fn block_ts_fits(pts: u64, cluster_pts: u64) -> bool {
    -0x8000 <= pts - cluster_pts <= 0x7fff
}

/// Whether writing a packet at `pts` opens a new cluster.
pub open spec fn opens_cluster(m: MatroskaMuxer, pts: u64) -> bool {
    m.current_cluster_len == 0 || !block_ts_fits(pts, m.current_cluster_pts)
}

/// A cluster header: identifier, unknown length of one byte, timestamp.
pub open spec fn cluster_header_bytes(pts: u64) -> Seq<u8> {
    id_bytes(CLUSTER) + length_bytes(EbmlLength::Unknown(1)) + element_bytes(
        TIMESTAMP,
        uint_bytes(pts as nat),
    )
}

/// A signed 16-bit value, big-endian.
pub open spec fn i16_bytes(d: int) -> Seq<u8> {
    be_bytes(
        (if d < 0 {
            d + 0x10000
        } else {
            d
        }) as nat,
        2,
    )
}

/// A SimpleBlock's header: element header, track number, timestamp offset, flags.
pub open spec fn block_header_bytes(track: nat, d: int, key: bool, body_len: nat) -> Seq<u8> {
    id_bytes(SIMPLE_BLOCK) + length_bytes(
        EbmlLength::Known((vint_size(track) + 3 + body_len) as u64),
    ) + vint_bytes(track, vint_size(track)) + i16_bytes(d) + seq![
        if key {
            0x80u8
        } else {
            0u8
        },
    ]
}

/// What `write` puts in scratch memory for a packet: a cluster header where one
/// opens, then the SimpleBlock header.
pub open spec fn write_header_bytes(m: MatroskaMuxer, p: Packet) -> Seq<u8> {
    let pts = p.time.pts;
    (if opens_cluster(m, pts) {
        cluster_header_bytes(pts)
    } else {
        Seq::empty()
    }) + block_header_bytes(
        p.track.id as nat,
        pts - after_write(m, pts).current_cluster_pts,
        p.key,
        p.buffer.spec_len(),
    )
}

/// The muxer state after writing a packet at `pts`.
pub open spec fn after_write(m: MatroskaMuxer, pts: u64) -> MatroskaMuxer {
    let opens = opens_cluster(m, pts);
    let len = (if opens {
        0
    } else {
        m.current_cluster_len
    }) + 1;
    MatroskaMuxer {
        current_cluster_pts: if opens {
            pts
        } else {
            m.current_cluster_pts
        },
        current_cluster_len: if len > MAX_CLUSTER_BLOCKS {
            0
        } else {
            len as u64
        },
    }
}

impl MatroskaMuxer {
    /// Writes a packet as a SimpleBlock, opening a cluster first when none is open
    /// or the block's offset would not fit; the span is the block header in scratch
    /// memory followed by the packet's bytes.
    pub fn write(&mut self, scratch: &mut ScratchMemory, packet: &Packet) -> (r: Result<Span, MuxerError>)
        requires
            old(scratch).wf(),
            packet.buffer.wf(),
            packet.buffer.is_realized(),
            old(self).current_cluster_len <= MAX_CLUSTER_BLOCKS,
        ensures
            final(scratch).wf(),
            r is Ok ==> *final(self) == after_write(*old(self), packet.time.pts),
            r is Err ==> *final(self) == *old(self),
            r is Err ==> r->Err_0 is NeedMore || r->Err_0 is TooLarge,
            packet.buffer.spec_len() + 8 <= MAX_CONTENT && write_header_bytes(*old(self), *packet).len()
                + packet.buffer.spec_len() <= usize::MAX ==> (r is Ok <==> old(scratch).spec_pos()
                + write_header_bytes(*old(self), *packet).len() <= old(scratch).bytes().len()),
            r is Err && r->Err_0 is NeedMore ==> r->Err_0->NeedMore_0 == old(scratch).spec_pos()
                + write_header_bytes(*old(self), *packet).len() - old(scratch).bytes().len(),
            final(self).current_cluster_len <= MAX_CLUSTER_BLOCKS,
            r matches Ok(span) ==> {
                let m = after_write(*old(self), packet.time.pts);
                &&& span.wf()
                &&& span.fits(final(scratch).spec_pos())
                &&& span.bytes_in(final(scratch).bytes()) == (if opens_cluster(
                    *old(self),
                    packet.time.pts,
                ) {
                    cluster_header_bytes(packet.time.pts)
                } else {
                    Seq::empty()
                }) + block_header_bytes(
                    packet.track.id as nat,
                    packet.time.pts - m.current_cluster_pts,
                    packet.key,
                    packet.buffer.spec_len(),
                ) + packet.buffer.bytes_in(Seq::empty())
            },
    {
        let pts = packet.time.pts;
        let d: i128 = pts as i128 - self.current_cluster_pts as i128;
        let opens = self.current_cluster_len == 0 || d < -0x8000 || d > 0x7fff;
        let cluster_pts = if opens {
            pts
        } else {
            self.current_cluster_pts
        };
        let delta: i128 = pts as i128 - cluster_pts as i128;
        let body = packet.buffer.copy();
        let body_len = body.len();
        if body_len as u64 > MAX_CONTENT - 8 {
            return Err(MuxerError::TooLarge);
        }
        let mut out: Vec<u8> = Vec::new();
        if opens {
            crate::ebml::write_vid(&mut out, CLUSTER);
            EbmlLength::Unknown(1).write(&mut out);
            let ts = uint_elem(TIMESTAMP, pts)?;
            ts.write(&mut out);
        }
        let ghost after_cluster = out@;
        let track = packet.track.id as u64;
        let tsize = crate::ebml::vint_bytes_required(track);
        crate::ebml::write_vid(&mut out, SIMPLE_BLOCK);
        EbmlLength::Known(tsize + 3 + body_len as u64).write(&mut out);
        crate::ebml::write_vint(&mut out, track);
        let field: u64 = if delta < 0 {
            (delta + 0x10000) as u64
        } else {
            delta as u64
        };
        crate::ebml::write_be_pub(&mut out, field, 2);
        out.push(if packet.key {
            0x80u8
        } else {
            0u8
        });
        let ghost header = out@;
        proof {
            assert(header =~= write_header_bytes(*old(self), *packet));
        }
        if out.len() > usize::MAX - body_len {
            return Err(MuxerError::TooLarge);
        }
        let mut span = scratch.write(out.as_slice())?;
        let ghost sc = scratch.bytes();
        proof {
            assert(span.bytes_in(sc) == header);
            assert forall|n: nat| true implies #[trigger] body.fits(n) by {
                assert forall|i: int| 0 <= i < body.parts().len() implies crate::span::nr_end(
                    #[trigger] body.parts()[i],
                ) <= n by {
                    assert(!(body.parts()[i] is NonRealizedMemory));
                }
            }
            assert forall|n: nat| true implies #[trigger] packet.buffer.fits(n) by {
                assert forall|i: int| 0 <= i < packet.buffer.parts().len() implies crate::span::nr_end(
                    #[trigger] packet.buffer.parts()[i],
                ) <= n by {
                    assert(!(packet.buffer.parts()[i] is NonRealizedMemory));
                }
            }
            crate::span::lemma_parts_bytes_len(body.parts(), Seq::empty());
        }
        span.append(body);
        proof {
            crate::span::lemma_realized_bytes(packet.buffer.parts(), sc, Seq::empty());
            assert(header =~= (if opens {
                cluster_header_bytes(pts)
            } else {
                Seq::empty()
            }) + block_header_bytes(track as nat, pts - cluster_pts, packet.key, body_len as nat));
        }
        let len = (if opens {
            0
        } else {
            self.current_cluster_len
        }) + 1;
        self.current_cluster_pts = cluster_pts;
        self.current_cluster_len = if len > MAX_CLUSTER_BLOCKS {
            0
        } else {
            len
        };
        Ok(span)
    }

    /// Ends the stream: no Cues are tracked, so nothing is written.
    pub fn stop(&mut self) -> (r: Result<Span, MuxerError>)
        ensures
            r matches Ok(s) && s.wf() && s.parts().len() == 0,
            *final(self) == *old(self),
    {
        Ok(Span::new())
    }
}

} // verus!
