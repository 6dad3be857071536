use mediabox::pipeline::{after_fill, demux_action, mux_next, DemuxAction, MuxAction, MAX_FILL_REQUEST};
use mediabox::buffer::SeekFrom;
use mediabox::demux::{convert_codec_id, DemuxerError, MatroskaDemuxer, ProbeResult};
use mediabox::media::{CodecId, Fraction, MediaInfo, MediaTime, Movie, Packet, SoundType, Track};
use mediabox::memory::{MemoryPool, MemoryPoolConfig};
use mediabox::mkv::{read_float_hz, read_int, MkvError};
use mediabox::mux::{MatroskaMuxer, MuxerError, ScratchMemory};
use mediabox::span::Span;
use std::sync::Arc;

fn el(id: &[u8], content: &[u8]) -> Vec<u8> {
    assert!(content.len() < 0x7f);
    let mut v = id.to_vec();
    v.push(0x80 | content.len() as u8);
    v.extend_from_slice(content);
    v
}

fn synthetic_file(with_cues: bool) -> Vec<u8> {
    let mut f = el(&[0x1A, 0x45, 0xDF, 0xA3], &el(&[0x42, 0x82], b"matroska"));
    f.extend_from_slice(&[0x18, 0x53, 0x80, 0x67, 0x01, 0xFF, 0xFF, 0xFF, 0xFF, 0xFF, 0xFF, 0xFF]);
    f.extend(el(&[0x15, 0x49, 0xA9, 0x66], &el(&[0x2A, 0xD7, 0xB1], &[0x0F, 0x42, 0x40])));
    let mut video = el(&[0xB0], &[0x10]);
    video.extend(el(&[0xBA], &[0x09]));
    let mut entry = el(&[0xD7], &[1]);
    entry.extend(el(&[0x83], &[1]));
    entry.extend(el(&[0x86], b"V_MPEG4/ISO/AVC"));
    entry.extend(el(&[0x63, 0xA2], &[1, 2, 3]));
    entry.extend(el(&[0xE0], &video));
    f.extend(el(&[0x16, 0x54, 0xAE, 0x6B], &el(&[0xAE], &entry)));
    f.extend_from_slice(&[0x1F, 0x43, 0xB6, 0x75, 0xFF]);
    f.extend(el(&[0xE7], &[0x00]));
    f.extend(el(&[0xA3], &[0x81, 0x00, 0x00, 0x80, 0xDE, 0xAD, 0xBE, 0xEF]));
    if with_cues {
        f.extend(el(&[0x1C, 0x53, 0xBB, 0x6B], &[]));
    }
    f
}

#[test]
fn demux_synthetic_file() {
    let file = synthetic_file(false);
    let mut demuxer = MatroskaDemuxer::new();
    let (used, movie) = demuxer.read_headers(&file);
    let movie = movie.unwrap();
    assert_eq!(movie.tracks.len(), 1);
    let track = &movie.tracks[0];
    assert_eq!(track.id, 1);
    assert_eq!(track.info.codec_id, CodecId::H264);
    assert_eq!((track.info.width, track.info.height), (16, 9));
    assert_eq!(track.info.codec_private, vec![1, 2, 3]);
    assert_eq!(track.timebase, Fraction::new(1, 1000));

    let (used2, packet) = demuxer.read_packet(&file[used..]);
    let packet = packet.unwrap();
    assert_eq!(packet.time.pts, 0);
    assert!(packet.key);
    assert_eq!(packet.track.id, 1);
    assert_eq!(packet.buffer.to_bytes(), vec![0xDE, 0xAD, 0xBE, 0xEF]);
    assert_eq!(used + used2, file.len());

    let (_, next) = demuxer.read_packet(&file[used + used2..]);
    assert!(matches!(next, Err(DemuxerError::NeedMore(_))));
}

#[test]
fn demux_ends_at_cues() {
    let file = synthetic_file(true);
    let mut demuxer = MatroskaDemuxer::new();
    let (used, movie) = demuxer.read_headers(&file);
    assert!(movie.is_ok());
    let (used2, packet) = demuxer.read_packet(&file[used..]);
    assert!(packet.is_ok());
    let (_, next) = demuxer.read_packet(&file[used + used2..]);
    assert!(matches!(next, Err(DemuxerError::EndOfStream)));
}

#[test]
fn demux_needs_more_and_seeks() {
    let file = synthetic_file(false);
    let mut demuxer = MatroskaDemuxer::new();
    assert!(matches!(demuxer.read_headers_internal(&file[..3]), Err(DemuxerError::NeedMore(1))));
    assert!(matches!(demuxer.read_headers_internal(&file[..10]), Err(DemuxerError::NeedMore(6))));
    let used = demuxer.read_headers_internal(&file).unwrap();
    assert_eq!(used, 16);
    // an unknown element before the Segment is skipped by a seek past it
    let void = el(&[0xEC], &[0, 0, 0]);
    assert!(matches!(
        demuxer.read_headers_internal(&void),
        Err(DemuxerError::Seek(SeekFrom::Current(5)))
    ));
}

#[test]
fn demux_rejects_other_header() {
    let mut demuxer = MatroskaDemuxer::new();
    let r = demuxer.read_headers_internal(&el(&[0x18, 0x53, 0x80, 0x67], &[]));
    assert!(matches!(
        r,
        Err(DemuxerError::Misc(MkvError::UnexpectedElement(0x1a45dfa3, 0x18538067)))
    ));
}

#[test]
fn codec_ids_map() {
    assert_eq!(convert_codec_id(b"V_MPEG4/ISO/AVC"), CodecId::H264);
    assert_eq!(convert_codec_id(b"A_AAC"), CodecId::Aac);
    assert_eq!(convert_codec_id(b"S_TEXT/WEBVTT"), CodecId::WebVtt);
    assert_eq!(convert_codec_id(b"S_TEXT/ASS"), CodecId::Ass);
    assert_eq!(convert_codec_id(b"V_VP9"), CodecId::Unknown);
}

#[test]
fn probe_scores() {
    let file = synthetic_file(false);
    assert_eq!(MatroskaDemuxer::probe(&file), ProbeResult::Yup);
    assert_eq!(MatroskaDemuxer::probe(b"xxmatroskaxx"), ProbeResult::Maybe(1));
    assert_eq!(MatroskaDemuxer::probe(b"nothing here"), ProbeResult::Unsure);
}

fn sample_movie() -> Movie {
    let info = MediaInfo {
        codec_id: CodecId::H264,
        codec_private: vec![1, 2, 3],
        width: 16,
        height: 9,
        sample_freq: 0,
        channels: 0,
        sound_type: SoundType::Unknown,
    };
    let track = Track { id: 1, info: Arc::new(info), timebase: Fraction::new(1, 1000) };
    Movie { tracks: vec![track], attachments: vec![] }
}

fn emit(pool: &mut MemoryPool, mut step: impl FnMut(&mut ScratchMemory) -> Result<Span, MuxerError>) -> Vec<u8> {
    let mem = pool.try_alloc(4096).unwrap();
    let mut scratch = ScratchMemory::new(mem);
    let mut span = step(&mut scratch).unwrap();
    span.realize_with_memory(scratch.into_memory());
    span.to_bytes()
}

#[test]
fn mux_then_demux_round_trip() {
    let movie = sample_movie();
    let packet = Packet {
        time: MediaTime { pts: 0, dts: None, duration: None, timebase: Fraction::new(1, 1000) },
        key: true,
        track: movie.tracks[0].clone(),
        buffer: Span::from_vec(vec![0xDE, 0xAD, 0xBE, 0xEF]),
    };
    let mut pool = MemoryPool::new(MemoryPoolConfig { max_capacity: None, default_memory_capacity: 4096 });
    let mut muxer = MatroskaMuxer::new();
    let mut out = emit(&mut pool, |s| muxer.start(s, &movie));
    assert_eq!(&out[..4], &[0x1A, 0x45, 0xDF, 0xA3]);
    let mut muxer2 = MatroskaMuxer::new();
    let block = emit(&mut pool, |s| muxer2.write(s, &packet));
    out.extend(block);

    let mut demuxer = MatroskaDemuxer::new();
    let (used, back) = demuxer.read_headers(&out);
    let back = back.unwrap();
    assert_eq!(back.tracks.len(), 1);
    assert_eq!(back.tracks[0].id, 1);
    assert_eq!(back.tracks[0].info.codec_id, CodecId::H264);
    assert_eq!((back.tracks[0].info.width, back.tracks[0].info.height), (16, 9));
    assert_eq!(back.tracks[0].info.codec_private, vec![1, 2, 3]);
    let (_, p) = demuxer.read_packet(&out[used..]);
    let p = p.unwrap();
    assert_eq!(p.time.pts, 0);
    assert!(p.key);
    assert_eq!(p.buffer.to_bytes(), vec![0xDE, 0xAD, 0xBE, 0xEF]);
}

#[test]
fn muxer_cluster_policy() {
    let movie = sample_movie();
    let mut pool = MemoryPool::new(MemoryPoolConfig { max_capacity: None, default_memory_capacity: 256 });
    let mut muxer = MatroskaMuxer::new();
    let mk = |pts: u64| Packet {
        time: MediaTime { pts, dts: None, duration: None, timebase: Fraction::new(1, 1000) },
        key: false,
        track: movie.tracks[0].clone(),
        buffer: Span::from_vec(vec![7]),
    };
    let first = {
        let mem = pool.try_alloc(256).unwrap();
        let mut scratch = ScratchMemory::new(mem);
        let mut span = muxer.write(&mut scratch, &mk(100)).unwrap();
        span.realize_with_memory(scratch.into_memory());
        span.to_bytes()
    };
    // cluster header, timestamp 100, then the block at offset 0
    assert_eq!(
        first,
        vec![0x1F, 0x43, 0xB6, 0x75, 0xFF, 0xE7, 0x81, 100, 0xA3, 0x85, 0x81, 0, 0, 0, 7]
    );
    let second = {
        let mem = pool.try_alloc(256).unwrap();
        let mut scratch = ScratchMemory::new(mem);
        let mut span = muxer.write(&mut scratch, &mk(90)).unwrap();
        span.realize_with_memory(scratch.into_memory());
        span.to_bytes()
    };
    assert_eq!(second, vec![0xA3, 0x85, 0x81, 0xFF, 0xF6, 0, 7]);
    assert_eq!(muxer.current_cluster_len, 2);
    // an offset beyond 16 bits opens a new cluster
    let third = {
        let mem = pool.try_alloc(256).unwrap();
        let mut scratch = ScratchMemory::new(mem);
        let mut span = muxer.write(&mut scratch, &mk(100 + 40000)).unwrap();
        span.realize_with_memory(scratch.into_memory());
        span.to_bytes()
    };
    assert_eq!(&third[..4], &[0x1F, 0x43, 0xB6, 0x75]);
    assert_eq!(muxer.current_cluster_pts, 40100);
}

#[test]
fn muxer_needs_more_scratch() {
    let movie = sample_movie();
    let mut pool = MemoryPool::new(MemoryPoolConfig { max_capacity: None, default_memory_capacity: 8 });
    let mem = pool.try_alloc(8).unwrap();
    let mut scratch = ScratchMemory::new(mem);
    let mut muxer = MatroskaMuxer::new();
    assert!(matches!(muxer.start(&mut scratch, &movie), Err(MuxerError::NeedMore(_))));
}

#[test]
fn muxer_rejects_unknown_codec() {
    let mut movie = sample_movie();
    let mut info = (*movie.tracks[0].info).clone();
    info.codec_id = CodecId::Unknown;
    movie.tracks[0].info = Arc::new(info);
    let mut pool = MemoryPool::new(MemoryPoolConfig { max_capacity: None, default_memory_capacity: 4096 });
    let mem = pool.try_alloc(4096).unwrap();
    let mut scratch = ScratchMemory::new(mem);
    let mut muxer = MatroskaMuxer::new();
    assert!(matches!(muxer.start(&mut scratch, &movie), Err(MuxerError::UnknownTrackType(1))));
    assert!(muxer.stop().unwrap().is_empty());
}

#[test]
fn float_sampling_frequency() {
    assert_eq!(read_float_hz(&[0x40, 0xE7, 0x70, 0, 0, 0, 0, 0], 0xb5), Ok(48000));
    assert_eq!(read_float_hz(&[0x47, 0x2C, 0x44, 0x00], 0xb5), Ok(44100));
    assert_eq!(read_float_hz(&[0x3F, 0x80, 0x00, 0x00], 0xb5), Ok(1));
    assert_eq!(read_float_hz(&[0xBF, 0x80, 0x00, 0x00], 0xb5), Ok(0));
    assert_eq!(read_float_hz(&[0x7F, 0x80, 0x00, 0x00], 0xb5), Ok(u32::MAX));
    assert_eq!(read_float_hz(&[], 0xb5), Ok(0));
    assert_eq!(read_float_hz(&[1, 2, 3], 0xb5), Err(MkvError::InvalidFloatSize(3)));
}

#[test]
fn demux_audio_track() {
    let mut audio = el(&[0xB5], &[0x40, 0xE7, 0x70, 0, 0, 0, 0, 0]);
    audio.extend(el(&[0x9F], &[2]));
    let mut entry = el(&[0xD7], &[2]);
    entry.extend(el(&[0x83], &[2]));
    entry.extend(el(&[0x86], b"A_AAC"));
    entry.extend(el(&[0xE1], &audio));
    let tracks = el(&[0x16, 0x54, 0xAE, 0x6B], &el(&[0xAE], &entry));
    let content = &tracks[5..];
    let mut list = Vec::new();
    mediabox::demux::parse_tracks(content, Fraction::new(1, 1000), &mut list).unwrap();
    assert_eq!(list.len(), 1);
    assert_eq!(list[0].id, 2);
    assert_eq!(list[0].info.codec_id, CodecId::Aac);
    assert_eq!(list[0].info.sample_freq, 48000);
    assert_eq!(list[0].info.sound_type, SoundType::Stereo);
}

#[test]
fn signed_integer_elements() {
    assert_eq!(read_int(&[0xFE], 0x53ac), Ok(-2));
    assert_eq!(read_int(&[0x7F], 0x53ac), Ok(127));
    assert_eq!(read_int(&[0xFF, 0x00], 0x53ac), Ok(-256));
    assert_eq!(read_int(&[0x80, 0, 0, 0, 0, 0, 0, 0], 0x53ac), Ok(i64::MIN));
    assert_eq!(read_int(&[], 0x53ac), Ok(0));
    assert_eq!(read_int(&[0; 9], 0x53ac), Err(MkvError::UnsupportedVint(0x53ac)));
}

#[test]
fn ebml_header_fields_are_read() {
    let movie = sample_movie();
    let mut pool = MemoryPool::new(MemoryPoolConfig { max_capacity: None, default_memory_capacity: 4096 });
    let mut muxer = MatroskaMuxer::new();
    let out = emit(&mut pool, |s| muxer.start(s, &movie));
    let mut demuxer = MatroskaDemuxer::new();
    demuxer.read_headers_internal(&out).unwrap();
    let header = demuxer.header.as_ref().unwrap();
    assert_eq!(header.doc_type.as_deref(), Some(&b"matroska"[..]));
    assert_eq!(header.version, Some(1));
    assert_eq!(header.read_version, Some(1));
    assert_eq!(header.max_id_length, Some(4));
    assert_eq!(header.max_size_length, Some(8));
    assert_eq!(header.doc_type_version, Some(1));
    assert_eq!(header.doc_type_read_version, Some(1));
}

#[test]
fn tracks_with_incomplete_entry_fail() {
    // a video entry without its Video master is a missing required element
    let mut entry = el(&[0xD7], &[1]);
    entry.extend(el(&[0x83], &[1]));
    entry.extend(el(&[0x86], b"V_MPEG4/ISO/AVC"));
    let tracks = el(&[0x16, 0x54, 0xAE, 0x6B], &el(&[0xAE], &entry));
    let mut list = Vec::new();
    let r = mediabox::demux::parse_tracks(&tracks[5..], Fraction::new(1, 1000), &mut list);
    assert_eq!(r, Err(MkvError::MissingElement(0xe0)));
    assert!(list.is_empty());
}

#[test]
fn pipeline_decisions() {
    assert_eq!(demux_action(DemuxerError::NeedMore(10), true), DemuxAction::Fill(10));
    assert_eq!(demux_action(DemuxerError::NeedMore(usize::MAX), false), DemuxAction::Fill(MAX_FILL_REQUEST));
    assert_eq!(demux_action(DemuxerError::Seek(SeekFrom::Current(7)), true), DemuxAction::Seek(SeekFrom::Current(7)));
    assert_eq!(demux_action(DemuxerError::EndOfStream, true), DemuxAction::Finish);
    assert_eq!(demux_action(DemuxerError::EndOfStream, false), DemuxAction::Fail(MkvError::UnexpectedEnd));
    assert_eq!(
        demux_action(DemuxerError::Misc(MkvError::TruncatedBlock), true),
        DemuxAction::Fail(MkvError::TruncatedBlock)
    );
    assert_eq!(after_fill(false, false), Ok(true));
    assert_eq!(after_fill(true, true), Ok(false));
    assert_eq!(after_fill(true, false), Err(MkvError::UnexpectedEnd));
    assert_eq!(mux_next(&Err(MuxerError::NeedMore(100)), 4096), MuxAction::Retry(4196));
    assert_eq!(mux_next(&Err(MuxerError::NeedMore(usize::MAX)), 4096), MuxAction::Retry(usize::MAX));
    assert_eq!(mux_next(&Ok(Span::new()), 4096), MuxAction::Emit);
    assert_eq!(mux_next(&Err(MuxerError::TooLarge), 4096), MuxAction::Fail);
}
