use mediabox::nal::{
    convert_bitstream, frame_nal_units, is_video_nal_unit, nut_header, parse_bitstream, BitstreamFraming,
};

const FS: [u8; 4] = [0, 0, 0, 1];

fn len(l: u32) -> [u8; 4] {
    l.to_be_bytes()
}

fn units(list: &[&[u8]]) -> Vec<Vec<u8>> {
    list.iter().map(|u| u.to_vec()).collect()
}

fn cat(parts: &[&[u8]]) -> Vec<u8> {
    parts.iter().flat_map(|p| p.iter().cloned()).collect()
}

#[test]
fn frame_nal_units_start_code() {
    assert_eq!(frame_nal_units(&units(&[b"a"]), BitstreamFraming::FourByteStartCode), cat(&[&FS, b"a"]));
    assert_eq!(
        frame_nal_units(&units(&[b"a", b"b"]), BitstreamFraming::FourByteStartCode),
        vec![0, 0, 0, 1, 0x61, 0, 0, 0, 1, 0x62]
    );
}

#[test]
fn frame_nal_units_length() {
    assert_eq!(frame_nal_units(&units(&[b"a"]), BitstreamFraming::FourByteLength), cat(&[&len(1), b"a"]));
    assert_eq!(frame_nal_units(&units(&[b"abc"]), BitstreamFraming::FourByteLength), cat(&[&len(3), b"abc"]));
    assert_eq!(
        frame_nal_units(&units(&[b"a", b"b"]), BitstreamFraming::FourByteLength),
        vec![0, 0, 0, 1, 0x61, 0, 0, 0, 1, 0x62]
    );
    assert_eq!(
        frame_nal_units(&units(&[b"ab"]), BitstreamFraming::TwoByteLength),
        vec![0, 2, 0x61, 0x62]
    );
}

#[test]
fn convert_bitstream_start_code_to_length() {
    let input = cat(&[&FS, &[5], b"a", &FS, &[1], b"b"]);
    let expected = cat(&[&len(2), &[5], b"a", &len(2), &[1], b"b"]);
    assert_eq!(
        convert_bitstream(&input, BitstreamFraming::FourByteStartCode, BitstreamFraming::FourByteLength),
        Some(expected)
    );
}

#[test]
fn convert_bitstream_length_to_start_code() {
    let input = cat(&[&len(2), &[5], b"a", &len(2), &[1], b"b"]);
    let expected = cat(&[&FS, &[5], b"a", &FS, &[1], b"b"]);
    assert_eq!(
        convert_bitstream(&input, BitstreamFraming::FourByteLength, BitstreamFraming::FourByteStartCode),
        Some(expected)
    );
}

#[test]
fn convert_matches_direct_framing() {
    let nals = units(&[b"a", b"b"]);
    let four = frame_nal_units(&nals, BitstreamFraming::FourByteLength);
    let two = frame_nal_units(&nals, BitstreamFraming::TwoByteLength);
    let sc = frame_nal_units(&nals, BitstreamFraming::FourByteStartCode);
    assert_eq!(convert_bitstream(&four, BitstreamFraming::FourByteLength, BitstreamFraming::TwoByteLength), Some(two.clone()));
    assert_eq!(convert_bitstream(&two, BitstreamFraming::TwoByteLength, BitstreamFraming::FourByteStartCode), Some(sc.clone()));
    assert_eq!(convert_bitstream(&sc, BitstreamFraming::FourByteStartCode, BitstreamFraming::FourByteStartCode), Some(sc));
    assert_eq!(parse_bitstream(&four, BitstreamFraming::FourByteLength), Some(nals.clone()));
    assert_eq!(parse_bitstream(&two, BitstreamFraming::TwoByteLength), Some(nals));
}

#[test]
fn parse_bitstream_rejects_overrun() {
    assert_eq!(parse_bitstream(&[0, 0, 0, 5, 1, 2], BitstreamFraming::FourByteLength), None);
    assert_eq!(parse_bitstream(&[0, 0, 1], BitstreamFraming::FourByteLength), None);
    assert_eq!(parse_bitstream(&[], BitstreamFraming::TwoByteLength), Some(vec![]));
}

#[test]
fn convert_rejects_unit_too_long_for_two_bytes() {
    let big = vec![7u8; 70000];
    let framed = frame_nal_units(&vec![big], BitstreamFraming::FourByteLength);
    assert_eq!(convert_bitstream(&framed, BitstreamFraming::FourByteLength, BitstreamFraming::TwoByteLength), None);
    assert!(BitstreamFraming::FourByteStartCode.is_start_code());
    assert!(!BitstreamFraming::TwoByteLength.is_start_code());
}

#[test]
fn nal_unit_types() {
    assert_eq!(nut_header(&[0x67, 0x42]), Some(7));
    assert_eq!(nut_header(&[0x68]), Some(8));
    assert_eq!(nut_header(&[0x80]), None);
    assert!(is_video_nal_unit(&[0x65]));
    assert!(is_video_nal_unit(&[0x41]));
    assert!(!is_video_nal_unit(&[0x06]));
    assert!(!is_video_nal_unit(&[0x85]));
}
