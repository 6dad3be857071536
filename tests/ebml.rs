use mediabox::ebml::{
    read_element_header, read_id, read_length, read_vint, vint_bytes_required, write_vid,
    write_vint, EbmlElement, EbmlError, EbmlId, EbmlLength, EbmlMasterElement, EbmlValue,
};

fn encode_vint(v: u64) -> Vec<u8> {
    let mut buf = Vec::new();
    write_vint(&mut buf, v);
    buf
}

#[test]
fn vint_encode_scenario() {
    // the fewest bytes whose payload holds the value
    assert_eq!(encode_vint(0x3FFF), vec![0x7F, 0xFF]);
    assert_eq!(encode_vint(0x4000), vec![0x20, 0x40, 0x00]);
    assert_eq!(read_vint(&[0x7F, 0xFF]), Ok((0x3FFF, 2)));
    assert_eq!(read_vint(&[0x20, 0x40, 0x00]), Ok((0x4000, 3)));
}

#[test]
fn vint_round_trip_values() {
    for v in [0u64, 1, 0x7e, 0x7f, 0x80, 0xff, 0x100, 0xffff, 0x1_0000, 0xffff_ffff, (1u64 << 56) - 1] {
        let b = encode_vint(v);
        assert_eq!(b.len() as u64, vint_bytes_required(v));
        assert_eq!(read_vint(&b), Ok((v, b.len())));
    }
}

#[test]
fn vint_errors() {
    assert_eq!(read_vint(&[]), Err(EbmlError::NeedMore(1)));
    assert_eq!(read_vint(&[0x00, 0x01]), Err(EbmlError::UnsupportedSize(8)));
    assert_eq!(read_vint(&[0x10, 0x00]), Err(EbmlError::NeedMore(2)));
}

#[test]
fn id_round_trip() {
    for id in [0x1A45DFA3u64, 0x4282, 0x18538067, 0xAE, 0x1F43B675, 0xA3, 0x2AD7B1] {
        let mut buf = Vec::new();
        write_vid(&mut buf, id);
        assert_eq!(EbmlId(id).size() as usize, buf.len());
        assert_eq!(read_id(&buf), Ok((EbmlId(id), buf.len())));
    }
    assert_eq!(read_id(&[0x08, 0, 0, 0, 0]), Err(EbmlError::UnsupportedSize(4)));
}

#[test]
fn length_known_and_unknown() {
    let mut buf = Vec::new();
    EbmlLength::Unknown(8).write(&mut buf);
    assert_eq!(buf, vec![0x01, 0xFF, 0xFF, 0xFF, 0xFF, 0xFF, 0xFF, 0xFF]);
    assert_eq!(read_length(&buf), Ok((EbmlLength::Unknown(8), 8)));
    assert_eq!(read_length(&[0xFF]), Ok((EbmlLength::Unknown(1), 1)));
    let mut buf = Vec::new();
    EbmlLength::Known(0x7F).write(&mut buf);
    assert_eq!(buf, vec![0x40, 0x7F]);
    assert_eq!(read_length(&buf), Ok((EbmlLength::Known(0x7F), 2)));
    assert_eq!(EbmlLength::Known(5).require(), Ok(5));
    assert_eq!(EbmlLength::Unknown(1).require(), Err(EbmlError::UnknownSize));
}

#[test]
fn master_element_writes_and_reads_back() {
    let m = EbmlMasterElement(
        EbmlId(0x1A45DFA3),
        vec![
            EbmlElement(EbmlId(0x4282), EbmlValue::String("matroska")),
            EbmlElement(EbmlId(0x4287), EbmlValue::UInt(1)),
            EbmlElement(EbmlId(0x4286), EbmlValue::UInt(0)),
            EbmlElement(EbmlId(0x4285), EbmlValue::UInt(0x1234)),
            EbmlElement(EbmlId(0x53AC), EbmlValue::Int(-2)),
        ],
    );
    let mut buf = Vec::new();
    m.write(&mut buf);
    assert_eq!(m.full_size() as usize, buf.len());
    let expected: Vec<u8> = vec![
        0x1A, 0x45, 0xDF, 0xA3, 0x9C, 0x42, 0x82, 0x88, b'm', b'a', b't', b'r', b'o', b's', b'k',
        b'a', 0x42, 0x87, 0x81, 0x01, 0x42, 0x86, 0x81, 0x00, 0x42, 0x85, 0x82, 0x12, 0x34, 0x53,
        0xAC, 0x81, 0xFE,
    ];
    assert_eq!(buf, expected);
    let (id, len, h) = read_element_header(&buf).unwrap();
    assert_eq!(id, EbmlId(0x1A45DFA3));
    assert_eq!(len, EbmlLength::Known(28));
    assert_eq!(h, 5);
}

#[test]
fn header_needs_more() {
    assert_eq!(read_element_header(&[0x1A, 0x45]), Err(EbmlError::NeedMore(2)));
    assert_eq!(read_element_header(&[0xA3]), Err(EbmlError::NeedMore(1)));
}
