use mediabox::media::{convert_timebase, CodecId, Fraction, MediaDuration, MediaTime, SoundType};

#[test]
fn con_test() {
    assert_eq!(
        1000,
        convert_timebase(500, Fraction::new(1, 500), Fraction::new(1, 1000))
    );
}

#[test]
fn convert_timebase_truncates() {
    assert_eq!(convert_timebase(7, Fraction::new(1, 1000), Fraction::new(1, 90)), 0);
    assert_eq!(convert_timebase(1001, Fraction::new(1, 1000), Fraction::new(1, 3)), 3);
}

#[test]
fn media_time_in_base() {
    let t = MediaTime {
        pts: 1500,
        dts: Some(1000),
        duration: Some(40),
        timebase: Fraction::new(1, 1000),
    };
    let n = t.in_base(Fraction::new(1, 90000));
    assert_eq!(n.pts, 135000);
    assert_eq!(n.dts, Some(90000));
    assert_eq!(n.duration, Some(3600));
    assert_eq!(n.timebase, Fraction::new(1, 90000));
}

#[test]
fn media_time_since_and_duration() {
    let a = MediaTime { pts: 10, dts: None, duration: None, timebase: Fraction::new(1, 1000) };
    let b = MediaTime { pts: 25, dts: None, duration: None, timebase: Fraction::new(1, 1000) };
    assert_eq!(a.since(&b).duration, -15);
    let d = a.since(&b).in_base(Fraction::new(1, 10));
    assert_eq!(d.duration, 0);
    let d = MediaDuration { duration: -1500, timebase: Fraction::new(1, 1000) }
        .in_base(Fraction::new(1, 10));
    assert_eq!(d.duration, -15);
    let d = MediaDuration::from_duration(2_000_000_000, Fraction::new(1, 1000));
    assert_eq!(d.duration, 2000);
}

#[test]
fn fraction_simplify() {
    let f = Fraction::new(1920, 1080).simplify();
    assert_eq!((f.numerator, f.denominator), (16, 9));
    let f = Fraction::new(0, 5).simplify();
    assert_eq!((f.numerator, f.denominator), (0, 1));
}

#[test]
fn codec_kinds() {
    assert!(CodecId::H264.is_video());
    assert!(CodecId::Aac.is_audio());
    assert!(CodecId::WebVtt.is_subtitle());
    assert!(CodecId::Ass.is_subtitle());
    assert!(!CodecId::Unknown.is_video() && !CodecId::Unknown.is_audio());
    assert_eq!(SoundType::Stereo.channel_count(), 2);
    assert_eq!(SoundType::Mono.channel_count(), 1);
}
