use rusty_h265::arith::{asr, ceil_div_usize, clip_i32, pow2_i32, sign_i32};
use rusty_h265::error::{joined, with_number, Error, OutOfData};
use rusty_h265::nal::NalType;
use rusty_h265::slice::SliceType;

#[test]
fn error_messages() {
    assert_eq!(Error::invalid("x").message(), "invalid data: x");
    assert_eq!(Error::unsupported("y").message(), "unsupported: y");
    assert_eq!(Error::Eof.message(), "end of stream");
    assert_eq!(Error::Again.message(), "more input required");
    assert_eq!(Error::Unimplemented("z").message(), "not yet implemented: z");
    assert_eq!(Error::from(OutOfData), Error::invalid("bit reader ran out of data"));
    assert_eq!(joined("a", "bc"), "abc");
    assert_eq!(with_number("n ", -120), "n -120");
    assert_eq!(with_number("", 0), "0");
    assert_eq!(with_number("", i64::MIN), format!("{}", i64::MIN));
}

#[test]
fn arithmetic_helpers() {
    assert_eq!(asr(-9, 2), -3);
    assert_eq!(clip_i32(0, 255, -4), 0);
    assert_eq!(clip_i32(0, 255, 256), 255);
    assert_eq!((sign_i32(-7), sign_i32(0), sign_i32(3)), (-1, 0, 1));
    assert_eq!(ceil_div_usize(17, 16), 2);
    assert_eq!(pow2_i32(30), 1 << 30);
}

#[test]
fn nal_types() {
    let t = |id: u8| NalType { id };
    assert!(t(0).is_vcl() && t(0).is_sub_layer_non_ref() && !t(1).is_sub_layer_non_ref());
    assert!(t(6).is_radl() && t(7).is_radl() && t(8).is_rasl() && t(9).is_rasl());
    assert!(t(16).is_bla() && t(16).is_irap() && !t(15).is_irap());
    assert!(t(19).is_idr() && t(20).is_idr() && !t(21).is_idr() && t(21).is_cra());
    assert!(t(23).is_irap() && !t(24).is_irap());
    assert!(!t(32).is_vcl());
    assert!(SliceType::I.is_intra() && SliceType::B.is_b() && !SliceType::P.is_b());
}
