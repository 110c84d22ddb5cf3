//! Tests of the stated properties: round trips, VLQ boundaries, the
//! maximum-size policy, tag dispatch, conditional and skipped fields,
//! surrogate pairs, short reads, and each error kind.
use resend::config::{Config, LenMode};
use resend::endian::{Ascii, Length, UTF16Char};
use resend::error::{Error, IoFault};
use resend::schema::{
    parse_int, receive_struct, receive_value, send_struct, Attr, Cmp, FieldSchema, LenSrc, Pred,
    RecSchema, TagWidth, Ty, UnionSchema, Value, VariantSchema,
};
use resend::{FromReader, IntoWriter, Rcv, Snd};

#[test]
fn length_policy_encode() -> Result<(), Error> {
    let c = Config::little().with_max_len(4);
    let mut vec: Vec<u8> = Vec::new();
    let r = vec.snd(vec![1u8, 2, 3, 4, 5], c);
    match r {
        Err(Error::DataTooLarge(m)) => assert_eq!(m, 4),
        _ => panic!("expected a size failure"),
    }
    assert_eq!(vec.len(), 0);

    vec.snd(vec![1u8, 2, 3, 4], c)?;
    assert_eq!(vec.len(), 8);
    Ok(())
}

#[test]
fn length_policy_decode() -> Result<(), Error> {
    let c = Config::little().with_max_len(4);
    let raw = [5u8, 0, 0, 0, 1, 2, 3, 4, 5];
    let mut buf: &[u8] = raw.as_ref();
    let r = buf.rcv::<Vec<u8>>(c);
    match r {
        Err(Error::DataTooLarge(m)) => assert_eq!(m, 4),
        _ => panic!("expected a size failure"),
    }
    Ok(())
}

#[test]
fn length_no_policy() -> Result<(), Error> {
    let c = Config::little();
    let mut vec: Vec<u8> = Vec::new();
    let big = vec![7u8; 100_000];
    vec.snd(&big, c)?;
    let mut buf: &[u8] = &vec;
    let back: Vec<u8> = buf.rcv(c)?;
    assert_eq!(big, back);
    Ok(())
}

#[test]
fn length_check() {
    let c = Config::little().with_max_len(4);
    assert!(Length(4).check(c).is_ok());
    match Length(5).check(c) {
        Err(Error::DataTooLarge(4)) => (),
        _ => panic!("expected a size failure"),
    }
    assert!(Length(usize::MAX).check(Config::little()).is_ok());
}

fn color_schema() -> UnionSchema {
    UnionSchema {
        width: TagWidth::Two,
        variants: vec![
            VariantSchema { tag: 2, payload: None },
            VariantSchema { tag: 32, payload: None },
            VariantSchema { tag: 4, payload: None },
        ],
    }
}

#[test]
fn invalid_tag() {
    let c = Config::little();
    let raw = [9u8, 0];
    let mut buf: &[u8] = raw.as_ref();
    let r = receive_value(&Ty::Union(Box::new(color_schema())), &mut buf, c);
    match r {
        Err(Error::InvalidTag(t)) => assert_eq!(t, 9),
        _ => panic!("expected an invalid tag"),
    }
}

fn when_schema() -> RecSchema {
    RecSchema {
        fields: vec![
            FieldSchema { ty: Ty::U16, attr: Attr::Plain },
            FieldSchema {
                ty: Ty::Opt(Box::new(Ty::Bool)),
                attr: Attr::When(Pred { field: 0, op: Cmp::Gt, rhs: 30 }),
            },
        ],
    }
}

#[test]
fn when_field_asymmetry() -> Result<(), Error> {
    let c = Config::little();

    let mut vec = Vec::new();
    let sent = vec![Value::U16(32), Value::Opt(Some(Box::new(Value::Bool(true))))];
    send_struct(&sent, &when_schema(), &mut vec, c)?;
    assert_eq!(vec.len(), 3);
    let mut buf = &vec[..];
    let got = receive_struct(&when_schema(), &mut buf, c)?;
    assert_eq!(got[1], Value::Opt(Some(Box::new(Value::Bool(true)))));

    let mut vec = Vec::new();
    let sent = vec![Value::U16(20), Value::Opt(None)];
    send_struct(&sent, &when_schema(), &mut vec, c)?;
    assert_eq!(vec.len(), 2);
    let mut buf = &vec[..];
    let got = receive_struct(&when_schema(), &mut buf, c)?;
    assert_eq!(got[1], Value::Opt(None));

    let raw = [20u8, 0, 1];
    let mut buf: &[u8] = raw.as_ref();
    let got = receive_struct(&when_schema(), &mut buf, c)?;
    assert_eq!(got[1], Value::Opt(None));
    assert_eq!(buf.len(), 1);

    Ok(())
}

#[test]
fn skip_field_default() -> Result<(), Error> {
    let c = Config::little();
    let schema = RecSchema {
        fields: vec![
            FieldSchema { ty: Ty::U32, attr: Attr::Plain },
            FieldSchema { ty: Ty::U32, attr: Attr::Skip },
        ],
    };
    let mut vec = Vec::new();
    let sent = vec![Value::U32(7), Value::U32(33)];
    send_struct(&sent, &schema, &mut vec, c)?;
    assert_eq!(vec.len(), 4);
    let mut buf = &vec[..];
    let got = receive_struct(&schema, &mut buf, c)?;
    assert_eq!(got[0], Value::U32(7));
    assert_eq!(got[1], Value::U32(0));
    Ok(())
}

#[test]
fn utf16_surrogate_pair() -> Result<(), Error> {
    let c = Config::little();
    let mut vec = Vec::new();
    vec.snd(UTF16Char('\u{1D306}'), c)?;
    assert_eq!(vec.len(), 4);
    assert_eq!(vec, vec![0x34, 0xD8, 0x06, 0xDF]);
    let mut buf = &vec[..];
    let back: UTF16Char = buf.rcv(c)?;
    assert_eq!(back, UTF16Char('\u{1D306}'));
    Ok(())
}

#[test]
fn short_read() {
    let c = Config::little();
    let raw = [1u8, 2];
    let mut buf: &[u8] = raw.as_ref();
    match buf.rcv::<u32>(c) {
        Err(Error::Io(IoFault::UnexpectedEof)) => (),
        _ => panic!("expected end of data"),
    }
    let mut empty: &[u8] = &[];
    match empty.rcv::<u8>(c) {
        Err(Error::Io(IoFault::UnexpectedEof)) => (),
        _ => panic!("expected end of data"),
    }
}

#[test]
fn ascii_round_trip_and_rejection() -> Result<(), Error> {
    let c = Config::little();
    let mut vec = Vec::new();
    vec.snd(Ascii("plain text".to_string()), c)?;
    assert_eq!(vec.len(), 4 + 10);
    let mut buf = &vec[..];
    let back: Ascii = buf.rcv(c)?;
    assert_eq!(*back, "plain text");

    let mut vec = Vec::new();
    match vec.snd(Ascii("café".to_string()), c) {
        Err(Error::InvalidAscii(s)) => assert_eq!(s, "café"),
        _ => panic!("expected an ascii failure"),
    }

    let raw = [1u8, 0, 0, 0, 0xFF];
    let mut buf: &[u8] = raw.as_ref();
    match buf.rcv::<Ascii>(c) {
        Err(Error::InvalidAscii(_)) => (),
        _ => panic!("expected an ascii failure"),
    }
    Ok(())
}

#[test]
fn invalid_char_decode() {
    let c = Config::little();
    let raw = [0x00u8, 0xD8, 0x00, 0x00];
    let mut buf: &[u8] = raw.as_ref();
    match buf.rcv::<char>(c) {
        Err(Error::InvalidChar(v)) => assert_eq!(v, 0xD800),
        _ => panic!("expected an invalid scalar"),
    }
}

#[test]
fn invalid_utf8_decode() {
    let c = Config::little();
    let raw = [1u8, 0, 0, 0, 0xFF];
    let mut buf: &[u8] = raw.as_ref();
    match buf.rcv::<String>(c) {
        Err(Error::Utf8) => (),
        _ => panic!("expected a utf-8 failure"),
    }
}

#[test]
fn len_mode_u16() -> Result<(), Error> {
    let c = Config::little().with_len_mode(LenMode::U16);
    let mut vec = Vec::new();
    vec.snd("hi", c)?;
    assert_eq!(vec.len(), 2 + 2);
    let mut buf = &vec[..];
    let back: String = buf.rcv(c)?;
    assert_eq!(back, "hi");
    Ok(())
}

#[test]
fn len_mode_vlq() -> Result<(), Error> {
    let c = Config::big().with_len_mode(LenMode::Vlq);
    let mut vec = Vec::new();
    vec.snd("hi", c)?;
    assert_eq!(vec.len(), 1 + 2);
    let mut buf = &vec[..];
    let back: String = buf.rcv(c)?;
    assert_eq!(back, "hi");
    Ok(())
}

#[test]
fn parse_int_literals() {
    assert_eq!(parse_int("1234"), Some(1234));
    assert_eq!(parse_int("0x10"), Some(16));
    assert_eq!(parse_int("0b101"), Some(5));
    assert_eq!(parse_int("0o17"), Some(15));
    assert_eq!(parse_int("0xFFFFFFFF"), Some(u32::MAX));
    assert_eq!(parse_int("4294967295"), Some(u32::MAX));
    assert_eq!(parse_int("4294967296"), None);
    assert_eq!(parse_int("zz"), None);
    assert_eq!(parse_int(""), None);
    assert_eq!(parse_int("0x"), None);
    assert_eq!(parse_int("12a"), None);
}

#[test]
fn fixed_length_string_forms() -> Result<(), Error> {
    let c = Config::little();
    let s = "abc".to_string();
    let mut vec = Vec::new();
    s.into_writer(&mut vec, 5, c)?;
    assert_eq!(vec, vec![b'a', b'b', b'c', 0, 0]);

    let mut vec = Vec::new();
    s.into_writer(&mut vec, 2, c)?;
    assert_eq!(vec, vec![b'a', b'b']);

    let raw = [b'h', b'i', 0, 0];
    let mut buf: &[u8] = raw.as_ref();
    let back = String::from_reader(&mut buf, 4, c)?;
    assert_eq!(back, "hi");
    Ok(())
}

#[test]
fn bool_any_nonzero_is_true() -> Result<(), Error> {
    let c = Config::little();
    let raw = [7u8, 0];
    let mut buf: &[u8] = raw.as_ref();
    let a: bool = buf.rcv(c)?;
    let b: bool = buf.rcv(c)?;
    assert!(a);
    assert!(!b);
    Ok(())
}

#[test]
fn wide_primitive_round_trips() -> Result<(), Error> {
    let c = Config::big();
    let mut vec = Vec::new();
    vec.snd(0x0102030405060708090A0B0C0D0E0F10_u128, c)?;
    vec.snd(-5_i128, c)?;
    vec.snd(usize::MAX, c)?;
    vec.snd(-9_isize, c)?;
    vec.snd('\u{1F600}', c)?;
    let mut buf = &vec[..];
    assert_eq!(buf.rcv::<u128>(c)?, 0x0102030405060708090A0B0C0D0E0F10);
    assert_eq!(buf.rcv::<i128>(c)?, -5);
    assert_eq!(buf.rcv::<usize>(c)?, usize::MAX);
    assert_eq!(buf.rcv::<isize>(c)?, -9);
    assert_eq!(buf.rcv::<char>(c)?, '\u{1F600}');
    Ok(())
}

#[test]
fn option_and_box_round_trips() -> Result<(), Error> {
    let c = Config::little();
    let mut vec = Vec::new();
    vec.snd(Some(7_u16), c)?;
    vec.snd(None::<u16>, c)?;
    vec.snd(Box::new(9_u32), c)?;
    assert_eq!(vec.len(), 3 + 1 + 4);
    let mut buf = &vec[..];
    assert_eq!(buf.rcv::<Option<u16>>(c)?, Some(7));
    assert_eq!(buf.rcv::<Option<u16>>(c)?, None);
    assert_eq!(*buf.rcv::<Box<u32>>(c)?, 9);
    Ok(())
}
