//! The codec tests: primitives, strings, UTF-16 text, variable-length
//! quantities, tuples, ranges, arrays and byte buffers.
use resend::config::Config;
use resend::endian::{Length, LE, UTF16, UTF16Char, VLQ};
use resend::error::{Error, IoFault};
use resend::{FromReader, IntoWriter, Rcv, Snd};

#[test]
fn test_default() -> Result<(), Error> {
    let c = Config::little();
    let mut vec = Vec::new();
    vec.snd(-8_i8, c)?;
    vec.snd(&22_u16, c)?;
    vec.snd(0xFFABCDEF as u32, c)?;
    vec.snd("Test", c)?;
    vec.snd(UTF16("utf16".to_string()), c)?;
    vec.snd(-32 as i32, c)?;

    let mut buf = &vec[..];

    let v: i8 = buf.rcv(c)?;
    assert_eq!(v, -8);

    let v: u16 = buf.rcv(c)?;
    assert_eq!(v, 22);

    let v: u32 = buf.rcv(c)?;
    assert_eq!(v, 0xFFABCDEF);

    let v: String = buf.rcv(c)?;
    assert_eq!(v, "Test");

    let v: UTF16 = buf.rcv(c)?;
    assert_eq!(*v, "utf16");

    let v: i32 = buf.rcv(c)?;
    assert_eq!(v, -32);

    Ok(())
}

#[test]
fn test_u8() -> Result<(), Error> {
    let c = Config::little();
    let mut vec: Vec<u8> = Vec::new();
    vec.snd(8_u8, c)?;
    vec.snd(16_u8, c)?;
    assert!(vec.len() == 2);
    assert!(vec[0] == 8);
    assert!(vec[1] == 16);

    (&mut vec).snd(12_u8, c)?;

    let mut buf = &vec[..];

    let v: u8 = buf.rcv(c)?;
    assert_eq!(v, 8);

    let v: u8 = buf.rcv(c)?;
    assert_eq!(v, 16);

    let v: u8 = buf.rcv(c)?;
    assert_eq!(v, 12);

    let rst = buf.rcv::<u8>(c);
    assert!(rst.is_err());

    Ok(())
}

#[test]
fn test_u16() -> Result<(), Error> {
    let c = Config::little();
    let mut vec: Vec<u8> = Vec::new();
    vec.snd(LE(22_u16), c)?;
    vec.snd(LE(0xF9FF_u16), c)?;
    assert_eq!(vec.len(), 4);
    assert_eq!(vec[0], 22);
    assert_eq!(vec[1], 0);
    assert_eq!(vec[2], 0xFF);
    assert_eq!(vec[3], 0xF9);

    let mut buf = &vec[..];

    let v: LE<u16> = buf.rcv(c)?;
    assert_eq!(*v, 22);

    let v: LE<u16> = buf.rcv(c)?;
    assert_eq!(*v, 0xF9FF);

    Ok(())
}

#[test]
fn test_read_u32() -> Result<(), Error> {
    let c = Config::little();
    let mut b = "WEwe".as_bytes();
    let v: LE<u32> = b.rcv(c)?;
    assert_eq!(
        *v,
        'W' as u32 | ('E' as u32) << 8 | ('w' as u32) << 16 | ('e' as u32) << 24
    );
    let rst = b.rcv::<LE<u16>>(c);
    match rst {
        Ok(_) => assert!(false),
        Err(Error::Io(k)) => {
            assert_eq!(k, IoFault::UnexpectedEof);
        }
        Err(_) => {
            panic!("Wrong error kind");
        }
    }

    Ok(())
}

#[test]
fn test_read_u64() -> Result<(), Error> {
    let c = Config::little();
    let mut b = "WEwe1234".as_bytes();
    let v1 = b.rcv::<LE<u32>>(c)?;
    let v2 = b.rcv::<LE<u32>>(c)?;
    assert_eq!(
        *v1 as u64 | (*v2 as u64) << 32,
        'W' as u64
            | ('E' as u64) << 8
            | ('w' as u64) << 16
            | ('e' as u64) << 24
            | ('1' as u64) << 32
            | ('2' as u64) << 40
            | ('3' as u64) << 48
            | ('4' as u64) << 56
    );
    Ok(())
}

#[test]
fn test_string() -> Result<(), Error> {
    let c = Config::little();
    let mut vec: Vec<u8> = Vec::new();
    vec.snd(LE("2欢迎2𝌆𠮷\0".to_string()), c)?;
    let mut buf = &vec[..];
    let s: LE<String> = buf.rcv(c)?;
    assert_eq!("2欢迎2𝌆𠮷\0", *s);
    Ok(())
}

#[test]
fn test_utf16() -> Result<(), Error> {
    let c = Config::little();
    let u = LE(UTF16Char('W'));
    assert_eq!('W', **u);
    let mut vec: Vec<u8> = Vec::new();
    vec.snd(LE(UTF16Char('W')), c)?;
    assert_eq!('W' as u8, vec[0]);
    assert_eq!(0, vec[1]);

    let mut buf: &[u8] = vec.as_ref();
    assert_eq!('W', **(buf.rcv::<LE<UTF16Char>>(c)?));
    Ok(())
}

#[test]
fn test_utf16_str() -> Result<(), Error> {
    let c = Config::little();
    let mut vec: Vec<u8> = Vec::new();

    vec.snd(LE(UTF16(("2欢迎2𝌆𠮷\0").to_string())), c)?;

    let s = String::from("Test String");
    vec.snd(LE(UTF16(s)), c)?;

    let mut buf: &[u8] = &vec;

    let s: LE<UTF16> = buf.rcv(c)?;
    assert_eq!("2欢迎2𝌆𠮷\0", **s);

    let s: LE<UTF16> = buf.rcv(c)?;
    assert_eq!("Test String", **s);

    Ok(())
}

#[test]
fn test_vlq() -> Result<(), Error> {
    let c = Config::little();
    let mut vec: Vec<u8> = Vec::new();
    vec.snd(VLQ(0), c)?;
    vec.snd(VLQ(127), c)?;
    assert_eq!(2, vec.len());

    let mut buf: &[u8] = &vec;
    let v: VLQ = buf.rcv(c)?;
    assert_eq!(0, *v);
    let v: VLQ = buf.rcv(c)?;
    assert_eq!(127, *v);

    let mut vec: Vec<u8> = Vec::new();
    vec.snd(VLQ(128), c)?;
    assert_eq!(2, vec.len());

    let mut buf: &[u8] = &vec;
    let v: VLQ = buf.rcv(c)?;
    assert_eq!(128, *v);

    let mut vec: Vec<u8> = Vec::new();
    vec.snd(VLQ(16384), c)?;
    assert_eq!(3, vec.len());

    let mut buf: &[u8] = &vec;
    let v: VLQ = buf.rcv(c)?;
    assert_eq!(16384, *v);

    let mut vec: Vec<u8> = Vec::new();
    vec.snd(VLQ(0x0FFFFFFF), c)?;
    assert_eq!(4, vec.len());

    let mut buf: &[u8] = &vec;
    let v: VLQ = buf.rcv(c)?;
    assert_eq!(0x0FFFFFFF, *v);

    Ok(())
}

#[test]
fn test_utf16_from() -> Result<(), Error> {
    let c = Config::little();
    let mut vec: Vec<u8> = Vec::new();

    vec.snd(UTF16(("2欢迎2𝌆𠮷").to_string()), c)?;

    assert_eq!(16 + 4, vec.len());

    let u = UTF16(String::from("Test"));
    vec.snd(&u, c)?;

    vec.snd(8 as u32, c)?;
    u.into_writer(&mut vec, 8, c)?;

    let mut buf: &[u8] = &vec;

    let len: Length = buf.rcv(c)?;

    let s = UTF16::from_reader(&mut buf, *len, c)?;

    assert_eq!("2欢迎2𝌆𠮷", *s);

    let s: UTF16 = buf.rcv(c)?;
    assert_eq!("Test", *s);

    Ok(())
}

#[test]
fn test_tuple() -> Result<(), Error> {
    let c = Config::little();
    let t = (1_u16, 2_u32);

    let mut vec: Vec<u8> = Vec::new();
    vec.snd(t, c)?;

    let mut buf: &[u8] = &vec;

    let actual: (u16, u32) = buf.rcv(c)?;

    assert_eq!(t, actual);

    Ok(())
}

#[test]
fn test_range() -> Result<(), Error> {
    let c = Config::little();
    let t = 1..30;

    let mut vec: Vec<u8> = Vec::new();
    vec.snd(&t, c)?;

    let mut buf: &[u8] = &vec;

    let actual: std::ops::Range<i32> = buf.rcv(c)?;

    assert_eq!(t, actual);

    Ok(())
}

#[test]
fn test_u8_array() -> Result<(), Error> {
    let c = Config::little();
    let b = [22_u8; 32];

    let mut vec = Vec::new();
    vec.snd(&b, c)?;

    let mut buf: &[u8] = &vec;
    let actual: [u8; 32] = buf.rcv(c)?;

    assert_eq!(&b, &actual);

    Ok(())
}

#[test]
fn test_vec_u8() -> Result<(), Error> {
    let c = Config::little();
    let b = vec![1_u8, 2, 3];

    let mut vec = Vec::new();
    vec.snd(&b, c)?;

    let mut buf: &[u8] = &vec;
    let actual: Vec<u8> = buf.rcv(c)?;

    assert_eq!(&b, &actual);

    Ok(())
}
