//! Tests of the remaining composite codecs: element-wise sequences,
//! copy-on-write wrappers, non-zero integers, time spans and
//! nul-terminated byte strings.
use resend::composite::{
    recv_deque, recv_entries, recv_seq, send_deque, send_entries, send_seq, NonZero32, NonZero64,
    Span,
};
use resend::config::Config;
use resend::error::Error;
use resend::text::CBytes;
use resend::{Rcv, Snd};
use std::borrow::Cow;

#[test]
fn sequence_element_wise() -> Result<(), Error> {
    let c = Config::little();
    let items: Vec<u16> = vec![7, 513, 0xFFFF];
    let mut vec: Vec<u8> = Vec::new();
    send_seq(&items, &mut vec, c)?;
    assert_eq!(vec.len(), 4 + 3 * 2);
    assert_eq!(vec[0], 3);
    let mut buf = &vec[..];
    let back: Vec<u16> = recv_seq(&mut buf, c)?;
    assert_eq!(items, back);
    Ok(())
}

#[test]
fn sequence_of_strings() -> Result<(), Error> {
    let c = Config::big();
    let items: Vec<String> = vec!["one".to_string(), "two".to_string(), "".to_string()];
    let mut vec: Vec<u8> = Vec::new();
    send_seq(&items, &mut vec, c)?;
    let mut buf = &vec[..];
    let back: Vec<String> = recv_seq(&mut buf, c)?;
    assert_eq!(items, back);
    Ok(())
}

#[test]
fn deque_push_back_order() -> Result<(), Error> {
    let c = Config::little();
    let mut dq: std::collections::VecDeque<u32> = std::collections::VecDeque::new();
    dq.push_back(1);
    dq.push_back(2);
    dq.push_front(0);
    let mut vec: Vec<u8> = Vec::new();
    send_deque(&dq, &mut vec, c)?;
    assert_eq!(vec.len(), 4 + 3 * 4);
    let mut buf = &vec[..];
    let back: std::collections::VecDeque<u32> = recv_deque(&mut buf, c)?;
    assert_eq!(dq, back);
    assert_eq!(back[0], 0);
    Ok(())
}

#[test]
fn map_entries_canonical_order() -> Result<(), Error> {
    let c = Config::little();
    let entries: Vec<(u64, String)> = vec![
        (1, "one".to_string()),
        (4, "four".to_string()),
        (9, "nine".to_string()),
    ];
    let mut vec: Vec<u8> = Vec::new();
    send_entries(&entries, &mut vec, c)?;
    let mut buf = &vec[..];
    let back: Vec<(u64, String)> = recv_entries(&mut buf, c)?;
    assert_eq!(entries, back);

    let unordered: Vec<(u64, u8)> = vec![(4, 0), (4, 1)];
    let mut vec: Vec<u8> = Vec::new();
    send_entries(&unordered, &mut vec, c)?;
    let mut buf = &vec[..];
    let r: Result<Vec<(u64, u8)>, Error> = recv_entries(&mut buf, c);
    assert!(r.is_err());
    Ok(())
}

#[test]
fn cow_decodes_owned() -> Result<(), Error> {
    let c = Config::little();
    let n: u32 = 77;
    let borrowed: Cow<u32> = Cow::Borrowed(&n);
    let mut vec: Vec<u8> = Vec::new();
    vec.snd(borrowed, c)?;
    let mut buf = &vec[..];
    let back: Cow<u32> = buf.rcv(c)?;
    assert!(matches!(back, Cow::Owned(77)));
    Ok(())
}

#[test]
fn non_zero_round_trip_and_zero() -> Result<(), Error> {
    let c = Config::little();
    let mut vec: Vec<u8> = Vec::new();
    vec.snd(NonZero32(9), c)?;
    vec.snd(NonZero64(10), c)?;
    let mut buf = &vec[..];
    assert_eq!(buf.rcv::<NonZero32>(c)?, NonZero32(9));
    assert_eq!(buf.rcv::<NonZero64>(c)?, NonZero64(10));

    let raw = [0u8, 0, 0, 0];
    let mut buf: &[u8] = raw.as_ref();
    match buf.rcv::<NonZero32>(c) {
        Err(Error::Zero) => (),
        _ => panic!("expected a zero failure"),
    }
    Ok(())
}

#[test]
fn span_seconds_then_nanos() -> Result<(), Error> {
    let c = Config::big();
    let s = Span { secs: 3, nanos: 500_000_000 };
    let mut vec: Vec<u8> = Vec::new();
    vec.snd(s, c)?;
    assert_eq!(vec.len(), 12);
    assert_eq!(vec[7], 3);
    let mut buf = &vec[..];
    assert_eq!(buf.rcv::<Span>(c)?, s);
    Ok(())
}

#[test]
fn path_as_lossy_text() -> Result<(), Error> {
    let c = Config::little();
    let p = std::path::PathBuf::from("/tmp/data.bin".to_string());
    let mut vec: Vec<u8> = Vec::new();
    vec.snd(&p, c)?;
    assert_eq!(vec.len(), 4 + 13);
    let mut buf = &vec[..];
    let back: std::path::PathBuf = buf.rcv(c)?;
    assert_eq!(p, back);
    Ok(())
}

#[test]
fn nul_terminated_bytes() -> Result<(), Error> {
    let c = Config::little();
    let b = CBytes(vec![b'a', b'b', b'c', b'1', b'2', b' ', b'3']);
    let mut vec: Vec<u8> = Vec::new();
    vec.snd(&b, c)?;
    assert_eq!(vec.len(), 8);
    assert_eq!(vec[7], 0);
    let mut buf = &vec[..];
    let back: CBytes = buf.rcv(c)?;
    assert_eq!(b, back);

    let raw = [b'x', b'y'];
    let mut buf: &[u8] = raw.as_ref();
    assert!(buf.rcv::<CBytes>(c).is_err());
    Ok(())
}
