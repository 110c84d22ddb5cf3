//! The pinned-endian wrapper tests: values wrapped in `BE` or `LE` keep
//! their byte order no matter what the configuration's default is.
use resend::config::Config;
use resend::endian::{BE, LE};
use resend::error::Error;
use resend::Snd;

#[test]
fn test_be_num() -> Result<(), Error> {
    let c = Config::little();
    let mut vec: Vec<u8> = Vec::new();
    let v = BE(8_u16);
    vec.snd(&v, c)?;
    vec.snd(v, c)?;
    vec.snd(BE(32_u32), c)?;
    vec.snd(BE(32_u64), c)?;
    assert!(vec.len() == 16);
    assert!(vec[0] == 0);
    assert!(vec[1] == 8);
    assert!(vec[2] == 0);
    assert!(vec[3] == 8);

    assert!(vec[4] == 0);
    assert!(vec[5] == 0);
    assert!(vec[6] == 0);
    assert!(vec[7] == 32);
    Ok(())
}

#[test]
fn test_le_num() -> Result<(), Error> {
    let c = Config::big();
    let mut vec: Vec<u8> = Vec::new();
    let v = LE(&8_u16);
    vec.snd(&v, c)?;
    vec.snd(v, c)?;
    vec.snd(LE(32), c)?;
    vec.snd(LE(32_u64), c)?;
    assert!(vec.len() == 16);
    assert!(vec[0] == 8);
    Ok(())
}
