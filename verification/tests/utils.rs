use misc::nom::{complete_context, streaming_context, ParseErr};
use misc::{rand_string, ToUtf8String};

#[test]
fn test_to_utf8_lossy() {
    let a = [0x31u8, 0x32u8, 0x33u8];
    let b = a[..2].to_utf8_lossy().to_string();
    assert_eq!("12", b);

    let c = vec![0x31u8, 0x32u8, 0x33u8];
    let d = c.to_utf8_lossy().to_string();
    assert_eq!("123", d);
}

#[test]
fn to_utf8_lossy_replaces_invalid_bytes() {
    let bad = [0x61u8, 0xffu8, 0x62u8];
    let s = bad.to_utf8_lossy();
    assert_eq!("a\u{fffd}b", s);
}

#[test]
fn rand_string_length_and_alphabet() {
    assert_eq!(rand_string(0), "");
    let s = rand_string(64);
    assert_eq!(s.len(), 64);
    assert!(s.chars().all(|c| c.is_ascii_alphanumeric()));
    // Two draws of a long string almost surely differ: the bytes really come
    // from the generator, not from any fixed text.
    let t = rand_string(64);
    let u = rand_string(64);
    assert!(s != t || t != u);
}

#[test]
fn streaming_context_classification() {
    let ok: Result<u32, ParseErr<&str>> = Ok(5);
    assert_eq!(streaming_context(ok), Ok(Some(5)));

    let more: Result<u32, ParseErr<&str>> = Err(ParseErr::Incomplete);
    assert_eq!(streaming_context(more), Ok(None));

    let err: Result<u32, ParseErr<&str>> = Err(ParseErr::Error("bad digit"));
    assert_eq!(streaming_context(err), Err("bad digit"));

    let fail: Result<u32, ParseErr<&str>> = Err(ParseErr::Failure("cut"));
    assert_eq!(streaming_context(fail), Err("cut"));
}

#[test]
fn complete_context_classification() {
    let ok: Result<u32, ParseErr<&str>> = Ok(5);
    assert_eq!(complete_context(ok), Ok(5));

    let more: Result<u32, ParseErr<&str>> = Err(ParseErr::Incomplete);
    assert_eq!(complete_context(more), Err(None));

    let err: Result<u32, ParseErr<&str>> = Err(ParseErr::Error("bad digit"));
    assert_eq!(complete_context(err), Err(Some("bad digit")));

    let fail: Result<u32, ParseErr<&str>> = Err(ParseErr::Failure("cut"));
    assert_eq!(complete_context(fail), Err(Some("cut")));
}
