//! Small utility modules around a time-bounded associative cache.
//!
//! The heart of the crate is [`cache::Cache`], a mapping from integer keys to
//! values in which every entry carries a last-touch timestamp and is removed
//! by the sweep that runs inside each write once it has been idle for the
//! configured timeout. Beside it stand two small helpers: lossy decoding of
//! byte strings to text, and random alphanumeric strings.

pub mod cache;
pub mod nom;

use vstd::prelude::*;

verus! {

/// The characters that lossy UTF-8 decoding reads out of the bytes `b`:
/// valid UTF-8 sequences become their characters, invalid ones replacement
/// characters.
pub uninterp spec fn utf8_lossy_of(b: Seq<u8>) -> Seq<char>;

/// Relies on `String::from_utf8_lossy`: the decoding is a function of the
/// bytes alone, and bytes below 0x80 are valid UTF-8 that decodes to the
/// characters with those code points.
#[verifier::external_body]
fn lossy_decode(b: &[u8]) -> (r: String)
    ensures
        r@ == utf8_lossy_of(b@),
        (forall|i: int| 0 <= i < b@.len() ==> b@[i] < 0x80) ==> r@ == b@.map_values(
            |x: u8| x as char,
        ),
{
    String::from_utf8_lossy(b).into_owned()
}

/// Byte strings that can be decoded to text, replacing invalid UTF-8.
pub trait ToUtf8String {
    /// The bytes that the decoding reads.
    spec fn bytes(&self) -> Seq<u8>;

    /// The text the bytes decode to, invalid sequences replaced.
    fn to_utf8_lossy(&self) -> (r: String)
        ensures
            r@ == utf8_lossy_of(self.bytes()),
            (forall|i: int| 0 <= i < self.bytes().len() ==> self.bytes()[i] < 0x80) ==> r@
                == self.bytes().map_values(|x: u8| x as char),
    ;
}

impl ToUtf8String for [u8] {
    open spec fn bytes(&self) -> Seq<u8> {
        self@
    }

    fn to_utf8_lossy(&self) -> (r: String) {
        lossy_decode(self)
    }
}

/// An ASCII letter or digit.
pub open spec fn is_alphanumeric_char(c: char) -> bool {
    ('0' <= c && c <= '9') || ('A' <= c && c <= 'Z') || ('a' <= c && c <= 'z')
}

/// Relies on `rand::Rng::sample` with `rand::distributions::Alphanumeric`,
/// which draws a byte uniformly from the ASCII letters and digits.
#[verifier::external_body]
fn sample_alphanumeric_byte() -> (r: u8)
    ensures
        is_alphanumeric_char(r as char),
        r < 0x80,
{
    rand::Rng::sample(&mut rand::thread_rng(), rand::distributions::Alphanumeric)
}

/// A freshly drawn random string of `count` ASCII letters and digits.
#[verifier::loop_isolation(false)]
pub fn rand_string(count: usize) -> (r: String)
    ensures
        r@.len() == count,
        forall|i: int| 0 <= i < r@.len() ==> is_alphanumeric_char(#[trigger] r@[i]),
{
    let mut bytes: Vec<u8> = Vec::new();
    let mut i: usize = 0;
    while i < count
        invariant
            i <= count,
            bytes@.len() == i,
            forall|j: int|
                0 <= j < i ==> is_alphanumeric_char(#[trigger] bytes@[j] as char) && bytes@[j]
                    < 0x80,
        decreases count - i,
    {
        bytes.push(sample_alphanumeric_byte());
        i += 1;
    }
    let r = bytes.as_slice().to_utf8_lossy();
    proof {
        assert(r@ == bytes@.map_values(|x: u8| x as char));
        assert(r@.len() == count);
    }
    r
}

} // verus!
