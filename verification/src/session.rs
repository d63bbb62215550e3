//! Session tokens.

use vstd::prelude::*;
use rand::RngCore;

verus! {

/// The session cookie's name.
pub const COOKIE_NAME: &'static str = "cd_session";

/// A lower-case hexadecimal digit.
pub open spec fn hex_lower(d: u8) -> char {
    if d < 10 { (48 + d) as char } else { (87 + d) as char }
}

/// Each byte as two lower-case hex digits (`{:02x}`).
pub open spec fn hex_of(bytes: Seq<u8>) -> Seq<char>
    decreases bytes.len(),
{
    if bytes.len() == 0 {
        Seq::empty()
    } else {
        hex_of(bytes.drop_last()) + seq![hex_lower(bytes.last() / 16), hex_lower(bytes.last() % 16)]
    }
}

fn hex_digit(d: u8) -> (c: char)
    requires
        d < 16,
    ensures
        c == hex_lower(d),
{
    if d < 10 {
        (48u8 + d) as char
    } else {
        (87u8 + d) as char
    }
}

/// The bytes in lower-case hexadecimal.
pub fn hex_encode(bytes: &Vec<u8>) -> (r: String)
    ensures
        r@ == hex_of(bytes@),
{
    let mut out: Vec<char> = Vec::new();
    let mut i: usize = 0;
    while i < bytes.len()
        invariant
            i <= bytes@.len(),
            out@ == hex_of(bytes@.take(i as int)),
        decreases bytes@.len() - i,
    {
        let b = bytes[i];
        out.push(hex_digit(b / 16));
        out.push(hex_digit(b % 16));
        proof {
            assert(bytes@.take(i + 1).drop_last() =~= bytes@.take(i as int));
            assert(out@ =~= hex_of(bytes@.take(i as int)) + seq![hex_lower(b / 16), hex_lower(b % 16)]);
        }
        i += 1;
    }
    proof {
        assert(bytes@.take(bytes@.len() as int) =~= bytes@);
    }
    crate::text::string_from_chars(&out)
}

/// 32 bytes from the operating system's random source (`rand::rngs::OsRng`,
/// `RngCore::try_fill_bytes`), or `None` when the operating system cannot
/// supply them. Nothing is stated of the bytes but their number.
#[verifier::external_body]
fn os_random_bytes() -> (r: Option<Vec<u8>>)
    ensures
        r matches Some(b) ==> b@.len() == 32,
{
    let mut bytes = [0u8; 32];
    match rand::rngs::OsRng.try_fill_bytes(&mut bytes) {
        Ok(()) => Some(bytes.to_vec()),
        Err(_) => None,
    }
}

/// A new session token: 32 random bytes in lower-case hexadecimal; `None`
/// when no random bytes could be had.
pub fn generate_token() -> (r: Option<String>)
    ensures
        r matches Some(t) ==> exists|b: Seq<u8>| b.len() == 32 && t@ == hex_of(b),
{
    match os_random_bytes() {
        Some(bytes) => Some(hex_encode(&bytes)),
        None => None,
    }
}

/// Every token is 64 lower-case hex digits.
pub proof fn law_token_shape(b: Seq<u8>)
    ensures
        hex_of(b).len() == 2 * b.len(),
        forall|i: int| 0 <= i < hex_of(b).len() ==> {
            let c = #[trigger] hex_of(b)[i];
            ('0' <= c <= '9') || ('a' <= c <= 'f')
        },
    decreases b.len(),
{
    if b.len() > 0 {
        law_token_shape(b.drop_last());
        let h = hex_of(b.drop_last());
        let x = b.last();
        assert forall|i: int| 0 <= i < hex_of(b).len() implies {
            let c = #[trigger] hex_of(b)[i];
            ('0' <= c <= '9') || ('a' <= c <= 'f')
        } by {
            if i < h.len() {
                assert(hex_of(b)[i] == h[i]);
            } else {
                assert(x / 16 < 16 && x % 16 < 16);
            }
        }
    }
}

} // verus!
