//! The payload of a CAN frame: its hex text read as bytes, two digits each.
//! (Scaling a byte into a signal value takes floating point and is left to
//! the caller.)

use vstd::prelude::*;
use vstd::utf8::{encode_utf8, is_char_boundary};
use vstd::string::StringSliceAdditionalSpecFns;
use crate::collector::{trim_chars, trim_ws};
use crate::rules::{hex_pair_value, parse_hex_pair};
use crate::text::{chars_of, string_of};

verus! {

/// Each two-byte slice of the payload text lies on character boundaries, so
/// that it can be cut out.
pub open spec fn payload_checkable(c: Seq<u8>) -> bool {
    forall|k: int|
        0 <= k < c.len() / 2 ==> #[trigger] is_char_boundary(c, 2 * k) && is_char_boundary(
            c,
            2 * k + 2,
        )
}

/// The bytes of the first `k` two-byte slices, each slice that reads as a hex
/// byte (`u8::from_str_radix(.., 16)`) giving one byte and the others none.
pub open spec fn payload_upto(c: Seq<u8>, k: nat) -> Seq<u8>
    decreases k,
{
    if k == 0 {
        Seq::empty()
    } else {
        let rest = payload_upto(c, (k - 1) as nat);
        match hex_pair_value(c[2 * (k - 1)], c[2 * (k - 1) + 1]) {
            Some(b) => rest.push(b),
            None => rest,
        }
    }
}

/// The bytes of a payload: its text trimmed, cut into two-byte slices (an
/// odd byte at the end is left out), each slice read as a hex byte.
pub open spec fn payload_bytes(text: Seq<char>) -> Seq<u8> {
    let c = encode_utf8(trim_ws(text));
    payload_upto(c, c.len() / 2)
}

/// Read the bytes of a payload in hex text. `None` exactly when some
/// two-byte slice of the trimmed text would split a character.
pub fn decode_payload(data_hex: &str) -> (r: Option<Vec<u8>>)
    ensures
        r is None <==> !payload_checkable(encode_utf8(trim_ws(data_hex@))),
        r matches Some(v) ==> v@ == payload_bytes(data_hex@),
{
    let cs = chars_of(data_hex);
    let t = trim_chars(&cs);
    let s = string_of(&t);
    let text = s.as_str();
    let b = text.as_bytes();
    let ghost c = encode_utf8(trim_ws(data_hex@));
    assert(b@ == c);
    let np = b.len() / 2;
    assert(c.len() == b.len());
    let mut out: Vec<u8> = Vec::new();
    let mut k: usize = 0;
    while k < np
        invariant
            b@ == c,
            c == encode_utf8(trim_ws(data_hex@)),
            text.spec_bytes() == c,
            np == c.len() / 2,
            c.len() <= usize::MAX,
            k <= np,
            out@ == payload_upto(c, k as nat),
            forall|j: int| 0 <= j < k ==> #[trigger] is_char_boundary(c, 2 * j) && is_char_boundary(c, 2 * j + 2),
        decreases np - k,
    {
        let lo = 2 * k;
        if !text.is_char_boundary(lo) || !text.is_char_boundary(lo + 2) {
            proof {
                let kk = k as int;
                assert(!(is_char_boundary(c, 2 * kk) && is_char_boundary(c, 2 * kk + 2)));
                assert(0 <= kk < c.len() / 2);
                assert(!payload_checkable(c));
            }
            return None;
        }
        match parse_hex_pair(b[lo], b[lo + 1]) {
            Some(v) => out.push(v),
            None => {},
        }
        k = k + 1;
    }
    Some(out)
}

} // verus!
