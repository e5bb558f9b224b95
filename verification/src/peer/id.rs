//! Peer ID generation.

use vstd::prelude::*;
use vstd::string::StringSliceAdditionalSpecFns;
use vstd::utf8::is_ascii_chars_encode_utf8;

use crate::octets::{append_bytes, array20};
use crate::random::random_range;
use crate::text::is_digit;
use crate::types::PeerId;

verus! {

/// A peer ID with the client's prefix and the given 12 bytes after it.
pub fn with_suffix(suffix: &[u8]) -> (p: PeerId)
    requires
        suffix@.len() == 12,
    ensures
        p.0@ == "-SD0100-".spec_bytes() + suffix@,
{
    let mut id: Vec<u8> = Vec::new();
    append_bytes(&mut id, "-SD0100-".as_bytes());
    append_bytes(&mut id, suffix);
    proof {
        reveal_strlit("-SD0100-");
        is_ascii_chars_encode_utf8("-SD0100-"@);
    }
    let p = PeerId(array20(id.as_slice(), 0));
    assert(p.0@ =~= "-SD0100-".spec_bytes() + suffix@);
    p
}

/// Generate a fresh Azureus-style peer ID: `-SD0100-XXXXXXXXXXXX`
pub fn generate() -> (p: PeerId)
    ensures
        p.0@.take(8) == "-SD0100-".spec_bytes(),
        forall|i: int| 8 <= i < 20 ==> is_digit(#[trigger] p.0@[i]),
{
    let mut digits: Vec<u8> = Vec::new();
    while digits.len() < 12
        invariant
            digits@.len() <= 12,
            forall|i: int| 0 <= i < digits@.len() ==> is_digit(#[trigger] digits@[i]),
        decreases 12 - digits@.len(),
    {
        digits.push(0x30 + random_range(0, 10) as u8);
    }
    let p = with_suffix(digits.as_slice());
    proof {
        reveal_strlit("-SD0100-");
        is_ascii_chars_encode_utf8("-SD0100-"@);
        assert(p.0@.take(8) =~= "-SD0100-".spec_bytes());
        assert forall|i: int| 8 <= i < 20 implies is_digit(#[trigger] p.0@[i]) by {
            assert(p.0@[i] == digits@[i - 8]);
        }
    }
    p
}

} // verus!
