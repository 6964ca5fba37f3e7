//! Cover art paths: players hand out `file://` URLs with the usual escaping.

use vstd::prelude::*;
use vstd::string::StringSliceAdditionalSpecFns;

use crate::text::same_text;

verus! {

/// A hexadecimal digit, as an ASCII byte.
pub open spec fn is_hex_byte(b: u8) -> bool {
    (0x30 <= b <= 0x39) || (0x41 <= b <= 0x46) || (0x61 <= b <= 0x66)
}

/// The value of a hexadecimal digit given as an ASCII byte.
pub open spec fn hex_byte_value(b: u8) -> int {
    if 0x30 <= b <= 0x39 {
        b - 0x30
    } else if 0x41 <= b <= 0x46 {
        b - 0x41 + 10
    } else {
        b - 0x61 + 10
    }
}

/// The byte that the two bytes after a `%` stand for: two hexadecimal
/// digits, upper or lower case. Nothing otherwise.
pub open spec fn escape_value(high: u8, low: u8) -> Option<u8> {
    if is_hex_byte(high) && is_hex_byte(low) {
        Some((hex_byte_value(high) * 16 + hex_byte_value(low)) as u8)
    } else {
        None
    }
}

/// `bytes` with their URL escapes decoded: a `%` followed by two
/// hexadecimal digits is the byte they spell; every other byte, a `%` that
/// starts no valid escape among them, is copied as it stands.
pub open spec fn percent_decode(bytes: Seq<u8>) -> Seq<u8>
    decreases bytes.len(),
{
    if bytes.len() == 0 {
        Seq::empty()
    } else if bytes[0] == 0x25 && bytes.len() >= 3 && escape_value(bytes[1], bytes[2]) is Some {
        seq![escape_value(bytes[1], bytes[2]).unwrap()] + percent_decode(bytes.skip(3))
    } else {
        seq![bytes[0]] + percent_decode(bytes.drop_first())
    }
}

/// A path without escapes comes back as it is.
pub proof fn lemma_plain_path_unchanged(bytes: Seq<u8>)
    requires
        forall|i: int| 0 <= i < bytes.len() ==> #[trigger] bytes[i] != 0x25u8,
    ensures
        percent_decode(bytes) == bytes,
    decreases bytes.len(),
{
    if bytes.len() > 0 {
        assert forall|i: int| 0 <= i < bytes.drop_first().len() implies #[trigger] bytes.drop_first()[i]
            != 0x25u8 by {
            assert(bytes.drop_first()[i] == bytes[i + 1]);
        }
        lemma_plain_path_unchanged(bytes.drop_first());
        assert(bytes[0] != 0x25u8);
        assert(seq![bytes[0]] + bytes.drop_first() =~= bytes);
    }
}

/// Decoding never lengthens a path: an escape's three bytes become one.
pub proof fn lemma_decoding_shrinks(bytes: Seq<u8>)
    ensures
        percent_decode(bytes).len() <= bytes.len(),
    decreases bytes.len(),
{
    if bytes.len() > 0 {
        if bytes[0] == 0x25 && bytes.len() >= 3 && escape_value(bytes[1], bytes[2]) is Some {
            lemma_decoding_shrinks(bytes.skip(3));
        } else {
            lemma_decoding_shrinks(bytes.drop_first());
        }
    }
}

fn hex_byte(b: u8) -> (value: Option<u8>)
    ensures
        value matches Some(v) ==> is_hex_byte(b) && v == hex_byte_value(b),
        value is None ==> !is_hex_byte(b),
{
    if 0x30 <= b && b <= 0x39 {
        Some(b - 0x30)
    } else if 0x41 <= b && b <= 0x46 {
        Some(b - 0x41 + 10)
    } else if 0x61 <= b && b <= 0x66 {
        Some(b - 0x61 + 10)
    } else {
        None
    }
}

fn escape(high: u8, low: u8) -> (value: Option<u8>)
    ensures
        value == escape_value(high, low),
{
    match (hex_byte(high), hex_byte(low)) {
        (Some(h), Some(l)) => Some(h * 16 + l),
        _ => None,
    }
}

/// The bytes of a path that players hand out with the usual URL escaping.
/// The escapes decode to bytes, which only make sense together: "é" is two
/// of them.
pub fn percent_decoded(path: &str) -> (decoded: Vec<u8>)
    ensures
        decoded@ == percent_decode(path.spec_bytes()),
{
    let bytes = path.as_bytes();
    let mut decoded: Vec<u8> = Vec::new();
    let mut i: usize = 0;
    assert(bytes@.skip(0) =~= bytes@);
    assert(decoded@ + percent_decode(bytes@) =~= percent_decode(bytes@));
    while i < bytes.len()
        invariant
            bytes@ == path.spec_bytes(),
            i <= bytes@.len(),
            decoded@ + percent_decode(bytes@.skip(i as int)) == percent_decode(bytes@),
        decreases bytes@.len() - i,
    {
        let ghost rest = bytes@.skip(i as int);
        let ghost before = decoded@;
        let byte = bytes[i];
        let value = if byte == 0x25 && bytes.len() - i >= 3 {
            escape(bytes[i + 1], bytes[i + 2])
        } else {
            None
        };
        match value {
            Some(b) => {
                assert(rest.skip(3) =~= bytes@.skip(i + 3));
                decoded.push(b);
                assert(decoded@ + percent_decode(bytes@.skip(i + 3)) =~= before + percent_decode(
                    rest,
                ));
                i = i + 3;
            },
            None => {
                assert(rest.drop_first() =~= bytes@.skip(i + 1));
                decoded.push(byte);
                assert(decoded@ + percent_decode(bytes@.skip(i + 1)) =~= before + percent_decode(
                    rest,
                ));
                i = i + 1;
            },
        }
    }
    proof {
        assert(bytes@.skip(i as int) =~= Seq::<u8>::empty());
        assert(decoded@ + Seq::<u8>::empty() =~= decoded@);
    }
    decoded
}

/// The cover of one track at a time, the one last asked for, once it has
/// arrived.
pub struct CoverSlot<I> {
    pub url: String,
    pub image: Option<I>,
}

impl<I> CoverSlot<I> {
    /// No cover asked for yet.
    pub fn new() -> (slot: Self)
        ensures
            slot.url@.len() == 0,
            slot.image is None,
    {
        CoverSlot { url: String::new(), image: None }
    }

    /// Asks for the cover of `url`. Asking for a new one forgets the cover
    /// held, and says that its download must start.
    pub fn ask(&mut self, url: &str) -> (request: bool)
        ensures
            request == (old(self).url@ != url@),
            final(self).url@ == url@,
            request ==> final(self).image is None,
            !request ==> final(self).image == old(self).image,
    {
        if same_text(self.url.as_str(), url) {
            false
        } else {
            self.url = url.to_owned();
            self.image = None;
            true
        }
    }

    /// Hands over the cover downloaded for `url`, or nothing when the
    /// download failed. A later track may have been asked for in the
    /// meantime: then the slot keeps waiting for that one.
    pub fn deliver(&mut self, url: &str, image: Option<I>)
        ensures
            final(self).url == old(self).url,
            final(self).image == if old(self).url@ == url@ {
                image
            } else {
                old(self).image
            },
    {
        if same_text(self.url.as_str(), url) {
            self.image = image;
        }
    }
}

} // verus!
