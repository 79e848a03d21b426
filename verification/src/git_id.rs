//! Git object identifiers and the hexadecimal codec for their wire form.

use vstd::prelude::*;

verus! {

/// Whether `b` is an ASCII hexadecimal digit.
pub open spec fn is_hex_digit(b: u8) -> bool {
    (48 <= b <= 57) || (97 <= b <= 102) || (65 <= b <= 70)
}

/// The numeric value of the hexadecimal digit `b`.
pub open spec fn hex_digit_value(b: u8) -> u8
    recommends
        is_hex_digit(b),
{
    if 48 <= b <= 57 {
        (b - 48) as u8
    } else if 97 <= b <= 102 {
        (b - 87) as u8
    } else {
        (b - 55) as u8
    }
}

/// Whether every byte of `s` is a hexadecimal digit.
pub open spec fn all_hex_digits(s: Seq<u8>) -> bool {
    forall|i: int| 0 <= i < s.len() ==> is_hex_digit(s[i])
}

/// The bytes encoded by the hexadecimal text `s`: two digits per byte, the
/// first digit the high nibble.  A trailing lone digit encodes a byte whose
/// low nibble is zero.
pub open spec fn hex_decoded(s: Seq<u8>) -> Seq<u8> {
    Seq::new(((s.len() + 1) / 2) as nat, |i: int|
        if 2 * i + 1 < s.len() {
            (hex_digit_value(s[2 * i]) * 16 + hex_digit_value(s[2 * i + 1])) as u8
        } else {
            (hex_digit_value(s[2 * i]) * 16) as u8
        })
}

/// A Git object identifier: the raw bytes of a fixed-length content hash.
#[derive(Debug)]
pub struct GitId {
    value: Vec<u8>,
}

impl View for GitId {
    type V = Seq<u8>;

    closed spec fn view(&self) -> Seq<u8> {
        self.value@
    }
}

/// The error returned when hexadecimal text holds a byte that is no
/// hexadecimal digit.
#[derive(Debug, PartialEq, Eq, Structural)]
pub struct NotHexError;

impl GitId {
    /// Decodes a hexadecimal wire-format identifier into its raw bytes.
    /// Fails exactly when some byte of the input is no hexadecimal digit.
    pub fn try_from(value: &[u8]) -> (r: Result<GitId, NotHexError>)
        ensures
            r is Ok <==> all_hex_digits(value@),
            r matches Ok(id) ==> id@ == hex_decoded(value@),
    {
        let mut bytes: Vec<u8> = Vec::new();
        let mut i: usize = 0;
        while i < value.len()
            invariant
                i <= value.len(),
                i % 2 == 0 || i == value@.len(),
                forall|t: int| 0 <= t < i ==> is_hex_digit(value@[t]),
                bytes@.len() == (i + 1) / 2,
                forall|t: int| 0 <= t < bytes@.len() ==> bytes@[t] == hex_decoded(value@)[t],
            decreases value.len() - i,
        {
            let hi = match hex_to_nibble(value[i]) {
                Ok(v) => v,
                Err(e) => {
                    assert(!is_hex_digit(value@[i as int]));
                    return Err(e);
                },
            };
            if i + 1 < value.len() {
                let lo = match hex_to_nibble(value[i + 1]) {
                    Ok(v) => v,
                    Err(e) => {
                        assert(!is_hex_digit(value@[i + 1]));
                        return Err(e);
                    },
                };
                bytes.push(hi * 16 + lo);
                i = i + 2;
            } else {
                bytes.push(hi * 16);
                i = i + 1;
            }
        }
        assert(bytes@ =~= hex_decoded(value@));
        Ok(GitId { value: bytes })
    }

    /// The decoded bytes of this identifier.
    pub fn as_bytes(&self) -> (r: &Vec<u8>)
        ensures
            r@ == self@,
    {
        &self.value
    }

    /// The hash key of this identifier: its first eight bytes read as a
    /// little-endian 64-bit integer.  The identifier is trusted to be a
    /// content hash, so this prefix is already uniformly distributed and is
    /// meant to feed an [`IdentityHash`].
    pub fn hash(&self) -> (r: u64)
        requires
            self@.len() >= 8,
        ensures
            r == le_bytes_64(self@),
    {
        let mut r: u64 = self.value[7] as u64;
        r = r * 256 + self.value[6] as u64;
        r = r * 256 + self.value[5] as u64;
        r = r * 256 + self.value[4] as u64;
        r = r * 256 + self.value[3] as u64;
        r = r * 256 + self.value[2] as u64;
        r = r * 256 + self.value[1] as u64;
        r = r * 256 + self.value[0] as u64;
        r
    }
}

/// The little-endian value of the first eight bytes of `s`.
pub open spec fn le_bytes_64(s: Seq<u8>) -> int
    recommends
        s.len() >= 8,
{
    s[0] + 256 * (s[1] + 256 * (s[2] + 256 * (s[3] + 256 * (s[4] + 256 * (s[5] + 256 * (s[6] + 256
        * s[7]))))))
}

/// Decodes one hexadecimal digit, accepting both letter cases.
fn hex_to_nibble(hex: u8) -> (r: Result<u8, NotHexError>)
    ensures
        r is Ok <==> is_hex_digit(hex),
        r matches Ok(v) ==> v == hex_digit_value(hex),
{
    if 48 <= hex && hex <= 57 {
        Ok(hex - 48)
    } else if 97 <= hex && hex <= 102 {
        Ok(hex - 87)
    } else if 65 <= hex && hex <= 70 {
        Ok(hex - 55)
    } else {
        Err(NotHexError)
    }
}

/// A hasher that copies a written 64-bit key straight to its output.  Only
/// for keys that are already uniformly distributed, such as [`GitId::hash`].
pub struct IdentityHash {
    value: u64,
}

impl View for IdentityHash {
    type V = u64;

    closed spec fn view(&self) -> u64 {
        self.value
    }
}

impl IdentityHash {
    /// A hasher with nothing written yet.
    pub fn new() -> (r: IdentityHash)
        ensures
            r@ == 0,
    {
        IdentityHash { value: 0 }
    }

    /// Records `key` as the hash value.
    pub fn write_u64(&mut self, key: u64)
        ensures
            final (self)@ == key,
    {
        self.value = key;
    }

    /// The recorded hash value, unchanged.
    pub fn finish(&self) -> (r: u64)
        ensures
            r == self@,
    {
        self.value
    }
}

} // verus!
