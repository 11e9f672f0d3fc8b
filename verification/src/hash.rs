//! Content hashes: the strong digest that names a file's or a chunk's bytes.

use vstd::prelude::*;

use crate::text::{digit, digit_char};

verus! {

/// The BLAKE3 digest of a byte sequence.
pub uninterp spec fn blake3_digest(data: Seq<u8>) -> Seq<u8>;

/// Calls `blake3::hash` and copies the digest out.
///
/// Believed of the crate: the 32 bytes are a function of the input bytes alone.
#[verifier::external_body]
fn blake3_hash(data: &[u8]) -> (digest: [u8; 32])
    ensures
        digest@ == blake3_digest(data@),
{
    *blake3::hash(data).as_bytes()
}

/// A 32-byte content hash.
#[derive(Debug, Clone, Copy)]
pub struct Hash {
    pub bytes: [u8; 32],
}

impl View for Hash {
    type V = Seq<u8>;

    open spec fn view(&self) -> Seq<u8> {
        self.bytes@
    }
}

impl PartialEq for Hash {
    fn eq(&self, other: &Hash) -> (same: bool) {
        let mut i: usize = 0;
        while i < 32
            invariant
                0 <= i <= 32,
                forall|j: int| 0 <= j < i ==> self.bytes@[j] == other.bytes@[j],
            decreases 32 - i,
        {
            if self.bytes[i] != other.bytes[i] {
                return false;
            }
            i = i + 1;
        }
        assert(self.bytes@ =~= other.bytes@);
        true
    }
}

impl vstd::std_specs::cmp::PartialEqSpecImpl for Hash {
    open spec fn obeys_eq_spec() -> bool {
        true
    }

    open spec fn eq_spec(&self, other: &Hash) -> bool {
        self@ == other@
    }
}

impl Eq for Hash {
}

/// Bytes in lowercase hexadecimal, two digits each.
pub open spec fn hex_text(bytes: Seq<u8>) -> Seq<char>
    decreases bytes.len(),
{
    if bytes.len() == 0 {
        Seq::empty()
    } else {
        hex_text(bytes.drop_last()).push(digit(bytes.last() as int / 16)).push(
            digit(bytes.last() as int % 16),
        )
    }
}

pub proof fn lemma_hex_text_len(bytes: Seq<u8>)
    ensures
        hex_text(bytes).len() == 2 * bytes.len(),
        forall|i: int|
            0 <= i < hex_text(bytes).len() ==> exists|d: int|
                0 <= d < 16 && #[trigger] hex_text(bytes)[i] == #[trigger] digit(d),
    decreases bytes.len(),
{
    if bytes.len() > 0 {
        let init = bytes.drop_last();
        lemma_hex_text_len(init);
        assert forall|i: int| 0 <= i < hex_text(bytes).len() implies exists|d: int|
            0 <= d < 16 && #[trigger] hex_text(bytes)[i] == #[trigger] digit(d) by {
            if i < hex_text(init).len() {
                assert(hex_text(bytes)[i] == hex_text(init)[i]);
            } else if i == hex_text(init).len() {
                assert(hex_text(bytes)[i] == digit(bytes.last() as int / 16));
            } else {
                assert(hex_text(bytes)[i] == digit(bytes.last() as int % 16));
            }
        }
    }
}

impl Hash {
    /// The hash of `data`.
    pub fn of(data: &[u8]) -> (hash: Hash)
        ensures
            hash@ == blake3_digest(data@),
    {
        Hash { bytes: blake3_hash(data) }
    }

    /// The hash in lowercase hexadecimal.
    pub fn to_hex(&self) -> (text: String)
        ensures
            text@ == hex_text(self@),
    {
        let mut text = String::new();
        let mut i: usize = 0;
        while i < 32
            invariant
                i <= 32,
                text@ == hex_text(self@.take(i as int)),
            decreases 32 - i,
        {
            let b: u8 = self.bytes[i];
            assert(self@.take(i + 1).drop_last() =~= self@.take(i as int));
            text.push(digit_char(b / 16));
            text.push(digit_char(b % 16));
            i = i + 1;
        }
        assert(self@.take(32) =~= self@);
        text
    }
}

/// The hexadecimal form has two digits for every byte, the high one first, so that
/// the bytes can be read off it again.
pub proof fn law_hex_spells_every_byte(bytes: Seq<u8>, i: int, high: int, low: int)
    requires
        0 <= i < bytes.len(),
        0 <= high < 16,
        0 <= low < 16,
        bytes[i] == 16 * high + low,
    ensures
        hex_text(bytes).len() == 2 * bytes.len(),
        hex_text(bytes)[2 * i] as u32 == if high < 10 {
            48 + high
        } else {
            87 + high
        },
        hex_text(bytes)[2 * i + 1] as u32 == if low < 10 {
            48 + low
        } else {
            87 + low
        },
    decreases bytes.len(),
{
    let init = bytes.drop_last();
    lemma_hex_text_len(bytes);
    lemma_hex_text_len(init);
    if i < init.len() {
        law_hex_spells_every_byte(init, i, high, low);
        assert(hex_text(bytes)[2 * i] == hex_text(init)[2 * i]);
        assert(hex_text(bytes)[2 * i + 1] == hex_text(init)[2 * i + 1]);
    } else {
        crate::text::law_digits_follow_each_other(high);
        crate::text::law_digits_follow_each_other(low);
        let b = bytes.last() as int;
        assert(b / 16 == high && b % 16 == low);
        assert(hex_text(bytes)[2 * i] == digit(high));
        assert(hex_text(bytes)[2 * i + 1] == digit(low));
    }
}

} // verus!
