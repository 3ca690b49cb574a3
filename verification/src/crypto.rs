use vstd::prelude::*;

verus! {

/// The MD5 digest (RFC 1321) of a byte string.
pub uninterp spec fn md5_digest(data: Seq<u8>) -> Seq<u8>;

/// Calls `md5::compute` (crate `md5`), which returns the 16-byte MD5 digest
/// of `data`; the contract claims that the digest is `md5_digest(data)`,
/// that is, a function of the bytes of `data` alone.
#[verifier::external_body]
fn md5_compute(data: &[u8]) -> (digest: [u8; 16])
    ensures
        digest@ == md5_digest(data@),
{
    md5::compute(data).0
}

/// The upper-case hexadecimal digit of a value below 16.
pub open spec fn hex_digit(v: u8) -> u8 {
    if v < 10 {
        (48 + v) as u8
    } else {
        (55 + v) as u8
    }
}

/// The upper-case hexadecimal spelling of a byte string, high nibble first.
pub open spec fn hex_upper(data: Seq<u8>) -> Seq<u8> {
    Seq::new(
        2 * data.len(),
        |k: int|
            if k % 2 == 0 {
                hex_digit(data[k / 2] / 16)
            } else {
                hex_digit(data[k / 2] % 16)
            },
    )
}

/// The hexadecimal spelling of a byte string as a NUL-terminated C string.
pub open spec fn hex_c_string(data: Seq<u8>) -> Seq<u8> {
    hex_upper(data).push(0u8)
}

fn hex_digit_of(v: u8) -> (r: u8)
    requires
        v < 16,
    ensures
        r == hex_digit(v),
{
    if v < 10 {
        48 + v
    } else {
        55 + v
    }
}

/// Spell a 16-byte digest in upper-case hexadecimal, as a NUL-terminated
/// C string of 33 bytes.
pub fn digest_to_hex(digest: &[u8; 16]) -> (answer: Vec<u8>)
    ensures
        answer@ == hex_c_string(digest@),
{
    let mut answer: Vec<u8> = Vec::with_capacity(33);
    for i in 0..16
        invariant
            digest@.len() == 16,
            answer@.len() == 2 * i,
            forall|k: int| 0 <= k < 2 * i ==> answer@[k] == hex_upper(digest@)[k],
    {
        let byte = digest[i];
        let high = byte >> 4;
        let low = byte & 0xF;
        assert(high == byte / 16 && low == byte % 16 && high < 16 && low < 16) by (bit_vector)
            requires
                high == byte >> 4,
                low == byte & 0xF,
        ;
        answer.push(hex_digit_of(high));
        answer.push(hex_digit_of(low));
        assert(hex_upper(digest@)[2 * i] == hex_digit(digest@[i as int] / 16));
        assert(hex_upper(digest@)[2 * i + 1] == hex_digit(digest@[i as int] % 16));
    }
    answer.push(0);
    assert(answer@ =~= hex_c_string(digest@));
    answer
}

/// The spelling of a byte string: two characters per byte, the high nibble
/// first, each nibble as one of `0`..=`9` (48..=57) or `A`..=`F` (65..=70),
/// then a NUL.
pub proof fn law_hex_spelling(data: Seq<u8>)
    ensures
        hex_c_string(data).len() == 2 * data.len() + 1,
        hex_c_string(data)[2 * data.len() as int] == 0,
        forall|k: int|
            #![trigger data[k]]
            0 <= k < data.len() ==> {
                let high = data[k] / 16;
                let low = data[k] % 16;
                &&& hex_c_string(data)[2 * k] == if high < 10 {
                    48 + high
                } else {
                    65 + (high - 10)
                }
                &&& hex_c_string(data)[2 * k + 1] == if low < 10 {
                    48 + low
                } else {
                    65 + (low - 10)
                }
            },
        forall|k: int|
            0 <= k < 2 * data.len() ==> {
                let c = #[trigger] hex_c_string(data)[k];
                (48 <= c <= 57) || (65 <= c <= 70)
            },
{
    assert forall|k: int| #![trigger data[k]] 0 <= k < data.len() implies {
        let high = data[k] / 16;
        let low = data[k] % 16;
        &&& hex_c_string(data)[2 * k] == if high < 10 {
            48 + high
        } else {
            65 + (high - 10)
        }
        &&& hex_c_string(data)[2 * k + 1] == if low < 10 {
            48 + low
        } else {
            65 + (low - 10)
        }
    } by {
        assert((2 * k) / 2 == k && (2 * k) % 2 == 0);
        assert((2 * k + 1) / 2 == k && (2 * k + 1) % 2 == 1);
    }
}

/// Two digests spell the same string only when they are the same digest:
/// the spelling loses nothing.
pub proof fn law_hex_spelling_injective(d1: Seq<u8>, d2: Seq<u8>)
    requires
        hex_c_string(d1) == hex_c_string(d2),
    ensures
        d1 == d2,
{
    law_hex_spelling(d1);
    law_hex_spelling(d2);
    assert forall|k: int| 0 <= k < d1.len() implies d1[k] == d2[k] by {
        let (h1, l1, h2, l2) = (d1[k] / 16, d1[k] % 16, d2[k] / 16, d2[k] % 16);
        assert(hex_c_string(d1)[2 * k] == hex_c_string(d2)[2 * k]);
        assert(hex_c_string(d1)[2 * k + 1] == hex_c_string(d2)[2 * k + 1]);
        assert(h1 == h2);
        assert(l1 == l2);
    }
    assert(d1 =~= d2);
}

/// Hash a sequence of bytes using MD5: the digest, spelled in upper-case
/// hexadecimal, as a NUL-terminated C string of 33 bytes.
pub fn hash_bytes(bytes: &[u8]) -> (answer: Vec<u8>)
    ensures
        answer@ == hex_c_string(md5_digest(bytes@)),
{
    let digest = md5_compute(bytes);
    digest_to_hex(&digest)
}

} // verus!
