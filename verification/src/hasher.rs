//! Hash algorithms, their names, and hex digests of byte strings.

use vstd::prelude::*;
use crate::text::{chars_of, utf8_len, utf8_len_capped, utf8_width};
use sha2::Digest;

verus! {

/// The digest algorithms a database can be built with.
#[derive(Debug, Clone, Copy, PartialEq, Eq, Structural)]
pub enum HashAlgorithm {
    Sha256,
    Sha512,
    Blake3,
}

/// The lower-case name of an algorithm, as written in a database header.
pub open spec fn algorithm_name(a: HashAlgorithm) -> Seq<char> {
    match a {
        HashAlgorithm::Sha256 => seq!['s', 'h', 'a', '2', '5', '6'],
        HashAlgorithm::Sha512 => seq!['s', 'h', 'a', '5', '1', '2'],
        HashAlgorithm::Blake3 => seq!['b', 'l', 'a', 'k', 'e', '3'],
    }
}

/// `c` becomes `t` under Unicode lower-casing, where `t` is one of the
/// characters of an algorithm name (ASCII lower-case letters and digits).
/// Besides `t` itself and its ASCII upper-case form, only the KELVIN SIGN
/// (U+212A) lower-cases to an ASCII letter, namely `k`.
pub open spec fn lowers_to(c: char, t: char) -> bool {
    ||| c == t
    ||| (0x61 <= (t as u32) && (t as u32) <= 0x7A && (c as u32) + 32 == (t as u32))
    ||| ((c as u32) == 0x212A && t == 'k')
}

/// The lower-cased form of `s` equals the name `t`.
pub open spec fn lowercase_equals(s: Seq<char>, t: Seq<char>) -> bool {
    s.len() == t.len() && forall|i: int| 0 <= i < s.len() ==> lowers_to(#[trigger] s[i], t[i])
}

/// The algorithm whose name `s` spells, ignoring case.
pub open spec fn algorithm_from_name(s: Seq<char>) -> Option<HashAlgorithm> {
    if lowercase_equals(s, algorithm_name(HashAlgorithm::Sha256)) {
        Some(HashAlgorithm::Sha256)
    } else if lowercase_equals(s, algorithm_name(HashAlgorithm::Sha512)) {
        Some(HashAlgorithm::Sha512)
    } else if lowercase_equals(s, algorithm_name(HashAlgorithm::Blake3)) {
        Some(HashAlgorithm::Blake3)
    } else {
        None
    }
}

/// The algorithm guessed from the length in bytes of a hex digest.
pub open spec fn algorithm_from_digest_len(n: nat) -> Option<HashAlgorithm> {
    if n == 64 {
        Some(HashAlgorithm::Sha256)
    } else if n == 128 {
        Some(HashAlgorithm::Sha512)
    } else {
        None
    }
}

fn lowercase_matches(s: &Vec<char>, t: &str) -> (b: bool)
    requires
        forall|i: int| 0 <= i < t@.len() ==> 0x30 <= (#[trigger] t@[i] as u32) && (t@[i] as u32) <= 0x7A,
    ensures
        b == lowercase_equals(s@, t@),
{
    let tc = chars_of(t);
    if s.len() != tc.len() {
        return false;
    }
    let mut i: usize = 0;
    while i < s.len()
        invariant
            s@.len() == tc@.len(),
            tc@ == t@,
            0 <= i <= s@.len(),
            forall|j: int| 0 <= j < i ==> lowers_to(#[trigger] s@[j], tc@[j]),
        decreases s@.len() - i,
    {
        let c = s[i];
        let d = tc[i];
        let cu = c as u32;
        let du = d as u32;
        let ok = c == d || (0x61 <= du && du <= 0x7A && cu == du - 32) || (cu == 0x212A && d == 'k');
        if !ok {
            return false;
        }
        i = i + 1;
    }
    true
}

impl HashAlgorithm {
    /// The algorithm's lower-case name.
    pub fn as_str(&self) -> (s: &'static str)
        ensures
            s@ == algorithm_name(*self),
    {
        match self {
            HashAlgorithm::Sha256 => {
                proof {
                    reveal_strlit("sha256");
                }
                "sha256"
            },
            HashAlgorithm::Sha512 => {
                proof {
                    reveal_strlit("sha512");
                }
                "sha512"
            },
            HashAlgorithm::Blake3 => {
                proof {
                    reveal_strlit("blake3");
                }
                "blake3"
            },
        }
    }

    /// Reads an algorithm name, ignoring case.
    pub fn from_str(s: &str) -> (res: Option<Self>)
        ensures
            res == algorithm_from_name(s@),
    {
        let v = chars_of(s);
        proof {
            reveal_strlit("sha256");
            reveal_strlit("sha512");
            reveal_strlit("blake3");
        }
        if lowercase_matches(&v, "sha256") {
            Some(HashAlgorithm::Sha256)
        } else if lowercase_matches(&v, "sha512") {
            Some(HashAlgorithm::Sha512)
        } else if lowercase_matches(&v, "blake3") {
            Some(HashAlgorithm::Blake3)
        } else {
            None
        }
    }

    /// Guesses the algorithm from the length in bytes of a hex digest.
    /// SHA-256 and BLAKE3 digests have the same length; such a digest is
    /// taken for SHA-256.
    pub fn detect_from_hash(hash: &str) -> (res: Option<Self>)
        ensures
            res == algorithm_from_digest_len(utf8_len(hash@)),
    {
        match utf8_len_capped(hash, 128) {
            Some(64) => Some(HashAlgorithm::Sha256),
            Some(128) => Some(HashAlgorithm::Sha512),
            _ => None,
        }
    }
}

/// Lower-case hexadecimal digit for `n < 16`.
pub open spec fn hex_digit(n: nat) -> char {
    if n < 10 {
        ((48 + n) as u8) as char
    } else {
        ((87 + n) as u8) as char
    }
}

/// Lower-case hexadecimal encoding: two digits per byte, high nibble first.
pub open spec fn hex_lower(data: Seq<u8>) -> Seq<char>
    decreases data.len(),
{
    if data.len() == 0 {
        seq![]
    } else {
        seq![hex_digit((data[0] / 16) as nat), hex_digit((data[0] % 16) as nat)] + hex_lower(
            data.drop_first(),
        )
    }
}

/// The SHA-256 digest of `data` (FIPS 180-4).
pub uninterp spec fn sha256_of(data: Seq<u8>) -> Seq<u8>;

/// The SHA-512 digest of `data` (FIPS 180-4).
pub uninterp spec fn sha512_of(data: Seq<u8>) -> Seq<u8>;

/// The 32-byte BLAKE3 hash of `data`.
pub uninterp spec fn blake3_of(data: Seq<u8>) -> Seq<u8>;

/// The digest of `data` under `a`.
pub open spec fn digest_of(a: HashAlgorithm, data: Seq<u8>) -> Seq<u8> {
    match a {
        HashAlgorithm::Sha256 => sha256_of(data),
        HashAlgorithm::Sha512 => sha512_of(data),
        HashAlgorithm::Blake3 => blake3_of(data),
    }
}

/// Number of bytes in a digest of `a`.
pub open spec fn digest_len(a: HashAlgorithm) -> nat {
    match a {
        HashAlgorithm::Sha512 => 64,
        _ => 32,
    }
}

/// The hex text stored for a file with contents `data`.
pub open spec fn digest_hex_of(a: HashAlgorithm, data: Seq<u8>) -> Seq<char> {
    hex_lower(digest_of(a, data))
}

/// `sha2::Sha256::digest`: the SHA-256 digest, 32 bytes long.
#[verifier::external_body]
fn sha256_digest(data: &[u8]) -> (d: Vec<u8>)
    ensures
        d@ == sha256_of(data@),
        d@.len() == 32,
{
    sha2::Sha256::digest(data).to_vec()
}

/// `sha2::Sha512::digest`: the SHA-512 digest, 64 bytes long.
#[verifier::external_body]
fn sha512_digest(data: &[u8]) -> (d: Vec<u8>)
    ensures
        d@ == sha512_of(data@),
        d@.len() == 64,
{
    sha2::Sha512::digest(data).to_vec()
}

/// `blake3::hash`: the default 32-byte BLAKE3 hash.
#[verifier::external_body]
fn blake3_digest(data: &[u8]) -> (d: Vec<u8>)
    ensures
        d@ == blake3_of(data@),
        d@.len() == 32,
{
    blake3::hash(data).as_bytes().to_vec()
}

/// `hex::encode`: lower-case hex, two digits per byte.
#[verifier::external_body]
fn hex_encode(data: &[u8]) -> (s: String)
    ensures
        s@ == hex_lower(data@),
{
    hex::encode(data)
}

/// The hex digest of `data` under `algorithm`, as stored in a database.
pub fn digest_hex(algorithm: HashAlgorithm, data: &[u8]) -> (res: String)
    ensures
        res@ == digest_hex_of(algorithm, data@),
        algorithm == HashAlgorithm::Sha256 ==> res@ == hex_lower(sha256_of(data@)),
        algorithm == HashAlgorithm::Sha512 ==> res@ == hex_lower(sha512_of(data@)),
        algorithm == HashAlgorithm::Blake3 ==> res@ == hex_lower(blake3_of(data@)),
        digest_of(algorithm, data@).len() == digest_len(algorithm),
{
    let d = match algorithm {
        HashAlgorithm::Sha256 => sha256_digest(data),
        HashAlgorithm::Sha512 => sha512_digest(data),
        HashAlgorithm::Blake3 => blake3_digest(data),
    };
    hex_encode(d.as_slice())
}

/// Shape of a hex encoding: two ASCII characters per byte.
pub proof fn lemma_hex_lower_shape(data: Seq<u8>)
    ensures
        hex_lower(data).len() == 2 * data.len(),
        utf8_len(hex_lower(data)) == 2 * data.len(),
    decreases data.len(),
{
    if data.len() > 0 {
        lemma_hex_lower_shape(data.drop_first());
        let h = hex_lower(data);
        let a = hex_digit((data[0] / 16) as nat);
        let b = hex_digit((data[0] % 16) as nat);
        let rest = hex_lower(data.drop_first());
        assert(h =~= seq![a, b] + rest);
        assert(h.drop_first() =~= seq![b] + rest);
        assert(h.drop_first().drop_first() =~= rest);
        assert(utf8_width(a) == 1);
        assert(utf8_width(b) == 1);
        assert(utf8_len(h) == 1 + utf8_len(h.drop_first()));
        assert(utf8_len(h.drop_first()) == 1 + utf8_len(h.drop_first().drop_first()));
    }
}

/// A hex digest is recognised by its length: 32-byte digests (SHA-256 and
/// BLAKE3) are taken for SHA-256, 64-byte digests for SHA-512.
pub proof fn law_detect_from_digest(a: HashAlgorithm, digest: Seq<u8>)
    requires
        digest.len() == digest_len(a),
    ensures
        algorithm_from_digest_len(utf8_len(hex_lower(digest))) == (match a {
            HashAlgorithm::Sha512 => Some(HashAlgorithm::Sha512),
            _ => Some(HashAlgorithm::Sha256),
        }),
{
    lemma_hex_lower_shape(digest);
}

/// Reading an algorithm's name gives the algorithm back:
/// `from_str(a.as_str())` is `Some(a)`.
pub proof fn law_name_roundtrip(a: HashAlgorithm)
    ensures
        algorithm_from_name(algorithm_name(a)) == Some(a),
{
    let n = algorithm_name(a);
    let s256 = algorithm_name(HashAlgorithm::Sha256);
    let s512 = algorithm_name(HashAlgorithm::Sha512);
    match a {
        HashAlgorithm::Sha256 => {},
        HashAlgorithm::Sha512 => {
            assert(!lowers_to(n[3], s256[3]));
        },
        HashAlgorithm::Blake3 => {
            assert(!lowers_to(n[0], s256[0]));
            assert(!lowers_to(n[0], s512[0]));
        },
    }
}

/// The upper-case name of an algorithm.
pub open spec fn algorithm_upper_name(a: HashAlgorithm) -> Seq<char> {
    match a {
        HashAlgorithm::Sha256 => seq!['S', 'H', 'A', '2', '5', '6'],
        HashAlgorithm::Sha512 => seq!['S', 'H', 'A', '5', '1', '2'],
        HashAlgorithm::Blake3 => seq!['B', 'L', 'A', 'K', 'E', '3'],
    }
}

/// Reading an algorithm's upper-case name gives the algorithm back.
pub proof fn law_upper_name_roundtrip(a: HashAlgorithm)
    ensures
        algorithm_from_name(algorithm_upper_name(a)) == Some(a),
{
    let u = algorithm_upper_name(a);
    let s256 = algorithm_name(HashAlgorithm::Sha256);
    let s512 = algorithm_name(HashAlgorithm::Sha512);
    assert(lowercase_equals(u, algorithm_name(a)));
    match a {
        HashAlgorithm::Sha256 => {},
        HashAlgorithm::Sha512 => {
            assert(!lowers_to(u[3], s256[3]));
        },
        HashAlgorithm::Blake3 => {
            assert(!lowers_to(u[0], s256[0]));
            assert(!lowers_to(u[0], s512[0]));
        },
    }
}

/// A text read as an algorithm lower-cases to that algorithm's name.
pub proof fn law_parsed_name_lowercases(s: Seq<char>)
    ensures
        algorithm_from_name(s) matches Some(b) ==> lowercase_equals(s, algorithm_name(b)),
{
}

/// Each algorithm hashes every input with its own function, whatever the
/// input's length: the stored digest is the lower-case hex of SHA-256,
/// SHA-512 or BLAKE3 of the data.
pub proof fn law_digest_per_algorithm(data: Seq<u8>)
    ensures
        digest_hex_of(HashAlgorithm::Sha256, data) == hex_lower(sha256_of(data)),
        digest_hex_of(HashAlgorithm::Sha512, data) == hex_lower(sha512_of(data)),
        digest_hex_of(HashAlgorithm::Blake3, data) == hex_lower(blake3_of(data)),
{
}

} // verus!
