//! Torrent-file accessors over a decoded value: the announce URL, the
//! single-file length, and the SHA-1 info hash.
//!
//! The info hash is the SHA-1 digest, written as 40 lowercase hex characters,
//! of the canonical encoding of the top-level `info` dictionary alone. The
//! decoder stores every dictionary with sorted keys, so the encoding hashed
//! here is canonical whatever order the keys had on disk.
//!
//! The accessors return `None` for a missing key or a wrong variant — those
//! are optional fields by the format's design — and `announce` also returns
//! `None` for a payload that is not UTF-8 (display is the only use of the
//! text, and hashing never goes through it).

use vstd::prelude::*;

use sha1::Digest;
use sha1::Sha1;

use crate::encode::enc;
use crate::value::BValue;
use crate::value::Bencode;
use crate::value::dict_get;

verus! {

/// The digest that SHA-1 assigns to a byte sequence; a function of the bytes
/// alone.
pub uninterp spec fn sha1_of(bytes: Seq<u8>) -> Seq<u8>;

/// What UTF-8 decoding makes of a byte sequence: its characters, or nothing
/// when the bytes are not valid UTF-8; a function of the bytes alone.
pub uninterp spec fn utf8_decode(bytes: Seq<u8>) -> Option<Seq<char>>;

/// Relies on the `sha1` crate's `Sha1`: the digest is 20 bytes and depends
/// on the input bytes alone.
#[verifier::external_body]
fn sha1_digest(input: &Vec<u8>) -> (r: Vec<u8>)
    ensures
        r@ == sha1_of(input@),
        r@.len() == 20,
{
    let mut hasher = Sha1::new();
    hasher.update(input.as_slice());
    hasher.finalize().to_vec()
}

/// Relies on `String::from_utf8`: it succeeds exactly on valid UTF-8, the
/// characters depend on the bytes alone, and ASCII bytes decode to the
/// characters with the same code points.
#[verifier::external_body]
pub(crate) fn bytes_to_string(b: Vec<u8>) -> (r: Option<String>)
    ensures
        match r {
            Some(s) => utf8_decode(b@) == Some(s@) && ((forall|i: int|
                0 <= i < b@.len() ==> b@[i] < 128) ==> s@ == Seq::new(
                b@.len(),
                |i: int| b@[i] as char,
            )),
            None => utf8_decode(b@) is None && !(forall|i: int|
                0 <= i < b@.len() ==> b@[i] < 128),
        },
{
    String::from_utf8(b).ok()
}

/// The low or high nibble value `d` as a lowercase ASCII hex digit.
pub open spec fn hex_nibble(d: nat) -> u8 {
    if d < 10 {
        (48 + d) as u8
    } else {
        (87 + d) as u8
    }
}

/// Byte `i` of the hex rendering of `bs`: high nibble first.
pub open spec fn hex_byte(bs: Seq<u8>, i: int) -> u8 {
    if i % 2 == 0 {
        hex_nibble((bs[i / 2] / 16) as nat)
    } else {
        hex_nibble((bs[i / 2] % 16) as nat)
    }
}

/// The lowercase hex rendering of a byte sequence, two characters per byte.
pub open spec fn hex_of(bs: Seq<u8>) -> Seq<char> {
    Seq::new(2 * bs.len(), |i: int| hex_byte(bs, i) as char)
}

/// Renders bytes as lowercase hex, two ASCII characters per byte.
fn to_hex_string(bytes: &Vec<u8>) -> (r: String)
    requires
        bytes@.len() <= usize::MAX / 2,
    ensures
        r@ == hex_of(bytes@),
{
    let mut hex: Vec<u8> = Vec::new();
    let mut i: usize = 0;
    while i < bytes.len()
        invariant
            i <= bytes@.len(),
            bytes@.len() <= usize::MAX / 2,
            hex@.len() == 2 * i,
            forall|j: int| 0 <= j < 2 * i ==> #[trigger] hex@[j] == hex_byte(bytes@, j),
        decreases bytes@.len() - i,
    {
        let b = bytes[i];
        let hi = b / 16;
        let lo = b % 16;
        hex.push(if hi < 10 { 48 + hi } else { 87 + hi });
        hex.push(if lo < 10 { 48 + lo } else { 87 + lo });
        i = i + 1;
    }
    assert(forall|j: int| 0 <= j < hex@.len() ==> #[trigger] hex@[j] < 128);
    let r = bytes_to_string(hex);
    match r {
        Some(s) => {
            proof {
                assert(s@ =~= hex_of(bytes@));
            }
            s
        },
        None => {
            proof {
                assert(false);
            }
            String::new()
        },
    }
}

/// The 40 lowercase hex characters of the SHA-1 digest of `input`; always
/// present, kept optional to mirror how callers consume it.
pub fn calculate_hash(input: Vec<u8>) -> (r: Option<String>)
    ensures
        r matches Some(s) && s@ == hex_of(sha1_of(input@)),
        r matches Some(s) && s@.len() == 40,
{
    let digest = sha1_digest(&input);
    let s = to_hex_string(&digest);
    Some(s)
}

/// The key `info`.
pub open spec fn key_info() -> Seq<u8> {
    seq![105u8, 110u8, 102u8, 111u8]
}

/// The key `announce`.
pub open spec fn key_announce() -> Seq<u8> {
    seq![97u8, 110u8, 110u8, 111u8, 117u8, 110u8, 99u8, 101u8]
}

/// The key `length`.
pub open spec fn key_length() -> Seq<u8> {
    seq![108u8, 101u8, 110u8, 103u8, 116u8, 104u8]
}

/// The integer at `info.length` of a torrent's root dictionary, if present.
pub open spec fn spec_info_length(v: BValue) -> Option<int> {
    match v {
        BValue::Dict(d) => match dict_get(d, key_info()) {
            Some(BValue::Dict(info)) => match dict_get(info, key_length()) {
                Some(BValue::Int(l)) => Some(l),
                _ => None,
            },
            _ => None,
        },
        _ => None,
    }
}

/// The byte string at `announce` of a torrent's root dictionary, if present.
pub open spec fn spec_announce_bytes(v: BValue) -> Option<Seq<u8>> {
    match v {
        BValue::Dict(d) => match dict_get(d, key_announce()) {
            Some(BValue::Str(b)) => Some(b),
            _ => None,
        },
        _ => None,
    }
}

/// The entries of the `info` sub-dictionary of a torrent's root dictionary,
/// if present.
pub open spec fn spec_info_dict(v: BValue) -> Option<Seq<(Seq<u8>, BValue)>> {
    match v {
        BValue::Dict(d) => match dict_get(d, key_info()) {
            Some(BValue::Dict(info)) => Some(info),
            _ => None,
        },
        _ => None,
    }
}

/// The info hash of a torrent's root dictionary: the hex SHA-1 digest of the
/// canonical encoding of its `info` sub-dictionary, if that is present.
pub open spec fn spec_info_hash(v: BValue) -> Option<Seq<char>> {
    match spec_info_dict(v) {
        Some(info) => Some(hex_of(sha1_of(enc(BValue::Dict(info))))),
        None => None,
    }
}

/// Info-hash determinism: the hash is a function of the `info` sub-dictionary
/// alone, so two torrent roots with the same `info` entries — whatever other
/// fields surround them — have the same info hash.
pub proof fn lemma_info_hash_deterministic(v1: BValue, v2: BValue)
    requires
        spec_info_dict(v1) == spec_info_dict(v2),
    ensures
        spec_info_hash(v1) == spec_info_hash(v2),
{
}

/// Reads `info.length` from a decoded torrent: `Some` exactly when the root
/// is a dictionary whose `info` entry is a dictionary with an integer bound
/// to `length`.
pub fn get_info_length(decoded: &Bencode) -> (r: Option<i64>)
    ensures
        match r {
            Some(l) => spec_info_length(decoded@) == Some(l as int),
            None => spec_info_length(decoded@) is None,
        },
{
    if let Bencode::Dictionary(outer_dict) = decoded {
        let info_key: Vec<u8> = vec![105u8, 110u8, 102u8, 111u8];
        proof {
            assert(info_key@ =~= key_info());
        }
        if let Some(inner) = outer_dict.get(info_key.as_slice()) {
            if let Bencode::Dictionary(info) = inner {
                let length_key: Vec<u8> = vec![108u8, 101u8, 110u8, 103u8, 116u8, 104u8];
                proof {
                    assert(length_key@ =~= key_length());
                }
                if let Some(lv) = info.get(length_key.as_slice()) {
                    if let Bencode::Integer(length) = lv {
                        return Some(*length);
                    }
                }
            }
        }
    }
    None
}

/// Reads `announce` from a decoded torrent as UTF-8 text: `Some` exactly
/// when the root is a dictionary with a byte string bound to `announce` and
/// that byte string is valid UTF-8.
pub fn get_info_announce(decoded: &Bencode) -> (r: Option<String>)
    ensures
        match r {
            Some(s) => spec_announce_bytes(decoded@) matches Some(b) && utf8_decode(b) == Some(
                s@,
            ),
            None => spec_announce_bytes(decoded@) is None || utf8_decode(
                spec_announce_bytes(decoded@).unwrap(),
            ) is None,
        },
{
    if let Bencode::Dictionary(outer_dict) = decoded {
        let announce_key: Vec<u8> = vec![97u8, 110u8, 110u8, 111u8, 117u8, 110u8, 99u8, 101u8];
        proof {
            assert(announce_key@ =~= key_announce());
        }
        if let Some(av) = outer_dict.get(announce_key.as_slice()) {
            if let Bencode::String(announce_url) = av {
                return bytes_to_string(announce_url.clone());
            }
        }
    }
    None
}

/// Derives the info hash from a decoded torrent: `Some` exactly when the
/// root is a dictionary whose `info` entry is itself a dictionary; the hash
/// is computed over the canonical encoding of that sub-dictionary only.
pub fn get_info_hash(decoded: &Bencode) -> (r: Option<String>)
    ensures
        match r {
            Some(s) => spec_info_hash(decoded@) == Some(s@),
            None => spec_info_hash(decoded@) is None,
        },
{
    if let Bencode::Dictionary(outer_dict) = decoded {
        let info_key: Vec<u8> = vec![105u8, 110u8, 102u8, 111u8];
        proof {
            assert(info_key@ =~= key_info());
        }
        if let Some(inner) = outer_dict.get(info_key.as_slice()) {
            if let Bencode::Dictionary(info) = inner {
                return calculate_hash(info.bencode());
            }
        }
    }
    None
}

impl Bencode {
    /// The `info.length` field, when this value is a torrent root that has
    /// one.
    pub fn length(&self) -> (r: Option<i64>)
        ensures
            match r {
                Some(l) => spec_info_length(self@) == Some(l as int),
                None => spec_info_length(self@) is None,
            },
    {
        get_info_length(self)
    }

    /// The `announce` URL, when this value is a torrent root that has one
    /// and it is UTF-8.
    pub fn announce(&self) -> (r: Option<String>)
        ensures
            match r {
                Some(s) => spec_announce_bytes(self@) matches Some(b) && utf8_decode(b) == Some(
                    s@,
                ),
                None => spec_announce_bytes(self@) is None || utf8_decode(
                    spec_announce_bytes(self@).unwrap(),
                ) is None,
            },
    {
        get_info_announce(self)
    }

    /// The info hash, when this value is a torrent root with an `info`
    /// dictionary.
    pub fn info_hash(&self) -> (r: Option<String>)
        ensures
            match r {
                Some(s) => spec_info_hash(self@) == Some(s@),
                None => spec_info_hash(self@) is None,
            },
    {
        get_info_hash(self)
    }
}

} // verus!
