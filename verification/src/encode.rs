//! The canonical bencode encoder and its mathematical model.
//!
//! A byte string becomes its decimal length, `:`, then the raw bytes; an
//! integer becomes `i`, its minimal decimal form, `e`; a list becomes `l`,
//! the encodings of its elements in order, `e`; a dictionary becomes `d`,
//! its key/value pairs in ascending byte-lexicographic key order, `e`. The
//! encoder writes dictionary entries in the order the [`InfoDict`] holds
//! them, so on a well-formed tree (see [`wf`]) the output is canonical.
//! Integers are stored as `i64`, so every held value is representable and
//! encoding never fails.

use vstd::prelude::*;

use crate::value::BValue;
use crate::value::Bencode;
use crate::value::InfoDict;
use crate::value::list_view;
use crate::value::pairs_view;

verus! {

broadcast use vstd::std_specs::vec::group_vec_axioms;

/// The decimal digits of `n`, most significant first, with no leading zeros
/// (the single digit `0` for zero).
pub open spec fn dec_digits(n: nat) -> Seq<u8>
    decreases n,
{
    if n < 10 {
        seq![(48 + n) as u8]
    } else {
        dec_digits(n / 10).push((48 + n % 10) as u8)
    }
}

/// The minimal decimal form of `i`: a `-` before the digits of its magnitude
/// when `i` is negative.
pub open spec fn int_literal(i: int) -> Seq<u8> {
    if i < 0 {
        seq![45u8] + dec_digits((-i) as nat)
    } else {
        dec_digits(i as nat)
    }
}

/// The encoding of a byte string: decimal length, `:`, raw bytes.
pub open spec fn enc_str(s: Seq<u8>) -> Seq<u8> {
    dec_digits(s.len()) + seq![58u8] + s
}

/// The encoding of a value. Dictionary entries are written in the order
/// held, so the result is the canonical encoding exactly when the value is
/// well-formed (keys already sorted).
pub open spec fn enc(v: BValue) -> Seq<u8>
    decreases v,
{
    match v {
        BValue::Str(s) => enc_str(s),
        BValue::Int(i) => seq![105u8] + int_literal(i) + seq![101u8],
        BValue::List(l) => seq![108u8] + enc_list(l) + seq![101u8],
        BValue::Dict(d) => seq![100u8] + enc_pairs(d) + seq![101u8],
    }
}

/// The concatenated encodings of the elements of a list.
pub open spec fn enc_list(l: Seq<BValue>) -> Seq<u8>
    decreases l,
{
    if l.len() == 0 {
        Seq::empty()
    } else {
        enc(l[0]) + enc_list(l.drop_first())
    }
}

/// The concatenated encodings of the entries of a dictionary, each entry as
/// encoded key then encoded value.
pub open spec fn enc_pairs(d: Seq<(Seq<u8>, BValue)>) -> Seq<u8>
    decreases d,
{
    if d.len() == 0 {
        Seq::empty()
    } else {
        enc_str(d[0].0) + enc(d[0].1) + enc_pairs(d.drop_first())
    }
}

/// Writes the decimal digits of `n` onto `out`, most significant first.
fn push_decimal(n: u64, out: &mut Vec<u8>)
    ensures
        final(out)@ == old(out)@ + dec_digits(n as nat),
    decreases n,
{
    if n >= 10 {
        push_decimal(n / 10, out);
    }
    out.push(48 + (n % 10) as u8);
    assert(out@ =~= old(out)@ + dec_digits(n as nat));
}

/// Appends every byte of `s` to `out`.
fn push_bytes(s: &[u8], out: &mut Vec<u8>)
    ensures
        final(out)@ == old(out)@ + s@,
{
    let mut i: usize = 0;
    while i < s.len()
        invariant
            i <= s@.len(),
            out@ == old(out)@ + s@.subrange(0, i as int),
        decreases s@.len() - i,
    {
        out.push(s[i]);
        i = i + 1;
        assert(out@ =~= old(out)@ + s@.subrange(0, i as int));
    }
    assert(out@ =~= old(out)@ + s@);
}

/// Encodes a byte string: decimal length, `:`, then the raw bytes.
pub fn string_bencode(vec_u8: &Vec<u8>) -> (r: Vec<u8>)
    ensures
        r@ == enc_str(vec_u8@),
{
    let mut out: Vec<u8> = Vec::new();
    push_decimal(vec_u8.len() as u64, &mut out);
    out.push(58);
    push_bytes(vec_u8.as_slice(), &mut out);
    assert(out@ =~= enc_str(vec_u8@));
    out
}

/// Encodes an integer: `i`, its minimal decimal form, `e`.
pub fn integer_bencode(isize_int: &i64) -> (r: Vec<u8>)
    ensures
        r@ == enc(BValue::Int(*isize_int as int)),
{
    let i: i64 = *isize_int;
    let mut out: Vec<u8> = Vec::new();
    out.push(105);
    if i < 0 {
        out.push(45);
        let wide: i128 = -(i as i128);
        push_decimal(wide as u64, &mut out);
    } else {
        push_decimal(i as u64, &mut out);
    }
    out.push(101);
    assert(out@ =~= enc(BValue::Int(i as int)));
    out
}

/// Encodes each element of a list in order and concatenates the results,
/// wrapped in `l` ... `e`.
pub fn list_bencode(vec_bencode: &Vec<Bencode>) -> (r: Vec<u8>)
    ensures
        r@ == enc(BValue::List(list_view(vec_bencode@))),
    decreases vec_bencode,
{
    let mut out: Vec<u8> = Vec::new();
    out.push(108);
    let mut i: usize = 0;
    while i < vec_bencode.len()
        invariant
            i <= vec_bencode@.len(),
            out@ == seq![108u8] + enc_list(list_view(vec_bencode@.subrange(0, i as int))),
        decreases vec_bencode@.len() - i,
    {
        let e = vec_bencode[i].bencode();
        push_bytes(e.as_slice(), &mut out);
        i = i + 1;
        proof {
            lemma_enc_list_push(list_view(vec_bencode@.subrange(0, i - 1)), vec_bencode@[i - 1]@);
            assert(list_view(vec_bencode@.subrange(0, i as int)) =~= list_view(
                vec_bencode@.subrange(0, i - 1),
            ).push(vec_bencode@[i - 1]@));
            assert(out@ =~= seq![108u8] + enc_list(list_view(vec_bencode@.subrange(0, i as int))));
        }
    }
    out.push(101);
    proof {
        assert(vec_bencode@.subrange(0, vec_bencode@.len() as int) =~= vec_bencode@);
        assert(out@ =~= enc(BValue::List(list_view(vec_bencode@))));
    }
    out
}

/// Appending an element to a list appends its encoding.
proof fn lemma_enc_list_push(l: Seq<BValue>, v: BValue)
    ensures
        enc_list(l.push(v)) == enc_list(l) + enc(v),
    decreases l,
{
    if l.len() == 0 {
        assert(l.push(v)[0] == v);
        assert(l.push(v).drop_first() =~= Seq::<BValue>::empty());
        assert(enc_list(l.push(v).drop_first()) == Seq::<u8>::empty());
        assert(enc_list(l.push(v)) == enc(v) + Seq::<u8>::empty());
        assert(enc_list(l.push(v)) =~= enc_list(l) + enc(v));
    } else {
        assert(l.push(v).drop_first() =~= l.drop_first().push(v));
        lemma_enc_list_push(l.drop_first(), v);
        assert(enc_list(l.push(v)) =~= enc_list(l) + enc(v));
    }
}

/// Appending an entry to a dictionary appends its encoding.
proof fn lemma_enc_pairs_push(d: Seq<(Seq<u8>, BValue)>, k: Seq<u8>, v: BValue)
    ensures
        enc_pairs(d.push((k, v))) == enc_pairs(d) + enc_str(k) + enc(v),
    decreases d,
{
    if d.len() == 0 {
        assert(d.push((k, v))[0] == (k, v));
        assert(d.push((k, v)).drop_first() =~= Seq::<(Seq<u8>, BValue)>::empty());
        assert(enc_pairs(d.push((k, v)).drop_first()) == Seq::<u8>::empty());
        assert(enc_pairs(d.push((k, v))) == enc_str(k) + enc(v) + Seq::<u8>::empty());
        assert(enc_pairs(d.push((k, v))) =~= enc_pairs(d) + enc_str(k) + enc(v));
    } else {
        assert(d.push((k, v)).drop_first() =~= d.drop_first().push((k, v)));
        lemma_enc_pairs_push(d.drop_first(), k, v);
        assert(enc_pairs(d.push((k, v))) =~= enc_pairs(d) + enc_str(k) + enc(v));
    }
}

impl InfoDict {
    /// Encodes the dictionary's entries in the order held, wrapped in
    /// `d` ... `e`; on a sorted dictionary this is the canonical form.
    pub fn bencode(&self) -> (r: Vec<u8>)
        ensures
            r@ == enc(BValue::Dict(self@)),
        decreases self,
    {
        let mut out: Vec<u8> = Vec::new();
        out.push(100);
        let mut i: usize = 0;
        while i < self.entries.len()
            invariant
                i <= self.entries@.len(),
                out@ == seq![100u8] + enc_pairs(pairs_view(self.entries@.subrange(0, i as int))),
            decreases self.entries@.len() - i,
        {
            let ke = string_bencode(&self.entries[i].0);
            push_bytes(ke.as_slice(), &mut out);
            let ve = self.entries[i].1.bencode();
            push_bytes(ve.as_slice(), &mut out);
            i = i + 1;
            proof {
                lemma_enc_pairs_push(
                    pairs_view(self.entries@.subrange(0, i - 1)),
                    self.entries@[i - 1].0@,
                    self.entries@[i - 1].1@,
                );
                assert(pairs_view(self.entries@.subrange(0, i as int)) =~= pairs_view(
                    self.entries@.subrange(0, i - 1),
                ).push((self.entries@[i - 1].0@, self.entries@[i - 1].1@)));
                assert(out@ =~= seq![100u8] + enc_pairs(
                    pairs_view(self.entries@.subrange(0, i as int)),
                ));
            }
        }
        out.push(101);
        proof {
            assert(self.entries@.subrange(0, self.entries@.len() as int) =~= self.entries@);
            assert(out@ =~= enc(BValue::Dict(self@)));
        }
        out
    }
}

impl Bencode {
    /// Encodes the value; the output is the canonical encoding whenever the
    /// value is well-formed.
    pub fn bencode(&self) -> (r: Vec<u8>)
        ensures
            r@ == enc(self@),
        decreases self,
    {
        match self {
            Bencode::String(vec_u8) => string_bencode(vec_u8),
            Bencode::Integer(isize_int) => integer_bencode(isize_int),
            Bencode::List(vec_bencode) => list_bencode(vec_bencode),
            Bencode::Dictionary(info_dict) => info_dict.bencode(),
        }
    }
}

} // verus!
