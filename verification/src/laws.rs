//! The laws relating the decoder and the canonical encoder.
//!
//! [`lemma_round_trip`]: decoding the canonical encoding of any well-formed
//! value gives the value back with nothing left over. [`lemma_parse_wf`]
//! (with [`lemma_canonical_idempotent`]): whatever the decoder accepts is
//! well-formed, so re-encoding it is canonical and decoding that encoding is
//! the identity, even when the source bytes ordered dictionary keys
//! differently. [`lemma_canonical_deterministic`]: two sorted dictionaries
//! with the same key/value bindings are the same sequence, so they encode to
//! byte-identical output.

use vstd::prelude::*;

use crate::decode::all_digits;
use crate::decode::digits_value;
use crate::decode::find_byte;
use crate::decode::int_lit_ok;
use crate::decode::int_lit_value;
use crate::decode::is_digit;
use crate::decode::lemma_find_byte_char;
use crate::decode::lemma_pat_dict;
use crate::decode::lemma_pat_list;
use crate::decode::lemma_pitems_step;
use crate::decode::lemma_ppairs_step;
use crate::decode::lemma_scan_digits_char;
use crate::decode::parse;
use crate::decode::parse_at;
use crate::decode::parse_items;
use crate::decode::parse_pairs;
use crate::decode::pat;
use crate::decode::pitems;
use crate::decode::ppairs;
use crate::decode::scan_digits;
use crate::encode::dec_digits;
use crate::encode::enc;
use crate::encode::enc_list;
use crate::encode::enc_pairs;
use crate::encode::enc_str;
use crate::encode::int_literal;
use crate::value::BValue;
use crate::value::dict_get;
use crate::value::dict_insert;
use crate::value::lemma_lex_irrefl;
use crate::value::lemma_lex_trichotomy;
use crate::value::lex_lt;
use crate::value::sorted_pairs;
use crate::value::wf;

verus! {

/// Decimal rendering writes at least one byte, writes only digits, and reads
/// back as the number it was given.
proof fn lemma_digits_roundtrip(n: nat)
    ensures
        dec_digits(n).len() >= 1,
        all_digits(dec_digits(n)),
        digits_value(dec_digits(n)) == n,
    decreases n,
{
    if n < 10 {
        assert(dec_digits(n) == seq![(48 + n) as u8]);
        assert(dec_digits(n).drop_last() =~= Seq::<u8>::empty());
        assert((48 + n) as u8 == 48 + n);
        assert(dec_digits(n)[0] == (48 + n) as u8);
        assert(dec_digits(n).last() == (48 + n) as u8);
        assert(digits_value(Seq::<u8>::empty()) == 0);
        assert(digits_value(dec_digits(n)) == n);
    } else {
        lemma_digits_roundtrip(n / 10);
        let ds = dec_digits(n / 10);
        let d = (48 + n % 10) as u8;
        assert(dec_digits(n) == ds.push(d));
        assert(ds.push(d).drop_last() =~= ds);
        assert(ds.push(d).last() == d);
        assert(digits_value(dec_digits(n)) == (n / 10) * 10 + n % 10);
        assert(forall|i: int|
            0 <= i < ds.len() ==> #[trigger] ds.push(d)[i] == ds[i]);
        assert(all_digits(dec_digits(n)));
    }
}

/// Every encoding is non-empty and never starts with the terminator byte
/// `e`; a byte-string encoding starts with a digit.
proof fn lemma_enc_shape(v: BValue)
    ensures
        enc(v).len() >= 1,
        enc(v)[0] != 101,
        v matches BValue::Str(b) ==> is_digit(enc(v)[0]),
        v matches BValue::Int(i) ==> enc(v)[0] == 105,
        v matches BValue::List(l) ==> enc(v)[0] == 108,
        v matches BValue::Dict(d) ==> enc(v)[0] == 100,
{
    match v {
        BValue::Str(b) => {
            lemma_digits_roundtrip(b.len());
            assert(enc(v)[0] == dec_digits(b.len())[0]);
            assert(is_digit(dec_digits(b.len())[0]));
        },
        BValue::Int(i) => {
            assert(enc(v)[0] == 105);
        },
        BValue::List(l) => {
            assert(enc(v)[0] == 108);
        },
        BValue::Dict(d) => {
            assert(enc(v)[0] == 100);
        },
    }
}

/// A region of `s` equal to `a + b` splits into a region equal to `a`
/// followed by a region equal to `b`.
proof fn lemma_region_split(s: Seq<u8>, pos: int, a: Seq<u8>, b: Seq<u8>)
    requires
        0 <= pos,
        pos + a.len() + b.len() <= s.len(),
        s.subrange(pos, pos + a.len() + b.len()) == a + b,
    ensures
        s.subrange(pos, pos + a.len() as int) == a,
        s.subrange(pos + a.len() as int, pos + a.len() + b.len()) == b,
{
    let t = a.len() + b.len();
    assert(forall|m: int| pos <= m < pos + t ==> #[trigger] s[m] == (a + b)[m - pos]) by {
        assert(forall|j: int| 0 <= j < t ==> #[trigger] (a + b)[j] == s[pos + j]) by {
            assert(forall|j: int|
                0 <= j < t ==> #[trigger] s.subrange(pos, pos + t)[j] == s[pos + j]);
        }
    }
    assert(s.subrange(pos, pos + a.len() as int) =~= a);
    assert(s.subrange(pos + a.len() as int, pos + t) =~= b);
}

/// Parsing at a region that holds a byte-string encoding returns that byte
/// string and stops right after it.
proof fn lemma_parse_enc_str(b: Seq<u8>, s: Seq<u8>, pos: int)
    requires
        0 <= pos,
        pos + enc_str(b).len() <= s.len(),
        s.subrange(pos, pos + enc_str(b).len() as int) == enc_str(b),
    ensures
        pat(s, pos) == Some((BValue::Str(b), pos + enc_str(b).len())),
{
    lemma_digits_roundtrip(b.len());
    let ds = dec_digits(b.len());
    let dl = ds.len() as int;
    let total = enc_str(b).len() as int;
    assert(enc_str(b) =~= ds + (seq![58u8] + b));
    lemma_region_split(s, pos, ds, seq![58u8] + b);
    lemma_region_split(s, pos + dl, seq![58u8], b);
    assert(forall|i: int| pos <= i < pos + dl ==> is_digit(#[trigger] s[i])) by {
        assert(forall|i: int|
            pos <= i < pos + dl ==> #[trigger] s[i] == s.subrange(pos, pos + dl)[i - pos]);
    }
    assert(s[pos + dl] == s.subrange(pos + dl, pos + dl + 1)[0]);
    assert(s[pos + dl] == 58);
    lemma_scan_digits_char(s, pos, pos + dl);
    assert(scan_digits(s, pos) == pos + dl);
    assert(digits_value(s.subrange(pos, pos + dl)) == b.len());
    assert(s.subrange(pos + dl + 1, pos + dl + 1 + b.len() as int) == b);
    assert(is_digit(s[pos]));
    assert(pat(s, pos) == Some((BValue::Str(b), pos + total)));
}

/// Parsing at a region that holds an integer encoding returns that integer
/// and stops right after it.
proof fn lemma_parse_enc_int(i: int, s: Seq<u8>, pos: int)
    requires
        i64::MIN <= i <= i64::MAX,
        0 <= pos,
        pos + enc(BValue::Int(i)).len() <= s.len(),
        s.subrange(pos, pos + enc(BValue::Int(i)).len() as int) == enc(BValue::Int(i)),
    ensures
        pat(s, pos) == Some((BValue::Int(i), pos + enc(BValue::Int(i)).len())),
{
    let lit = int_literal(i);
    let ll = lit.len() as int;
    let total = enc(BValue::Int(i)).len() as int;
    if i < 0 {
        lemma_digits_roundtrip((-i) as nat);
        assert(lit[0] == 45);
        assert(lit.drop_first() =~= dec_digits((-i) as nat));
        assert(forall|k: int|
            1 <= k < ll ==> #[trigger] lit[k] == lit.drop_first()[k - 1]);
        assert(forall|k: int| 0 <= k < ll ==> lit[k] == 45 || is_digit(#[trigger] lit[k]));
        assert(int_lit_ok(lit));
        assert(int_lit_value(lit) == i);
    } else {
        lemma_digits_roundtrip(i as nat);
        assert(lit == dec_digits(i as nat));
        assert(is_digit(lit[0]));
        assert(forall|k: int| 0 <= k < ll ==> lit[k] == 45 || is_digit(#[trigger] lit[k]));
        assert(int_lit_ok(lit));
        assert(int_lit_value(lit) == i);
    }
    assert(enc(BValue::Int(i)) =~= seq![105u8] + (lit + seq![101u8]));
    lemma_region_split(s, pos, seq![105u8], lit + seq![101u8]);
    lemma_region_split(s, pos + 1, lit, seq![101u8]);
    assert(s[pos] == s.subrange(pos, pos + 1)[0]);
    assert(s[pos] == 105);
    assert(forall|k: int| pos + 1 <= k < pos + 1 + ll ==> #[trigger] s[k] != 101) by {
        assert(forall|k: int|
            pos + 1 <= k < pos + 1 + ll ==> #[trigger] s[k] == s.subrange(
                pos + 1,
                pos + 1 + ll,
            )[k - pos - 1]);
    }
    assert(s[pos + 1 + ll] == s.subrange(pos + 1 + ll, pos + 1 + ll + 1)[0]);
    assert(s[pos + 1 + ll] == 101);
    lemma_find_byte_char(s, pos + 1, pos + 1 + ll, 101);
    assert(find_byte(s, pos + 1, 101) == pos + 1 + ll);
    assert(s.subrange(pos + 1, pos + 1 + ll) == lit);
    assert(pat(s, pos) == Some((BValue::Int(i), pos + total)));
}

/// Inserting a key above every key of a sorted entry sequence appends the
/// pair at the end.
proof fn lemma_dict_insert_append(acc: Seq<(Seq<u8>, BValue)>, k: Seq<u8>, v: BValue)
    requires
        forall|j: int| 0 <= j < acc.len() ==> lex_lt(#[trigger] acc[j].0, k),
    ensures
        dict_insert(acc, k, v) == acc.push((k, v)),
    decreases acc,
{
    if acc.len() == 0 {
        assert(dict_insert(acc, k, v) =~= acc.push((k, v)));
    } else {
        lemma_dict_insert_append(acc.drop_first(), k, v);
        assert(acc.drop_first().push((k, v)) =~= acc.push((k, v)).drop_first());
        assert(dict_insert(acc, k, v) =~= acc.push((k, v)));
    }
}

/// Parsing at a region that holds the encodings of well-formed values
/// followed by the terminator returns exactly those values.
proof fn lemma_items_enc(l: Seq<BValue>, s: Seq<u8>, pos: int)
    requires
        forall|i: int| 0 <= i < l.len() ==> wf(#[trigger] l[i]),
        0 <= pos,
        pos + enc_list(l).len() + 1 <= s.len(),
        s.subrange(pos, pos + enc_list(l).len() + 1) == enc_list(l) + seq![101u8],
    ensures
        pitems(s, pos) == Some((l, pos + enc_list(l).len() + 1)),
    decreases l,
{
    if l.len() == 0 {
        assert(s[pos] == s.subrange(pos, pos + 1)[0]);
        assert(s[pos] == 101);
        assert(pitems(s, pos) == Some((Seq::<BValue>::empty(), pos + 1)));
        assert(l =~= Seq::<BValue>::empty());
    } else {
        let v0 = l[0];
        let rest = l.drop_first();
        let e0 = enc(v0);
        assert(enc_list(l) + seq![101u8] =~= e0 + (enc_list(rest) + seq![101u8]));
        lemma_region_split(s, pos, e0, enc_list(rest) + seq![101u8]);
        lemma_enc_shape(v0);
        assert(s[pos] == s.subrange(pos, pos + e0.len() as int)[0]);
        assert(s[pos] != 101);
        lemma_pitems_step(s, pos);
        lemma_parse_enc(v0, s, pos);
        let p = pos + e0.len() as int;
        lemma_items_enc(rest, s, p);
        assert(seq![v0] + rest =~= l);
        assert(pitems(s, pos) == Some((l, pos + enc_list(l).len() + 1)));
    }
}

/// Parsing at a region that holds the encodings of sorted, well-formed
/// dictionary pairs followed by the terminator appends exactly those pairs
/// to the accumulator.
proof fn lemma_pairs_enc(d: Seq<(Seq<u8>, BValue)>, s: Seq<u8>, pos: int, acc: Seq<
    (Seq<u8>, BValue),
>)
    requires
        sorted_pairs(d),
        forall|i: int| 0 <= i < d.len() ==> wf(#[trigger] d[i].1),
        forall|i: int, j: int|
            0 <= i < acc.len() && 0 <= j < d.len() ==> lex_lt(
                #[trigger] acc[i].0,
                #[trigger] d[j].0,
            ),
        0 <= pos,
        pos + enc_pairs(d).len() + 1 <= s.len(),
        s.subrange(pos, pos + enc_pairs(d).len() + 1) == enc_pairs(d) + seq![101u8],
    ensures
        ppairs(s, pos, acc) == Some((acc + d, pos + enc_pairs(d).len() + 1)),
    decreases d,
{
    if d.len() == 0 {
        assert(s[pos] == s.subrange(pos, pos + 1)[0]);
        assert(s[pos] == 101);
        assert(ppairs(s, pos, acc) == Some((acc, pos + 1)));
        assert(acc + d =~= acc);
    } else {
        let k0 = d[0].0;
        let v0 = d[0].1;
        let rest = d.drop_first();
        let ek = enc_str(k0);
        let ev = enc(v0);
        assert(enc_pairs(d) + seq![101u8] =~= ek + (ev + (enc_pairs(rest) + seq![101u8])));
        lemma_region_split(s, pos, ek, ev + (enc_pairs(rest) + seq![101u8]));
        let p = pos + ek.len() as int;
        lemma_region_split(s, p, ev, enc_pairs(rest) + seq![101u8]);
        let q = p + ev.len() as int;
        lemma_enc_shape(BValue::Str(k0));
        assert(s[pos] == s.subrange(pos, pos + ek.len() as int)[0]);
        assert(s[pos] != 101);
        lemma_ppairs_step(s, pos, acc);
        lemma_parse_enc_str(k0, s, pos);
        lemma_parse_enc(v0, s, p);
        lemma_dict_insert_append(acc, k0, v0);
        let acc2 = acc.push((k0, v0));
        assert(forall|i: int, j: int|
            0 <= i < acc2.len() && 0 <= j < rest.len() ==> lex_lt(
                #[trigger] acc2[i].0,
                #[trigger] rest[j].0,
            )) by {
            assert(forall|j: int| 0 <= j < rest.len() ==> #[trigger] rest[j] == d[j + 1]);
            assert(forall|j: int| 0 <= j < rest.len() ==> lex_lt(k0, #[trigger] rest[j].0));
        }
        assert(forall|i: int| 0 <= i < rest.len() ==> wf(#[trigger] rest[i].1)) by {
            assert(forall|j: int| 0 <= j < rest.len() ==> #[trigger] rest[j] == d[j + 1]);
        }
        assert(sorted_pairs(rest)) by {
            assert(forall|j: int| 0 <= j < rest.len() ==> #[trigger] rest[j] == d[j + 1]);
        }
        lemma_pairs_enc(rest, s, q, acc2);
        assert(acc2 + rest =~= acc + d);
        assert(ppairs(s, pos, acc) == Some((acc + d, pos + enc_pairs(d).len() + 1)));
    }
}

/// Parsing at a region that holds the canonical encoding of a well-formed
/// value returns exactly that value and stops right after its encoding.
proof fn lemma_parse_enc(v: BValue, s: Seq<u8>, pos: int)
    requires
        wf(v),
        0 <= pos,
        pos + enc(v).len() <= s.len(),
        s.subrange(pos, pos + enc(v).len() as int) == enc(v),
    ensures
        pat(s, pos) == Some((v, pos + enc(v).len())),
    decreases v,
{
    match v {
        BValue::Str(b) => {
            lemma_parse_enc_str(b, s, pos);
        },
        BValue::Int(i) => {
            lemma_parse_enc_int(i, s, pos);
        },
        BValue::List(l) => {
            assert(enc(v) =~= seq![108u8] + (enc_list(l) + seq![101u8]));
            lemma_region_split(s, pos, seq![108u8], enc_list(l) + seq![101u8]);
            assert(s[pos] == s.subrange(pos, pos + 1)[0]);
            assert(s[pos] == 108);
            lemma_pat_list(s, pos);
            lemma_items_enc(l, s, pos + 1);
            assert(pat(s, pos) == Some((v, pos + enc(v).len())));
        },
        BValue::Dict(d) => {
            assert(enc(v) =~= seq![100u8] + (enc_pairs(d) + seq![101u8]));
            lemma_region_split(s, pos, seq![100u8], enc_pairs(d) + seq![101u8]);
            assert(s[pos] == s.subrange(pos, pos + 1)[0]);
            assert(s[pos] == 100);
            lemma_pat_dict(s, pos);
            lemma_pairs_enc(d, s, pos + 1, Seq::empty());
            assert(Seq::<(Seq<u8>, BValue)>::empty() + d =~= d);
            assert(pat(s, pos) == Some((v, pos + enc(v).len())));
        },
    }
}

/// Round trip: decoding the canonical encoding of any well-formed value
/// yields that value back, with an empty remainder.
pub proof fn lemma_round_trip(v: BValue)
    requires
        wf(v),
    ensures
        parse(enc(v)) == Some((v, enc(v).len() as int)),
{
    let s = enc(v);
    lemma_enc_shape(v);
    assert(s.subrange(0, s.len() as int) =~= s);
    lemma_parse_enc(v, s, 0);
}

/// Sorted insertion keeps the entries sorted, keeps every value well-formed,
/// and introduces no key besides `k`.
proof fn lemma_dict_insert_wf(d: Seq<(Seq<u8>, BValue)>, k: Seq<u8>, v: BValue)
    requires
        sorted_pairs(d),
        forall|i: int| 0 <= i < d.len() ==> wf(#[trigger] d[i].1),
        wf(v),
    ensures
        sorted_pairs(dict_insert(d, k, v)),
        forall|i: int| 0 <= i < dict_insert(d, k, v).len() ==> wf(#[trigger] dict_insert(d, k, v)[i].1),
        forall|i: int|
            0 <= i < dict_insert(d, k, v).len() ==> (#[trigger] dict_insert(d, k, v)[i].0 == k
                || exists|j: int| 0 <= j < d.len() && d[j].0 == dict_insert(d, k, v)[i].0),
    decreases d,
{
    let r = dict_insert(d, k, v);
    if d.len() == 0 {
        assert(r == seq![(k, v)]);
        assert(r[0].0 == k);
    } else if lex_lt(d[0].0, k) {
        let dd = d.drop_first();
        assert(forall|i: int, j: int|
            0 <= i < j < dd.len() ==> lex_lt(#[trigger] dd[i].0, #[trigger] dd[j].0)) by {
            assert(forall|i: int| 0 <= i < dd.len() ==> #[trigger] dd[i] == d[i + 1]);
        }
        assert(forall|i: int| 0 <= i < dd.len() ==> wf(#[trigger] dd[i].1)) by {
            assert(forall|i: int| 0 <= i < dd.len() ==> #[trigger] dd[i] == d[i + 1]);
        }
        lemma_dict_insert_wf(dd, k, v);
        let rr = dict_insert(dd, k, v);
        assert(r == seq![d[0]] + rr);
        assert(forall|i: int| 0 <= i < rr.len() ==> #[trigger] r[i + 1] == rr[i]);
        assert(r[0] == d[0]);
        assert forall|i: int| 1 <= i < r.len() implies lex_lt(r[0].0, #[trigger] r[i].0) by {
            assert(r[i] == rr[i - 1]);
            if rr[i - 1].0 == k {
            } else {
                let j = choose|j: int| 0 <= j < dd.len() && dd[j].0 == rr[i - 1].0;
                assert(dd[j] == d[j + 1]);
            }
        }
        assert(sorted_pairs(r)) by {
            assert(forall|i: int, j: int|
                1 <= i < j < r.len() ==> lex_lt(#[trigger] r[i].0, #[trigger] r[j].0)) by {
                assert(forall|i: int| 1 <= i < r.len() ==> #[trigger] r[i] == rr[i - 1]);
            }
        }
        assert forall|i: int| 0 <= i < r.len() implies (#[trigger] r[i].0 == k || exists|j: int|
            0 <= j < d.len() && d[j].0 == r[i].0) by {
            if i == 0 {
                assert(d[0].0 == r[i].0);
            } else {
                assert(r[i] == rr[i - 1]);
                if rr[i - 1].0 != k {
                    let j = choose|j: int| 0 <= j < dd.len() && dd[j].0 == rr[i - 1].0;
                    assert(dd[j] == d[j + 1]);
                    assert(d[j + 1].0 == r[i].0);
                }
            }
        }
    } else if d[0].0 == k {
        assert(r == seq![(k, v)] + d.drop_first());
        assert(forall|i: int| 1 <= i < r.len() ==> #[trigger] r[i] == d[i]);
        assert(r[0] == (k, v));
        assert(sorted_pairs(r));
        assert(forall|i: int| 1 <= i < r.len() ==> #[trigger] r[i].0 == d[i].0);
    } else {
        lemma_lex_trichotomy(d[0].0, k);
        assert(lex_lt(k, d[0].0));
        assert(r == seq![(k, v)] + d);
        assert(forall|i: int| 1 <= i < r.len() ==> #[trigger] r[i] == d[i - 1]);
        assert(r[0] == (k, v));
        assert forall|i: int, j: int| 0 <= i < j < r.len() implies lex_lt(
            #[trigger] r[i].0,
            #[trigger] r[j].0,
        ) by {
            if i == 0 {
                if j > 1 {
                    crate::value::lemma_lex_trans(k, d[0].0, d[j - 1].0);
                }
            }
        }
    }
}

/// Whatever any fuel of the value parser accepts is well-formed.
proof fn lemma_parse_at_wf(s: Seq<u8>, pos: int, fuel: nat)
    ensures
        parse_at(s, pos, fuel) matches Some(r) ==> wf(r.0),
    decreases fuel,
{
    if fuel > 0 && 0 <= pos < s.len() {
        if s[pos] == 108 {
            lemma_parse_items_wf(s, pos + 1, (fuel - 1) as nat);
        } else if s[pos] == 100 {
            lemma_parse_pairs_wf(s, pos + 1, Seq::empty(), (fuel - 1) as nat);
        }
    }
}

/// Whatever the element parser accepts is elementwise well-formed.
proof fn lemma_parse_items_wf(s: Seq<u8>, pos: int, fuel: nat)
    ensures
        parse_items(s, pos, fuel) matches Some(r) ==> forall|i: int|
            0 <= i < r.0.len() ==> wf(#[trigger] r.0[i]),
    decreases fuel,
{
    if fuel > 0 && 0 <= pos < s.len() && s[pos] != 101 {
        lemma_parse_at_wf(s, pos, (fuel - 1) as nat);
        if let Some((v, p)) = parse_at(s, pos, (fuel - 1) as nat) {
            lemma_parse_items_wf(s, p, (fuel - 1) as nat);
            if let Some((l, q)) = parse_items(s, p, (fuel - 1) as nat) {
                assert(forall|i: int| 1 <= i < (seq![v] + l).len() ==> #[trigger] (seq![v]
                    + l)[i] == l[i - 1]);
                assert((seq![v] + l)[0] == v);
            }
        }
    }
}

/// Whatever the pair parser accepts, from a sorted well-formed accumulator,
/// is sorted with well-formed values.
proof fn lemma_parse_pairs_wf(s: Seq<u8>, pos: int, acc: Seq<(Seq<u8>, BValue)>, fuel: nat)
    requires
        sorted_pairs(acc),
        forall|i: int| 0 <= i < acc.len() ==> wf(#[trigger] acc[i].1),
    ensures
        parse_pairs(s, pos, acc, fuel) matches Some(r) ==> sorted_pairs(r.0) && forall|i: int|
            0 <= i < r.0.len() ==> wf(#[trigger] r.0[i].1),
    decreases fuel,
{
    if fuel > 0 && 0 <= pos < s.len() && s[pos] != 101 {
        lemma_parse_at_wf(s, pos, (fuel - 1) as nat);
        if let Some((kv, p)) = parse_at(s, pos, (fuel - 1) as nat) {
            if let BValue::Str(k) = kv {
                lemma_parse_at_wf(s, p, (fuel - 1) as nat);
                if let Some((v, q)) = parse_at(s, p, (fuel - 1) as nat) {
                    lemma_dict_insert_wf(acc, k, v);
                    lemma_parse_pairs_wf(s, q, dict_insert(acc, k, v), (fuel - 1) as nat);
                }
            }
        }
    }
}

/// Whatever the decoder accepts is well-formed: integers in range and every
/// dictionary canonically sorted.
pub proof fn lemma_parse_wf(s: Seq<u8>)
    ensures
        parse(s) matches Some(r) ==> wf(r.0),
{
    lemma_parse_at_wf(s, 0, crate::decode::fuel_at(s, 0));
}

/// Canonical-form idempotence: whatever value the decoder produced — from
/// canonical bytes or not — encodes to bytes that decode back to that very
/// value, so a second encode-decode pass changes nothing.
pub proof fn lemma_canonical_idempotent(s: Seq<u8>, v: BValue, n: int)
    requires
        parse(s) == Some((v, n)),
    ensures
        wf(v),
        parse(enc(v)) == Some((v, enc(v).len() as int)),
{
    lemma_parse_wf(s);
    lemma_round_trip(v);
}

/// A key is bound exactly when some entry holds it.
proof fn lemma_dict_get_present(d: Seq<(Seq<u8>, BValue)>, k: Seq<u8>)
    ensures
        (dict_get(d, k) is Some) <==> exists|i: int| 0 <= i < d.len() && (#[trigger] d[i]).0 == k,
    decreases d,
{
    if d.len() > 0 {
        lemma_dict_get_present(d.drop_first(), k);
        if d[0].0 == k {
        } else {
            assert(forall|i: int|
                0 <= i < d.drop_first().len() ==> #[trigger] d.drop_first()[i] == d[i + 1]);
            if dict_get(d, k) is Some {
                let i = choose|i: int|
                    0 <= i < d.drop_first().len() && (#[trigger] d.drop_first()[i]).0 == k;
                assert(d[i + 1].0 == k);
            }
            if exists|i: int| 0 <= i < d.len() && (#[trigger] d[i]).0 == k {
                let i = choose|i: int| 0 <= i < d.len() && (#[trigger] d[i]).0 == k;
                assert(i > 0);
                assert(d.drop_first()[i - 1].0 == k);
            }
        }
    }
}

/// Two sorted entry sequences with the same bindings are the same sequence.
proof fn lemma_sorted_unique(d1: Seq<(Seq<u8>, BValue)>, d2: Seq<(Seq<u8>, BValue)>)
    requires
        sorted_pairs(d1),
        sorted_pairs(d2),
        forall|k: Seq<u8>| #[trigger] dict_get(d1, k) == dict_get(d2, k),
    ensures
        d1 == d2,
    decreases d1.len(),
{
    if d1.len() == 0 && d2.len() == 0 {
        assert(d1 =~= d2);
    } else if d1.len() == 0 {
        assert(dict_get(d2, d2[0].0) == Some(d2[0].1));
        assert(dict_get(d1, d2[0].0) is None);
        assert(false);
    } else if d2.len() == 0 {
        assert(dict_get(d1, d1[0].0) == Some(d1[0].1));
        assert(dict_get(d2, d1[0].0) is None);
        assert(false);
    } else {
        let k1 = d1[0].0;
        let k2 = d2[0].0;
        assert(dict_get(d1, k1) == Some(d1[0].1));
        assert(dict_get(d2, k2) == Some(d2[0].1));
        lemma_dict_get_present(d2, k1);
        lemma_dict_get_present(d1, k2);
        let i2 = choose|i: int| 0 <= i < d2.len() && (#[trigger] d2[i]).0 == k1;
        if k1 != k2 {
            let j1 = choose|i: int| 0 <= i < d1.len() && (#[trigger] d1[i]).0 == k2;
            if i2 > 0 {
                assert(lex_lt(k2, d2[i2].0));
            }
            if j1 > 0 {
                assert(lex_lt(k1, d1[j1].0));
            }
            if i2 == 0 || j1 == 0 {
                assert(false);
            } else {
                crate::value::lemma_lex_trans(k1, k2, k1);
                lemma_lex_irrefl(k1);
                assert(false);
            }
        }
        assert(k1 == k2);
        assert(d1[0].1 == d2[0].1);
        let t1 = d1.drop_first();
        let t2 = d2.drop_first();
        assert(forall|i: int| 0 <= i < t1.len() ==> #[trigger] t1[i] == d1[i + 1]);
        assert(forall|i: int| 0 <= i < t2.len() ==> #[trigger] t2[i] == d2[i + 1]);
        assert(sorted_pairs(t1));
        assert(sorted_pairs(t2));
        assert forall|k: Seq<u8>| #[trigger] dict_get(t1, k) == dict_get(t2, k) by {
            if k == k1 {
                lemma_dict_get_present(t1, k);
                lemma_dict_get_present(t2, k);
                lemma_lex_irrefl(k1);
                assert forall|i: int| 0 <= i < t1.len() implies (#[trigger] t1[i]).0 != k by {
                    assert(lex_lt(k1, d1[i + 1].0));
                    if t1[i].0 == k {
                        lemma_lex_irrefl(k1);
                    }
                }
                assert forall|i: int| 0 <= i < t2.len() implies (#[trigger] t2[i]).0 != k by {
                    assert(lex_lt(k2, d2[i + 1].0));
                    if t2[i].0 == k {
                        lemma_lex_irrefl(k2);
                    }
                }
            } else {
                assert(dict_get(d1, k) == dict_get(t1, k));
                assert(dict_get(d2, k) == dict_get(t2, k));
            }
        }
        lemma_sorted_unique(t1, t2);
        assert(t1.len() == d1.len() - 1);
        assert(t2.len() == d2.len() - 1);
        assert(d1[0] == d2[0]);
        assert(forall|i: int| 1 <= i < d1.len() ==> #[trigger] d1[i] == t1[i - 1]);
        assert(forall|i: int| 1 <= i < d2.len() ==> #[trigger] d2[i] == t2[i - 1]);
        assert(d1 =~= d2);
    }
}

/// Determinism of the canonical encoder: two sorted dictionaries that bind
/// the same keys to the same values — whatever order they were built in —
/// encode to byte-identical output.
pub proof fn lemma_canonical_deterministic(d1: Seq<(Seq<u8>, BValue)>, d2: Seq<(Seq<u8>, BValue)>)
    requires
        sorted_pairs(d1),
        sorted_pairs(d2),
        forall|k: Seq<u8>| #[trigger] dict_get(d1, k) == dict_get(d2, k),
    ensures
        enc(BValue::Dict(d1)) == enc(BValue::Dict(d2)),
{
    lemma_sorted_unique(d1, d2);
}

} // verus!
