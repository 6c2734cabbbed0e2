//! The bencode decoder and its mathematical model.
//!
//! [`parse`] is the reference grammar: a recursive-descent parser over the
//! byte sequence, returning the decoded value and the position where the
//! remainder starts, or nothing when the input is malformed. The recursion
//! of the model is bounded by a fuel argument; [`fuel_at`] supplies enough
//! fuel for any input, and [`lemma_parse_at_fuel`] shows that every amount
//! at or above that bound gives the same answer, so the fuel is an artifact
//! of the definition, not of the grammar.
//!
//! Dictionaries are canonicalized while decoding: each parsed pair is placed
//! at its sorted position ([`dict_insert`]), and a duplicate key keeps the
//! pair seen last.

use vstd::prelude::*;

use crate::value::BValue;
use crate::value::Bencode;
use crate::value::BencodeError;
use crate::value::InfoDict;
use crate::value::dict_insert;
use crate::value::list_view;

verus! {

/// `b` is an ASCII decimal digit.
pub open spec fn is_digit(b: u8) -> bool {
    48 <= b <= 57
}

/// The first position at or after `pos` holding a non-digit, or the length
/// of `s` when digits run to the end.
pub open spec fn scan_digits(s: Seq<u8>, pos: int) -> int
    decreases s.len() - pos when 0 <= pos <= s.len()
{
    if pos >= s.len() {
        pos
    } else if is_digit(s[pos]) {
        scan_digits(s, pos + 1)
    } else {
        pos
    }
}

/// The first position at or after `pos` holding byte `b`, or -1.
pub open spec fn find_byte(s: Seq<u8>, pos: int, b: u8) -> int
    decreases s.len() - pos when 0 <= pos <= s.len()
{
    if pos >= s.len() {
        -1
    } else if s[pos] == b {
        pos
    } else {
        find_byte(s, pos + 1, b)
    }
}

/// The number written by a sequence of decimal digits, most significant
/// first.
pub open spec fn digits_value(ds: Seq<u8>) -> nat
    decreases ds,
{
    if ds.len() == 0 {
        0
    } else {
        digits_value(ds.drop_last()) * 10 + (ds.last() - 48) as nat
    }
}

/// Every byte of `ds` is a decimal digit.
pub open spec fn all_digits(ds: Seq<u8>) -> bool {
    forall|i: int| 0 <= i < ds.len() ==> is_digit(#[trigger] ds[i])
}

/// The bytes between `i` and `e` form a signed decimal literal: an optional
/// single leading `-`, then at least one digit and nothing else.
pub open spec fn int_lit_ok(lit: Seq<u8>) -> bool {
    if lit.len() > 0 && lit[0] == 45 {
        lit.len() >= 2 && all_digits(lit.drop_first())
    } else {
        lit.len() >= 1 && all_digits(lit)
    }
}

/// The value of a signed decimal literal.
pub open spec fn int_lit_value(lit: Seq<u8>) -> int {
    if lit.len() > 0 && lit[0] == 45 {
        -(digits_value(lit.drop_first()) as int)
    } else {
        digits_value(lit) as int
    }
}

/// Fuel that always suffices for a value starting at `pos`.
pub open spec fn fuel_at(s: Seq<u8>, pos: int) -> nat {
    (2 * (s.len() - pos) + 1) as nat
}

/// Fuel that always suffices for an element or pair sequence starting at
/// `pos`.
pub open spec fn fuel_items(s: Seq<u8>, pos: int) -> nat {
    (2 * (s.len() - pos) + 2) as nat
}

/// One value of the grammar, starting at `pos`: on success, its model and
/// the position just past its encoding.
pub open spec fn parse_at(s: Seq<u8>, pos: int, fuel: nat) -> Option<(BValue, int)>
    decreases fuel,
{
    if fuel == 0 {
        None
    } else if pos < 0 || pos >= s.len() {
        None
    } else if is_digit(s[pos]) {
        let j = scan_digits(s, pos);
        if j < s.len() && s[j] == 58 {
            let n = digits_value(s.subrange(pos, j));
            if j + 1 + n <= s.len() {
                Some((BValue::Str(s.subrange(j + 1, j + 1 + n)), j + 1 + n))
            } else {
                None
            }
        } else {
            None
        }
    } else if s[pos] == 105 {
        let e = find_byte(s, pos + 1, 101);
        if e >= 0 {
            let lit = s.subrange(pos + 1, e);
            if int_lit_ok(lit) && i64::MIN <= int_lit_value(lit) <= i64::MAX {
                Some((BValue::Int(int_lit_value(lit)), e + 1))
            } else {
                None
            }
        } else {
            None
        }
    } else if s[pos] == 108 {
        match parse_items(s, pos + 1, (fuel - 1) as nat) {
            Some((l, p)) => Some((BValue::List(l), p)),
            None => None,
        }
    } else if s[pos] == 100 {
        match parse_pairs(s, pos + 1, Seq::empty(), (fuel - 1) as nat) {
            Some((d, p)) => Some((BValue::Dict(d), p)),
            None => None,
        }
    } else {
        None
    }
}

/// List elements from `pos` up to a terminating `e`, in order; on success,
/// their models and the position just past the `e`.
pub open spec fn parse_items(s: Seq<u8>, pos: int, fuel: nat) -> Option<(Seq<BValue>, int)>
    decreases fuel,
{
    if fuel == 0 {
        None
    } else if pos < 0 || pos >= s.len() {
        None
    } else if s[pos] == 101 {
        Some((Seq::empty(), pos + 1))
    } else {
        match parse_at(s, pos, (fuel - 1) as nat) {
            Some((v, p)) => match parse_items(s, p, (fuel - 1) as nat) {
                Some((l, q)) => Some((seq![v] + l, q)),
                None => None,
            },
            None => None,
        }
    }
}

/// Dictionary pairs from `pos` up to a terminating `e`, gathered into `acc`
/// by sorted insertion; a key must parse as a byte string. On success, the
/// entries and the position just past the `e`.
pub open spec fn parse_pairs(
    s: Seq<u8>,
    pos: int,
    acc: Seq<(Seq<u8>, BValue)>,
    fuel: nat,
) -> Option<(Seq<(Seq<u8>, BValue)>, int)>
    decreases fuel,
{
    if fuel == 0 {
        None
    } else if pos < 0 || pos >= s.len() {
        None
    } else if s[pos] == 101 {
        Some((acc, pos + 1))
    } else {
        match parse_at(s, pos, (fuel - 1) as nat) {
            Some((kv, p)) => match kv {
                BValue::Str(k) => match parse_at(s, p, (fuel - 1) as nat) {
                    Some((v, q)) => parse_pairs(s, q, dict_insert(acc, k, v), (fuel - 1) as nat),
                    None => None,
                },
                _ => None,
            },
            None => None,
        }
    }
}

/// One value of the grammar at `pos`, with fuel that always suffices.
pub open spec fn pat(s: Seq<u8>, pos: int) -> Option<(BValue, int)> {
    parse_at(s, pos, fuel_at(s, pos))
}

/// A list's elements at `pos`, with fuel that always suffices.
pub open spec fn pitems(s: Seq<u8>, pos: int) -> Option<(Seq<BValue>, int)> {
    parse_items(s, pos, fuel_items(s, pos))
}

/// A dictionary's pairs at `pos` into `acc`, with fuel that always suffices.
pub open spec fn ppairs(s: Seq<u8>, pos: int, acc: Seq<(Seq<u8>, BValue)>) -> Option<
    (Seq<(Seq<u8>, BValue)>, int),
> {
    parse_pairs(s, pos, acc, fuel_items(s, pos))
}

/// The decoder's model: the value encoded at the front of `s` and the
/// position where the remainder starts, or nothing when `s` is malformed.
pub open spec fn parse(s: Seq<u8>) -> Option<(BValue, int)> {
    pat(s, 0)
}

/// `scan_digits` stays within `[pos, len]`, scans digits only, and stops at
/// the first non-digit.
proof fn lemma_scan_digits(s: Seq<u8>, pos: int)
    requires
        0 <= pos <= s.len(),
    ensures
        pos <= scan_digits(s, pos) <= s.len(),
        forall|i: int| pos <= i < scan_digits(s, pos) ==> is_digit(#[trigger] s[i]),
        scan_digits(s, pos) < s.len() ==> !is_digit(s[scan_digits(s, pos)]),
    decreases s.len() - pos,
{
    if pos < s.len() && is_digit(s[pos]) {
        lemma_scan_digits(s, pos + 1);
    }
}

/// `find_byte` returns -1 or the first position of `b` at or after `pos`.
proof fn lemma_find_byte(s: Seq<u8>, pos: int, b: u8)
    requires
        0 <= pos <= s.len(),
    ensures
        find_byte(s, pos, b) == -1 || pos <= find_byte(s, pos, b) < s.len(),
        find_byte(s, pos, b) >= 0 ==> s[find_byte(s, pos, b)] == b,
        forall|i: int|
            pos <= i < s.len() && (find_byte(s, pos, b) == -1 || i < find_byte(s, pos, b))
                ==> s[i] != b,
    decreases s.len() - pos,
{
    if pos < s.len() && s[pos] != b {
        lemma_find_byte(s, pos + 1, b);
    }
}

/// A successful parse lands strictly past `pos` and within the input.
proof fn lemma_parse_at_pos(s: Seq<u8>, pos: int, fuel: nat)
    ensures
        parse_at(s, pos, fuel) matches Some(r) ==> pos < r.1 <= s.len(),
    decreases fuel,
{
    if fuel > 0 && 0 <= pos < s.len() {
        if is_digit(s[pos]) {
            lemma_scan_digits(s, pos);
        } else if s[pos] == 105 {
            lemma_find_byte(s, pos + 1, 101);
        } else if s[pos] == 108 {
            lemma_parse_items_pos(s, pos + 1, (fuel - 1) as nat);
        } else if s[pos] == 100 {
            lemma_parse_pairs_pos(s, pos + 1, Seq::empty(), (fuel - 1) as nat);
        }
    }
}

/// A successful element-sequence parse lands strictly past `pos` and within
/// the input.
proof fn lemma_parse_items_pos(s: Seq<u8>, pos: int, fuel: nat)
    ensures
        parse_items(s, pos, fuel) matches Some(r) ==> pos < r.1 <= s.len(),
    decreases fuel,
{
    if fuel > 0 && 0 <= pos < s.len() && s[pos] != 101 {
        lemma_parse_at_pos(s, pos, (fuel - 1) as nat);
        if let Some((v, p)) = parse_at(s, pos, (fuel - 1) as nat) {
            lemma_parse_items_pos(s, p, (fuel - 1) as nat);
        }
    }
}

/// A successful pair-sequence parse lands strictly past `pos` and within
/// the input.
proof fn lemma_parse_pairs_pos(s: Seq<u8>, pos: int, acc: Seq<(Seq<u8>, BValue)>, fuel: nat)
    ensures
        parse_pairs(s, pos, acc, fuel) matches Some(r) ==> pos < r.1 <= s.len(),
    decreases fuel,
{
    if fuel > 0 && 0 <= pos < s.len() && s[pos] != 101 {
        lemma_parse_at_pos(s, pos, (fuel - 1) as nat);
        if let Some((kv, p)) = parse_at(s, pos, (fuel - 1) as nat) {
            if let BValue::Str(k) = kv {
                lemma_parse_at_pos(s, p, (fuel - 1) as nat);
                if let Some((v, q)) = parse_at(s, p, (fuel - 1) as nat) {
                    lemma_parse_pairs_pos(s, q, dict_insert(acc, k, v), (fuel - 1) as nat);
                }
            }
        }
    }
}

/// Any fuel at or above [`fuel_at`] gives the same parse.
proof fn lemma_parse_at_fuel(s: Seq<u8>, pos: int, f1: nat, f2: nat)
    requires
        f1 >= fuel_at(s, pos),
        f2 >= fuel_at(s, pos),
    ensures
        parse_at(s, pos, f1) == parse_at(s, pos, f2),
    decreases f1 + f2,
{
    if 0 <= pos < s.len() {
        if s[pos] == 108 || s[pos] == 100 {
            lemma_parse_items_fuel(s, pos + 1, (f1 - 1) as nat, (f2 - 1) as nat);
            lemma_parse_pairs_fuel(s, pos + 1, Seq::empty(), (f1 - 1) as nat, (f2 - 1) as nat);
        }
    }
}

/// Any fuel at or above [`fuel_items`] gives the same element-sequence
/// parse.
proof fn lemma_parse_items_fuel(s: Seq<u8>, pos: int, f1: nat, f2: nat)
    requires
        f1 >= fuel_items(s, pos),
        f2 >= fuel_items(s, pos),
    ensures
        parse_items(s, pos, f1) == parse_items(s, pos, f2),
    decreases f1 + f2,
{
    if 0 <= pos < s.len() && s[pos] != 101 {
        lemma_parse_at_fuel(s, pos, (f1 - 1) as nat, (f2 - 1) as nat);
        lemma_parse_at_pos(s, pos, (f1 - 1) as nat);
        if let Some((v, p)) = parse_at(s, pos, (f1 - 1) as nat) {
            lemma_parse_items_fuel(s, p, (f1 - 1) as nat, (f2 - 1) as nat);
        }
    }
}

/// Any fuel at or above [`fuel_items`] gives the same pair-sequence parse.
proof fn lemma_parse_pairs_fuel(
    s: Seq<u8>,
    pos: int,
    acc: Seq<(Seq<u8>, BValue)>,
    f1: nat,
    f2: nat,
)
    requires
        f1 >= fuel_items(s, pos),
        f2 >= fuel_items(s, pos),
    ensures
        parse_pairs(s, pos, acc, f1) == parse_pairs(s, pos, acc, f2),
    decreases f1 + f2,
{
    if 0 <= pos < s.len() && s[pos] != 101 {
        lemma_parse_at_fuel(s, pos, (f1 - 1) as nat, (f2 - 1) as nat);
        lemma_parse_at_pos(s, pos, (f1 - 1) as nat);
        if let Some((kv, p)) = parse_at(s, pos, (f1 - 1) as nat) {
            if let BValue::Str(k) = kv {
                lemma_parse_at_fuel(s, p, (f1 - 1) as nat, (f2 - 1) as nat);
                lemma_parse_at_pos(s, p, (f1 - 1) as nat);
                if let Some((v, q)) = parse_at(s, p, (f1 - 1) as nat) {
                    lemma_parse_pairs_fuel(s, q, dict_insert(acc, k, v), (f1 - 1) as nat, (f2 - 1) as nat);
                }
            }
        }
    }
}

/// Unfolds [`pat`] on a list head in terms of [`pitems`].
pub proof fn lemma_pat_list(s: Seq<u8>, pos: int)
    requires
        0 <= pos < s.len(),
        s[pos] == 108,
    ensures
        pat(s, pos) == match pitems(s, pos + 1) {
            Some((l, p)) => Some((BValue::List(l), p)),
            None => None::<(BValue, int)>,
        },
{
    lemma_parse_items_fuel(s, pos + 1, (fuel_at(s, pos) - 1) as nat, fuel_items(s, pos + 1));
}

/// Unfolds [`pat`] on a dictionary head in terms of [`ppairs`].
pub proof fn lemma_pat_dict(s: Seq<u8>, pos: int)
    requires
        0 <= pos < s.len(),
        s[pos] == 100,
    ensures
        pat(s, pos) == match ppairs(s, pos + 1, Seq::empty()) {
            Some((d, p)) => Some((BValue::Dict(d), p)),
            None => None::<(BValue, int)>,
        },
{
    lemma_parse_pairs_fuel(
        s,
        pos + 1,
        Seq::empty(),
        (fuel_at(s, pos) - 1) as nat,
        fuel_items(s, pos + 1),
    );
}

/// Unfolds [`pitems`] one element: the element at `pos`, then the rest.
pub proof fn lemma_pitems_step(s: Seq<u8>, pos: int)
    requires
        0 <= pos < s.len(),
        s[pos] != 101,
    ensures
        pitems(s, pos) == match pat(s, pos) {
            Some((v, p)) => match pitems(s, p) {
                Some((l, q)) => Some((seq![v] + l, q)),
                None => None::<(Seq<BValue>, int)>,
            },
            None => None::<(Seq<BValue>, int)>,
        },
{
    let f = (fuel_items(s, pos) - 1) as nat;
    lemma_parse_at_fuel(s, pos, f, fuel_at(s, pos));
    lemma_parse_at_pos(s, pos, f);
    if let Some((v, p)) = parse_at(s, pos, f) {
        lemma_parse_items_fuel(s, p, f, fuel_items(s, p));
    }
}

/// Unfolds [`ppairs`] one pair: the key at `pos` (a byte string), its value,
/// then the rest with the pair inserted.
pub proof fn lemma_ppairs_step(s: Seq<u8>, pos: int, acc: Seq<(Seq<u8>, BValue)>)
    requires
        0 <= pos < s.len(),
        s[pos] != 101,
    ensures
        ppairs(s, pos, acc) == match pat(s, pos) {
            Some((kv, p)) => match kv {
                BValue::Str(k) => match pat(s, p) {
                    Some((v, q)) => ppairs(s, q, dict_insert(acc, k, v)),
                    None => None::<(Seq<(Seq<u8>, BValue)>, int)>,
                },
                _ => None::<(Seq<(Seq<u8>, BValue)>, int)>,
            },
            None => None::<(Seq<(Seq<u8>, BValue)>, int)>,
        },
{
    let f = (fuel_items(s, pos) - 1) as nat;
    lemma_parse_at_fuel(s, pos, f, fuel_at(s, pos));
    lemma_parse_at_pos(s, pos, f);
    if let Some((kv, p)) = parse_at(s, pos, f) {
        if let BValue::Str(k) = kv {
            lemma_parse_at_fuel(s, p, f, fuel_at(s, p));
            lemma_parse_at_pos(s, p, f);
            if let Some((v, q)) = parse_at(s, p, f) {
                lemma_parse_pairs_fuel(s, q, dict_insert(acc, k, v), f, fuel_items(s, q));
            }
        }
    }
}

/// `n` cut off at `c`.
spec fn capped(n: nat, c: nat) -> nat {
    if n > c {
        c
    } else {
        n
    }
}

/// A digit run from `pos` to `j` followed by end-of-input or a non-digit
/// pins down `scan_digits`.
pub proof fn lemma_scan_digits_char(s: Seq<u8>, pos: int, j: int)
    requires
        0 <= pos <= j <= s.len(),
        forall|i: int| pos <= i < j ==> is_digit(#[trigger] s[i]),
        j < s.len() ==> !is_digit(s[j]),
    ensures
        scan_digits(s, pos) == j,
    decreases j - pos,
{
    if pos < j {
        lemma_scan_digits_char(s, pos + 1, j);
    }
}

/// A run without `b` from `pos` to `k` shifts `find_byte` forward to `k`.
pub proof fn lemma_find_byte_char(s: Seq<u8>, pos: int, k: int, b: u8)
    requires
        0 <= pos <= k <= s.len(),
        forall|i: int| pos <= i < k ==> s[i] != b,
    ensures
        k == s.len() ==> find_byte(s, pos, b) == -1,
        k < s.len() && s[k] == b ==> find_byte(s, pos, b) == k,
    decreases k - pos,
{
    if pos < k {
        lemma_find_byte_char(s, pos + 1, k, b);
    }
}

/// Extending a digit run by one digit multiplies its value by ten and adds
/// the digit.
pub proof fn lemma_digits_value_step(s: Seq<u8>, pos: int, j: int)
    requires
        0 <= pos <= j < s.len(),
    ensures
        digits_value(s.subrange(pos, j + 1)) == digits_value(s.subrange(pos, j)) * 10 + (s[j]
            - 48) as nat,
{
    assert(s.subrange(pos, j + 1).drop_last() =~= s.subrange(pos, j));
    assert(s.subrange(pos, j + 1).last() == s[j]);
}

/// Decodes a byte string at `pos`: the decimal length, `:`, then that many
/// payload bytes.
fn decode_str(input: &[u8], pos: usize) -> (r: Result<(Bencode, usize), BencodeError>)
    requires
        pos < input@.len(),
        is_digit(input@[pos as int]),
    ensures
        match r {
            Ok((v, p)) => pat(input@, pos as int) == Some((v@, p as int)) && pos < p
                <= input@.len(),
            Err(e) => pat(input@, pos as int) is None && e == BencodeError::MalformedInput,
        },
{
    let ghost s = input@;
    let len = input.len();
    let ghost cap = s.len() + 1;
    let mut j = pos;
    let mut acc: u128 = 0;
    proof {
        assert(s.subrange(pos as int, pos as int) =~= Seq::<u8>::empty());
    }
    while j < len && 48 <= input[j] && input[j] <= 57
        invariant
            pos <= j <= len,
            len == s.len(),
            input@ == s,
            forall|i: int| pos <= i < j ==> is_digit(#[trigger] s[i]),
            cap == s.len() + 1,
            acc as nat == capped(digits_value(s.subrange(pos as int, j as int)), cap),
            acc <= cap,
        decreases len - j,
    {
        let d = input[j] - 48;
        acc = acc * 10 + d as u128;
        if acc > len as u128 {
            acc = len as u128 + 1;
        }
        proof {
            lemma_digits_value_step(s, pos as int, j as int);
        }
        j = j + 1;
    }
    proof {
        lemma_scan_digits_char(s, pos as int, j as int);
    }
    if j >= len {
        return Err(BencodeError::MalformedInput);
    }
    if input[j] != 58 {
        return Err(BencodeError::MalformedInput);
    }
    let rem = len - (j + 1);
    if acc > rem as u128 {
        return Err(BencodeError::MalformedInput);
    }
    let n = acc as usize;
    let payload = vstd::slice::slice_to_vec(vstd::slice::slice_subrange(input, j + 1, j + 1 + n));
    Ok((Bencode::String(payload), j + 1 + n))
}

/// Decodes an integer at `pos`: `i`, an optional `-`, decimal digits, `e`;
/// a literal outside the `i64` range is malformed input.
fn decode_int(input: &[u8], pos: usize) -> (r: Result<(Bencode, usize), BencodeError>)
    requires
        pos < input@.len(),
        input@[pos as int] == 105,
    ensures
        match r {
            Ok((v, p)) => pat(input@, pos as int) == Some((v@, p as int)) && pos < p
                <= input@.len(),
            Err(e) => pat(input@, pos as int) is None && e == BencodeError::MalformedInput,
        },
{
    let ghost s = input@;
    let len = input.len();
    let mut k = pos + 1;
    while k < len && input[k] != 101
        invariant
            pos + 1 <= k <= len,
            len == s.len(),
            input@ == s,
            forall|i: int| pos + 1 <= i < k ==> s[i] != 101,
        decreases len - k,
    {
        k = k + 1;
    }
    proof {
        lemma_find_byte_char(s, pos + 1, k as int, 101);
    }
    if k >= len {
        return Err(BencodeError::MalformedInput);
    }
    let e = k;
    let ghost lit = s.subrange(pos + 1, e as int);
    let lit_start = pos + 1;
    let (dstart, neg): (usize, bool) = if input[lit_start] == 45 {
        (lit_start + 1, true)
    } else {
        (lit_start, false)
    };
    if dstart >= e {
        return Err(BencodeError::MalformedInput);
    }
    let ghost big: nat = 9223372036854775809nat;
    let mut k2 = dstart;
    let mut acc: u128 = 0;
    proof {
        assert(s.subrange(dstart as int, dstart as int) =~= Seq::<u8>::empty());
    }
    while k2 < e
        invariant
            dstart <= k2 <= e < len,
            len == s.len(),
            input@ == s,
            dstart < e,
            pos + 1 <= dstart,
            pos < len,
            s[pos as int] == 105,
            find_byte(s, pos + 1, 101) == e,
            lit == s.subrange(pos + 1, e as int),
            neg == (s[pos + 1] == 45),
            dstart == if neg { pos + 2int } else { pos + 1int },
            big == 9223372036854775809nat,
            forall|i: int| dstart <= i < k2 ==> is_digit(#[trigger] s[i]),
            acc as nat == capped(digits_value(s.subrange(dstart as int, k2 as int)), big),
            acc <= big,
        decreases e - k2,
    {
        let b = input[k2];
        if b < 48 || b > 57 {
            proof {
                if neg {
                    assert(lit.drop_first() =~= s.subrange(pos + 2, e as int));
                    assert(lit.drop_first()[k2 - pos - 2] == s[k2 as int]);
                } else {
                    assert(lit[k2 - pos - 1] == s[k2 as int]);
                }
                assert(!int_lit_ok(lit));
            }
            return Err(BencodeError::MalformedInput);
        }
        acc = acc * 10 + (b - 48) as u128;
        if acc > 9223372036854775809u128 {
            acc = 9223372036854775809u128;
        }
        proof {
            lemma_digits_value_step(s, dstart as int, k2 as int);
        }
        k2 = k2 + 1;
    }
    proof {
        if neg {
            assert(lit.drop_first() =~= s.subrange(dstart as int, e as int));
        } else {
            assert(lit =~= s.subrange(dstart as int, e as int));
        }
        assert(int_lit_ok(lit));
    }
    if neg {
        if acc > 9223372036854775808u128 {
            return Err(BencodeError::MalformedInput);
        }
        let val: i64 = (-(acc as i128)) as i64;
        assert(val as int == int_lit_value(lit));
        Ok((Bencode::Integer(val), e + 1))
    } else {
        if acc > 9223372036854775807u128 {
            return Err(BencodeError::MalformedInput);
        }
        let val: i64 = acc as i64;
        assert(val as int == int_lit_value(lit));
        Ok((Bencode::Integer(val), e + 1))
    }
}

/// Glues a decoded prefix onto the model of the rest of a list.
pub open spec fn items_prepend(a: Seq<BValue>, o: Option<(Seq<BValue>, int)>) -> Option<
    (Seq<BValue>, int),
> {
    match o {
        Some((l, p)) => Some((a + l, p)),
        None => None,
    }
}

/// Decodes one bencoded value starting at byte `pos` of `input`. Returns the
/// value and the position where the remainder starts; a byte stream that does
/// not match the grammar at `pos` is [`BencodeError::MalformedInput`].
pub fn decode_at(input: &[u8], pos: usize) -> (r: Result<(Bencode, usize), BencodeError>)
    requires
        pos <= input@.len(),
    ensures
        match r {
            Ok((v, p)) => pat(input@, pos as int) == Some((v@, p as int)) && pos < p
                <= input@.len(),
            Err(e) => pat(input@, pos as int) is None && e == BencodeError::MalformedInput,
        },
    decreases input@.len() - pos,
{
    let ghost s = input@;
    let len = input.len();
    if pos >= len {
        return Err(BencodeError::MalformedInput);
    }
    let b = input[pos];
    if 48 <= b && b <= 57 {
        decode_str(input, pos)
    } else if b == 105 {
        decode_int(input, pos)
    } else if b == 108 {
        let mut items: Vec<Bencode> = Vec::new();
        let mut cur = pos + 1;
        proof {
            assert(list_view(items@) =~= Seq::<BValue>::empty());
            assert(items_prepend(list_view(items@), pitems(s, cur as int)) == pitems(
                s,
                pos + 1,
            ));
        }
        loop
            invariant
                pos < cur <= len,
                len == s.len(),
                input@ == s,
                pos < s.len(),
                s[pos as int] == 108,
                items_prepend(list_view(items@), pitems(s, cur as int)) == pitems(s, pos + 1),
            decreases len - cur,
        {
            if cur >= len {
                proof {
                    lemma_pat_list(s, pos as int);
                }
                return Err(BencodeError::MalformedInput);
            }
            if input[cur] == 101 {
                proof {
                    lemma_pat_list(s, pos as int);
                    assert(list_view(items@) + Seq::<BValue>::empty() =~= list_view(items@));
                }
                return Ok((Bencode::List(items), cur + 1));
            }
            proof {
                lemma_pitems_step(s, cur as int);
            }
            match decode_at(input, cur) {
                Ok((v, p)) => {
                    let ghost a = list_view(items@);
                    let ghost vv = v@;
                    items.push(v);
                    proof {
                        assert(list_view(items@) =~= a.push(vv));
                        if let Some((l, q)) = pitems(s, p as int) {
                            assert(a + (seq![vv] + l) =~= a.push(vv) + l);
                        }
                    }
                    cur = p;
                },
                Err(err) => {
                    proof {
                        lemma_pat_list(s, pos as int);
                    }
                    return Err(err);
                },
            }
        }
    } else if b == 100 {
        let mut dict = InfoDict::new();
        let mut cur = pos + 1;
        loop
            invariant
                pos < cur <= len,
                len == s.len(),
                input@ == s,
                pos < s.len(),
                s[pos as int] == 100,
                ppairs(s, cur as int, dict@) == ppairs(s, pos + 1, Seq::empty()),
            decreases len - cur,
        {
            if cur >= len {
                proof {
                    lemma_pat_dict(s, pos as int);
                }
                return Err(BencodeError::MalformedInput);
            }
            if input[cur] == 101 {
                proof {
                    lemma_pat_dict(s, pos as int);
                }
                return Ok((Bencode::Dictionary(dict), cur + 1));
            }
            proof {
                lemma_ppairs_step(s, cur as int, dict@);
            }
            match decode_at(input, cur) {
                Ok((kv, p)) => match kv {
                    Bencode::String(k) => match decode_at(input, p) {
                        Ok((v, q)) => {
                            dict.insert(k, v);
                            cur = q;
                        },
                        Err(err) => {
                            proof {
                                lemma_pat_dict(s, pos as int);
                            }
                            return Err(err);
                        },
                    },
                    _ => {
                        proof {
                            lemma_pat_dict(s, pos as int);
                        }
                        return Err(BencodeError::MalformedInput);
                    },
                },
                Err(err) => {
                    proof {
                        lemma_pat_dict(s, pos as int);
                    }
                    return Err(err);
                },
            }
        }
    } else {
        Err(BencodeError::MalformedInput)
    }
}

/// Decodes the bencoded value at the front of `encoded_value`. On success
/// the returned position is where the unconsumed remainder starts, so a
/// fully consumed input returns the input's length. Fails with
/// [`BencodeError::MalformedInput`] exactly when the bytes do not match the
/// grammar: an empty buffer, an unsupported leading byte, a bad length
/// prefix, a missing delimiter, a non-digit in a numeric field, an integer
/// outside the `i64` range, an unterminated list or dictionary, a truncated
/// payload, or a non-string dictionary key.
pub fn decode_bencoded_value(encoded_value: &[u8]) -> (r: Result<(Bencode, usize), BencodeError>)
    ensures
        match r {
            Ok((v, n)) => parse(encoded_value@) == Some((v@, n as int)) && 0 < n
                <= encoded_value@.len(),
            Err(e) => parse(encoded_value@) is None && e == BencodeError::MalformedInput,
        },
{
    decode_at(encoded_value, 0)
}

} // verus!
