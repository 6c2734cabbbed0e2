//! The bencode value model: a byte string, a signed integer, a list, or a
//! dictionary with byte-string keys held in ascending byte order.

use vstd::prelude::*;

verus! {

broadcast use vstd::std_specs::vec::group_vec_axioms;

/// A bencoded value. A `Dictionary` holds its entries through [`InfoDict`],
/// which keeps the keys in strictly ascending byte-lexicographic order, so a
/// well-formed tree has exactly one encoding.
#[derive(Debug, PartialEq, Eq)]
pub enum Bencode {
    String(Vec<u8>),
    Integer(i64),
    List(Vec<Bencode>),
    Dictionary(InfoDict),
}

/// A bencode dictionary: key/value pairs whose keys are raw byte strings.
/// Every constructor in this crate keeps the keys in strictly ascending
/// byte-lexicographic order (see [`sorted_pairs`]); code that fills the field
/// directly is responsible for the same.
#[derive(Debug, PartialEq, Eq)]
pub struct InfoDict {
    pub entries: Vec<(Vec<u8>, Bencode)>,
}

/// The mathematical model of a [`Bencode`] tree.
pub enum BValue {
    Str(Seq<u8>),
    Int(int),
    List(Seq<BValue>),
    Dict(Seq<(Seq<u8>, BValue)>),
}

/// The models of the elements of a list of values.
pub open spec fn list_view(l: Seq<Bencode>) -> Seq<BValue>
    decreases l,
{
    Seq::new(l.len(), |i: int| if 0 <= i < l.len() { l[i]@ } else { BValue::Int(0) })
}

/// The models of the entries of a dictionary.
pub open spec fn pairs_view(es: Seq<(Vec<u8>, Bencode)>) -> Seq<(Seq<u8>, BValue)>
    decreases es,
{
    Seq::new(
        es.len(),
        |i: int|
            if 0 <= i < es.len() {
                (es[i].0@, es[i].1@)
            } else {
                (Seq::empty(), BValue::Int(0))
            },
    )
}

impl View for Bencode {
    type V = BValue;

    open spec fn view(&self) -> BValue
        decreases self,
    {
        match self {
            Bencode::String(s) => BValue::Str(s@),
            Bencode::Integer(i) => BValue::Int(*i as int),
            Bencode::List(l) => BValue::List(list_view(l@)),
            Bencode::Dictionary(d) => BValue::Dict(pairs_view(d.entries@)),
        }
    }
}

impl View for InfoDict {
    type V = Seq<(Seq<u8>, BValue)>;

    open spec fn view(&self) -> Seq<(Seq<u8>, BValue)> {
        pairs_view(self.entries@)
    }
}

/// Strict byte-lexicographic order on byte strings: a proper prefix comes
/// first, otherwise the first differing byte decides by unsigned comparison.
pub open spec fn lex_lt(a: Seq<u8>, b: Seq<u8>) -> bool
    decreases a.len(),
{
    if b.len() == 0 {
        false
    } else if a.len() == 0 {
        true
    } else if a[0] < b[0] {
        true
    } else if a[0] > b[0] {
        false
    } else {
        lex_lt(a.drop_first(), b.drop_first())
    }
}

/// The keys of `d` are in strictly ascending byte-lexicographic order
/// (hence unique).
pub open spec fn sorted_pairs(d: Seq<(Seq<u8>, BValue)>) -> bool {
    forall|i: int, j: int| 0 <= i < j < d.len() ==> lex_lt(#[trigger] d[i].0, #[trigger] d[j].0)
}

/// Well-formedness of a model value: every integer fits the machine integer
/// the executable tree stores, and every dictionary is sorted; recursively.
pub open spec fn wf(v: BValue) -> bool
    decreases v,
{
    match v {
        BValue::Str(_) => true,
        BValue::Int(i) => i64::MIN <= i <= i64::MAX,
        BValue::List(l) => forall|i: int| 0 <= i < l.len() ==> wf(#[trigger] l[i]),
        BValue::Dict(d) => sorted_pairs(d) && forall|i: int|
            0 <= i < d.len() ==> wf(#[trigger] d[i].1),
    }
}

/// The value bound to key `k` in `d`, if any.
pub open spec fn dict_get(d: Seq<(Seq<u8>, BValue)>, k: Seq<u8>) -> Option<BValue>
    decreases d,
{
    if d.len() == 0 {
        None
    } else if d[0].0 == k {
        Some(d[0].1)
    } else {
        dict_get(d.drop_first(), k)
    }
}

/// Binds `k` to `v` in the sorted entry sequence `d`: the new pair lands at
/// its ordered position, replacing the old pair when the key is present
/// (so a later binding of the same key wins).
pub open spec fn dict_insert(d: Seq<(Seq<u8>, BValue)>, k: Seq<u8>, v: BValue) -> Seq<
    (Seq<u8>, BValue),
>
    decreases d,
{
    if d.len() == 0 {
        seq![(k, v)]
    } else if lex_lt(d[0].0, k) {
        seq![d[0]] + dict_insert(d.drop_first(), k, v)
    } else if d[0].0 == k {
        seq![(k, v)] + d.drop_first()
    } else {
        seq![(k, v)] + d
    }
}

/// The dictionary that binding every pair of `pairs` in order onto `acc`
/// produces; a later pair with the same key wins.
pub open spec fn dict_of_pairs(
    acc: Seq<(Seq<u8>, BValue)>,
    pairs: Seq<(Seq<u8>, BValue)>,
) -> Seq<(Seq<u8>, BValue)>
    decreases pairs,
{
    if pairs.len() == 0 {
        acc
    } else {
        dict_of_pairs(dict_insert(acc, pairs[0].0, pairs[0].1), pairs.drop_first())
    }
}

/// No byte string is below itself.
pub proof fn lemma_lex_irrefl(a: Seq<u8>)
    ensures
        !lex_lt(a, a),
    decreases a.len(),
{
    if a.len() > 0 {
        lemma_lex_irrefl(a.drop_first());
    }
}

/// Byte-lexicographic order is total: two byte strings are ordered one way,
/// the other way, or equal.
pub proof fn lemma_lex_trichotomy(a: Seq<u8>, b: Seq<u8>)
    ensures
        lex_lt(a, b) || lex_lt(b, a) || a == b,
    decreases a.len(),
{
    if a.len() > 0 && b.len() > 0 && a[0] == b[0] {
        lemma_lex_trichotomy(a.drop_first(), b.drop_first());
        if a.drop_first() == b.drop_first() {
            assert(a.drop_first().len() == a.len() - 1);
            assert(b.drop_first().len() == b.len() - 1);
            assert(forall|i: int| 1 <= i < a.len() ==> #[trigger] a[i] == a.drop_first()[i - 1]);
            assert(forall|i: int| 1 <= i < b.len() ==> #[trigger] b[i] == b.drop_first()[i - 1]);
            assert(a =~= b);
        }
    }
}

/// Byte-lexicographic order is transitive.
pub proof fn lemma_lex_trans(a: Seq<u8>, b: Seq<u8>, c: Seq<u8>)
    requires
        lex_lt(a, b),
        lex_lt(b, c),
    ensures
        lex_lt(a, c),
    decreases a.len(),
{
    if a.len() > 0 && b.len() > 0 && c.len() > 0 {
        if a[0] == b[0] && b[0] == c[0] {
            lemma_lex_trans(a.drop_first(), b.drop_first(), c.drop_first());
        }
    }
}

/// How decoding or projecting a bencoded value can fail.
#[derive(Clone, Copy, Debug, PartialEq, Eq, Structural)]
pub enum BencodeError {
    /// The byte stream does not match the bencode grammar.
    MalformedInput,
    /// A byte string is not valid UTF-8 where text is required for display.
    NonUtf8Payload,
}

/// Byte-lexicographic comparison, `a < b`.
pub fn lex_lt_bytes(a: &Vec<u8>, b: &Vec<u8>) -> (r: bool)
    ensures
        r == lex_lt(a@, b@),
{
    let mut i: usize = 0;
    proof {
        assert(a@.skip(0) =~= a@);
        assert(b@.skip(0) =~= b@);
    }
    while i < a.len() && i < b.len()
        invariant
            i <= a@.len(),
            i <= b@.len(),
            forall|j: int| 0 <= j < i ==> a@[j] == b@[j],
            lex_lt(a@, b@) == lex_lt(a@.skip(i as int), b@.skip(i as int)),
        decreases a@.len() - i,
    {
        if a[i] < b[i] {
            assert(lex_lt(a@.skip(i as int), b@.skip(i as int)));
            return true;
        }
        if a[i] > b[i] {
            assert(!lex_lt(a@.skip(i as int), b@.skip(i as int)));
            return false;
        }
        i = i + 1;
        proof {
            assert(a@.skip(i - 1).drop_first() =~= a@.skip(i as int));
            assert(b@.skip(i - 1).drop_first() =~= b@.skip(i as int));
        }
    }
    proof {
        if i == b@.len() {
            assert(b@.skip(i as int).len() == 0);
            assert(!lex_lt(a@.skip(i as int), b@.skip(i as int)));
        } else {
            assert(a@.skip(i as int).len() == 0);
            assert(b@.skip(i as int).len() > 0);
            assert(lex_lt(a@.skip(i as int), b@.skip(i as int)));
        }
    }
    a.len() < b.len()
}

/// Byte-for-byte equality.
pub fn bytes_eq(a: &[u8], b: &[u8]) -> (r: bool)
    ensures
        r == (a@ == b@),
{
    if a.len() != b.len() {
        return false;
    }
    let mut i: usize = 0;
    while i < a.len()
        invariant
            i <= a@.len(),
            a@.len() == b@.len(),
            forall|j: int| 0 <= j < i ==> a@[j] == b@[j],
        decreases a@.len() - i,
    {
        if a[i] != b[i] {
            return false;
        }
        i = i + 1;
    }
    proof {
        assert(a@ =~= b@);
    }
    true
}

/// Where [`dict_insert`] places the new pair, given the first position whose
/// key is not below `k`: at the end, over an equal key, or splicing before a
/// greater key.
proof fn lemma_dict_insert_at(d: Seq<(Seq<u8>, BValue)>, k: Seq<u8>, v: BValue, i: int)
    requires
        0 <= i <= d.len(),
        forall|j: int| 0 <= j < i ==> lex_lt(#[trigger] d[j].0, k),
        i < d.len() ==> !lex_lt(d[i].0, k),
    ensures
        i == d.len() ==> dict_insert(d, k, v) == d.push((k, v)),
        i < d.len() && d[i].0 == k ==> dict_insert(d, k, v) == d.update(i, (k, v)),
        i < d.len() && d[i].0 != k ==> dict_insert(d, k, v) == d.subrange(0, i) + seq![(k, v)]
            + d.subrange(i, d.len() as int),
    decreases d.len(),
{
    if d.len() == 0 {
        assert(dict_insert(d, k, v) =~= d.push((k, v)));
    } else if i == 0 {
        if d[0].0 == k {
            assert(dict_insert(d, k, v) =~= d.update(0, (k, v)));
        } else {
            assert(dict_insert(d, k, v) =~= d.subrange(0, 0) + seq![(k, v)] + d.subrange(
                0,
                d.len() as int,
            ));
        }
    } else {
        assert(lex_lt(d[0].0, k));
        let dd = d.drop_first();
        lemma_dict_insert_at(dd, k, v, i - 1);
        if i == d.len() {
            assert(dd.push((k, v)) =~= d.push((k, v)).drop_first());
            assert(dict_insert(d, k, v) =~= d.push((k, v)));
        } else if d[i].0 == k {
            assert(dd.update(i - 1, (k, v)) =~= d.update(i, (k, v)).drop_first());
            assert(dict_insert(d, k, v) =~= d.update(i, (k, v)));
        } else {
            assert(dict_insert(d, k, v) =~= d.subrange(0, i) + seq![(k, v)] + d.subrange(
                i,
                d.len() as int,
            ));
        }
    }
}

/// The first position whose key is not byte-lexicographically below `k`.
fn find_slot(entries: &Vec<(Vec<u8>, Bencode)>, k: &Vec<u8>) -> (i: usize)
    ensures
        i <= entries@.len(),
        forall|j: int| 0 <= j < i ==> lex_lt(#[trigger] entries@[j].0@, k@),
        i < entries@.len() ==> !lex_lt(entries@[i as int].0@, k@),
{
    let mut i: usize = 0;
    while i < entries.len()
        invariant
            i <= entries@.len(),
            forall|j: int| 0 <= j < i ==> lex_lt(#[trigger] entries@[j].0@, k@),
        decreases entries@.len() - i,
    {
        if !lex_lt_bytes(&entries[i].0, k) {
            return i;
        }
        i = i + 1;
    }
    i
}

impl InfoDict {
    /// An empty dictionary.
    pub fn new() -> (r: InfoDict)
        ensures
            r@ == Seq::<(Seq<u8>, BValue)>::empty(),
    {
        let r = InfoDict { entries: Vec::new() };
        proof {
            assert(r@ =~= Seq::<(Seq<u8>, BValue)>::empty());
        }
        r
    }

    /// How many entries the dictionary holds.
    pub fn len(&self) -> (r: usize)
        ensures
            r == self@.len(),
    {
        self.entries.len()
    }

    /// Binds `key` to `value` at its sorted position; a key already present
    /// keeps only this newer value.
    pub fn insert(&mut self, key: Vec<u8>, value: Bencode)
        ensures
            final(self)@ == dict_insert(old(self)@, key@, value@),
    {
        let ghost d0 = old(self)@;
        let i = find_slot(&self.entries, &key);
        proof {
            lemma_dict_insert_at(d0, key@, value@, i as int);
        }
        if i < self.entries.len() {
            if bytes_eq(self.entries[i].0.as_slice(), key.as_slice()) {
                self.entries[i] = (key, value);
                proof {
                    assert(self@ =~= d0.update(i as int, (key@, value@)));
                }
            } else {
                self.entries.insert(i, (key, value));
                proof {
                    assert(self@ =~= d0.subrange(0, i as int) + seq![(key@, value@)] + d0.subrange(
                        i as int,
                        d0.len() as int,
                    ));
                }
            }
        } else {
            self.entries.push((key, value));
            proof {
                assert(self@ =~= d0.push((key@, value@)));
            }
        }
    }

    /// Builds a dictionary by binding the pairs in the order given, so a
    /// later pair with the same key wins, as when decoding.
    pub fn from_pairs(pairs: Vec<(Vec<u8>, Bencode)>) -> (r: InfoDict)
        ensures
            r@ == dict_of_pairs(Seq::empty(), pairs_view(pairs@)),
    {
        let ghost all = pairs_view(pairs@);
        let mut rest = pairs;
        let mut d = InfoDict::new();
        while rest.len() > 0
            invariant
                dict_of_pairs(d@, pairs_view(rest@)) == dict_of_pairs(Seq::empty(), all),
            decreases rest@.len(),
        {
            let ghost before = pairs_view(rest@);
            let (k, v) = rest.remove(0);
            d.insert(k, v);
            proof {
                assert(pairs_view(rest@) =~= before.drop_first());
            }
        }
        proof {
            assert(pairs_view(rest@).len() == 0);
        }
        d
    }

    /// The value bound to `key`, if any.
    pub fn get(&self, key: &[u8]) -> (r: Option<&Bencode>)
        ensures
            match r {
                Some(b) => dict_get(self@, key@) == Some(b@),
                None => dict_get(self@, key@) is None,
            },
    {
        let ghost d = self@;
        let mut i: usize = 0;
        proof {
            assert(d.skip(0) =~= d);
        }
        while i < self.entries.len()
            invariant
                i <= self.entries@.len(),
                d == self@,
                dict_get(d, key@) == dict_get(d.skip(i as int), key@),
            decreases self.entries@.len() - i,
        {
            if bytes_eq(self.entries[i].0.as_slice(), key) {
                assert(d.skip(i as int)[0] == d[i as int]);
                return Some(&self.entries[i].1);
            }
            i = i + 1;
            proof {
                assert(d.skip(i - 1).drop_first() =~= d.skip(i as int));
            }
        }
        proof {
            assert(d.skip(i as int).len() == 0);
        }
        None
    }
}

} // verus!
