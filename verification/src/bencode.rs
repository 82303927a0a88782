use vstd::prelude::*;
use crate::digits::{ascii_digits_of, digits_val, is_canon_digits, is_digit};

verus! {

/// A bencode value: the four-case tagged tree that the codec reads and
/// writes. Byte strings are kept as raw bytes end to end; dictionary entries
/// are kept as a vector of key/value pairs in the order they appear.
pub enum Bencode {
    Int(i64),
    Bytes(Vec<u8>),
    List(Vec<Bencode>),
    Dict(Vec<(Vec<u8>, Bencode)>),
}

/// The mathematical model of a bencode value.
pub enum BValue {
    Int(int),
    Bytes(Seq<u8>),
    List(Seq<BValue>),
    Dict(Seq<(Seq<u8>, BValue)>),
}

impl Bencode {
    pub open spec fn deep_view(&self) -> BValue
        decreases self,
    {
        match self {
            Bencode::Int(i) => BValue::Int(*i as int),
            Bencode::Bytes(b) => BValue::Bytes(b@),
            Bencode::List(items) => BValue::List(deep_view_items(items@)),
            Bencode::Dict(entries) => BValue::Dict(deep_view_entries(entries@)),
        }
    }
}

pub open spec fn deep_view_items(items: Seq<Bencode>) -> Seq<BValue>
    decreases items,
{
    if items.len() == 0 {
        seq![]
    } else {
        seq![items[0].deep_view()] + deep_view_items(items.drop_first())
    }
}

pub open spec fn deep_view_entries(entries: Seq<(Vec<u8>, Bencode)>) -> Seq<(Seq<u8>, BValue)>
    decreases entries,
{
    if entries.len() == 0 {
        seq![]
    } else {
        seq![(entries[0].0@, entries[0].1.deep_view())] + deep_view_entries(entries.drop_first())
    }
}

/// Strict lexicographic order on raw bytes: the order bencode requires of
/// dictionary keys.
pub open spec fn lex_lt(a: Seq<u8>, b: Seq<u8>) -> bool
    decreases a.len(),
{
    if b.len() == 0 {
        false
    } else if a.len() == 0 {
        true
    } else if a[0] < b[0] {
        true
    } else if a[0] > b[0] {
        false
    } else {
        lex_lt(a.drop_first(), b.drop_first())
    }
}

/// Adjacent dictionary keys strictly ascend.
pub open spec fn entries_sorted(es: Seq<(Seq<u8>, BValue)>) -> bool {
    forall|i: int| 0 <= i < es.len() - 1 ==> lex_lt(#[trigger] es[i].0, es[i + 1].0)
}

/// A well-formed value tree: integers fit a signed 64-bit word, and every
/// dictionary has strictly ascending keys. Well-formed trees are exactly
/// those whose encoding decodes back to the same tree.
pub open spec fn wf(v: BValue) -> bool
    decreases v, 0int,
{
    match v {
        BValue::Int(i) => i64::MIN <= i <= i64::MAX,
        BValue::Bytes(_) => true,
        BValue::List(items) => wf_items(items),
        BValue::Dict(es) => entries_sorted(es) && wf_values(es),
    }
}

pub open spec fn wf_items(items: Seq<BValue>) -> bool
    decreases items, 1int,
{
    items.len() == 0 || (wf(items[0]) && wf_items(items.drop_first()))
}

pub open spec fn wf_values(es: Seq<(Seq<u8>, BValue)>) -> bool
    decreases es, 1int,
{
    es.len() == 0 || (wf(es[0].1) && wf_values(es.drop_first()))
}

/// Every member of a well-formed item sequence is well formed.
pub proof fn lemma_wf_items_index(items: Seq<BValue>, i: int)
    requires
        wf_items(items),
        0 <= i < items.len(),
    ensures
        wf(items[i]),
    decreases i,
{
    if i > 0 {
        assert(items.drop_first()[i - 1] == items[i]);
        lemma_wf_items_index(items.drop_first(), i - 1);
    }
}

/// Every value of a well-formed entry sequence is well formed.
pub proof fn lemma_wf_values_index(es: Seq<(Seq<u8>, BValue)>, i: int)
    requires
        wf_values(es),
        0 <= i < es.len(),
    ensures
        wf(es[i].1),
    decreases i,
{
    if i > 0 {
        assert(es.drop_first()[i - 1] == es[i]);
        lemma_wf_values_index(es.drop_first(), i - 1);
    }
}

/// The decimal rendering of a bencode integer, with a leading minus sign
/// when it is negative.
pub open spec fn int_literal_of(n: int) -> Seq<u8> {
    if n < 0 {
        seq![0x2du8] + ascii_digits_of((-n) as nat)
    } else {
        ascii_digits_of(n as nat)
    }
}

/// The canonical bencoding of a value: `i<decimal>e` for integers,
/// `<length>:<bytes>` for byte strings, `l<items>e` for lists and
/// `d<key><value>...e` for dictionaries, entries emitted in stored order.
pub open spec fn spec_encode(v: BValue) -> Seq<u8>
    decreases v,
{
    match v {
        BValue::Int(i) => seq![0x69u8] + int_literal_of(i) + seq![0x65u8],
        BValue::Bytes(b) => ascii_digits_of(b.len()) + seq![0x3au8] + b,
        BValue::List(items) => seq![0x6cu8] + spec_encode_items(items) + seq![0x65u8],
        BValue::Dict(entries) => seq![0x64u8] + spec_encode_entries(entries) + seq![0x65u8],
    }
}

pub open spec fn spec_encode_items(items: Seq<BValue>) -> Seq<u8>
    decreases items,
{
    if items.len() == 0 {
        seq![]
    } else {
        spec_encode(items[0]) + spec_encode_items(items.drop_first())
    }
}

pub open spec fn spec_encode_entries(entries: Seq<(Seq<u8>, BValue)>) -> Seq<u8>
    decreases entries,
{
    if entries.len() == 0 {
        seq![]
    } else {
        ascii_digits_of(entries[0].0.len()) + seq![0x3au8] + entries[0].0 + spec_encode(
            entries[0].1,
        ) + spec_encode_entries(entries.drop_first())
    }
}

/// The length of the maximal run of ASCII digits starting at `i`.
pub open spec fn digit_run_len(s: Seq<u8>, i: int) -> int
    decreases s.len() - i,
    when 0 <= i <= s.len()
{
    if i < s.len() && is_digit(s[i]) {
        1 + digit_run_len(s, i + 1)
    } else {
        0
    }
}

/// A digit run at an inner position equals the run at the front of the
/// sequence that starts there.
pub proof fn lemma_digit_run_shift(t: Seq<u8>, i: int)
    requires
        0 <= i <= t.len(),
    ensures
        digit_run_len(t, i) == digit_run_len(t.skip(i), 0),
    decreases t.len() - i,
{
    if i < t.len() {
        assert(t.skip(i)[0] == t[i]);
        if is_digit(t[i]) {
            lemma_digit_run_shift(t, i + 1);
            assert(t.skip(i).drop_first() =~= t.skip(i + 1));
            lemma_digit_run_drop_first(t.skip(i));
        }
    }
}

pub proof fn lemma_digit_run_drop_first(u: Seq<u8>)
    requires
        u.len() > 0,
        is_digit(u[0]),
    ensures
        digit_run_len(u, 0) == 1 + digit_run_len(u.drop_first(), 0),
    decreases u.len(),
{
    lemma_digit_run_shift_one(u, 1);
}

pub proof fn lemma_digit_run_shift_one(u: Seq<u8>, i: int)
    requires
        1 <= i <= u.len(),
    ensures
        digit_run_len(u, i) == digit_run_len(u.drop_first(), i - 1),
    decreases u.len() - i,
{
    if i < u.len() {
        assert(u.drop_first()[i - 1] == u[i]);
        if is_digit(u[i]) {
            lemma_digit_run_shift_one(u, i + 1);
        }
    }
}


/// Decodes a byte string `<length>:<bytes>` from the front of `s`: the
/// decoded bytes and the number of input bytes consumed. The length literal
/// must be canonical and the announced bytes must all be present.
pub open spec fn spec_decode_bytestr(s: Seq<u8>) -> Option<(Seq<u8>, int)> {
    let dlen = digit_run_len(s, 0);
    if dlen >= 1 && dlen < s.len() && s[dlen] == 0x3a && is_canon_digits(s.take(dlen)) {
        let len = digits_val(s.take(dlen)) as int;
        if dlen + 1 + len <= s.len() {
            Some((s.subrange(dlen + 1, dlen + 1 + len), dlen + 1 + len))
        } else {
            None
        }
    } else {
        None
    }
}

/// Decodes an integer `i<decimal>e` from the front of `s`. The literal must
/// be canonical (`i0e` but never `i00e` or `i-0e`) and the value must fit a
/// signed 64-bit word.
pub open spec fn spec_decode_int(s: Seq<u8>) -> Option<(BValue, int)> {
    if s.len() >= 2 && s[0] == 0x69 {
        let neg = s[1] == 0x2d;
        let dstart: int = if neg {
            2
        } else {
            1
        };
        let dlen = digit_run_len(s, dstart);
        let d = s.subrange(dstart, dstart + dlen);
        if dlen >= 1 && dstart + dlen < s.len() && s[dstart + dlen] == 0x65 && is_canon_digits(d) {
            let v = digits_val(d) as int;
            if neg {
                if 1 <= v <= 0x8000_0000_0000_0000 {
                    Some((BValue::Int(-v), dstart + dlen + 1))
                } else {
                    None
                }
            } else {
                if v <= 0x7fff_ffff_ffff_ffff {
                    Some((BValue::Int(v), dstart + dlen + 1))
                } else {
                    None
                }
            }
        } else {
            None
        }
    } else {
        None
    }
}

/// Decodes the minimum prefix of `s` that forms a value: the value and the
/// number of input bytes consumed. `None` on any departure from the
/// canonical grammar.
pub open spec fn spec_decode(s: Seq<u8>) -> Option<(BValue, int)>
    decreases s.len(), 0int,
{
    if s.len() == 0 {
        None
    } else if is_digit(s[0]) {
        match spec_decode_bytestr(s) {
            Some((b, n)) => Some((BValue::Bytes(b), n)),
            None => None,
        }
    } else if s[0] == 0x69 {
        spec_decode_int(s)
    } else if s[0] == 0x6c {
        match spec_decode_items(s.skip(1)) {
            Some((items, n)) => Some((BValue::List(items), 1 + n)),
            None => None,
        }
    } else if s[0] == 0x64 {
        match spec_decode_entries(s.skip(1)) {
            Some((es, n)) => if entries_sorted(es) {
                Some((BValue::Dict(es), 1 + n))
            } else {
                None
            },
            None => None,
        }
    } else {
        None
    }
}

/// Decodes list items up to and including the closing `e`.
pub open spec fn spec_decode_items(s: Seq<u8>) -> Option<(Seq<BValue>, int)>
    decreases s.len(), 1int,
{
    if s.len() == 0 {
        None
    } else if s[0] == 0x65 {
        Some((seq![], 1))
    } else {
        match spec_decode(s) {
            Some((v, n)) => if 1 <= n <= s.len() {
                match spec_decode_items(s.skip(n)) {
                    Some((items, m)) => Some((seq![v] + items, n + m)),
                    None => None,
                }
            } else {
                None
            },
            None => None,
        }
    }
}

/// Decodes dictionary entries up to and including the closing `e`. Key order
/// is checked by the caller, over the whole entry sequence.
pub open spec fn spec_decode_entries(s: Seq<u8>) -> Option<(Seq<(Seq<u8>, BValue)>, int)>
    decreases s.len(), 1int,
{
    if s.len() == 0 {
        None
    } else if s[0] == 0x65 {
        Some((seq![], 1))
    } else {
        match spec_decode_bytestr(s) {
            Some((k, n)) => if 1 <= n <= s.len() {
                match spec_decode(s.skip(n)) {
                    Some((v, m)) => if 1 <= m <= s.len() - n {
                        match spec_decode_entries(s.skip(n + m)) {
                            Some((es, p)) => Some((seq![(k, v)] + es, n + m + p)),
                            None => None,
                        }
                    } else {
                        None
                    },
                    None => None,
                }
            } else {
                None
            },
            None => None,
        }
    }
}

/// Every item of a well-formed list is well formed.
pub proof fn lemma_wf_list_item(items: Seq<BValue>, i: int)
    requires
        wf(BValue::List(items)),
        0 <= i < items.len(),
    ensures
        wf(items[i]),
{
    lemma_wf_items_index(items, i);
}

/// Every value of a well-formed dictionary is well formed.
pub proof fn lemma_wf_dict_value(es: Seq<(Seq<u8>, BValue)>, i: int)
    requires
        wf(BValue::Dict(es)),
        0 <= i < es.len(),
    ensures
        wf(es[i].1),
{
    lemma_wf_values_index(es, i);
}

pub proof fn lemma_deep_view_items_index(items: Seq<Bencode>)
    ensures
        deep_view_items(items).len() == items.len(),
        forall|i: int|
            0 <= i < items.len() ==> #[trigger] deep_view_items(items)[i] == items[i].deep_view(),
    decreases items.len(),
{
    if items.len() > 0 {
        lemma_deep_view_items_index(items.drop_first());
        assert forall|i: int| 0 <= i < items.len() implies deep_view_items(items)[i]
            == #[trigger] items[i].deep_view() by {
            if i > 0 {
                assert(items.drop_first()[i - 1] == items[i]);
                assert(deep_view_items(items)[i] == deep_view_items(items.drop_first())[i - 1]);
            }
        }
    }
}

pub proof fn lemma_deep_view_entries_index(entries: Seq<(Vec<u8>, Bencode)>)
    ensures
        deep_view_entries(entries).len() == entries.len(),
        forall|i: int|
            0 <= i < entries.len() ==> #[trigger] deep_view_entries(entries)[i] == (
            entries[i].0@,
            entries[i].1.deep_view(),
            ),
    decreases entries.len(),
{
    if entries.len() > 0 {
        lemma_deep_view_entries_index(entries.drop_first());
        assert forall|i: int| 0 <= i < entries.len() implies deep_view_entries(entries)[i] == (
            #[trigger] entries[i].0@,
            entries[i].1.deep_view(),
        ) by {
            if i > 0 {
                assert(entries.drop_first()[i - 1] == entries[i]);
                assert(deep_view_entries(entries)[i] == deep_view_entries(entries.drop_first())[i
                    - 1]);
            }
        }
    }
}

/// A run of `i` digits extends the maximal digit run count past `i`.
pub proof fn lemma_digit_run_split(t: Seq<u8>, i: int)
    requires
        0 <= i <= t.len(),
        forall|j: int| 0 <= j < i ==> is_digit(#[trigger] t[j]),
    ensures
        digit_run_len(t, 0) == i + digit_run_len(t, i),
    decreases i,
{
    if i > 0 {
        lemma_digit_run_split(t, i - 1);
        assert(digit_run_len(t, i - 1) == 1 + digit_run_len(t, i));
    }
}

/// Equal prefixes do not decide the lexicographic order.
pub proof fn lemma_lex_lt_skip(a: Seq<u8>, b: Seq<u8>, i: int)
    requires
        0 <= i <= a.len(),
        i <= b.len(),
        forall|j: int| 0 <= j < i ==> a[j] == b[j],
    ensures
        lex_lt(a, b) == lex_lt(a.skip(i), b.skip(i)),
    decreases i,
{
    if i > 0 {
        assert(lex_lt(a, b) == lex_lt(a.drop_first(), b.drop_first()));
        lemma_lex_lt_skip(a.drop_first(), b.drop_first(), i - 1);
        assert(a.drop_first().skip(i - 1) =~= a.skip(i));
        assert(b.drop_first().skip(i - 1) =~= b.skip(i));
    } else {
        assert(a.skip(0) =~= a);
        assert(b.skip(0) =~= b);
    }
}

pub proof fn lemma_entries_sorted_push(es: Seq<(Seq<u8>, BValue)>, k: Seq<u8>, v: BValue)
    requires
        entries_sorted(es),
        es.len() > 0 ==> lex_lt(es.last().0, k),
    ensures
        entries_sorted(es.push((k, v))),
{
    let whole = es.push((k, v));
    assert forall|i: int| 0 <= i < whole.len() - 1 implies lex_lt(
        #[trigger] whole[i].0,
        whole[i + 1].0,
    ) by {
        if i < es.len() - 1 {
            assert(lex_lt(es[i].0, es[i + 1].0));
        } else {
            assert(whole[i] == es.last());
        }
    }
}

/// Whether `a` and `b` hold the same bytes, decided front to back.
pub fn bytes_eq(a: &[u8], b: &[u8]) -> (r: bool)
    ensures
        r == (a@ == b@),
{
    if a.len() != b.len() {
        proof {
            assert(a@.len() != b@.len());
        }
        return false;
    }
    let mut i: usize = 0;
    while i < a.len()
        invariant
            0 <= i <= a@.len(),
            a@.len() == b@.len(),
            forall|j: int| 0 <= j < i ==> a@[j] == b@[j],
        decreases a@.len() - i,
    {
        if a[i] != b[i] {
            return false;
        }
        i = i + 1;
    }
    proof {
        assert(a@ =~= b@);
    }
    true
}

/// Whether `a` comes strictly before `b` in raw lexicographic byte order.
pub fn bytes_lt(a: &[u8], b: &[u8]) -> (r: bool)
    ensures
        r == lex_lt(a@, b@),
{
    let mut i: usize = 0;
    while i < a.len() && i < b.len()
        invariant
            0 <= i <= a@.len(),
            i <= b@.len(),
            forall|j: int| 0 <= j < i ==> a@[j] == b@[j],
        decreases a@.len() - i,
    {
        if a[i] < b[i] {
            proof {
                lemma_lex_lt_skip(a@, b@, i as int);
            }
            return true;
        }
        if a[i] > b[i] {
            proof {
                lemma_lex_lt_skip(a@, b@, i as int);
            }
            return false;
        }
        i = i + 1;
    }
    proof {
        lemma_lex_lt_skip(a@, b@, i as int);
    }
    a.len() < b.len()
}

/// The value under `key` in a dictionary's entries: the first match.
pub open spec fn dict_lookup(es: Seq<(Seq<u8>, BValue)>, key: Seq<u8>) -> Option<BValue>
    decreases es.len(),
{
    if es.len() == 0 {
        None
    } else if es[0].0 == key {
        Some(es[0].1)
    } else {
        dict_lookup(es.drop_first(), key)
    }
}

/// A lookup skips past entries whose keys do not match.
pub proof fn lemma_dict_lookup_skip(es: Seq<(Seq<u8>, BValue)>, key: Seq<u8>, i: int)
    requires
        0 <= i <= es.len(),
        forall|j: int| 0 <= j < i ==> (#[trigger] es[j].0) != key,
    ensures
        dict_lookup(es, key) == dict_lookup(es.skip(i), key),
    decreases i,
{
    if i > 0 {
        assert(es.skip(0) =~= es);
        assert(es[0].0 != key);
        assert(dict_lookup(es, key) == dict_lookup(es.drop_first(), key));
        lemma_dict_lookup_skip(es.drop_first(), key, i - 1);
        assert(es.drop_first().skip(i - 1) =~= es.skip(i));
        assert(forall|j: int|
            0 <= j < i - 1 ==> (#[trigger] es.drop_first()[j]) == es[j + 1]);
    } else {
        assert(es.skip(0) =~= es);
    }
}

/// The value a lookup finds in a well-formed dictionary is well formed.
pub proof fn lemma_dict_lookup_wf(es: Seq<(Seq<u8>, BValue)>, key: Seq<u8>)
    requires
        wf_values(es),
        dict_lookup(es, key) is Some,
    ensures
        wf(dict_lookup(es, key)->Some_0),
    decreases es.len(),
{
    if es.len() > 0 && es[0].0 != key {
        lemma_dict_lookup_wf(es.drop_first(), key);
    }
}

/// Finds the value stored under `key`, if any.
pub fn dict_get<'a>(entries: &'a Vec<(Vec<u8>, Bencode)>, key: &[u8]) -> (r: Option<&'a Bencode>)
    ensures
        match r {
            Some(v) => dict_lookup(deep_view_entries(entries@), key@) == Some(v.deep_view()),
            None => dict_lookup(deep_view_entries(entries@), key@) is None,
        },
{
    let ghost dve = deep_view_entries(entries@);
    proof {
        lemma_deep_view_entries_index(entries@);
    }
    let mut i: usize = 0;
    while i < entries.len()
        invariant
            0 <= i <= entries@.len(),
            dve == deep_view_entries(entries@),
            dve.len() == entries@.len(),
            forall|k: int|
                0 <= k < entries@.len() ==> #[trigger] dve[k] == (
                entries@[k].0@,
                entries@[k].1.deep_view(),
                ),
            forall|j: int| 0 <= j < i ==> (#[trigger] dve[j].0) != key@,
        decreases entries@.len() - i,
    {
        if bytes_eq(entries[i].0.as_slice(), key) {
            proof {
                lemma_dict_lookup_skip(dve, key@, i as int);
                assert(dve.skip(i as int)[0] == dve[i as int]);
                assert(dve.skip(i as int).len() > 0);
                assert(dict_lookup(dve.skip(i as int), key@) == Some(dve[i as int].1));
            }
            return Some(&entries[i].1);
        }
        i = i + 1;
    }
    proof {
        lemma_dict_lookup_skip(dve, key@, i as int);
        assert(dve.skip(i as int).len() == 0);
    }
    None
}

} // verus!
