use vstd::prelude::*;
use crate::bencode::{
    BValue, digit_run_len, entries_sorted, int_literal_of, lemma_digit_run_shift,
    lemma_digit_run_split, spec_decode, spec_decode_bytestr, spec_decode_entries, spec_decode_int,
    spec_decode_items, spec_encode, spec_encode_entries, spec_encode_items, wf, wf_items,
    wf_values,
};
use crate::digits::{
    ascii_digits_of, digits_val, is_canon_digits, is_digit, lemma_ascii_digits_of_canon,
    lemma_canon_digits_round_trip,
};

verus! {

/// The first byte of an encoding announces the value's case and is never the
/// terminator `e`; every encoding holds at least two bytes.
pub proof fn lemma_encode_first(v: BValue)
    ensures
        spec_encode(v).len() >= 2,
        match v {
            BValue::Int(_) => spec_encode(v)[0] == 0x69,
            BValue::Bytes(_) => is_digit(spec_encode(v)[0]),
            BValue::List(_) => spec_encode(v)[0] == 0x6c,
            BValue::Dict(_) => spec_encode(v)[0] == 0x64,
        },
        spec_encode(v)[0] != 0x65,
{
    match v {
        BValue::Int(i) => {
            assert(spec_encode(v)[0] == 0x69);
        },
        BValue::Bytes(b) => {
            lemma_ascii_digits_of_canon(b.len());
            assert(spec_encode(v)[0] == ascii_digits_of(b.len())[0]);
        },
        BValue::List(_) => {},
        BValue::Dict(_) => {},
    }
}

/// A byte-string decode is exact: the consumed bytes are the canonical
/// encoding of the decoded bytes.
proof fn lemma_decode_bytestr_sound(s: Seq<u8>)
    ensures
        spec_decode_bytestr(s) matches Some(p) ==> {
            &&& 2 <= p.1 <= s.len()
            &&& ascii_digits_of(p.0.len()) + seq![0x3au8] + p.0 == s.take(p.1)
        },
{
    if spec_decode_bytestr(s) is Some {
        let dlen = digit_run_len(s, 0);
        let d = s.take(dlen);
        let len = digits_val(d) as int;
        let b = s.subrange(dlen + 1, dlen + 1 + len);
        lemma_canon_digits_round_trip(d);
        assert(b.len() == len);
        assert(ascii_digits_of(b.len()) == d);
        assert(ascii_digits_of(b.len()) + seq![0x3au8] + b =~= s.take(dlen + 1 + len));
    }
}

/// An integer decode is exact: the consumed bytes are the canonical encoding
/// of the decoded integer.
proof fn lemma_decode_int_sound(s: Seq<u8>)
    ensures
        spec_decode_int(s) matches Some(p) ==> {
            &&& wf(p.0)
            &&& 3 <= p.1 <= s.len()
            &&& spec_encode(p.0) == s.take(p.1)
        },
{
    if spec_decode_int(s) is Some {
        let neg = s[1] == 0x2d;
        let dstart: int = if neg {
            2
        } else {
            1
        };
        let dlen = digit_run_len(s, dstart);
        let d = s.subrange(dstart, dstart + dlen);
        let v = digits_val(d) as int;
        lemma_canon_digits_round_trip(d);
        assert(ascii_digits_of(digits_val(d)) == d);
        if neg {
            let value = BValue::Int(-v);
            assert(wf(value));
            assert(int_literal_of(-v) == seq![0x2du8] + d);
            assert(spec_encode(value) =~= s.take(dstart + dlen + 1));
        } else {
            let value = BValue::Int(v);
            assert(wf(value));
            assert(int_literal_of(v) == d);
            assert(spec_encode(value) =~= s.take(dstart + dlen + 1));
        }
    }
}

/// Whatever the decoder accepts is well formed, and re-encoding it gives
/// back exactly the consumed bytes. This is the codec's soundness law: on
/// any canonical input, encode of decode is the identity.
pub proof fn lemma_decode_sound(s: Seq<u8>)
    ensures
        spec_decode(s) matches Some(p) ==> {
            &&& wf(p.0)
            &&& 2 <= p.1 <= s.len()
            &&& spec_encode(p.0) == s.take(p.1)
        },
    decreases s.len(), 0int,
{
    if s.len() == 0 {
    } else if is_digit(s[0]) {
        lemma_decode_bytestr_sound(s);
    } else if s[0] == 0x69 {
        lemma_decode_int_sound(s);
    } else if s[0] == 0x6c {
        lemma_decode_items_sound(s.skip(1));
        if spec_decode(s) is Some {
            let (items, n) = spec_decode_items(s.skip(1))->Some_0;
            let x = spec_encode_items(items);
            assert(x + seq![0x65u8] == s.skip(1).take(n));
            assert(s.take(1 + n) =~= seq![s[0]] + s.skip(1).take(n));
            assert(seq![0x6cu8] + x + seq![0x65u8] =~= seq![0x6cu8] + (x + seq![0x65u8]));
            assert(spec_encode(BValue::List(items)) == s.take(1 + n));
        }
    } else if s[0] == 0x64 {
        lemma_decode_entries_sound(s.skip(1));
        if spec_decode(s) is Some {
            let (es, n) = spec_decode_entries(s.skip(1))->Some_0;
            assert(entries_sorted(es));
            assert(wf(BValue::Dict(es)));
            let x = spec_encode_entries(es);
            assert(x + seq![0x65u8] == s.skip(1).take(n));
            assert(s.take(1 + n) =~= seq![s[0]] + s.skip(1).take(n));
            assert(seq![0x64u8] + x + seq![0x65u8] =~= seq![0x64u8] + (x + seq![0x65u8]));
            assert(spec_encode(BValue::Dict(es)) == s.take(1 + n));
        }
    }
}

proof fn lemma_decode_items_sound(s: Seq<u8>)
    ensures
        spec_decode_items(s) matches Some(p) ==> {
            &&& wf_items(p.0)
            &&& 1 <= p.1 <= s.len()
            &&& spec_encode_items(p.0) + seq![0x65u8] == s.take(p.1)
        },
    decreases s.len(), 1int,
{
    if s.len() == 0 {
    } else if s[0] == 0x65 {
        if spec_decode_items(s) is Some {
            assert(spec_encode_items(Seq::<BValue>::empty()) + seq![0x65u8] =~= s.take(1));
        }
    } else {
        lemma_decode_sound(s);
        match spec_decode(s) {
            Some((v, n)) => {
                if 1 <= n <= s.len() {
                    lemma_decode_items_sound(s.skip(n));
                    match spec_decode_items(s.skip(n)) {
                        Some((items, m)) => {
                            let whole = seq![v] + items;
                            assert(whole[0] == v);
                            assert(whole.drop_first() =~= items);
                            assert(wf_items(whole));
                            let ev = spec_encode(v);
                            let x = spec_encode_items(items);
                            assert(spec_encode_items(whole) == ev + x);
                            assert(ev == s.take(n));
                            assert(x + seq![0x65u8] == s.skip(n).take(m));
                            assert(s.take(n + m) =~= s.take(n) + s.skip(n).take(m));
                            assert((ev + x) + seq![0x65u8] =~= ev + (x + seq![0x65u8]));
                            assert(spec_encode_items(whole) + seq![0x65u8] == s.take(n + m));
                        },
                        None => {},
                    }
                }
            },
            None => {},
        }
    }
}

proof fn lemma_decode_entries_sound(s: Seq<u8>)
    ensures
        spec_decode_entries(s) matches Some(p) ==> {
            &&& wf_values(p.0)
            &&& 1 <= p.1 <= s.len()
            &&& spec_encode_entries(p.0) + seq![0x65u8] == s.take(p.1)
        },
    decreases s.len(), 1int,
{
    if s.len() == 0 {
    } else if s[0] == 0x65 {
        if spec_decode_entries(s) is Some {
            assert(spec_encode_entries(Seq::<(Seq<u8>, BValue)>::empty()) + seq![0x65u8]
                =~= s.take(1));
        }
    } else {
        lemma_decode_bytestr_sound(s);
        match spec_decode_bytestr(s) {
            Some((k, n)) => {
                if 1 <= n <= s.len() {
                    lemma_decode_sound(s.skip(n));
                    match spec_decode(s.skip(n)) {
                        Some((v, m)) => {
                            if 1 <= m <= s.len() - n {
                                lemma_decode_entries_sound(s.skip(n + m));
                                match spec_decode_entries(s.skip(n + m)) {
                                    Some((es, p)) => {
                                        let whole = seq![(k, v)] + es;
                                        assert(whole[0] == (k, v));
                                        assert(whole.drop_first() =~= es);
                                        assert(wf_values(whole));
                                        let kk = ascii_digits_of(k.len()) + seq![0x3au8] + k;
                                        let ev = spec_encode(v);
                                        let x = spec_encode_entries(es);
                                        assert(spec_encode_entries(whole) == kk + ev + x);
                                        assert(kk == s.take(n));
                                        assert(ev == s.skip(n).take(m));
                                        assert(x + seq![0x65u8] == s.skip(n + m).take(p));
                                        assert(s.take(n + m + p) =~= s.take(n) + (s.skip(n).take(m)
                                            + s.skip(n + m).take(p)));
                                        assert((kk + ev + x) + seq![0x65u8] =~= kk + (ev + (x
                                            + seq![0x65u8])));
                                        assert(spec_encode_entries(whole) + seq![0x65u8] == s.take(
                                            n + m + p,
                                        ));
                                    },
                                    None => {},
                                }
                            }
                        },
                        None => {},
                    }
                }
            },
            None => {},
        }
    }
}

/// Only one prefix of an input decodes: when a prefix is itself one
/// complete encoding, decoding the whole input consumes exactly that
/// prefix. The decoder thus consumes the minimum prefix forming a value.
pub proof fn lemma_decode_prefix_unique(s: Seq<u8>, m: int)
    requires
        0 <= m <= s.len(),
        spec_decode(s.take(m)) matches Some(p) && p.1 == m,
    ensures
        spec_decode(s) == Some((spec_decode(s.take(m))->Some_0.0, m)),
{
    let w = spec_decode(s.take(m))->Some_0.0;
    lemma_decode_sound(s.take(m));
    assert(s.take(m).take(m) =~= s.take(m));
    assert(spec_encode(w) == s.take(m));
    lemma_encode_decode(w, s.skip(m));
    assert(spec_encode(w) + s.skip(m) =~= s);
}

/// The canonical encoding of any byte string decodes back to it, whatever
/// follows.
proof fn lemma_encode_bytestr_decode(b: Seq<u8>, rest: Seq<u8>)
    ensures
        spec_decode_bytestr(ascii_digits_of(b.len()) + seq![0x3au8] + b + rest) == Some(
            (b, ascii_digits_of(b.len()).len() as int + 1 + b.len()),
        ),
{
    let d = ascii_digits_of(b.len());
    lemma_ascii_digits_of_canon(b.len());
    let t = d + seq![0x3au8] + b + rest;
    let dlen = d.len() as int;
    assert(forall|j: int| 0 <= j < dlen ==> is_digit(#[trigger] t[j]));
    assert(t[dlen] == 0x3a);
    lemma_digit_run_split(t, dlen);
    assert(digit_run_len(t, dlen) == 0);
    assert(digit_run_len(t, 0) == dlen);
    assert(t.take(dlen) =~= d);
    assert(digits_val(t.take(dlen)) == b.len());
    assert(t.subrange(dlen + 1, dlen + 1 + b.len() as int) =~= b);
}

/// Decoding the canonical encoding of a well-formed value gives back the
/// value and consumes exactly the encoding, whatever follows it. This is
/// the codec's completeness law: decode of encode is the identity on
/// well-formed trees.
pub proof fn lemma_encode_decode(v: BValue, rest: Seq<u8>)
    requires
        wf(v),
    ensures
        spec_decode(spec_encode(v) + rest) == Some((v, spec_encode(v).len() as int)),
    decreases v, 0int,
{
    let t = spec_encode(v) + rest;
    lemma_encode_first(v);
    match v {
        BValue::Int(i) => {
            let lit = int_literal_of(i);
            let mag: nat = if i < 0 {
                (-i) as nat
            } else {
                i as nat
            };
            let d = ascii_digits_of(mag);
            lemma_ascii_digits_of_canon(mag);
            let dstart: int = if i < 0 {
                2
            } else {
                1
            };
            assert(t[0] == 0x69);
            let dlen = d.len() as int;
            assert(t =~= seq![0x69u8] + lit + seq![0x65u8] + rest);
            if i < 0 {
                assert(lit == seq![0x2du8] + d);
                assert(t[1] == 0x2d);
            } else {
                assert(lit == d);
                assert(t[1] == d[0]);
                assert(is_digit(d[0]));
                assert(t[1] != 0x2d);
            }
            assert(forall|j: int| 0 <= j < dlen ==> is_digit(#[trigger] t[dstart + j]));
            assert(forall|j: int| dstart <= j < dstart + dlen ==> is_digit(#[trigger] t[j]));
            let u = t.skip(dstart);
            lemma_digit_run_shift(t, dstart);
            assert(forall|j: int| 0 <= j < dlen ==> is_digit(#[trigger] u[j]));
            assert(u[dlen] == t[dstart + dlen]);
            assert(t[dstart + dlen] == 0x65);
            lemma_digit_run_split(u, dlen);
            assert(digit_run_len(u, dlen) == 0);
            assert(digit_run_len(t, dstart) == dlen);
            assert(t.subrange(dstart, dstart + dlen) =~= d);
            assert(digits_val(d) == mag);
            if i < 0 {
                assert(mag >= 1);
                assert(mag <= 0x8000_0000_0000_0000);
                assert(spec_decode_int(t) == Some((BValue::Int(-(mag as int)), dstart + dlen + 1)));
                assert(-(mag as int) == i);
            } else {
                assert(mag <= 0x7fff_ffff_ffff_ffff);
                assert(spec_decode_int(t) == Some((BValue::Int(mag as int), dstart + dlen + 1)));
            }
            assert(spec_encode(v).len() == dstart + dlen + 1);
            assert(!is_digit(t[0]));
        },
        BValue::Bytes(b) => {
            let d = ascii_digits_of(b.len());
            lemma_ascii_digits_of_canon(b.len());
            assert(t =~= d + seq![0x3au8] + b + rest);
            lemma_encode_bytestr_decode(b, rest);
            assert(is_digit(t[0]));
            assert(spec_decode(t) == Some((BValue::Bytes(b), d.len() as int + 1 + b.len())));
            assert(spec_encode(v).len() == d.len() + 1 + b.len());
        },
        BValue::List(items) => {
            let x = spec_encode_items(items);
            assert(t[0] == 0x6c);
            assert(!is_digit(t[0]));
            assert(t.skip(1) =~= x + seq![0x65u8] + rest);
            lemma_encode_items_decode(items, rest);
            assert(spec_decode_items(t.skip(1)) == Some((items, x.len() as int + 1)));
            assert(spec_decode(t) == Some((BValue::List(items), 1int + x.len() + 1)));
            assert(spec_encode(v).len() == x.len() + 2);
        },
        BValue::Dict(es) => {
            let x = spec_encode_entries(es);
            assert(t[0] == 0x64);
            assert(!is_digit(t[0]));
            assert(t.skip(1) =~= x + seq![0x65u8] + rest);
            lemma_encode_entries_decode(es, rest);
            assert(spec_decode_entries(t.skip(1)) == Some((es, x.len() as int + 1)));
            assert(entries_sorted(es));
            assert(spec_decode(t) == Some((BValue::Dict(es), 1int + x.len() + 1)));
            assert(spec_encode(v).len() == x.len() + 2);
        },
    }
}

proof fn lemma_encode_items_decode(items: Seq<BValue>, rest: Seq<u8>)
    requires
        wf_items(items),
    ensures
        spec_decode_items(spec_encode_items(items) + seq![0x65u8] + rest) == Some(
            (items, spec_encode_items(items).len() as int + 1),
        ),
    decreases items, 1int,
{
    let x = spec_encode_items(items);
    let u = x + seq![0x65u8] + rest;
    if items.len() == 0 {
        assert(x == Seq::<u8>::empty());
        assert(u[0] == 0x65);
        assert(spec_decode_items(u) == Some((Seq::<BValue>::empty(), 1int)));
        assert(items =~= Seq::<BValue>::empty());
    } else {
        let head = items[0];
        let tail = items.drop_first();
        assert(wf(head) && wf_items(tail));
        let eh = spec_encode(head);
        let xt = spec_encode_items(tail);
        assert(x == eh + xt);
        lemma_encode_first(head);
        assert(u[0] == eh[0]);
        assert(u[0] != 0x65);
        let rest1 = xt + seq![0x65u8] + rest;
        assert(u =~= eh + rest1);
        lemma_encode_decode(head, rest1);
        assert(spec_decode(u) == Some((head, eh.len() as int)));
        assert(u.skip(eh.len() as int) =~= rest1);
        lemma_encode_items_decode(tail, rest);
        assert(spec_decode_items(rest1) == Some((tail, xt.len() as int + 1)));
        assert(1 <= eh.len() <= u.len());
        assert(spec_decode_items(u) == Some::<(Seq<BValue>, int)>(
            (seq![head] + tail, eh.len() + xt.len() + 1int),
        ));
        assert(seq![head] + tail =~= items);
        assert(x.len() == eh.len() + xt.len());
    }
}

proof fn lemma_encode_entries_decode(es: Seq<(Seq<u8>, BValue)>, rest: Seq<u8>)
    requires
        wf_values(es),
    ensures
        spec_decode_entries(spec_encode_entries(es) + seq![0x65u8] + rest) == Some(
            (es, spec_encode_entries(es).len() as int + 1),
        ),
    decreases es, 1int,
{
    let x = spec_encode_entries(es);
    let u = x + seq![0x65u8] + rest;
    if es.len() == 0 {
        assert(x == Seq::<u8>::empty());
        assert(u[0] == 0x65);
        assert(spec_decode_entries(u) == Some((Seq::<(Seq<u8>, BValue)>::empty(), 1int)));
        assert(es =~= Seq::<(Seq<u8>, BValue)>::empty());
    } else {
        let k = es[0].0;
        let v0 = es[0].1;
        let tail = es.drop_first();
        assert(wf(v0) && wf_values(tail));
        let dk = ascii_digits_of(k.len());
        lemma_ascii_digits_of_canon(k.len());
        let ev = spec_encode(v0);
        let xt = spec_encode_entries(tail);
        assert(x == dk + seq![0x3au8] + k + ev + xt);
        assert(u[0] == dk[0]);
        assert(is_digit(u[0]));
        assert(u[0] != 0x65);
        let rest_k = ev + (xt + seq![0x65u8] + rest);
        assert(u =~= dk + seq![0x3au8] + k + rest_k);
        lemma_encode_bytestr_decode(k, rest_k);
        let nk = dk.len() + 1 + k.len() as int;
        assert(spec_decode_bytestr(u) == Some((k, nk)));
        assert(1 <= nk <= u.len());
        let rest1 = xt + seq![0x65u8] + rest;
        assert(u.skip(nk) =~= ev + rest1);
        lemma_encode_decode(v0, rest1);
        assert(spec_decode(u.skip(nk)) == Some((v0, ev.len() as int)));
        assert(1 <= ev.len() <= u.len() - nk);
        assert(u.skip(nk + ev.len()) =~= rest1);
        lemma_encode_entries_decode(tail, rest);
        assert(spec_decode_entries(rest1) == Some((tail, xt.len() as int + 1)));
        assert(spec_decode_entries(u) == Some::<(Seq<(Seq<u8>, BValue)>, int)>(
            (seq![(k, v0)] + tail, nk + ev.len() + xt.len() + 1int),
        ));
        assert(seq![(k, v0)] + tail =~= es);
        assert(x.len() == nk + ev.len() + xt.len());
    }
}

} // verus!
