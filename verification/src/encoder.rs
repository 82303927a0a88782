use vstd::prelude::*;
use crate::bencode::{
    Bencode, BValue, deep_view_entries, deep_view_items, entries_sorted,
    lemma_deep_view_entries_index, lemma_deep_view_items_index, bytes_lt, spec_encode,
    spec_encode_entries, spec_encode_items, wf,
};
use crate::digits::{ascii_digits_of, u64_digits};

verus! {

/// Encodes an integer as `i<decimal>e`.
pub fn encode_number(n: i64) -> (r: Vec<u8>)
    ensures
        r@ == spec_encode(BValue::Int(n as int)),
{
    let mut r: Vec<u8> = Vec::new();
    r.push(0x69);
    if n < 0 {
        r.push(0x2d);
        let mag: u64 = if n == i64::MIN {
            0x8000_0000_0000_0000
        } else {
            (-n) as u64
        };
        let digits = u64_digits(mag);
        r.extend_from_slice(digits.as_slice());
        proof {
            assert(mag as nat == (-(n as int)) as nat);
        }
    } else {
        let digits = u64_digits(n as u64);
        r.extend_from_slice(digits.as_slice());
    }
    r.push(0x65);
    proof {
        assert(r@ =~= spec_encode(BValue::Int(n as int)));
    }
    r
}

/// Encodes raw bytes as `<length>:<bytes>`.
pub fn encode_string(b: &[u8]) -> (r: Vec<u8>)
    ensures
        r@ == spec_encode(BValue::Bytes(b@)),
{
    let mut r = u64_digits(b.len() as u64);
    r.push(0x3a);
    r.extend_from_slice(b);
    proof {
        assert(r@ =~= spec_encode(BValue::Bytes(b@)));
    }
    r
}

/// One encoded item of a sequence extends the encoding of the prefix before
/// it.
proof fn lemma_spec_encode_items_take(items: Seq<BValue>, j: int)
    requires
        0 <= j < items.len(),
    ensures
        spec_encode_items(items.take(j + 1)) == spec_encode_items(items.take(j)) + spec_encode(
            items[j],
        ),
    decreases j,
{
    if j == 0 {
        assert(items.take(1) =~= seq![items[0]]);
        assert(items.take(1).drop_first() =~= Seq::<BValue>::empty());
        assert(items.take(0) =~= Seq::<BValue>::empty());
        assert(spec_encode_items(Seq::<BValue>::empty()) == Seq::<u8>::empty());
        assert(items.take(1)[0] == items[0]);
        assert(spec_encode_items(items.take(1)) =~= spec_encode(items[0]));
        assert(spec_encode_items(items.take(0)) + spec_encode(items[0]) =~= spec_encode(
            items[0],
        ));
    } else {
        lemma_spec_encode_items_take(items.drop_first(), j - 1);
        assert(items.take(j + 1).drop_first() =~= items.drop_first().take(j));
        assert(items.take(j).drop_first() =~= items.drop_first().take(j - 1));
        assert(items.take(j + 1)[0] == items[0]);
        assert(items.take(j)[0] == items[0]);
        assert(items.drop_first()[j - 1] == items[j]);
        assert(spec_encode_items(items.take(j + 1)) == spec_encode(items[0])
            + spec_encode_items(items.drop_first().take(j)));
        assert(spec_encode_items(items.take(j)) == spec_encode(items[0]) + spec_encode_items(
            items.drop_first().take(j - 1),
        ));
        assert(spec_encode(items[0]) + (spec_encode_items(items.drop_first().take(j - 1))
            + spec_encode(items[j])) =~= (spec_encode(items[0]) + spec_encode_items(
            items.drop_first().take(j - 1),
        )) + spec_encode(items[j]));
    }
}

/// One encoded entry of a dictionary extends the encoding of the prefix
/// before it.
proof fn lemma_spec_encode_entries_take(es: Seq<(Seq<u8>, BValue)>, j: int)
    requires
        0 <= j < es.len(),
    ensures
        spec_encode_entries(es.take(j + 1)) == spec_encode_entries(es.take(j)) + (ascii_digits_of(
            es[j].0.len(),
        ) + seq![0x3au8] + es[j].0 + spec_encode(es[j].1)),
    decreases j,
{
    let entry = ascii_digits_of(es[j].0.len()) + seq![0x3au8] + es[j].0 + spec_encode(es[j].1);
    if j == 0 {
        assert(es.take(1) =~= seq![es[0]]);
        assert(es.take(1).drop_first() =~= Seq::<(Seq<u8>, BValue)>::empty());
        assert(es.take(0) =~= Seq::<(Seq<u8>, BValue)>::empty());
        assert(spec_encode_entries(Seq::<(Seq<u8>, BValue)>::empty()) == Seq::<u8>::empty());
        assert(es.take(1)[0] == es[0]);
        assert(spec_encode_entries(es.take(1)) =~= entry);
        assert(spec_encode_entries(es.take(0)) + entry =~= entry);
    } else {
        lemma_spec_encode_entries_take(es.drop_first(), j - 1);
        assert(es.take(j + 1).drop_first() =~= es.drop_first().take(j));
        assert(es.take(j).drop_first() =~= es.drop_first().take(j - 1));
        assert(es.take(j + 1)[0] == es[0]);
        assert(es.take(j)[0] == es[0]);
        assert(es.drop_first()[j - 1] == es[j]);
        let head = ascii_digits_of(es[0].0.len()) + seq![0x3au8] + es[0].0 + spec_encode(es[0].1);
        assert(spec_encode_entries(es.take(j + 1)) == head + spec_encode_entries(
            es.drop_first().take(j),
        ));
        assert(spec_encode_entries(es.take(j)) == head + spec_encode_entries(
            es.drop_first().take(j - 1),
        ));
        assert(head + (spec_encode_entries(es.drop_first().take(j - 1)) + entry) =~= (head
            + spec_encode_entries(es.drop_first().take(j - 1))) + entry);
    }
}

/// Encodes a value tree canonically. On a well-formed tree (dictionary keys
/// already strictly ascending) the output is exactly the canonical encoding;
/// a dictionary whose keys are out of order is emitted with its entries
/// reordered by key.
pub fn encode_value(v: &Bencode) -> (r: Vec<u8>)
    ensures
        wf(v.deep_view()) ==> r@ == spec_encode(v.deep_view()),
    decreases v,
{
    match v {
        Bencode::Int(n) => encode_number(*n),
        Bencode::Bytes(b) => encode_string(b.as_slice()),
        Bencode::List(items) => encode_list(items),
        Bencode::Dict(entries) => encode_dict(entries),
    }
}

/// Encodes a list as `l<items>e`.
pub fn encode_list(items: &Vec<Bencode>) -> (r: Vec<u8>)
    ensures
        wf(BValue::List(deep_view_items(items@))) ==> r@ == spec_encode(
            BValue::List(deep_view_items(items@)),
        ),
    decreases items,
{
    let ghost dv = deep_view_items(items@);
    let ghost whole = BValue::List(dv);
    proof {
        lemma_deep_view_items_index(items@);
    }
    let mut r: Vec<u8> = Vec::new();
    r.push(0x6c);
    let mut j: usize = 0;
    while j < items.len()
        invariant
            0 <= j <= items@.len(),
            dv == deep_view_items(items@),
            dv.len() == items@.len(),
            forall|i: int| 0 <= i < items@.len() ==> #[trigger] dv[i] == items@[i].deep_view(),
            wf(whole) ==> r@ == seq![0x6cu8] + spec_encode_items(dv.take(j as int)),
            whole == BValue::List(dv),
        decreases items@.len() - j,
    {
        let piece = encode_value(&items[j]);
        r.extend_from_slice(piece.as_slice());
        proof {
            if wf(whole) {
                crate::bencode::lemma_wf_list_item(dv, j as int);
                assert(piece@ == spec_encode(dv[j as int]));
                lemma_spec_encode_items_take(dv, j as int);
                assert(r@ =~= seq![0x6cu8] + spec_encode_items(dv.take(j + 1)));
            }
        }
        j = j + 1;
    }
    r.push(0x65);
    proof {
        if wf(whole) {
            assert(dv.take(items@.len() as int) =~= dv);
            assert(r@ =~= spec_encode(whole));
        }
    }
    r
}

/// Encodes a dictionary as `d<key><value>...e`. Entries already in strictly
/// ascending key order are emitted as stored; otherwise they are emitted in
/// sorted key order.
pub fn encode_dict(entries: &Vec<(Vec<u8>, Bencode)>) -> (r: Vec<u8>)
    ensures
        wf(BValue::Dict(deep_view_entries(entries@))) ==> r@ == spec_encode(
            BValue::Dict(deep_view_entries(entries@)),
        ),
    decreases entries,
{
    let ghost dv = deep_view_entries(entries@);
    let ghost whole = BValue::Dict(dv);
    proof {
        lemma_deep_view_entries_index(entries@);
    }
    let mut sorted = true;
    let mut j: usize = 1;
    while j < entries.len()
        invariant_except_break
            1 <= j,
            j <= entries@.len() || entries@.len() == 0,
            sorted == true,
            forall|i: int|
                0 <= i < j - 1 ==> crate::bencode::lex_lt(#[trigger] dv[i].0, dv[i + 1].0),
        invariant
            dv.len() == entries@.len(),
            forall|i: int|
                0 <= i < entries@.len() ==> #[trigger] dv[i] == (
                entries@[i].0@,
                entries@[i].1.deep_view(),
                ),
        ensures
            sorted <==> entries_sorted(dv),
        decreases entries@.len() - j,
    {
        if !bytes_lt(entries[j - 1].0.as_slice(), entries[j].0.as_slice()) {
            sorted = false;
            proof {
                assert(!crate::bencode::lex_lt(dv[j - 1].0, dv[j as int].0));
                assert(!entries_sorted(dv));
            }
            break;
        }
        j = j + 1;
    }
    if sorted {
        proof {
            assert(entries_sorted(dv));
        }
        let mut r: Vec<u8> = Vec::new();
        r.push(0x64);
        let mut i: usize = 0;
        while i < entries.len()
            invariant
                0 <= i <= entries@.len(),
                dv == deep_view_entries(entries@),
                dv.len() == entries@.len(),
                forall|k: int|
                    0 <= k < entries@.len() ==> #[trigger] dv[k] == (
                    entries@[k].0@,
                    entries@[k].1.deep_view(),
                    ),
                wf(whole) ==> r@ == seq![0x64u8] + spec_encode_entries(dv.take(i as int)),
                whole == BValue::Dict(dv),
            decreases entries@.len() - i,
        {
            let key_piece = encode_string(entries[i].0.as_slice());
            r.extend_from_slice(key_piece.as_slice());
            let val_piece = encode_value(&entries[i].1);
            r.extend_from_slice(val_piece.as_slice());
            proof {
                if wf(whole) {
                    crate::bencode::lemma_wf_dict_value(dv, i as int);
                    assert(val_piece@ == spec_encode(dv[i as int].1));
                    lemma_spec_encode_entries_take(dv, i as int);
                    assert(r@ =~= seq![0x64u8] + spec_encode_entries(dv.take(i + 1)));
                }
            }
            i = i + 1;
        }
        r.push(0x65);
        proof {
            if wf(whole) {
                assert(dv.take(entries@.len() as int) =~= dv);
                assert(r@ =~= spec_encode(whole));
            }
        }
        r
    } else {
        // Out-of-order keys: not a well-formed tree, so nothing is promised;
        // emit the entries in sorted key order by repeated selection.
        proof {
            assert(!entries_sorted(dv));
            assert(!wf(whole));
        }
        let mut used: Vec<bool> = Vec::new();
        let mut f: usize = 0;
        while f < entries.len()
            invariant
                used@.len() == f <= entries@.len(),
            decreases entries@.len() - f,
        {
            used.push(false);
            f = f + 1;
        }
        let mut r: Vec<u8> = Vec::new();
        r.push(0x64);
        let mut round: usize = 0;
        while round < entries.len()
            invariant
                used@.len() == entries@.len(),
            decreases entries@.len() - round,
        {
            let mut best: usize = 0;
            let mut found = false;
            let mut c: usize = 0;
            while c < entries.len()
                invariant
                    used@.len() == entries@.len(),
                    c <= entries@.len(),
                    found ==> best < entries@.len(),
                decreases entries@.len() - c,
            {
                if !used[c] {
                    if !found || bytes_lt(entries[c].0.as_slice(), entries[best].0.as_slice()) {
                        best = c;
                        found = true;
                    }
                }
                c = c + 1;
            }
            if found {
                used.set(best, true);
                let key_piece = encode_string(entries[best].0.as_slice());
                r.extend_from_slice(key_piece.as_slice());
                let val_piece = encode_value(&entries[best].1);
                r.extend_from_slice(val_piece.as_slice());
            }
            round = round + 1;
        }
        r.push(0x65);
        r
    }
}

} // verus!
