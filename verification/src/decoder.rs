use vstd::prelude::*;
use crate::bencode::{
    Bencode, BValue, deep_view_entries, deep_view_items, digit_run_len, entries_sorted,
    lemma_deep_view_entries_index, lemma_deep_view_items_index, lemma_digit_run_shift,
    lemma_digit_run_split, lemma_entries_sorted_push, bytes_lt, spec_decode, spec_decode_bytestr,
    spec_decode_entries, spec_decode_int, spec_decode_items,
};
use crate::digits::{digits_val, is_canon_digits, is_digit, parse_digits_bounded};

verus! {

/// Why a bencoded input was rejected.
#[derive(Debug)]
pub enum DecodeError {
    /// The input ends before the value it announces.
    Truncated,
    /// A byte that opens no value stands at a value position.
    UnknownTag,
    /// An integer literal is empty, has a leading zero, is `-0`, or does not
    /// fit a signed 64-bit word.
    MalformedInteger,
    /// A byte-string length literal has a leading zero or lacks its colon.
    MalformedLength,
    /// Dictionary keys do not strictly ascend.
    NonAscendingKeys,
    /// A full parse left bytes behind the first value.
    TrailingData,
}

/// The first position at or after `pos` that holds no ASCII digit.
fn scan_digits(s: &[u8], pos: usize) -> (r: usize)
    requires
        pos <= s@.len(),
    ensures
        pos <= r <= s@.len(),
        r - pos == digit_run_len(s@.skip(pos as int), 0),
        forall|j: int| pos <= j < r ==> is_digit(#[trigger] s@[j]),
        r == s@.len() || !is_digit(s@[r as int]),
        pos < s@.len() && is_digit(s@[pos as int]) ==> r > pos,
{
    let ghost t = s@.skip(pos as int);
    let mut j: usize = pos;
    loop
        invariant
            pos <= j <= s@.len(),
            t == s@.skip(pos as int),
            forall|k: int| pos <= k < j ==> is_digit(#[trigger] s@[k]),
        ensures
            pos <= j <= s@.len(),
            forall|k: int| pos <= k < j ==> is_digit(#[trigger] s@[k]),
            j == s@.len() || !is_digit(s@[j as int]),
        decreases s@.len() - j,
    {
        if j == s.len() {
            break;
        }
        if !(0x30 <= s[j] && s[j] <= 0x39) {
            break;
        }
        j = j + 1;
    }
    proof {
        assert(forall|k: int| 0 <= k < j - pos ==> is_digit(#[trigger] t[k]));
        lemma_digit_run_split(t, j - pos);
        assert(digit_run_len(t, j - pos) == 0) by {
            if (j as int) - (pos as int) < t.len() {
                assert(t[j - pos] == s@[j as int]);
                assert(!is_digit(t[j - pos]));
            }
        }
    }
    j
}

/// Decodes the minimum prefix of `s` that starts at `pos` and forms a value.
/// On success the result holds the value and the position just past it; the
/// contract ties both outcomes exactly to the grammar (`spec_decode`).
pub fn decode_value_at(s: &[u8], pos: usize) -> (r: Result<(Bencode, usize), DecodeError>)
    requires
        pos <= s@.len(),
    ensures
        match r {
            Ok(p) => {
                &&& spec_decode(s@.skip(pos as int)) == Some(
                    (p.0.deep_view(), p.1 - pos as int),
                )
                &&& pos < p.1 <= s@.len()
            },
            Err(_) => spec_decode(s@.skip(pos as int)) is None,
        },
    decreases s@.len() - pos, 1int,
{
    let ghost t = s@.skip(pos as int);
    if pos == s.len() {
        return Err(DecodeError::Truncated);
    }
    let tag = s[pos];
    assert(t[0] == tag);
    if 0x30 <= tag && tag <= 0x39 {
        decode_bytestr_at(s, pos)
    } else if tag == 0x69 {
        decode_int_at(s, pos)
    } else if tag == 0x6c {
        decode_list_at(s, pos)
    } else if tag == 0x64 {
        decode_dict_at(s, pos)
    } else {
        Err(DecodeError::UnknownTag)
    }
}

/// Decodes a byte string `<length>:<bytes>` at `pos`.
fn decode_bytestr_at(s: &[u8], pos: usize) -> (r: Result<(Bencode, usize), DecodeError>)
    requires
        pos < s@.len(),
        is_digit(s@[pos as int]),
    ensures
        match r {
            Ok(p) => {
                &&& spec_decode(s@.skip(pos as int)) == Some(
                    (p.0.deep_view(), p.1 - pos as int),
                )
                &&& pos < p.1 <= s@.len()
            },
            Err(_) => spec_decode(s@.skip(pos as int)) is None,
        },
{
    let ghost t = s@.skip(pos as int);
    assert(t[0] == s@[pos as int]);
    let dend = scan_digits(s, pos);
    let ghost dlen = dend - pos as int;
    assert(dlen >= 1);
    assert(t.take(dlen) =~= s@.subrange(pos as int, dend as int));
    if dend == s.len() {
        return Err(DecodeError::Truncated);
    }
    assert(t[dlen] == s@[dend as int]);
    if s[dend] != 0x3a {
        return Err(DecodeError::MalformedLength);
    }
    if s[pos] == 0x30 && dend - pos > 1 {
        assert(!is_canon_digits(t.take(dlen)));
        return Err(DecodeError::MalformedLength);
    }
    assert(is_canon_digits(t.take(dlen)));
    let bound: u64 = (s.len() - dend - 1) as u64;
    match parse_digits_bounded(s, pos, dend, bound) {
        None => {
            proof {
                assert(digits_val(t.take(dlen)) > bound);
            }
            Err(DecodeError::Truncated)
        },
        Some(len64) => {
            let len: usize = len64 as usize;
            let start = dend + 1;
            let bytes = vstd::slice::slice_to_vec(vstd::slice::slice_subrange(
                s,
                start,
                start + len,
            ));
            proof {
                assert(bytes@ =~= t.subrange(dlen + 1, dlen + 1 + len as int));
            }
            Ok((Bencode::Bytes(bytes), start + len))
        },
    }
}

/// Decodes an integer `i<decimal>e` at `pos`.
fn decode_int_at(s: &[u8], pos: usize) -> (r: Result<(Bencode, usize), DecodeError>)
    requires
        pos < s@.len(),
        s@[pos as int] == 0x69,
    ensures
        match r {
            Ok(p) => {
                &&& spec_decode(s@.skip(pos as int)) == Some(
                    (p.0.deep_view(), p.1 - pos as int),
                )
                &&& pos < p.1 <= s@.len()
            },
            Err(_) => spec_decode(s@.skip(pos as int)) is None,
        },
{
    let slen = s.len();
    let ghost t = s@.skip(pos as int);
    assert(t[0] == s@[pos as int]);
    if pos + 1 == slen {
        assert(t.len() < 2);
        return Err(DecodeError::Truncated);
    }
    assert(t[1] == s@[pos + 1]);
    let neg = s[pos + 1] == 0x2d;
    let dstart = if neg {
        pos + 2
    } else {
        pos + 1
    };
    let ghost dstart_rel = dstart - pos as int;
    let dend = scan_digits(s, dstart);
    let ghost dlen = dend - dstart as int;
    proof {
        assert(t.skip(dstart_rel) =~= s@.skip(dstart as int));
        assert(digit_run_len(t, dstart_rel) == digit_run_len(t.skip(dstart_rel), 0)) by {
            lemma_digit_run_shift(t, dstart_rel);
        }
    }
    let ghost d = t.subrange(dstart_rel, dstart_rel + dlen);
    assert(d =~= s@.subrange(dstart as int, dend as int));
    if dend == dstart {
        return Err(DecodeError::MalformedInteger);
    }
    if dend == s.len() {
        return Err(DecodeError::Truncated);
    }
    assert(t[dstart_rel + dlen] == s@[dend as int]);
    if s[dend] != 0x65 {
        return Err(DecodeError::MalformedInteger);
    }
    if s[dstart] == 0x30 && dend - dstart > 1 {
        assert(!is_canon_digits(d));
        return Err(DecodeError::MalformedInteger);
    }
    assert(is_canon_digits(d));
    let bound: u64 = if neg {
        0x8000_0000_0000_0000
    } else {
        0x7fff_ffff_ffff_ffff
    };
    match parse_digits_bounded(s, dstart, dend, bound) {
        None => {
            proof {
                assert(digits_val(d) > bound);
            }
            Err(DecodeError::MalformedInteger)
        },
        Some(v) => {
            if neg {
                if v == 0 {
                    return Err(DecodeError::MalformedInteger);
                }
                let value: i64 = if v == 0x8000_0000_0000_0000 {
                    i64::MIN
                } else {
                    -(v as i64)
                };
                Ok((Bencode::Int(value), dend + 1))
            } else {
                Ok((Bencode::Int(v as i64), dend + 1))
            }
        },
    }
}

/// Decodes a list `l<items>e` at `pos`.
fn decode_list_at(s: &[u8], pos: usize) -> (r: Result<(Bencode, usize), DecodeError>)
    requires
        pos < s@.len(),
        s@[pos as int] == 0x6c,
    ensures
        match r {
            Ok(p) => {
                &&& spec_decode(s@.skip(pos as int)) == Some(
                    (p.0.deep_view(), p.1 - pos as int),
                )
                &&& pos < p.1 <= s@.len()
            },
            Err(_) => spec_decode(s@.skip(pos as int)) is None,
        },
    decreases s@.len() - pos, 0int,
{
    let _slen = s.len();
    let ghost t = s@.skip(pos as int);
    assert(t[0] == s@[pos as int]);
    assert(t.skip(1) =~= s@.skip(pos + 1));
    let mut items: Vec<Bencode> = Vec::new();
    let mut cur: usize = pos + 1;
    proof {
        lemma_deep_view_items_index(items@);
    }
    loop
        invariant
            pos + 1 <= cur <= s@.len(),
            t == s@.skip(pos as int),
            t[0] == 0x6c,
            t.skip(1) == s@.skip(pos + 1),
            spec_decode_items(s@.skip(pos + 1)) == (match spec_decode_items(s@.skip(cur as int)) {
                Some(p) => Some::<(Seq<BValue>, int)>(
                    (deep_view_items(items@) + p.0, cur - pos - 1 + p.1),
                ),
                None => None::<(Seq<BValue>, int)>,
            }),
        decreases s@.len() - cur,
    {
        let ghost u = s@.skip(cur as int);
        if cur == s.len() {
            assert(spec_decode_items(u) is None);
            return Err(DecodeError::Truncated);
        }
        assert(u[0] == s@[cur as int]);
        if s[cur] == 0x65 {
            assert(spec_decode_items(u) == Some((Seq::<BValue>::empty(), 1int)));
            proof {
                assert(deep_view_items(items@) + Seq::<BValue>::empty() =~= deep_view_items(
                    items@,
                ));
                assert(spec_decode_items(s@.skip(pos + 1)) == Some(
                    (deep_view_items(items@), cur - pos as int),
                ));
            }
            return Ok((Bencode::List(items), cur + 1));
        }
        match decode_value_at(s, cur) {
            Err(e) => {
                assert(spec_decode(u) is None);
                assert(spec_decode_items(u) is None);
                return Err(e);
            },
            Ok((v, end)) => {
                proof {
                    lemma_deep_view_items_index(items@);
                    lemma_deep_view_items_index(items@.push(v));
                }
                let ghost old_items = items@;
                items.push(v);
                proof {
                    assert(deep_view_items(items@) =~= deep_view_items(old_items) + seq![
                        v.deep_view(),
                    ]);
                    let n = end - cur as int;
                    assert(spec_decode(u) == Some((v.deep_view(), n)));
                    assert(u.skip(n) =~= s@.skip(end as int));
                    match spec_decode_items(s@.skip(end as int)) {
                        Some(p) => {
                            assert(spec_decode_items(u) == Some(
                                (seq![v.deep_view()] + p.0, n + p.1),
                            ));
                            assert(deep_view_items(old_items) + (seq![v.deep_view()] + p.0)
                                =~= deep_view_items(items@) + p.0);
                        },
                        None => {
                            assert(spec_decode_items(u) is None);
                        },
                    }
                }
                cur = end;
            },
        }
    }
}

/// Decodes a dictionary `d<key><value>...e` at `pos`, demanding strictly
/// ascending keys.
fn decode_dict_at(s: &[u8], pos: usize) -> (r: Result<(Bencode, usize), DecodeError>)
    requires
        pos < s@.len(),
        s@[pos as int] == 0x64,
    ensures
        match r {
            Ok(p) => {
                &&& spec_decode(s@.skip(pos as int)) == Some(
                    (p.0.deep_view(), p.1 - pos as int),
                )
                &&& pos < p.1 <= s@.len()
            },
            Err(_) => spec_decode(s@.skip(pos as int)) is None,
        },
    decreases s@.len() - pos, 0int,
{
    let _slen = s.len();
    let ghost t = s@.skip(pos as int);
    assert(t[0] == s@[pos as int]);
    assert(t.skip(1) =~= s@.skip(pos + 1));
    let mut entries: Vec<(Vec<u8>, Bencode)> = Vec::new();
    let mut cur: usize = pos + 1;
    proof {
        lemma_deep_view_entries_index(entries@);
    }
    loop
        invariant
            pos + 1 <= cur <= s@.len(),
            t == s@.skip(pos as int),
            t[0] == 0x64,
            t.skip(1) == s@.skip(pos + 1),
            entries_sorted(deep_view_entries(entries@)),
            spec_decode_entries(s@.skip(pos + 1)) == (match spec_decode_entries(
                s@.skip(cur as int),
            ) {
                Some(p) => Some::<(Seq<(Seq<u8>, BValue)>, int)>(
                    (deep_view_entries(entries@) + p.0, cur - pos - 1 + p.1),
                ),
                None => None::<(Seq<(Seq<u8>, BValue)>, int)>,
            }),
        decreases s@.len() - cur,
    {
        let ghost u = s@.skip(cur as int);
        if cur == s.len() {
            assert(spec_decode_entries(u) is None);
            return Err(DecodeError::Truncated);
        }
        assert(u[0] == s@[cur as int]);
        if s[cur] == 0x65 {
            assert(spec_decode_entries(u) == Some((Seq::<(Seq<u8>, BValue)>::empty(), 1int)));
            proof {
                assert(deep_view_entries(entries@) + Seq::<(Seq<u8>, BValue)>::empty()
                    =~= deep_view_entries(entries@));
                assert(spec_decode_entries(s@.skip(pos + 1)) == Some(
                    (deep_view_entries(entries@), cur - pos as int),
                ));
            }
            return Ok((Bencode::Dict(entries), cur + 1));
        }
        if !(0x30 <= s[cur] && s[cur] <= 0x39) {
            assert(!is_digit(u[0]));
            assert(digit_run_len(u, 0) == 0);
            assert(spec_decode_bytestr(u) is None);
            assert(spec_decode_entries(u) is None);
            return Err(DecodeError::UnknownTag);
        }
        let (key, key_end) = match decode_bytestr_at(s, cur) {
            Err(e) => {
                assert(spec_decode(u) is None);
                assert(spec_decode_bytestr(u) is None) by {
                    assert(is_digit(u[0]));
                }
                assert(spec_decode_entries(u) is None);
                return Err(e);
            },
            Ok((b, key_end)) => {
                match b {
                    Bencode::Bytes(key) => (key, key_end),
                    // A value decoded off a digit is always a byte string.
                    _ => vstd::pervasive::unreached(),
                }
            },
        };
        let ghost k = key@;
        let ghost n = key_end - cur as int;
        proof {
            assert(is_digit(u[0]));
            assert(spec_decode(u) == Some((BValue::Bytes(k), n)));
            assert(spec_decode_bytestr(u) == Some((k, n)));
            assert(u.skip(n) =~= s@.skip(key_end as int));
        }
        let in_order = if entries.len() == 0 {
            true
        } else {
            bytes_lt(entries[entries.len() - 1].0.as_slice(), key.as_slice())
        };
        match decode_value_at(s, key_end) {
            Err(e) => {
                assert(spec_decode(s@.skip(key_end as int)) is None);
                assert(spec_decode_entries(u) is None);
                return Err(e);
            },
            Ok((v, end)) => {
                let ghost m = end - key_end as int;
                proof {
                    assert(spec_decode(u.skip(n)) == Some((v.deep_view(), m)));
                    assert(u.skip(n + m) =~= s@.skip(end as int));
                    lemma_deep_view_entries_index(entries@);
                    lemma_deep_view_entries_index(entries@.push((key, v)));
                }
                let ghost old_entries = entries@;
                let ghost dve_old = deep_view_entries(old_entries);
                entries.push((key, v));
                proof {
                    assert(deep_view_entries(entries@) =~= dve_old + seq![(k, v.deep_view())]);
                    match spec_decode_entries(s@.skip(end as int)) {
                        Some(p) => {
                            assert(spec_decode_entries(u) == Some(
                                (seq![(k, v.deep_view())] + p.0, n + m + p.1),
                            ));
                            assert(dve_old + (seq![(k, v.deep_view())] + p.0)
                                =~= deep_view_entries(entries@) + p.0);
                        },
                        None => {
                            assert(spec_decode_entries(u) is None);
                        },
                    }
                }
                if !in_order {
                    // The keys seen so far already violate the strict order,
                    // so no completion of the input decodes to a dictionary.
                    proof {
                        let bad = deep_view_entries(entries@);
                        let j = bad.len() - 2;
                        assert(bad[j] == (old_entries.last().0@, old_entries.last().1.deep_view()));
                        assert(!crate::bencode::lex_lt(bad[j].0, bad[j + 1].0));
                        match spec_decode_entries(s@.skip(end as int)) {
                            Some(p) => {
                                let whole = bad + p.0;
                                assert(whole[j] == bad[j]);
                                assert(whole[j + 1] == bad[j + 1]);
                                assert(!entries_sorted(whole));
                                assert(spec_decode_entries(s@.skip(pos + 1)) == Some(
                                    (whole, end - pos - 1 + p.1),
                                ));
                            },
                            None => {
                                assert(spec_decode_entries(s@.skip(pos + 1)) is None);
                            },
                        }
                        assert(spec_decode(t) is None);
                    }
                    return Err(DecodeError::NonAscendingKeys);
                }
                proof {
                    lemma_entries_sorted_push(dve_old, k, v.deep_view());
                    assert(deep_view_entries(entries@) =~= dve_old.push((k, v.deep_view())));
                }
                cur = end;
            },
        }
    }
}

/// Decodes the minimum prefix of `s` forming a value: the value and the
/// unconsumed remainder's start.
pub fn decode_bencoded_value(s: &[u8]) -> (r: Result<(Bencode, usize), DecodeError>)
    ensures
        match r {
            Ok(p) => spec_decode(s@) == Some((p.0.deep_view(), p.1 as int)) && 0 < p.1 <= s@.len(),
            Err(_) => spec_decode(s@) is None,
        },
{
    proof {
        assert(s@.skip(0) =~= s@);
    }
    decode_value_at(s, 0)
}

/// Decodes `s` as one complete value: fails on a nonempty remainder.
pub fn decode_complete(s: &[u8]) -> (r: Result<Bencode, DecodeError>)
    ensures
        match r {
            Ok(v) => spec_decode(s@) == Some((v.deep_view(), s@.len() as int)),
            Err(_) => spec_decode(s@) is None || (spec_decode(s@) matches Some(p) && p.1
                < s@.len()),
        },
{
    match decode_bencoded_value(s) {
        Ok((v, end)) => {
            if end == s.len() {
                Ok(v)
            } else {
                Err(DecodeError::TrailingData)
            }
        },
        Err(e) => Err(e),
    }
}

} // verus!
