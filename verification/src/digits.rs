use vstd::prelude::*;

verus! {

/// ASCII decimal digits and the numbers they denote. The bencode grammar
/// writes integer values and byte-string lengths as canonical decimal
/// literals: at least one digit, and no leading zero unless the value is zero.
pub open spec fn is_digit(b: u8) -> bool {
    0x30 <= b <= 0x39
}

/// The decimal rendering of a natural number, most significant digit first.
pub open spec fn ascii_digits_of(n: nat) -> Seq<u8>
    decreases n,
{
    if n < 10 {
        seq![(n + 0x30) as u8]
    } else {
        ascii_digits_of(n / 10).push((n % 10 + 0x30) as u8)
    }
}

/// The number denoted by a digit sequence, most significant digit first.
pub open spec fn digits_val(d: Seq<u8>) -> nat
    decreases d.len(),
{
    if d.len() == 0 {
        0
    } else {
        digits_val(d.drop_last()) * 10 + (d.last() - 0x30) as nat
    }
}

/// A canonical decimal literal: nonempty, all digits, and no leading zero
/// except for the single digit `0`.
pub open spec fn is_canon_digits(d: Seq<u8>) -> bool {
    &&& d.len() >= 1
    &&& forall|i: int| 0 <= i < d.len() ==> is_digit(#[trigger] d[i])
    &&& (d[0] == 0x30 ==> d.len() == 1)
}

pub proof fn lemma_ascii_digits_of_canon(n: nat)
    ensures
        is_canon_digits(ascii_digits_of(n)),
        digits_val(ascii_digits_of(n)) == n,
        n == 0 <==> ascii_digits_of(n) == seq![0x30u8],
    decreases n,
{
    if n < 10 {
        assert(ascii_digits_of(n) == seq![(n + 0x30) as u8]);
        assert(digits_val(ascii_digits_of(n)) == digits_val(
            ascii_digits_of(n).drop_last(),
        ) * 10 + n);
        assert(ascii_digits_of(n).drop_last() =~= Seq::<u8>::empty());
    } else {
        lemma_ascii_digits_of_canon(n / 10);
        let prefix = ascii_digits_of(n / 10);
        let whole = ascii_digits_of(n);
        assert(whole == prefix.push((n % 10 + 0x30) as u8));
        assert(whole.drop_last() =~= prefix);
        assert(n / 10 >= 1);
        assert(prefix[0] != 0x30 || prefix.len() == 1);
        assert(prefix.len() == 1 ==> digits_val(prefix) < 10) by {
            if prefix.len() == 1 {
                assert(prefix.drop_last() =~= Seq::<u8>::empty());
                assert(is_digit(prefix[0]));
                assert(digits_val(Seq::<u8>::empty()) == 0);
                assert(digits_val(prefix) == (prefix.last() - 0x30) as nat);
            }
        }
        assert(prefix[0] != 0x30) by {
            if prefix[0] == 0x30 {
                assert(prefix.len() == 1);
                assert(digits_val(prefix) == n / 10);
            }
        }
        assert(digits_val(whole) == (n / 10) * 10 + n % 10);
        assert((n / 10) * 10 + n % 10 == n) by {
            vstd::arithmetic::div_mod::lemma_fundamental_div_mod(n as int, 10);
        }
    }
}

/// A canonical literal denotes a value at least 1 when it does not begin
/// with `0`, and rendering the denoted value gives back the literal.
pub proof fn lemma_canon_digits_val_pos(d: Seq<u8>)
    requires
        is_canon_digits(d),
        d[0] != 0x30,
    ensures
        digits_val(d) >= 1,
    decreases d.len(),
{
    if d.len() == 1 {
        assert(d.drop_last() =~= Seq::<u8>::empty());
    } else {
        lemma_canon_digits_val_pos(d.drop_last());
    }
}

pub proof fn lemma_canon_digits_round_trip(d: Seq<u8>)
    requires
        is_canon_digits(d),
    ensures
        ascii_digits_of(digits_val(d)) == d,
    decreases d.len(),
{
    let n = digits_val(d);
    if d.len() == 1 {
        assert(d.drop_last() =~= Seq::<u8>::empty());
        assert(n == (d[0] - 0x30) as nat);
        assert(n < 10);
        assert(ascii_digits_of(n) =~= d);
    } else {
        let prefix = d.drop_last();
        assert(is_canon_digits(prefix)) by {
            assert(forall|i: int| 0 <= i < prefix.len() ==> is_digit(#[trigger] prefix[i]));
        }
        lemma_canon_digits_round_trip(prefix);
        assert(prefix[0] == d[0]);
        lemma_canon_digits_val_pos(prefix);
        assert(n == digits_val(prefix) * 10 + (d.last() - 0x30) as nat);
        assert(n >= 10);
        assert(n / 10 == digits_val(prefix) && n % 10 == (d.last() - 0x30) as nat) by {
            vstd::arithmetic::div_mod::lemma_fundamental_div_mod_converse(
                n as int,
                10,
                digits_val(prefix) as int,
                (d.last() - 0x30) as int,
            );
        }
        assert(ascii_digits_of(n) == ascii_digits_of(n / 10).push((n % 10 + 0x30) as u8));
        assert(ascii_digits_of(n) =~= d);
    }
}

/// The value denoted by a prefix of a digit sequence never exceeds the value
/// of the whole sequence.
pub proof fn lemma_digits_val_prefix_le(d: Seq<u8>, i: int)
    requires
        0 <= i <= d.len(),
    ensures
        digits_val(d.take(i)) <= digits_val(d),
    decreases d.len() - i,
{
    if i == d.len() {
        assert(d.take(i) =~= d);
    } else {
        lemma_digits_val_prefix_le(d, i + 1);
        assert(d.take(i + 1).drop_last() =~= d.take(i));
        assert(digits_val(d.take(i + 1)) == digits_val(d.take(i)) * 10 + (d.take(i + 1).last()
            - 0x30) as nat);
        assert(digits_val(d.take(i)) * 10 >= digits_val(d.take(i)));
    }
}

/// Renders a natural number as its decimal digits.
pub fn u64_digits(n: u64) -> (r: Vec<u8>)
    ensures
        r@ == ascii_digits_of(n as nat),
    decreases n,
{
    if n < 10 {
        let mut r: Vec<u8> = Vec::new();
        r.push((n + 0x30) as u8);
        assert(r@ =~= ascii_digits_of(n as nat));
        r
    } else {
        let mut r = u64_digits(n / 10);
        r.push((n % 10 + 0x30) as u8);
        r
    }
}

/// Parses the digits of `s` in `[start, end)` as a decimal number, unless the
/// denoted value exceeds `bound`.
pub fn parse_digits_bounded(s: &[u8], start: usize, end: usize, bound: u64) -> (r: Option<u64>)
    requires
        0 <= start <= end <= s@.len(),
        forall|i: int| start <= i < end ==> is_digit(#[trigger] s@[i]),
    ensures
        digits_val(s@.subrange(start as int, end as int)) <= bound <==> r is Some,
        r is Some ==> r->0 as nat == digits_val(s@.subrange(start as int, end as int)),
{
    let ghost d = s@.subrange(start as int, end as int);
    let mut acc: u64 = 0;
    let mut i: usize = start;
    while i < end
        invariant
            start <= i <= end <= s@.len(),
            forall|j: int| start <= j < end ==> is_digit(#[trigger] s@[j]),
            d == s@.subrange(start as int, end as int),
            acc as nat == digits_val(d.take(i - start)),
            acc <= bound,
        decreases end - i,
    {
        let x: u64 = (s[i] - 0x30) as u64;
        proof {
            assert(d.take(i - start + 1).drop_last() =~= d.take(i - start));
            assert(d.take(i - start + 1).last() == s@[i as int]);
            assert(digits_val(d.take(i - start + 1)) == (acc as nat) * 10 + x as nat);
            vstd::arithmetic::div_mod::lemma_fundamental_div_mod(bound as int, 10);
        }
        if acc > bound / 10 || (acc == bound / 10 && x > bound % 10) {
            proof {
                assert((acc as nat) * 10 + x as nat > bound) by {
                    if acc > bound / 10 {
                        assert((acc as nat) * 10 >= ((bound / 10) as nat + 1) * 10);
                    }
                }
                lemma_digits_val_prefix_le(d, i - start + 1);
                assert(digits_val(d) > bound);
            }
            return None;
        }
        proof {
            assert((acc as nat) * 10 + x as nat <= bound) by {
                assert(acc <= bound / 10);
                assert((acc as nat) * 10 <= ((bound / 10) as nat) * 10);
            }
        }
        acc = acc * 10 + x;
        i = i + 1;
    }
    proof {
        assert(d.take(end - start) =~= d);
    }
    Some(acc)
}

} // verus!
