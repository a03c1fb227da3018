use vstd::prelude::*;
use crate::records::{first_at, lemma_first_at, lemma_first_at_exact};

verus! {

/// The minus sign that may open a value field.
pub const MINUS: u8 = 45;

/// The dot that separates a value's integer digits from its fraction digit.
pub const DOT: u8 = 46;

/// Strict bound on the magnitude of any value, in tenths: a value field
/// carries at most fifteen integer digits, so its magnitude stays below
/// this constant.
pub const VALUE_LIMIT: i64 = 10_000_000_000_000_000;

/// Greatest number of integer digits a value field may carry.
pub const MAX_INT_DIGITS: usize = 15;

pub open spec fn is_digit(b: u8) -> bool {
    48 <= b <= 57
}

pub open spec fn all_digits(s: Seq<u8>) -> bool {
    forall|i: int| 0 <= i < s.len() ==> is_digit(#[trigger] s[i])
}

/// The number denoted by a run of decimal digits, most significant first.
pub open spec fn digits_val(s: Seq<u8>) -> int
    decreases s.len(),
{
    if s.len() == 0 {
        0
    } else {
        digits_val(s.drop_last()) * 10 + (s.last() - 48)
    }
}

pub open spec fn ten_pow(n: nat) -> int
    decreases n,
{
    if n == 0 {
        1
    } else {
        10 * ten_pow((n - 1) as nat)
    }
}

pub proof fn lemma_ten_pow_le(n: nat, m: nat)
    requires
        n <= m,
    ensures
        0 < ten_pow(n) <= ten_pow(m),
    decreases m,
{
    if m > 0 {
        if n == m {
            lemma_ten_pow_le(0, (m - 1) as nat);
        } else {
            lemma_ten_pow_le(n, (m - 1) as nat);
        }
    }
}

pub proof fn lemma_ten_pow_15()
    ensures
        ten_pow(15) == 1_000_000_000_000_000,
{
    reveal_with_fuel(ten_pow, 17);
}

/// A run of at most `n` digits denotes a number below the `n`th power of ten.
pub proof fn lemma_digits_val_bound(s: Seq<u8>)
    requires
        all_digits(s),
    ensures
        0 <= digits_val(s) < ten_pow(s.len()),
    decreases s.len(),
{
    if s.len() > 0 {
        assert(all_digits(s.drop_last())) by {
            assert(forall|i: int| 0 <= i < s.len() - 1 ==> s.drop_last()[i] == s[i]);
        }
        lemma_digits_val_bound(s.drop_last());
        assert(is_digit(s[s.len() - 1]));
    }
}

/// The magnitude, in tenths, denoted by an unsigned value field: one to
/// fifteen integer digits, optionally followed by a dot and exactly one
/// fraction digit. `None` when the field is not of that shape.
pub open spec fn magnitude_of(s: Seq<u8>) -> Option<int> {
    let d = first_at(s, DOT);
    if d == -1 {
        if 1 <= s.len() <= MAX_INT_DIGITS && all_digits(s) {
            Some(digits_val(s) * 10)
        } else {
            None
        }
    } else {
        let w = s.take(d);
        let f = s.skip(d + 1);
        if 1 <= w.len() <= MAX_INT_DIGITS && all_digits(w) && f.len() == 1 && is_digit(f[0]) {
            Some(digits_val(w) * 10 + (f[0] - 48))
        } else {
            None
        }
    }
}

/// The number denoted by a value field, in tenths: an optional minus sign
/// followed by an unsigned magnitude. `None` when the field is malformed.
pub open spec fn value_of(s: Seq<u8>) -> Option<int> {
    if s.len() > 0 && s[0] == MINUS {
        match magnitude_of(s.skip(1)) {
            Some(v) => Some(-v),
            None => None,
        }
    } else {
        magnitude_of(s)
    }
}

/// Every well-formed value stays strictly below `VALUE_LIMIT` in magnitude.
pub proof fn lemma_value_bound(s: Seq<u8>)
    ensures
        value_of(s) matches Some(v) ==> -(VALUE_LIMIT as int) < v < VALUE_LIMIT as int,
{
    lemma_magnitude_bound(s);
    if s.len() > 0 && s[0] == MINUS {
        lemma_magnitude_bound(s.skip(1));
    }
}

pub proof fn lemma_magnitude_bound(s: Seq<u8>)
    ensures
        magnitude_of(s) matches Some(v) ==> 0 <= v < VALUE_LIMIT as int,
{
    let d = first_at(s, DOT);
    lemma_ten_pow_15();
    if d == -1 {
        if 1 <= s.len() <= MAX_INT_DIGITS && all_digits(s) {
            lemma_digits_val_bound(s);
            lemma_ten_pow_le(s.len(), 15);
        }
    } else {
        let w = s.take(d);
        if 1 <= w.len() <= MAX_INT_DIGITS && all_digits(w) {
            lemma_digits_val_bound(w);
            lemma_ten_pow_le(w.len(), 15);
        }
    }
}

/// Parses `data[from..to]` as a value field, returning its number in
/// tenths, or `None` when the field is malformed or carries more than
/// `MAX_INT_DIGITS` integer digits.
pub fn parse_value(data: &Vec<u8>, from: usize, to: usize) -> (r: Option<i64>)
    requires
        from <= to <= data.len(),
    ensures
        r is Some <==> value_of(data@.subrange(from as int, to as int)) is Some,
        r matches Some(v) ==> value_of(data@.subrange(from as int, to as int)) == Some(v as int),
        r matches Some(v) ==> -VALUE_LIMIT < v < VALUE_LIMIT,
{
    let ghost s = data@.subrange(from as int, to as int);
    proof {
        lemma_value_bound(s);
    }
    let mut i = from;
    let mut neg = false;
    if i < to && data[i] == MINUS {
        neg = true;
        i = i + 1;
    }
    let ghost ms = i as int;
    let ghost m = data@.subrange(ms, to as int);
    proof {
        if neg {
            assert(m =~= s.skip(1));
        } else {
            assert(m =~= s);
        }
        assert(value_of(s) == (match magnitude_of(m) {
            Some(v) => Some(if neg { -v } else { v }),
            None => None::<int>,
        }));
    }
    let start = i;
    let mut acc: i64 = 0;
    proof {
        lemma_ten_pow_15();
    }
    while i < to && data[i] != DOT
        invariant
            from <= start <= i <= to <= data.len(),
            ms == start as int,
            m == data@.subrange(ms, to as int),
            all_digits(m.take(i - start)),
            acc == digits_val(m.take(i - start)),
            0 <= acc < ten_pow((i - start) as nat),
            i - start <= MAX_INT_DIGITS,
            ten_pow(15) == 1_000_000_000_000_000,
            s == data@.subrange(from as int, to as int),
            value_of(s) == (match magnitude_of(m) {
                Some(v) => Some(if neg { -v } else { v }),
                None => None::<int>,
            }),
        decreases to - i,
    {
        let b = data[i];
        if b < 48 || b > 57 {
            proof {
                assert(m[i - start] == b);
                assert(!all_digits(m)) by {
                    assert(!is_digit(m[i - start]));
                }
                let d = first_at(m, DOT);
                lemma_first_at(m, DOT);
                if d == -1 {
                    assert(magnitude_of(m) is None);
                } else {
                    // the dot lies at or after the bad byte, so the bad byte
                    // sits among the integer digits
                    assert(d > i - start) by {
                        if d <= i - start {
                            if d < i - start {
                                assert(is_digit(m.take(i - start)[d]));
                                assert(m[d] == m.take(i - start)[d]);
                            }
                            assert(m[d] == DOT);
                        }
                    }
                    assert(m.take(d)[i - start] == b);
                    assert(!all_digits(m.take(d)));
                    assert(magnitude_of(m) is None);
                }
            }
            return None;
        }
        if i - start == MAX_INT_DIGITS {
            proof {
                // a sixteenth integer digit: the integer-digit run is too long
                let d = first_at(m, DOT);
                lemma_first_at(m, DOT);
                if d == -1 {
                    if all_digits(m) && m.len() <= MAX_INT_DIGITS {
                        assert(m.take(i - start).len() == i - start);
                    }
                    assert(magnitude_of(m) is None);
                } else {
                    assert(d >= i - start + 1) by {
                        if d < i - start {
                            assert(is_digit(m.take(i - start)[d]));
                            assert(m[d] == m.take(i - start)[d]);
                        }
                        assert(m[i - start] == b);
                        assert(is_digit(b));
                    }
                    assert(m.take(d).len() > MAX_INT_DIGITS);
                    assert(magnitude_of(m) is None);
                }
            }
            return None;
        }
        proof {
            lemma_ten_pow_le((i - start + 1) as nat, 15);
            lemma_ten_pow_le((i - start) as nat, (i - start + 1) as nat);
            assert(ten_pow((i - start + 1) as nat) == 10 * ten_pow((i - start) as nat));
            assert(m.take(i + 1 - start).drop_last() =~= m.take(i - start));
            assert(m.take(i + 1 - start).last() == m[i - start]);
            assert(m[i - start] == data@[i as int]);
        }
        acc = acc * 10 + ((b - 48) as i64);
        i = i + 1;
    }
    if i == start {
        proof {
            // empty integer-digit run
            let d = first_at(m, DOT);
            lemma_first_at(m, DOT);
            if d == -1 {
                assert(m.len() == to - ms);
                assert(magnitude_of(m) is None);
            } else {
                assert(d == 0) by {
                    if d > 0 {
                        assert(m[0] != DOT);
                        assert(m[0] == data@[ms]);
                    }
                }
                assert(m.take(0).len() == 0);
                assert(magnitude_of(m) is None);
            }
        }
        return None;
    }
    let nd = i - start;
    if i == to {
        proof {
            assert(m.take(i - start) =~= m);
            let d = first_at(m, DOT);
            lemma_first_at(m, DOT);
            if d != -1 {
                assert(is_digit(m[d]));
            }
            assert(d == -1);
            assert(magnitude_of(m) == Some(digits_val(m) * 10));
        }
        let v = acc * 10;
        return Some(if neg { -v } else { v });
    }
    // data[i] is the dot
    proof {
        assert(m[i - start] == DOT);
        assert forall|k: int| 0 <= k < i - start implies m[k] != DOT by {
            assert(is_digit(m.take(i - start)[k]));
            assert(m.take(i - start)[k] == m[k]);
        }
        lemma_first_at_exact(m, DOT, i - start);
        assert(m.take(i - start as int) =~= m.take(first_at(m, DOT)));
    }
    if to - i != 2 {
        proof {
            assert(m.skip(i - start + 1).len() != 1);
            assert(magnitude_of(m) is None);
        }
        return None;
    }
    let f = data[i + 1];
    if f < 48 || f > 57 {
        proof {
            assert(m.skip(i - start + 1)[0] == f);
            assert(magnitude_of(m) is None);
        }
        return None;
    }
    proof {
        assert(m.skip(i - start + 1)[0] == f);
        assert(m.skip(i - start + 1).len() == 1);
        assert(magnitude_of(m) == Some(digits_val(m.take(i - start)) * 10 + (f - 48)));
    }
    let v = acc * 10 + ((f - 48) as i64);
    Some(if neg { -v } else { v })
}

} // verus!
