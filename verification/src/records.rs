use vstd::prelude::*;

verus! {

/// The record terminator: every complete record ends with a newline byte.
pub const NL: u8 = 10;

/// The field delimiter that separates a record's key from its value.
pub const SEMI: u8 = 59;

/// Index of the first occurrence of `b` in `s`, or -1 if `b` does not occur.
pub open spec fn first_at(s: Seq<u8>, b: u8) -> int
    decreases s.len(),
{
    if s.len() == 0 {
        -1
    } else if s[0] == b {
        0
    } else if first_at(s.skip(1), b) == -1 {
        -1
    } else {
        first_at(s.skip(1), b) + 1
    }
}

/// Index of the last occurrence of `b` in `s`, or -1 if `b` does not occur.
pub open spec fn last_at(s: Seq<u8>, b: u8) -> int
    decreases s.len(),
{
    if s.len() == 0 {
        -1
    } else if s[s.len() - 1] == b {
        s.len() - 1
    } else {
        last_at(s.drop_last(), b)
    }
}

/// `first_at` returns -1 exactly when `b` is absent, and otherwise the
/// position of `b` with no earlier occurrence.
pub proof fn lemma_first_at(s: Seq<u8>, b: u8)
    ensures
        first_at(s, b) == -1 ==> (forall|i: int| 0 <= i < s.len() ==> s[i] != b),
        first_at(s, b) != -1 ==> 0 <= first_at(s, b) < s.len(),
        first_at(s, b) != -1 ==> s[first_at(s, b)] == b,
        first_at(s, b) != -1 ==> (forall|i: int| 0 <= i < first_at(s, b) ==> s[i] != b),
    decreases s.len(),
{
    if s.len() == 0 {
    } else if s[0] == b {
    } else {
        let t = s.skip(1);
        lemma_first_at(t, b);
        if first_at(t, b) == -1 {
            assert forall|i: int| 0 <= i < s.len() implies s[i] != b by {
                if i >= 1 {
                    assert(t[i - 1] == s[i]);
                }
            }
        } else {
            let r = first_at(t, b) + 1;
            assert(s[r] == t[r - 1]);
            assert forall|i: int| 0 <= i < r implies s[i] != b by {
                if i >= 1 {
                    assert(t[i - 1] == s[i]);
                }
            }
        }
    }
}

/// Pins `first_at` to a known first occurrence.
pub proof fn lemma_first_at_exact(s: Seq<u8>, b: u8, j: int)
    requires
        0 <= j < s.len(),
        s[j] == b,
        forall|i: int| 0 <= i < j ==> s[i] != b,
    ensures
        first_at(s, b) == j,
{
    lemma_first_at(s, b);
}

/// `last_at` returns -1 exactly when `b` is absent, and otherwise the
/// position of `b` with no later occurrence.
pub proof fn lemma_last_at(s: Seq<u8>, b: u8)
    ensures
        last_at(s, b) == -1 ==> (forall|i: int| 0 <= i < s.len() ==> s[i] != b),
        last_at(s, b) != -1 ==> 0 <= last_at(s, b) < s.len(),
        last_at(s, b) != -1 ==> s[last_at(s, b)] == b,
        last_at(s, b) != -1 ==> (forall|i: int| last_at(s, b) < i < s.len() ==> s[i] != b),
    decreases s.len(),
{
    if s.len() == 0 {
    } else if s[s.len() - 1] == b {
    } else {
        let t = s.drop_last();
        lemma_last_at(t, b);
        if last_at(t, b) == -1 {
            assert forall|i: int| 0 <= i < s.len() implies s[i] != b by {
                if i < s.len() - 1 {
                    assert(t[i] == s[i]);
                }
            }
        } else {
            let r = last_at(t, b);
            assert(s[r] == t[r]);
            assert forall|i: int| r < i < s.len() implies s[i] != b by {
                if i < s.len() - 1 {
                    assert(t[i] == s[i]);
                }
            }
        }
    }
}

/// The complete records in `s`: for each newline, the bytes since the
/// previous newline (exclusive), in order. Bytes after the last newline
/// belong to no record.
pub open spec fn lines(s: Seq<u8>) -> Seq<Seq<u8>>
    decreases s.len()
    via lines_decreases
{
    let r = first_at(s, NL);
    if r == -1 {
        Seq::empty()
    } else {
        seq![s.take(r)] + lines(s.skip(r + 1))
    }
}

#[via_fn]
proof fn lines_decreases(s: Seq<u8>) {
    lemma_first_at(s, NL);
}

/// A byte string with no newline holds no complete record.
pub proof fn lemma_lines_none(s: Seq<u8>)
    requires
        forall|i: int| 0 <= i < s.len() ==> s[i] != NL,
    ensures
        lines(s) == Seq::<Seq<u8>>::empty(),
{
    lemma_first_at(s, NL);
    if first_at(s, NL) != -1 {
        assert(s[first_at(s, NL)] == NL);
    }
}

/// Peeling the first record off a byte string whose first newline is at `j`.
pub proof fn lemma_lines_unfold(s: Seq<u8>, j: int)
    requires
        0 <= j < s.len(),
        s[j] == NL,
        forall|i: int| 0 <= i < j ==> s[i] != NL,
    ensures
        lines(s) == seq![s.take(j)] + lines(s.skip(j + 1)),
{
    lemma_first_at_exact(s, NL, j);
}

/// A byte string is aligned when it is empty or ends with a newline, so
/// that it consists solely of complete records.
pub open spec fn aligned(s: Seq<u8>) -> bool {
    s.len() == 0 || s[s.len() - 1] == NL
}

/// The concatenation of a sequence of byte strings, in order.
pub open spec fn concat_all(cs: Seq<Seq<u8>>) -> Seq<u8>
    decreases cs.len(),
{
    if cs.len() == 0 {
        Seq::empty()
    } else {
        cs[0] + concat_all(cs.skip(1))
    }
}

/// Concatenation extends on the right one piece at a time.
pub proof fn lemma_concat_all_push(cs: Seq<Seq<u8>>, x: Seq<u8>)
    ensures
        concat_all(cs.push(x)) == concat_all(cs) + x,
    decreases cs.len(),
{
    if cs.len() == 0 {
        let p = cs.push(x);
        assert(p.skip(1) =~= Seq::<Seq<u8>>::empty());
        assert(p[0] == x);
        assert(concat_all(p) == p[0] + concat_all(p.skip(1)));
        assert(concat_all(p.skip(1)) == Seq::<u8>::empty());
        assert(concat_all(cs) == Seq::<u8>::empty());
        assert(x + Seq::<u8>::empty() =~= Seq::<u8>::empty() + x);
    } else {
        assert(cs.push(x)[0] == cs[0]);
        assert(cs.push(x).skip(1) =~= cs.skip(1).push(x));
        lemma_concat_all_push(cs.skip(1), x);
        vstd::seq_lib::lemma_concat_associative(cs[0], concat_all(cs.skip(1)), x);
    }
}

/// The records of a concatenation split at an aligned boundary: the left
/// part contributes exactly its own records, the right part its own.
pub proof fn lemma_lines_append(a: Seq<u8>, b: Seq<u8>)
    requires
        aligned(a),
    ensures
        lines(a + b) == lines(a) + lines(b),
    decreases a.len(),
{
    if a.len() == 0 {
        assert(a + b =~= b);
        assert(lines(a) + lines(b) =~= lines(b));
    } else {
        lemma_first_at(a, NL);
        let r = first_at(a, NL);
        assert(a[a.len() - 1] == NL);
        assert(r != -1) by {
            if r == -1 {
                assert(a[a.len() - 1] != NL);
            }
        }
        assert(0 <= r < a.len() && a[r] == NL);
        let c = a + b;
        assert(forall|i: int| 0 <= i < r ==> c[i] == a[i]);
        assert(c[r] == a[r]);
        lemma_lines_unfold(c, r);
        lemma_lines_unfold(a, r);
        assert(c.take(r) =~= a.take(r));
        assert(c.skip(r + 1) =~= a.skip(r + 1) + b);
        assert(aligned(a.skip(r + 1))) by {
            if a.skip(r + 1).len() > 0 {
                assert(a.skip(r + 1)[a.skip(r + 1).len() - 1] == a[a.len() - 1]);
            }
        }
        lemma_lines_append(a.skip(r + 1), b);
        assert(lines(a + b) =~= lines(a) + lines(b));
    }
}

} // verus!
