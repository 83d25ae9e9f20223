use vstd::prelude::*;

verus! {

pub open spec fn is_digit(b: u8) -> bool {
    0x30 <= b <= 0x39
}

/// The number written by a sequence of decimal digits.
pub open spec fn digits_value(s: Seq<u8>) -> nat
    decreases s.len(),
{
    if s.len() == 0 {
        0
    } else {
        digits_value(s.drop_last()) * 10 + (s.last() - 0x30) as nat
    }
}

/// The unsigned number a text holds, as integer parsing reads it: an
/// optional `+` and at least one decimal digit, nothing else.
pub open spec fn decimal(s: Seq<u8>) -> Option<nat> {
    let d = strip_plus(s);
    if d.len() > 0 && all_digits(d) {
        Some(digits_value(d))
    } else {
        None
    }
}

/// The text without a leading `+`.
pub open spec fn strip_plus(s: Seq<u8>) -> Seq<u8> {
    if s.len() > 0 && s[0] == 0x2B {
        s.drop_first()
    } else {
        s
    }
}

pub open spec fn all_digits(d: Seq<u8>) -> bool {
    forall|i: int| 0 <= i < d.len() ==> is_digit(#[trigger] d[i])
}

/// The number a text holds if it is at most `max`.
pub open spec fn decimal_upto(s: Seq<u8>, max: nat) -> Option<nat> {
    match decimal(s) {
        Some(v) => if v <= max {
            Some(v)
        } else {
            None
        },
        None => None,
    }
}

/// The pieces of a text between single spaces, empty pieces included.
pub open spec fn split_spaces(s: Seq<u8>) -> Seq<Seq<u8>>
    decreases s.len(),
{
    if s.len() == 0 {
        seq![Seq::empty()]
    } else {
        let prev = split_spaces(s.drop_last());
        if s.last() == 0x20 {
            prev.push(Seq::empty())
        } else {
            prev.update(prev.len() - 1, prev.last().push(s.last()))
        }
    }
}

/// Splitting at spaces gives at least one piece.
pub proof fn lemma_split_spaces_nonempty(s: Seq<u8>)
    ensures
        split_spaces(s).len() >= 1,
    decreases s.len(),
{
    if s.len() > 0 {
        lemma_split_spaces_nonempty(s.drop_last());
    }
}

proof fn lemma_digits_monotone(s: Seq<u8>, k: int)
    requires
        0 <= k <= s.len(),
        forall|i: int| 0 <= i < s.len() ==> is_digit(#[trigger] s[i]),
    ensures
        digits_value(s.take(k)) <= digits_value(s),
    decreases s.len() - k,
{
    if k < s.len() {
        lemma_digits_monotone(s, k + 1);
        assert(s.take(k + 1).drop_last() == s.take(k));
    } else {
        assert(s.take(k) == s);
    }
}

/// The number written in `s[start..end]` if it is at most `max`.
pub fn parse_decimal(s: &[u8], start: usize, end: usize, max: u32) -> (res: Option<u32>)
    requires
        start <= end <= s@.len(),
        max <= 65535,
    ensures
        match decimal_upto(s@.subrange(start as int, end as int), max as nat) {
            Some(v) => res == Some(v as u32),
            None => res is None,
        },
{
    let ghost t = s@.subrange(start as int, end as int);
    let mut i = start;
    if i < end && s[i] == 0x2B {
        i = i + 1;
    }
    let ghost d = s@.subrange(i as int, end as int);
    proof {
        if t.len() > 0 && t[0] == 0x2B {
            assert(d == t.drop_first());
        } else {
            assert(d == t);
        }
    }
    if i == end {
        return None;
    }
    let first = i;
    let mut acc: u32 = 0;
    while i < end
        invariant
            first <= i <= end <= s@.len(),
            first < end,
            d == s@.subrange(first as int, end as int),
            t == s@.subrange(start as int, end as int),
            d == strip_plus(t),
            acc <= max <= 65535,
            forall|j: int| first <= j < i ==> is_digit(#[trigger] s@[j]),
            acc == digits_value(s@.subrange(first as int, i as int)),
        decreases end - i,
    {
        let b = s[i];
        if b < 0x30 || b > 0x39 {
            assert(!is_digit(d[i - first]));
            assert(decimal(t) is None);
            return None;
        }
        proof {
            let p = s@.subrange(first as int, i + 1);
            assert(p.drop_last() == s@.subrange(first as int, i as int));
        }
        acc = acc * 10 + (b - 0x30) as u32;
        i = i + 1;
        if acc > max {
            proof {
                if all_digits(d) {
                    lemma_digits_monotone(d, i - first);
                    assert(d.take(i - first) == s@.subrange(first as int, i as int));
                    assert(decimal(t) == Some(digits_value(d)));
                    assert(digits_value(d) > max);
                } else {
                    assert(decimal(t) is None);
                }
                assert(decimal_upto(t, max as nat) is None);
            }
            return None;
        }
    }
    proof {
        assert(d == s@.subrange(first as int, i as int));
        assert forall|j: int| 0 <= j < d.len() implies is_digit(#[trigger] d[j]) by {
            assert(d[j] == s@[first + j]);
        }
    }
    Some(acc)
}

} // verus!
