use vstd::prelude::*;

verus! {

/// ASCII `0`..=`9`.
pub open spec fn is_digit(b: u8) -> bool {
    48 <= b <= 57
}

pub open spec fn all_digits(s: Seq<u8>) -> bool {
    forall|i: int| 0 <= i < s.len() ==> is_digit(#[trigger] s[i])
}

/// The number that a run of ASCII digits denotes in base ten.
pub open spec fn digits_value(s: Seq<u8>) -> nat
    decreases s.len(),
{
    if s.len() == 0 {
        0
    } else {
        digits_value(s.drop_last()) * 10 + (s.last() - 48) as nat
    }
}

/// The shortest base-ten text of `n`.
pub open spec fn decimal_text(n: nat) -> Seq<u8>
    decreases n,
{
    if n < 10 {
        seq![(48 + n) as u8]
    } else {
        decimal_text(n / 10).push((48 + n % 10) as u8)
    }
}

/// The text that `to_string` gives for an integer: a `-` before negative values.
pub open spec fn integer_text(i: int) -> Seq<u8> {
    if i < 0 {
        seq![45u8] + decimal_text((-i) as nat)
    } else {
        decimal_text(i as nat)
    }
}

/// The digits of an integer literal once an optional leading sign is removed.
pub open spec fn unsigned_part(s: Seq<u8>) -> Seq<u8> {
    if s.len() > 0 && (s[0] == 43 || s[0] == 45) {
        s.drop_first()
    } else {
        s
    }
}

/// What `str::parse::<i64>` accepts: an optional `+` or `-`, then at least one
/// digit, with the value in range.
pub open spec fn parse_i64_text(s: Seq<u8>) -> Option<int> {
    if s.len() == 0 || (s.len() == 1 && (s[0] == 43 || s[0] == 45)) {
        None
    } else {
        let d = unsigned_part(s);
        if !all_digits(d) {
            None
        } else if s[0] == 45 {
            if digits_value(d) <= 0x8000_0000_0000_0000 {
                Some(-(digits_value(d) as int))
            } else {
                None
            }
        } else if digits_value(d) <= 0x7fff_ffff_ffff_ffff {
            Some(digits_value(d) as int)
        } else {
            None
        }
    }
}

/// What `str::parse::<u64>` accepts: an optional `+`, then at least one digit,
/// with the value in range.
pub open spec fn parse_u64_text(s: Seq<u8>) -> Option<nat> {
    if s.len() == 0 || (s.len() == 1 && (s[0] == 43 || s[0] == 45)) {
        None
    } else {
        let d = if s[0] == 43 {
            s.drop_first()
        } else {
            s
        };
        if all_digits(d) && digits_value(d) <= u64::MAX {
            Some(digits_value(d))
        } else {
            None
        }
    }
}

pub open spec fn value_cap() -> nat {
    0x1_0000_0000_0000_0000
}

pub open spec fn capped(v: nat) -> nat {
    if v > value_cap() {
        value_cap()
    } else {
        v
    }
}

proof fn lemma_capped_step(v: nat, d: nat)
    requires
        d < 10,
    ensures
        capped(capped(v) * 10 + d) == capped(v * 10 + d),
{
}

/// Reads `s[lo..hi]` as a run of digits; the value is capped at 2^64 so that it
/// fits while staying large enough to reject every out-of-range literal.
fn scan_digits(s: &[u8], lo: usize, hi: usize) -> (r: Option<u128>)
    requires
        lo <= hi <= s@.len(),
    ensures
        match r {
            Some(v) => all_digits(s@.subrange(lo as int, hi as int)) && v == capped(
                digits_value(s@.subrange(lo as int, hi as int)),
            ),
            None => !all_digits(s@.subrange(lo as int, hi as int)),
        },
{
    let mut acc: u128 = 0;
    let mut i = lo;
    while i < hi
        invariant
            lo <= i <= hi <= s@.len(),
            all_digits(s@.subrange(lo as int, i as int)),
            acc == capped(digits_value(s@.subrange(lo as int, i as int))),
        decreases hi - i,
    {
        let b = s[i];
        if b < 48 || b > 57 {
            assert(!is_digit(s@.subrange(lo as int, hi as int)[i - lo]));
            return None;
        }
        let ghost prefix = s@.subrange(lo as int, i as int);
        let ghost next = s@.subrange(lo as int, i + 1);
        assert(next.drop_last() =~= prefix);
        assert(next.last() == b);
        proof {
            lemma_capped_step(digits_value(prefix), (b - 48) as nat);
        }
        let step = acc * 10 + (b - 48) as u128;
        acc = if step > 0x1_0000_0000_0000_0000 {
            0x1_0000_0000_0000_0000
        } else {
            step
        };
        i = i + 1;
        assert(all_digits(s@.subrange(lo as int, i as int))) by {
            assert forall|j: int| 0 <= j < next.len() implies is_digit(#[trigger] next[j]) by {
                if j < prefix.len() {
                    assert(next[j] == prefix[j]);
                }
            }
        }
    }
    Some(acc)
}

/// `str::parse::<i64>` on the bytes `s[lo..hi]`.
pub fn parse_i64(s: &[u8], lo: usize, hi: usize) -> (r: Option<i64>)
    requires
        lo <= hi <= s@.len(),
    ensures
        match r {
            Some(v) => parse_i64_text(s@.subrange(lo as int, hi as int)) == Some(v as int),
            None => parse_i64_text(s@.subrange(lo as int, hi as int)) is None,
        },
{
    let ghost t = s@.subrange(lo as int, hi as int);
    if lo == hi {
        return None;
    }
    let first = s[lo];
    if hi - lo == 1 && (first == 43 || first == 45) {
        return None;
    }
    let start = if first == 43 || first == 45 {
        lo + 1
    } else {
        lo
    };
    assert(unsigned_part(t) =~= s@.subrange(start as int, hi as int));
    match scan_digits(s, start, hi) {
        None => None,
        Some(v) => {
            if first == 45 {
                if v <= 0x8000_0000_0000_0000 {
                    Some((0 - (v as i128)) as i64)
                } else {
                    None
                }
            } else if v <= 0x7fff_ffff_ffff_ffff {
                Some(v as i64)
            } else {
                None
            }
        },
    }
}

/// `str::parse::<u64>` on the bytes `s[lo..hi]`.
pub fn parse_u64(s: &[u8], lo: usize, hi: usize) -> (r: Option<u64>)
    requires
        lo <= hi <= s@.len(),
    ensures
        match r {
            Some(v) => parse_u64_text(s@.subrange(lo as int, hi as int)) == Some(v as nat),
            None => parse_u64_text(s@.subrange(lo as int, hi as int)) is None,
        },
{
    let ghost t = s@.subrange(lo as int, hi as int);
    if lo == hi {
        return None;
    }
    let first = s[lo];
    if hi - lo == 1 && (first == 43 || first == 45) {
        return None;
    }
    let start = if first == 43 {
        lo + 1
    } else {
        lo
    };
    assert(s@.subrange(start as int, hi as int) =~= (if t[0] == 43 {
        t.drop_first()
    } else {
        t
    }));
    match scan_digits(s, start, hi) {
        None => None,
        Some(v) => {
            if v <= 0xffff_ffff_ffff_ffff {
                Some(v as u64)
            } else {
                None
            }
        },
    }
}

/// Appends the base-ten digits of `n`.
pub fn push_decimal(n: u64, out: &mut Vec<u8>)
    ensures
        final(out)@ == old(out)@ + decimal_text(n as nat),
    decreases n,
{
    if n < 10 {
        out.push((48 + n) as u8);
        assert(final(out)@ =~= old(out)@ + decimal_text(n as nat));
    } else {
        push_decimal(n / 10, out);
        out.push((48 + n % 10) as u8);
        assert(final(out)@ =~= old(out)@ + decimal_text(n as nat));
    }
}

/// The text of `n` as `to_string` writes it.
pub fn integer_to_text(n: i64) -> (r: Vec<u8>)
    ensures
        r@ == integer_text(n as int),
{
    let mut out: Vec<u8> = Vec::new();
    if n < 0 {
        out.push(45u8);
        let magnitude: u64 = (0 - (n as i128)) as u64;
        push_decimal(magnitude, &mut out);
        assert(out@ =~= integer_text(n as int));
    } else {
        push_decimal(n as u64, &mut out);
        assert(out@ =~= integer_text(n as int));
    }
    out
}

/// The text of a length as `to_string` writes it.
pub fn length_to_text(n: usize) -> (r: Vec<u8>)
    ensures
        r@ == decimal_text(n as nat),
{
    let mut out: Vec<u8> = Vec::new();
    push_decimal(n as u64, &mut out);
    assert(out@ =~= decimal_text(n as nat));
    out
}

/// The decimal text of a number is one or more digits that read back as it.
pub proof fn lemma_decimal_text(n: nat)
    ensures
        decimal_text(n).len() >= 1,
        all_digits(decimal_text(n)),
        digits_value(decimal_text(n)) == n,
    decreases n,
{
    let t = decimal_text(n);
    if n < 10 {
        assert(t.drop_last() =~= Seq::<u8>::empty());
        assert(digits_value(t) == digits_value(t.drop_last()) * 10 + (t.last() - 48) as nat);
    } else {
        lemma_decimal_text(n / 10);
        let p = decimal_text(n / 10);
        assert(t.drop_last() =~= p);
        assert(t.last() == (48 + n % 10) as u8);
        assert(digits_value(t) == digits_value(p) * 10 + n % 10);
        assert(n == (n / 10) * 10 + n % 10);
        assert forall|i: int| 0 <= i < t.len() implies is_digit(#[trigger] t[i]) by {
            if i < p.len() {
                assert(t[i] == p[i]);
            }
        }
    }
}

/// The text of a non-negative number reads back as that number.
pub proof fn lemma_parse_decimal_text(n: nat)
    requires
        n <= u64::MAX,
    ensures
        parse_u64_text(decimal_text(n)) == Some(n),
        n <= 0x7fff_ffff_ffff_ffff ==> parse_i64_text(decimal_text(n)) == Some(n as int),
{
    lemma_decimal_text(n);
    let t = decimal_text(n);
    assert(is_digit(t[0]));
}

/// The text that `to_string` gives an `i64` reads back as the same `i64`.
pub proof fn lemma_parse_integer_text(i: int)
    requires
        i64::MIN <= i <= i64::MAX,
    ensures
        parse_i64_text(integer_text(i)) == Some(i),
{
    if i < 0 {
        let m = (-i) as nat;
        lemma_decimal_text(m);
        let t = integer_text(i);
        let d = decimal_text(m);
        assert(t.drop_first() =~= d);
        assert(unsigned_part(t) =~= d);
        assert(is_digit(d[0]));
        assert(t[0] == 45);
        assert(t.len() >= 2);
    } else {
        lemma_parse_decimal_text(i as nat);
    }
}

} // verus!
