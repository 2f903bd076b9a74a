//! Reading structured text: splitting bytes into lines and fields, and
//! reading unsigned numerals.

use vstd::prelude::*;
use vstd::slice::slice_subrange;

verus! {

/// The byte that ends a line.
pub const NEWLINE: u8 = 10;

/// The byte that may precede a line's end and is then not part of the line.
pub const CARRIAGE_RETURN: u8 = 13;

/// The byte that separates the fields of a line.
pub const COMMA: u8 = 44;

/// The byte of the digit zero.
pub const ZERO: u8 = 48;

/// The byte of the plus sign.
pub const PLUS: u8 = 43;

/// The pieces of `s` between occurrences of `sep`. There is always at least
/// one piece; a separator at the very end is followed by an empty piece.
pub open spec fn split_on(s: Seq<u8>, sep: u8) -> Seq<Seq<u8>>
    decreases s.len(),
{
    if s.len() == 0 {
        seq![Seq::empty()]
    } else {
        let before = split_on(s.drop_last(), sep);
        if s.last() == sep {
            before.push(Seq::empty())
        } else {
            before.drop_last().push(before.last().push(s.last()))
        }
    }
}

/// The contents of a vector of byte strings.
pub open spec fn pieces(parts: Seq<Vec<u8>>) -> Seq<Seq<u8>> {
    Seq::new(parts.len(), |i: int| parts[i]@)
}

/// A line without the carriage return that may end it.
pub open spec fn without_cr(line: Seq<u8>) -> Seq<u8> {
    if line.len() > 0 && line.last() == CARRIAGE_RETURN {
        line.drop_last()
    } else {
        line
    }
}

/// The lines of a text. A line ends at a newline, or at a carriage return
/// directly followed by one; the last line need not be ended, and nothing
/// follows a final newline.
pub open spec fn lines_of(text: Seq<u8>) -> Seq<Seq<u8>> {
    let parts = split_on(text, NEWLINE);
    let ended = parts.len() - 1;
    Seq::new(
        if parts.last().len() == 0 {
            ended as nat
        } else {
            parts.len()
        },
        |i: int|
            if i < ended {
                without_cr(parts[i])
            } else {
                parts[i]
            },
    )
}

/// The value of a byte as a digit; bytes below `'0'` count as zero.
pub open spec fn digit_value(b: u8) -> nat {
    if b >= ZERO {
        (b - ZERO) as nat
    } else {
        0
    }
}

/// Every byte is a digit of the given base.
pub open spec fn all_digits(s: Seq<u8>, base: u8) -> bool {
    forall|i: int| 0 <= i < s.len() ==> ZERO <= #[trigger] s[i] < ZERO + base
}

/// The number that a string of digits denotes in the given base, most
/// significant digit first.
pub open spec fn digits_value(s: Seq<u8>, base: u8) -> nat
    decreases s.len(),
{
    if s.len() == 0 {
        0
    } else {
        digits_value(s.drop_last(), base) * (base as nat) + digit_value(s.last())
    }
}

/// The number that a string of digits denotes: `s` must be a non-empty
/// string of digits of the given base, and nothing else, whose value fits in
/// a `u64`.
pub open spec fn digit_string(s: Seq<u8>, base: u8) -> Option<u64> {
    if s.len() > 0 && all_digits(s, base) && digits_value(s, base) <= u64::MAX {
        Some(digits_value(s, base) as u64)
    } else {
        None
    }
}

/// The number that `s` denotes: a string of digits, which one plus sign may
/// precede. A minus sign, a blank or any other byte makes `s` no numeral.
pub open spec fn numeral(s: Seq<u8>, base: u8) -> Option<u64> {
    if s.len() > 0 && s[0] == PLUS {
        digit_string(s.skip(1), base)
    } else {
        digit_string(s, base)
    }
}

/// A string without the separator is one piece.
pub proof fn lemma_split_without_separator(s: Seq<u8>, sep: u8)
    requires
        forall|i: int| 0 <= i < s.len() ==> s[i] != sep,
    ensures
        split_on(s, sep) == seq![s],
    decreases s.len(),
{
    if s.len() == 0 {
        assert(s =~= Seq::<u8>::empty());
        assert(split_on(s, sep) =~= seq![s]);
    } else {
        let front = s.drop_last();
        lemma_split_without_separator(front, sep);
        assert(seq![front].drop_last().push(seq![front].last().push(s.last())) =~= seq![s]) by {
            assert(front.push(s.last()) =~= s);
        }
    }
}

/// Two strings without the separator, joined by it, split into the two.
pub proof fn lemma_split_of_joined(a: Seq<u8>, b: Seq<u8>, sep: u8)
    requires
        forall|i: int| 0 <= i < a.len() ==> a[i] != sep,
        forall|i: int| 0 <= i < b.len() ==> b[i] != sep,
    ensures
        split_on(a + seq![sep] + b, sep) == seq![a, b],
    decreases b.len(),
{
    let joined = a + seq![sep] + b;
    if b.len() == 0 {
        lemma_split_without_separator(a, sep);
        assert(joined.drop_last() =~= a);
        assert(b =~= Seq::<u8>::empty());
        assert(seq![a].push(Seq::<u8>::empty()) =~= seq![a, b]);
    } else {
        let front = b.drop_last();
        lemma_split_of_joined(a, front, sep);
        assert(joined.drop_last() =~= a + seq![sep] + front);
        assert(joined.last() == b.last());
        assert(seq![a, front].drop_last().push(seq![a, front].last().push(b.last())) =~= seq![
            a,
            b,
        ]) by {
            assert(front.push(b.last()) =~= b);
        }
    }
}

/// Appending digits never lowers the value.
pub proof fn lemma_digits_value_grows(s: Seq<u8>, base: u8, n: int)
    requires
        0 <= n <= s.len(),
        base >= 1,
    ensures
        digits_value(s.take(n), base) <= digits_value(s, base),
    decreases s.len() - n,
{
    if n == s.len() {
        assert(s.take(n) =~= s);
    } else {
        lemma_digits_value_grows(s.drop_last(), base, n);
        assert(s.drop_last().take(n) =~= s.take(n));
        let shorter = digits_value(s.drop_last(), base);
        assert(shorter <= shorter * (base as nat)) by (nonlinear_arith)
            requires
                base >= 1,
        ;
    }
}

/// Splits `text` at every occurrence of `sep`.
pub fn split(text: &[u8], sep: u8) -> (parts: Vec<Vec<u8>>)
    ensures
        pieces(parts@) == split_on(text@, sep),
        parts.len() >= 1,
{
    let mut parts: Vec<Vec<u8>> = Vec::new();
    let mut current: Vec<u8> = Vec::new();
    let mut i: usize = 0;
    proof {
        assert(text@.take(0) =~= Seq::<u8>::empty());
        assert(pieces(parts@).push(current@) =~= split_on(text@.take(0), sep));
    }
    while i < text.len()
        invariant
            i <= text.len(),
            split_on(text@.take(i as int), sep) == pieces(parts@).push(current@),
        decreases text.len() - i,
    {
        let ghost done = pieces(parts@);
        let ghost line = current@;
        let b: u8 = text[i];
        proof {
            assert(text@.take(i + 1).drop_last() =~= text@.take(i as int));
            assert(done.push(line).drop_last() =~= done);
        }
        if b == sep {
            parts.push(current);
            current = Vec::new();
            proof {
                assert(pieces(parts@) =~= done.push(line));
            }
        } else {
            current.push(b);
            proof {
                assert(pieces(parts@) =~= done);
            }
        }
        i += 1;
    }
    proof {
        assert(text@.take(text.len() as int) =~= text@);
    }
    let ghost done = pieces(parts@);
    parts.push(current);
    proof {
        assert(pieces(parts@) =~= done.push(current@));
    }
    parts
}

/// Splits `text` into its lines.
pub fn lines(text: &[u8]) -> (out: Vec<Vec<u8>>)
    ensures
        pieces(out@) == lines_of(text@),
{
    let parts = split(text, NEWLINE);
    let ended: usize = parts.len() - 1;
    let kept: usize = if parts[ended].len() == 0 {
        ended
    } else {
        parts.len()
    };
    let mut out: Vec<Vec<u8>> = Vec::new();
    let mut i: usize = 0;
    while i < kept
        invariant
            i <= kept <= parts.len(),
            ended == parts.len() - 1,
            pieces(parts@) == split_on(text@, NEWLINE),
            kept == lines_of(text@).len(),
            out.len() == i,
            forall|k: int| 0 <= k < i ==> (#[trigger] out[k])@ == lines_of(text@)[k],
        decreases kept - i,
    {
        let mut line: Vec<u8> = parts[i].clone();
        proof {
            assert(line@ =~= parts[i as int]@);
            assert(pieces(parts@)[i as int] == parts[i as int]@);
        }
        if i < ended && line.len() > 0 && line[line.len() - 1] == CARRIAGE_RETURN {
            line.pop();
        }
        out.push(line);
        i += 1;
    }
    proof {
        assert(pieces(out@) =~= lines_of(text@));
    }
    out
}

/// Reads an unsigned numeral of base 2 to 10.
///
/// Gives the value exactly when `s` is a non-empty string of digits of that
/// base, with or without one plus sign before it, whose value fits in a
/// `u64`; a minus sign, a blank or any other byte makes the string no
/// numeral.
pub fn parse_numeral(s: &[u8], base: u8) -> (value: Option<u64>)
    requires
        2 <= base <= 10,
    ensures
        value == numeral(s@, base),
{
    if s.len() > 0 && s[0] == PLUS {
        let digits = slice_subrange(s, 1, s.len());
        assert(digits@ =~= s@.skip(1));
        parse_digits(digits, base)
    } else {
        parse_digits(s, base)
    }
}

/// Reads a string of digits of base 2 to 10.
///
/// Gives the value exactly when `s` is a non-empty string of digits of that
/// base, and nothing else, whose value fits in a `u64`.
pub fn parse_digits(s: &[u8], base: u8) -> (value: Option<u64>)
    requires
        2 <= base <= 10,
    ensures
        value == digit_string(s@, base),
{
    if s.len() == 0 {
        return None;
    }
    let mut acc: u64 = 0;
    let mut i: usize = 0;
    proof {
        assert(s@.take(0) =~= Seq::<u8>::empty());
    }
    while i < s.len()
        invariant
            2 <= base <= 10,
            i <= s.len(),
            all_digits(s@.take(i as int), base),
            acc == digits_value(s@.take(i as int), base),
        decreases s.len() - i,
    {
        let b: u8 = s[i];
        if b < ZERO || b >= ZERO + base {
            assert(!(ZERO <= s@[i as int] < ZERO + base));
            return None;
        }
        proof {
            assert(s@.take(i + 1).drop_last() =~= s@.take(i as int));
            assert(acc * base <= u64::MAX * 10) by (nonlinear_arith)
                requires
                    acc <= u64::MAX,
                    base <= 10,
            ;
            assert(acc * (base as nat) == acc * base) by (nonlinear_arith);
        }
        let next: u128 = (acc as u128) * (base as u128) + ((b - ZERO) as u128);
        if next > u64::MAX as u128 {
            proof {
                lemma_digits_value_grows(s@, base, i + 1);
            }
            return None;
        }
        acc = next as u64;
        i += 1;
    }
    proof {
        assert(s@.take(s.len() as int) =~= s@);
    }
    Some(acc)
}

/// The decimal digits of a number, most significant first, without leading
/// zeros; the number 0 is the single digit `0`.
pub open spec fn decimal_digits(value: nat) -> Seq<u8>
    decreases value,
{
    if value < 10 {
        seq![(ZERO + value) as u8]
    } else {
        decimal_digits(value / 10).push((ZERO + value % 10) as u8)
    }
}

/// The decimal digits of a number denote that number.
pub proof fn lemma_decimal_digits_denote(value: nat)
    ensures
        decimal_digits(value).len() > 0,
        all_digits(decimal_digits(value), 10),
        digits_value(decimal_digits(value), 10) == value,
        value <= u64::MAX ==> numeral(decimal_digits(value), 10) == Some(value as u64),
    decreases value,
{
    assert(decimal_digits(value)[0] != PLUS) by {
        if value >= 10 {
            lemma_decimal_digits_denote(value / 10);
            assert(decimal_digits(value)[0] == decimal_digits(value / 10)[0]);
        }
    }
    if value < 10 {
        let only = seq![(ZERO + value) as u8];
        assert(only.drop_last() =~= Seq::<u8>::empty());
        assert(digits_value(only.drop_last(), 10) == 0);
    } else {
        lemma_decimal_digits_denote(value / 10);
        let front = decimal_digits(value / 10);
        let digit = (ZERO + value % 10) as u8;
        assert(front.push(digit).drop_last() =~= front);
        assert forall|i: int| 0 <= i < front.push(digit).len() implies ZERO <= #[trigger] front.push(
            digit,
        )[i] < ZERO + 10 by {
            if i < front.len() {
                assert(front.push(digit)[i] == front[i]);
            }
        }
    }
}

/// Appends bytes to a text.
pub fn append_bytes(out: &mut Vec<u8>, more: &[u8])
    ensures
        final(out)@ == old(out)@ + more@,
{
    let mut i: usize = 0;
    while i < more.len()
        invariant
            i <= more.len(),
            out@ == old(out)@ + more@.take(i as int),
        decreases more.len() - i,
    {
        out.push(more[i]);
        i += 1;
        assert(out@ =~= old(out)@ + more@.take(i as int));
    }
    assert(more@.take(more.len() as int) =~= more@);
}

/// Appends a number in decimal digits to a text.
pub fn append_decimal(out: &mut Vec<u8>, value: u64)
    ensures
        final(out)@ == old(out)@ + decimal_digits(value as nat),
{
    let mut reversed: Vec<u8> = Vec::new();
    let mut rest: u64 = value;
    reversed.push(ZERO + (rest % 10) as u8);
    rest = rest / 10;
    let ghost mut low: Seq<u8> = seq![(ZERO + value % 10) as u8];
    while rest > 0
        invariant
            reversed.len() == low.len(),
            low.len() >= 1,
            forall|i: int| 0 <= i < low.len() ==> reversed@[i] == low[low.len() - 1 - i],
            rest > 0 ==> decimal_digits(value as nat) == decimal_digits(rest as nat) + low,
            rest == 0 ==> decimal_digits(value as nat) == low,
        decreases rest,
    {
        let digit: u8 = ZERO + (rest % 10) as u8;
        proof {
            let high = decimal_digits((rest / 10) as nat);
            if rest >= 10 {
                assert(high.push(digit) + low =~= high + (seq![digit] + low));
            } else {
                assert(seq![digit] + low =~= decimal_digits(rest as nat) + low);
            }
            low = seq![digit] + low;
        }
        reversed.push(digit);
        rest = rest / 10;
    }
    let mut left: usize = reversed.len();
    while left > 0
        invariant
            left <= reversed.len(),
            reversed.len() == low.len(),
            forall|i: int| 0 <= i < low.len() ==> reversed@[i] == low[low.len() - 1 - i],
            out@ == old(out)@ + low.take(low.len() - left),
        decreases left,
    {
        left -= 1;
        out.push(reversed[left]);
        assert(out@ =~= old(out)@ + low.take(low.len() - left));
    }
    assert(low.take(low.len() as int) =~= low);
}

} // verus!
