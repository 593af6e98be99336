//! The text columns of a member record: numbers written in ASCII digits,
//! left-justified and padded with spaces.

use vstd::prelude::*;

verus! {

/// The byte that pads a column.
pub const SPACE: u8 = 0x20;

/// The ASCII code of the digit `0`.
pub const ZERO: u8 = 0x30;

/// The ASCII digit for `d`, meaningful for `d < 10`.
pub open spec fn digit_byte(d: nat) -> u8 {
    (ZERO + d) as u8
}

/// `n` written in base `radix` without leading zeros, most significant digit
/// first. Zero is the single digit `0`.
pub open spec fn digits(n: nat, radix: nat) -> Seq<u8>
    decreases n,
{
    if radix < 2 || n < radix {
        seq![digit_byte(n)]
    } else {
        proof {
            assert(n / radix < n) by (nonlinear_arith)
                requires
                    radix >= 2,
                    n >= radix,
            ;
        }
        digits(n / radix, radix).push(digit_byte(n % radix))
    }
}

/// `count` copies of `byte`.
pub open spec fn repeat(byte: u8, count: nat) -> Seq<u8> {
    Seq::new(count, |i: int| byte)
}

/// `text` followed by as many copies of `pad` as it takes to reach `width`.
/// A text that is already wider is left as it is.
pub open spec fn pad_to(text: Seq<u8>, width: nat, pad: u8) -> Seq<u8> {
    if text.len() >= width {
        text
    } else {
        text + repeat(pad, (width - text.len()) as nat)
    }
}

/// A number column: the digits of `n`, then spaces up to `width`.
#[verifier::opaque]
pub open spec fn number_field(n: nat, radix: nat, width: nat) -> Seq<u8> {
    pad_to(digits(n, radix), width, SPACE)
}

/// The smallest number that does not fit in `width` digits of base `radix`.
pub open spec fn limit(radix: nat, width: nat) -> nat
    decreases width,
{
    if width == 0 {
        1
    } else {
        limit(radix, (width - 1) as nat) * radix
    }
}

/// `text` without the copies of `pad` at its end.
pub open spec fn trim_end(text: Seq<u8>, pad: u8) -> Seq<u8>
    decreases text.len(),
{
    if text.len() > 0 && text.last() == pad {
        trim_end(text.drop_last(), pad)
    } else {
        text
    }
}

/// Whether `b` is a digit of base `radix`.
pub open spec fn is_digit(b: u8, radix: nat) -> bool {
    ZERO <= b && b < ZERO + radix
}

/// Whether every byte of `text` is a digit of base `radix`.
pub open spec fn all_digits(text: Seq<u8>, radix: nat) -> bool {
    forall|i: int| 0 <= i < text.len() ==> is_digit(#[trigger] text[i], radix)
}

/// The number that a string of digits denotes in base `radix`.
pub open spec fn digits_value(text: Seq<u8>, radix: nat) -> nat
    decreases text.len(),
{
    if text.len() == 0 {
        0
    } else {
        digits_value(text.drop_last(), radix) * radix + (text.last() - ZERO) as nat
    }
}

/// What a number column denotes: after the trailing spaces are dropped there
/// must be at least one byte, all of them digits, and the number must fit in
/// 64 bits.
pub open spec fn field_value(text: Seq<u8>, radix: nat) -> Option<u64> {
    let body = trim_end(text, SPACE);
    if body.len() > 0 && all_digits(body, radix) && digits_value(body, radix) <= u64::MAX {
        Some(digits_value(body, radix) as u64)
    } else {
        None
    }
}

/// A text that does not end in the padding byte comes back unchanged when
/// padding is appended and trimmed again.
pub proof fn lemma_trim_end_of_padded(text: Seq<u8>, count: nat, pad: u8)
    requires
        text.len() > 0 ==> text.last() != pad,
    ensures
        trim_end(text + repeat(pad, count), pad) == text,
    decreases count,
{
    let whole = text + repeat(pad, count);
    if count == 0 {
        assert(whole == text);
    } else {
        assert(whole.last() == pad);
        assert(whole.drop_last() == text + repeat(pad, (count - 1) as nat));
        lemma_trim_end_of_padded(text, (count - 1) as nat, pad);
    }
}

/// The digits of a number are digits of the base, at least one of them, and
/// denote the number.
pub proof fn lemma_digits(n: nat, radix: nat)
    requires
        2 <= radix <= 10,
    ensures
        digits(n, radix).len() > 0,
        all_digits(digits(n, radix), radix),
        digits_value(digits(n, radix), radix) == n,
    decreases n,
{
    if n < radix {
        let d = digits(n, radix);
        assert(d.drop_last() == Seq::<u8>::empty());
        assert(digits_value(d.drop_last(), radix) == 0);
        assert(digits_value(d, radix) == 0 * radix + (d.last() - ZERO) as nat);
    } else {
        let head = digits(n / radix, radix);
        let d = head.push(digit_byte(n % radix));
        assert(n / radix < n) by (nonlinear_arith)
            requires
                radix >= 2,
                n >= radix,
        ;
        lemma_digits(n / radix, radix);
        assert(n % radix < radix) by (nonlinear_arith)
            requires
                radix >= 2,
        ;
        assert(d.drop_last() == head);
        assert((n / radix) * radix + n % radix == n) by (nonlinear_arith)
            requires
                radix >= 2,
        ;
    }
}

/// Every number has at least one digit.
pub proof fn lemma_digits_nonempty(n: nat, radix: nat)
    ensures
        digits(n, radix).len() >= 1,
    decreases n,
{
    if !(radix < 2 || n < radix) {
        assert(n / radix < n) by (nonlinear_arith)
            requires
                radix >= 2,
                n >= radix,
        ;
        lemma_digits_nonempty(n / radix, radix);
    }
}

/// A number has at most `width` digits exactly when it is below
/// `limit(radix, width)`.
pub proof fn lemma_digits_len(n: nat, radix: nat, width: nat)
    requires
        2 <= radix,
        width >= 1,
    ensures
        digits(n, radix).len() <= width <==> n < limit(radix, width),
    decreases width,
{
    let below = limit(radix, (width - 1) as nat);
    let top = limit(radix, width);
    lemma_limit_positive(radix, (width - 1) as nat);
    assert(top == below * radix);
    if n < radix {
        assert(digits(n, radix).len() == 1);
        assert(below * radix >= radix) by (nonlinear_arith)
            requires
                below >= 1,
                radix >= 2,
        ;
    } else {
        let q = n / radix;
        lemma_digits_nonempty(q, radix);
        assert(digits(n, radix) == digits(q, radix).push(digit_byte(n % radix)));
        assert(digits(n, radix).len() == digits(q, radix).len() + 1);
        assert(q < below <==> n < below * radix) by (nonlinear_arith)
            requires
                radix >= 2,
                q == n / radix,
        ;
        if width == 1 {
            assert(q >= 1) by (nonlinear_arith)
                requires
                    radix >= 2,
                    n >= radix,
                    q == n / radix,
            ;
        } else {
            lemma_digits_len(q, radix, (width - 1) as nat);
        }
    }
}

/// `limit` is at least one.
pub proof fn lemma_limit_positive(radix: nat, width: nat)
    requires
        2 <= radix,
    ensures
        limit(radix, width) >= 1,
    decreases width,
{
    if width > 0 {
        lemma_limit_positive(radix, (width - 1) as nat);
        assert(limit(radix, (width - 1) as nat) * radix >= 1) by (nonlinear_arith)
            requires
                limit(radix, (width - 1) as nat) >= 1,
                radix >= 2,
        ;
    }
}

/// A number column reads back as the number that was written, whatever the
/// width.
pub proof fn lemma_number_field_value(n: nat, radix: nat, width: nat)
    requires
        2 <= radix <= 10,
        n <= u64::MAX,
    ensures
        field_value(number_field(n, radix, width), radix) == Some(n as u64),
{
    reveal(number_field);
    let d = digits(n, radix);
    lemma_digits(n, radix);
    assert(is_digit(d[d.len() - 1], radix));
    if d.len() >= width {
        lemma_trim_end_of_padded(d, 0, SPACE);
        assert(d + repeat(SPACE, 0) == d);
    } else {
        lemma_trim_end_of_padded(d, (width - d.len()) as nat, SPACE);
    }
}

/// Appends `value` in base `radix` to `out`, then spaces until the column is
/// `width` bytes wide. A number with more digits than `width` is written in
/// full.
pub fn push_number(out: &mut Vec<u8>, value: u128, radix: u8, width: usize)
    requires
        2 <= radix <= 10,
    ensures
        final(out)@ == old(out)@ + number_field(value as nat, radix as nat, width as nat),
{
    proof {
        reveal(number_field);
    }
    let ghost before = out@;
    let ghost r = radix as nat;
    let mut reversed: Vec<u8> = Vec::new();
    let mut rest: u128 = value;
    let ghost mut tail: Seq<u8> = Seq::empty();
    while rest >= radix as u128
        invariant
            2 <= radix <= 10,
            r == radix as nat,
            digits(value as nat, r) == digits(rest as nat, r) + tail,
            reversed@.len() == tail.len(),
            forall|i: int| 0 <= i < tail.len() ==> reversed@[i] == tail[tail.len() - 1 - i],
        decreases rest,
    {
        let digit: u8 = (rest % (radix as u128)) as u8;
        let ghost old_tail = tail;
        proof {
            tail = seq![digit_byte((rest % (radix as u128)) as nat)] + tail;
            assert(digits(rest as nat, r) == digits((rest as nat) / r, r).push(
                digit_byte((rest as nat) % r),
            ));
            assert(digits(value as nat, r) == digits((rest as nat) / r, r) + tail);
        }
        reversed.push(ZERO + digit);
        rest = rest / (radix as u128);
        proof {
            assert forall|i: int| 0 <= i < tail.len() implies reversed@[i] == tail[tail.len() - 1
                - i] by {
                if i < old_tail.len() {
                    assert(tail[tail.len() - 1 - i] == old_tail[old_tail.len() - 1 - i]);
                }
            }
        }
    }
    out.push(ZERO + rest as u8);
    let ghost text = digits(value as nat, r);
    proof {
        assert(digits(rest as nat, r) == seq![digit_byte(rest as nat)]);
        assert(text == seq![digit_byte(rest as nat)] + tail);
    }
    let mut left: usize = reversed.len();
    while left > 0
        invariant
            left <= reversed@.len(),
            reversed@.len() == tail.len(),
            text == seq![digit_byte(rest as nat)] + tail,
            forall|i: int| 0 <= i < tail.len() ==> reversed@[i] == tail[tail.len() - 1 - i],
            out@ == before + text.subrange(0, 1 + tail.len() - left),
        decreases left,
    {
        left = left - 1;
        out.push(reversed[left]);
        proof {
            let k = tail.len() - 1 - left;
            assert(reversed@[left as int] == tail[k]);
            assert(text[1 + k] == tail[k]);
            assert(text.subrange(0, 1 + k + 1) == text.subrange(0, 1 + k).push(text[1 + k]));
        }
    }
    proof {
        assert(text.subrange(0, text.len() as int) == text);
        assert(text + repeat(SPACE, 0) == text);
    }
    let shown: usize = reversed.len();
    if shown < width {
        let total: usize = width - shown - 1;
        let mut done: usize = 0;
        while done < total
            invariant
                done <= total,
                out@ == before + text + repeat(SPACE, done as nat),
            decreases total - done,
        {
            out.push(SPACE);
            proof {
                assert(repeat(SPACE, (done + 1) as nat) == repeat(SPACE, done as nat).push(SPACE));
            }
            done = done + 1;
        }
        proof {
            if total == 0 {
                assert(text + repeat(SPACE, 0) == text);
            }
        }
    }
}

/// The length of `bytes` without the copies of `pad` at its end.
pub fn trimmed_len(bytes: &[u8], pad: u8) -> (n: usize)
    ensures
        n <= bytes@.len(),
        bytes@.subrange(0, n as int) == trim_end(bytes@, pad),
{
    let mut end: usize = bytes.len();
    proof {
        assert(bytes@.subrange(0, end as int) == bytes@);
    }
    while end > 0 && bytes[end - 1] == pad
        invariant
            end <= bytes@.len(),
            trim_end(bytes@, pad) == trim_end(bytes@.subrange(0, end as int), pad),
        decreases end,
    {
        proof {
            let cur = bytes@.subrange(0, end as int);
            assert(cur.last() == pad);
            assert(cur.drop_last() == bytes@.subrange(0, end - 1));
        }
        end = end - 1;
    }
    proof {
        let cur = bytes@.subrange(0, end as int);
        if end > 0 {
            assert(cur.last() != pad);
        }
    }
    end
}

/// Reads a number column in base `radix`: digits followed by nothing but
/// spaces. Returns `None` where the column is empty, holds another byte, or
/// denotes a number beyond 64 bits.
pub fn parse_number(text: &[u8], radix: u8) -> (r: Option<u64>)
    requires
        2 <= radix <= 10,
    ensures
        r == field_value(text@, radix as nat),
{
    let ghost rd = radix as nat;
    let end: usize = trimmed_len(text, SPACE);
    let ghost body = text@.subrange(0, end as int);
    if end == 0 {
        return None;
    }
    let mut value: u64 = 0;
    let mut i: usize = 0;
    while i < end
        invariant
            2 <= radix <= 10,
            rd == radix as nat,
            i <= end <= text@.len(),
            body == text@.subrange(0, end as int),
            body == trim_end(text@, SPACE),
            all_digits(body.subrange(0, i as int), rd),
            value == digits_value(body.subrange(0, i as int), rd),
        decreases end - i,
    {
        let b: u8 = text[i];
        let ghost prefix = body.subrange(0, i as int);
        let ghost next = body.subrange(0, i + 1);
        proof {
            assert(next.drop_last() == prefix);
            assert(next.last() == b);
        }
        if b < ZERO || b - ZERO >= radix {
            proof {
                assert(!is_digit(body[i as int], rd));
            }
            return None;
        }
        let digit: u64 = (b - ZERO) as u64;
        let scaled: Option<u64> = value.checked_mul(radix as u64);
        let sum: Option<u64> = match scaled {
            Some(s) => s.checked_add(digit),
            None => None,
        };
        match sum {
            Some(v) => {
                value = v;
            },
            None => {
                proof {
                    assert(digits_value(next, rd) > u64::MAX);
                    lemma_value_grows(body, i + 1, rd);
                }
                return None;
            },
        }
        proof {
            assert forall|j: int| 0 <= j < next.len() implies is_digit(#[trigger] next[j], rd) by {
                if j < i {
                    assert(next[j] == prefix[j]);
                }
            }
        }
        i = i + 1;
    }
    proof {
        assert(body.subrange(0, end as int) == body);
    }
    Some(value)
}

/// A prefix of a string of digits denotes no more than the whole string.
pub proof fn lemma_value_grows(text: Seq<u8>, k: int, radix: nat)
    requires
        0 <= k <= text.len(),
        radix >= 1,
    ensures
        digits_value(text.subrange(0, k), radix) <= digits_value(text, radix),
    decreases text.len() - k,
{
    if k == text.len() {
        assert(text.subrange(0, k) == text);
    } else {
        let next = text.subrange(0, k + 1);
        assert(next.drop_last() == text.subrange(0, k));
        assert(next.last() == text[k]);
        let v = digits_value(text.subrange(0, k), radix);
        assert(v * radix >= v) by (nonlinear_arith)
            requires
                radix >= 1,
                v >= 0,
        ;
        lemma_value_grows(text, k + 1, radix);
    }
}

} // verus!
