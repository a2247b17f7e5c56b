//! Signed decimal integers as they stand in a command: an optional `-` and
//! the longest run of digits after it.

use vstd::prelude::*;

verus! {

/// Whether `c` is one of the ten decimal digits.
pub open spec fn is_digit(c: char) -> bool {
    '0' <= c && c <= '9'
}

/// The number that the digit `c` stands for.
pub open spec fn digit_value(c: char) -> int {
    c as int - '0' as int
}

/// The digit that stands for `d`, for `d` below ten.
pub open spec fn digit_char(d: int) -> char {
    (d + '0' as int) as char
}

/// How many digits stand at the front of `s`.
pub open spec fn digit_run(s: Seq<char>) -> int
    decreases s.len(),
{
    if s.len() == 0 || !is_digit(s[0]) {
        0
    } else {
        1 + digit_run(s.skip(1))
    }
}

/// The number that a text of digits stands for; the empty text stands for zero.
pub open spec fn decimal_value(s: Seq<char>) -> int
    decreases s.len(),
{
    if s.len() == 0 {
        0
    } else {
        decimal_value(s.drop_last()) * 10 + digit_value(s.last())
    }
}

/// The digits of `n`, the most significant first, with no leading zero but
/// for zero itself.
pub open spec fn digits_of(n: int) -> Seq<char>
    decreases n,
{
    if n < 10 {
        seq![digit_char(n)]
    } else {
        digits_of(n / 10).push(digit_char(n % 10))
    }
}

/// The text that stands for `n`: its digits, after a `-` where `n` is negative.
pub open spec fn decimal_text(n: int) -> Seq<char> {
    if n < 0 {
        seq!['-'] + digits_of(-n)
    } else {
        digits_of(n)
    }
}

/// What reading an integer from the front of `input` gives. The read takes
/// an optional `-` and every digit that follows it, whatever comes next; it
/// fails, with the whole input, where no digit stands there or the number
/// does not fit in 32 bits.
pub open spec fn integer_parse(input: Seq<char>) -> Result<(Seq<char>, i32), Seq<char>> {
    let negative = input.len() > 0 && input[0] == '-';
    let body = if negative {
        input.skip(1)
    } else {
        input
    };
    let k = digit_run(body);
    let magnitude = decimal_value(body.take(k));
    let n = if negative {
        -magnitude
    } else {
        magnitude
    };
    if k == 0 || n < i32::MIN || n > i32::MAX {
        Err(input)
    } else {
        Ok((body.skip(k), n as i32))
    }
}

/// `digit_run` is the first position that holds no digit.
pub proof fn lemma_digit_run(s: Seq<char>)
    ensures
        0 <= digit_run(s) <= s.len(),
        forall|j: int| 0 <= j < digit_run(s) ==> is_digit(#[trigger] s[j]),
        digit_run(s) < s.len() ==> !is_digit(s[digit_run(s)]),
    decreases s.len(),
{
    if s.len() == 0 || !is_digit(s[0]) {
    } else {
        lemma_digit_run(s.skip(1));
        assert forall|j: int| 0 <= j < digit_run(s) implies is_digit(#[trigger] s[j]) by {
            if j > 0 {
                assert(s.skip(1)[j - 1] == s[j]);
            }
        }
    }
}

/// A position with digits alone before it and none at it is `digit_run`.
pub proof fn lemma_digit_run_unique(s: Seq<char>, k: int)
    requires
        0 <= k <= s.len(),
        forall|j: int| 0 <= j < k ==> is_digit(#[trigger] s[j]),
        k < s.len() ==> !is_digit(s[k]),
    ensures
        digit_run(s) == k,
{
    lemma_digit_run(s);
}

/// A text of digits stands for no less than any of its prefixes does.
pub proof fn lemma_decimal_value_grows(s: Seq<char>, j: int)
    requires
        0 <= j <= s.len(),
        forall|i: int| 0 <= i < s.len() ==> is_digit(#[trigger] s[i]),
    ensures
        0 <= decimal_value(s.take(j)) <= decimal_value(s),
    decreases s.len() - j,
{
    if j == s.len() {
        assert(s.take(j) =~= s);
        lemma_decimal_value_nonnegative(s);
    } else {
        lemma_decimal_value_grows(s, j + 1);
        let t = s.take(j + 1);
        assert(t.drop_last() =~= s.take(j));
        assert(is_digit(s[j]));
        assert(t.last() == s[j]);
        lemma_decimal_value_nonnegative(s.take(j));
    }
}

/// A text of digits stands for no negative number.
pub proof fn lemma_decimal_value_nonnegative(s: Seq<char>)
    requires
        forall|i: int| 0 <= i < s.len() ==> is_digit(#[trigger] s[i]),
    ensures
        0 <= decimal_value(s),
    decreases s.len(),
{
    if s.len() > 0 {
        lemma_decimal_value_nonnegative(s.drop_last());
        assert(is_digit(s[s.len() - 1]));
    }
}

/// The number that the digit `c` stands for, where `c` is a digit.
pub fn digit_of(c: char) -> (r: Option<u8>)
    ensures
        match r {
            Some(d) => is_digit(c) && d == digit_value(c),
            None => !is_digit(c),
        },
{
    if c == '0' {
        Some(0)
    } else if c == '1' {
        Some(1)
    } else if c == '2' {
        Some(2)
    } else if c == '3' {
        Some(3)
    } else if c == '4' {
        Some(4)
    } else if c == '5' {
        Some(5)
    } else if c == '6' {
        Some(6)
    } else if c == '7' {
        Some(7)
    } else if c == '8' {
        Some(8)
    } else if c == '9' {
        Some(9)
    } else {
        None
    }
}

/// Reads an integer from the front of `value`: returns what follows it, then
/// the number; or the whole of `value` where none can be read.
pub fn parse_integer(value: &str) -> (r: Result<(&str, i32), &str>)
    ensures
        match r {
            Ok((rest, n)) => integer_parse(value@) == Ok::<(Seq<char>, i32), Seq<char>>(
                (rest@, n),
            ),
            Err(rest) => integer_parse(value@) == Err::<(Seq<char>, i32), Seq<char>>(rest@)
                && rest@ == value@,
        },
{
    let n: usize = value.unicode_len();
    let negative: bool = n > 0 && value.get_char(0) == '-';
    let start: usize = if negative {
        1
    } else {
        0
    };
    let limit: i64 = if negative {
        2147483648
    } else {
        2147483647
    };
    let ghost body = if negative {
        value@.skip(1)
    } else {
        value@
    };
    assert(value@.skip(0) =~= value@);
    assert(body.take(0) =~= Seq::<char>::empty());
    let mut magnitude: i64 = 0;
    let mut j: usize = start;
    while j < n
        invariant
            n == value@.len(),
            start <= j <= n,
            body == value@.skip(start as int),
            body == if negative { value@.skip(1) } else { value@ },
            forall|i: int| 0 <= i < j - start ==> is_digit(#[trigger] body[i]),
            magnitude == decimal_value(body.take(j - start)),
            0 <= magnitude <= limit,
            limit == if negative { 2147483648i64 } else { 2147483647i64 },
            negative == (value@.len() > 0 && value@[0] == '-'),
            start == if negative { 1usize } else { 0usize },
        ensures
            j < n ==> !is_digit(value@[j as int]),
        decreases n - j,
    {
        let c = value.get_char(j);
        assert(body[j - start] == c);
        match digit_of(c) {
            Some(d) => {
                let next: i64 = magnitude * 10 + d as i64;
                proof {
                    let t = body.take(j + 1 - start);
                    assert(t.drop_last() =~= body.take(j - start));
                    assert(t.last() == c);
                }
                if next > limit {
                    proof {
                        lemma_digit_run(body);
                        let k = digit_run(body);
                        if k < j + 1 - start {
                            assert(is_digit(body[k]));
                        }
                        let run = body.take(k);
                        assert forall|i: int| 0 <= i < run.len() implies is_digit(
                            #[trigger] run[i],
                        ) by {
                            assert(run[i] == body[i]);
                        }
                        assert(run.take(j + 1 - start) =~= body.take(j + 1 - start));
                        lemma_decimal_value_grows(run, j + 1 - start);
                        assert(decimal_value(body.take(j + 1 - start)) == next);
                        assert(decimal_value(run) >= next);
                        assert(k > 0);
                        assert(integer_parse(value@) == Err::<(Seq<char>, i32), Seq<char>>(
                            value@,
                        ));
                    }
                    return Err(value);
                }
                magnitude = next;
                j += 1;
            },
            None => {
                break ;
            },
        }
    }
    proof {
        if j < n {
            assert(body[j - start] == value@[j as int]);
        }
        lemma_digit_run_unique(body, j - start);
    }
    if j == start {
        return Err(value);
    }
    let rest = value.substring_char(j, n);
    proof {
        assert(rest@ =~= body.skip(j - start));
    }
    if negative {
        Ok((rest, (-magnitude) as i32))
    } else {
        Ok((rest, magnitude as i32))
    }
}

/// The one-letter text of a digit.
fn digit_text(d: u32) -> (r: &'static str)
    requires
        d < 10,
    ensures
        r@ == seq![digit_char(d as int)],
{
    proof {
        reveal_strlit("0");
        reveal_strlit("1");
        reveal_strlit("2");
        reveal_strlit("3");
        reveal_strlit("4");
        reveal_strlit("5");
        reveal_strlit("6");
        reveal_strlit("7");
        reveal_strlit("8");
        reveal_strlit("9");
    }
    let r = if d == 0 {
        "0"
    } else if d == 1 {
        "1"
    } else if d == 2 {
        "2"
    } else if d == 3 {
        "3"
    } else if d == 4 {
        "4"
    } else if d == 5 {
        "5"
    } else if d == 6 {
        "6"
    } else if d == 7 {
        "7"
    } else if d == 8 {
        "8"
    } else {
        "9"
    };
    assert(r@ =~= seq![digit_char(d as int)]);
    r
}

/// Appends the digits of `n` to `out`.
fn push_digits(n: u32, out: &mut String)
    ensures
        final(out)@ == old(out)@ + digits_of(n as int),
    decreases n,
{
    if n >= 10 {
        push_digits(n / 10, out);
    }
    out.append(digit_text(n % 10));
    proof {
        if n >= 10 {
            assert(old(out)@ + digits_of(n as int / 10) + seq![digit_char(n as int % 10)] =~= old(
                out,
            )@ + digits_of(n as int));
        } else {
            assert(old(out)@ + seq![digit_char(n as int % 10)] =~= old(out)@ + digits_of(n as int));
        }
    }
}

/// Writes `n` in decimal.
pub fn format_integer(n: i32) -> (r: String)
    ensures
        r@ == decimal_text(n as int),
{
    let mut out = String::new();
    let wide: i64 = n as i64;
    if wide < 0 {
        proof {
            reveal_strlit("-");
        }
        out.append("-");
        push_digits((-wide) as u32, &mut out);
        assert(out@ =~= decimal_text(n as int));
    } else {
        push_digits(wide as u32, &mut out);
        assert(out@ =~= decimal_text(n as int));
    }
    out
}

/// The digits of a number are digits, at least one, and stand for the number.
pub proof fn lemma_digits_of(n: int)
    requires
        0 <= n,
    ensures
        digits_of(n).len() > 0,
        forall|i: int| 0 <= i < digits_of(n).len() ==> is_digit(#[trigger] digits_of(n)[i]),
        decimal_value(digits_of(n)) == n,
    decreases n,
{
    if n < 10 {
        let s = seq![digit_char(n)];
        assert(s.drop_last() =~= Seq::<char>::empty());
        assert(decimal_value(s.drop_last()) == 0);
        assert(s.last() == digit_char(n));
    } else {
        lemma_digits_of(n / 10);
        let s = digits_of(n);
        assert(s.drop_last() =~= digits_of(n / 10));
        assert(s.last() == digit_char(n % 10));
        assert forall|i: int| 0 <= i < s.len() implies is_digit(#[trigger] s[i]) by {
            if i < s.len() - 1 {
                assert(s[i] == digits_of(n / 10)[i]);
            }
        }
    }
}

/// A written integer reads back: from the text of `n`, with `rest` behind it
/// that does not start with a digit, the read gives `n` and leaves `rest`.
pub proof fn lemma_integer_reads_back(n: i32, rest: Seq<char>)
    requires
        rest.len() == 0 || !is_digit(rest[0]),
    ensures
        integer_parse(decimal_text(n as int) + rest) == Ok::<(Seq<char>, i32), Seq<char>>(
            (rest, n),
        ),
{
    let magnitude: int = if n < 0 {
        -(n as int)
    } else {
        n as int
    };
    lemma_digits_of(magnitude);
    let digits = digits_of(magnitude);
    let input = decimal_text(n as int) + rest;
    let body = digits + rest;
    assert(is_digit(digits[0]));
    if n < 0 {
        assert(input[0] == '-');
        assert(input.skip(1) =~= body);
    } else {
        assert(input[0] == digits[0]);
        assert(input =~= body);
    }
    assert forall|j: int| 0 <= j < digits.len() implies is_digit(#[trigger] body[j]) by {
        assert(body[j] == digits[j]);
    }
    if digits.len() < body.len() {
        assert(body[digits.len() as int] == rest[0]);
    }
    lemma_digit_run_unique(body, digits.len() as int);
    assert(body.take(digits.len() as int) =~= digits);
    assert(body.skip(digits.len() as int) =~= rest);
}

} // verus!
