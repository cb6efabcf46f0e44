//! Decimal numerals: how integers are written and read.

use vstd::prelude::*;

verus! {

/// The character of one decimal digit.
pub open spec fn digit_char(d: int) -> char {
    if d == 0 {
        '0'
    } else if d == 1 {
        '1'
    } else if d == 2 {
        '2'
    } else if d == 3 {
        '3'
    } else if d == 4 {
        '4'
    } else if d == 5 {
        '5'
    } else if d == 6 {
        '6'
    } else if d == 7 {
        '7'
    } else if d == 8 {
        '8'
    } else {
        '9'
    }
}

/// The value of a decimal digit, if the character is one.
pub open spec fn digit_value(c: char) -> Option<int> {
    if c == '0' {
        Some(0)
    } else if c == '1' {
        Some(1)
    } else if c == '2' {
        Some(2)
    } else if c == '3' {
        Some(3)
    } else if c == '4' {
        Some(4)
    } else if c == '5' {
        Some(5)
    } else if c == '6' {
        Some(6)
    } else if c == '7' {
        Some(7)
    } else if c == '8' {
        Some(8)
    } else if c == '9' {
        Some(9)
    } else {
        None
    }
}

/// The decimal numeral of a natural number, without leading zeros.
pub open spec fn digits(n: nat) -> Seq<char>
    decreases n,
{
    if n < 10 {
        seq![digit_char(n as int)]
    } else {
        digits(n / 10).push(digit_char((n % 10) as int))
    }
}

/// The decimal numeral of an integer, with `-` before a negative one.
pub open spec fn decimal(i: int) -> Seq<char> {
    if i < 0 {
        seq!['-'] + digits((-i) as nat)
    } else {
        digits(i as nat)
    }
}

/// Every character of `s` is a decimal digit.
pub open spec fn all_digits(s: Seq<char>) -> bool {
    forall|k: int| 0 <= k < s.len() ==> (#[trigger] digit_value(s[k])) is Some
}

/// The number that a run of decimal digits denotes.
pub open spec fn digits_value(s: Seq<char>) -> nat
    decreases s.len(),
{
    if s.len() == 0 {
        0
    } else {
        let d = match digit_value(s.last()) {
            Some(d) => d,
            None => 0,
        };
        (digits_value(s.drop_last()) * 10 + d) as nat
    }
}

/// The integer that a numeral denotes: an optional sign, `+` or, where
/// `signed`, `-`, and then one decimal digit or more.
pub open spec fn numeral_value(s: Seq<char>, signed: bool) -> Option<int> {
    if s.len() == 0 {
        None
    } else if s[0] == '+' || (signed && s[0] == '-') {
        let body = s.subrange(1, s.len() as int);
        if body.len() > 0 && all_digits(body) {
            if s[0] == '-' {
                Some(-(digits_value(body) as int))
            } else {
                Some(digits_value(body) as int)
            }
        } else {
            None
        }
    } else if all_digits(s) {
        Some(digits_value(s) as int)
    } else {
        None
    }
}

/// The numeral's value where it lies between `low` and `high`.
pub open spec fn numeral_in_range(s: Seq<char>, low: int, high: int) -> Option<int> {
    match numeral_value(s, low < 0) {
        Some(v) => if low <= v <= high {
            Some(v)
        } else {
            None
        },
        None => None,
    }
}

/// The character of the digit `d`.
pub fn digit_to_char(d: u8) -> (r: char)
    requires
        d < 10,
    ensures
        r == digit_char(d as int),
{
    if d == 0 {
        '0'
    } else if d == 1 {
        '1'
    } else if d == 2 {
        '2'
    } else if d == 3 {
        '3'
    } else if d == 4 {
        '4'
    } else if d == 5 {
        '5'
    } else if d == 6 {
        '6'
    } else if d == 7 {
        '7'
    } else if d == 8 {
        '8'
    } else {
        '9'
    }
}

/// The value of the digit that `c` is, if it is one.
pub fn char_to_digit(c: char) -> (r: Option<u8>)
    ensures
        match r {
            Some(d) => digit_value(c) == Some(d as int) && d < 10,
            None => digit_value(c) is None,
        },
{
    if c == '0' {
        Some(0)
    } else if c == '1' {
        Some(1)
    } else if c == '2' {
        Some(2)
    } else if c == '3' {
        Some(3)
    } else if c == '4' {
        Some(4)
    } else if c == '5' {
        Some(5)
    } else if c == '6' {
        Some(6)
    } else if c == '7' {
        Some(7)
    } else if c == '8' {
        Some(8)
    } else if c == '9' {
        Some(9)
    } else {
        None
    }
}

/// Writes a natural number in decimal.
pub fn natural_to_chars(n: u64) -> (r: Vec<char>)
    ensures
        r@ == digits(n as nat),
    decreases n,
{
    if n < 10 {
        let mut out: Vec<char> = Vec::new();
        out.push(digit_to_char(n as u8));
        out
    } else {
        let mut out = natural_to_chars(n / 10);
        out.push(digit_to_char((n % 10) as u8));
        out
    }
}

/// Writes an integer in decimal.
pub fn integer_to_chars(i: i64) -> (r: Vec<char>)
    ensures
        r@ == decimal(i as int),
{
    if i < 0 {
        let magnitude: u64 = if i == i64::MIN {
            9223372036854775808u64
        } else {
            (-i) as u64
        };
        let mut out: Vec<char> = Vec::new();
        out.push('-');
        let mut tail = natural_to_chars(magnitude);
        out.append(&mut tail);
        out
    } else {
        natural_to_chars(i as u64)
    }
}

/// A run of digits that denotes more than `bound` keeps doing so when it
/// grows.
proof fn lemma_digits_value_grows(s: Seq<char>, k: int)
    requires
        0 <= k <= s.len(),
    ensures
        digits_value(s.subrange(0, k)) <= digits_value(s),
    decreases s.len() - k,
{
    if k < s.len() {
        lemma_digits_value_grows(s, k + 1);
        assert(s.subrange(0, k + 1).drop_last() == s.subrange(0, k));
    } else {
        assert(s.subrange(0, k) == s);
    }
}

/// Reads a run of digits from position `from` on; `None` where a character
/// is no digit, where there is none, or where the value exceeds `high`.
fn read_digits(s: &Vec<char>, from: usize, high: u128) -> (r: Option<u128>)
    requires
        from <= s.len(),
        high < 0x1_0000_0000_0000_0000_0000_0000,
    ensures
        ({
            let body = s@.subrange(from as int, s.len() as int);
            match r {
                Some(v) => body.len() > 0 && all_digits(body) && digits_value(body) == v && v
                    <= high,
                None => !(body.len() > 0 && all_digits(body) && digits_value(body) <= high),
            }
        }),
{
    if from == s.len() {
        return None;
    }
    let ghost body = s@.subrange(from as int, s.len() as int);
    let mut value: u128 = 0;
    let mut i: usize = from;
    while i < s.len()
        invariant
            from <= i <= s.len(),
            body == s@.subrange(from as int, s.len() as int),
            all_digits(body.subrange(0, i - from)),
            digits_value(body.subrange(0, i - from)) == value,
            value <= high,
            high < 0x1_0000_0000_0000_0000_0000_0000,
        decreases s.len() - i,
    {
        let ghost before = body.subrange(0, i - from);
        let ghost after = body.subrange(0, i - from + 1);
        assert(after.drop_last() == before);
        assert(after.last() == s@[i as int]);
        match char_to_digit(s[i]) {
            None => {
                assert(digit_value(body[i - from]) is None);
                return None;
            },
            Some(d) => {
                let next: u128 = value * 10 + d as u128;
                if next > high {
                    proof {
                        lemma_digits_value_grows(body, i - from + 1);
                    }
                    return None;
                }
                assert forall|k: int| 0 <= k < after.len() implies (#[trigger] digit_value(
                    after[k],
                )) is Some by {
                    if k < before.len() {
                        assert(after[k] == before[k]);
                    }
                }
                value = next;
            },
        }
        i += 1;
    }
    assert(body.subrange(0, i - from) == body);
    Some(value)
}

/// Reads a numeral that denotes an integer from `low` to `high`.
pub fn read_numeral(s: &Vec<char>, low: i128, high: i128) -> (r: Option<i128>)
    requires
        -0x1_0000_0000_0000_0000_0000_0000 < low <= 0 <= high < 0x1_0000_0000_0000_0000_0000_0000,
    ensures
        match r {
            Some(v) => numeral_in_range(s@, low as int, high as int) == Some(v as int),
            None => numeral_in_range(s@, low as int, high as int) is None,
        },
{
    if s.len() == 0 {
        return None;
    }
    let first = s[0];
    if first == '-' && low < 0 {
        match read_digits(s, 1, (-low) as u128) {
            Some(v) => Some(-(v as i128)),
            None => {
                let ghost body = s@.subrange(1, s.len() as int);
                assert(body.len() > 0 && all_digits(body) ==> digits_value(body) > -low);
                None
            },
        }
    } else if first == '+' {
        match read_digits(s, 1, high as u128) {
            Some(v) => Some(v as i128),
            None => None,
        }
    } else {
        assert(s@.subrange(0, s.len() as int) == s@);
        match read_digits(s, 0, high as u128) {
            Some(v) => Some(v as i128),
            None => None,
        }
    }
}

/// A text without the sign, `+` or `-`, that it may begin with.
pub open spec fn without_sign(s: Seq<char>) -> Seq<char> {
    if s.len() > 0 && (s[0] == '+' || s[0] == '-') {
        s.drop_first()
    } else {
        s
    }
}

/// The first position at or after `from` that holds `a` or `b`.
pub open spec fn first_of_either(s: Seq<char>, a: char, b: char, from: int) -> Option<int>
    decreases s.len() - from,
{
    if from < 0 || from >= s.len() {
        None
    } else if s[from] == a || s[from] == b {
        Some(from)
    } else {
        first_of_either(s, a, b, from + 1)
    }
}

/// Digits with at most one point among them, and at least one digit.
pub open spec fn is_mantissa(m: Seq<char>) -> bool {
    match first_of_either(m, '.', '.', 0) {
        None => m.len() > 0 && all_digits(m),
        Some(point) => m.len() > 1 && all_digits(m.subrange(0, point)) && all_digits(
            m.subrange(point + 1, m.len() as int),
        ),
    }
}

/// An optional sign and then one digit or more.
pub open spec fn is_exponent(e: Seq<char>) -> bool {
    without_sign(e).len() > 0 && all_digits(without_sign(e))
}

/// A mantissa, and after it an exponent behind `e` or `E` where there is one.
pub open spec fn is_decimal_number(b: Seq<char>) -> bool {
    match first_of_either(b, 'e', 'E', 0) {
        None => is_mantissa(b),
        Some(mark) => is_mantissa(b.subrange(0, mark)) && is_exponent(
            b.subrange(mark + 1, b.len() as int),
        ),
    }
}

/// `b` spells the word, each letter in either case.
pub open spec fn spells(b: Seq<char>, small: Seq<char>, capital: Seq<char>) -> bool {
    &&& b.len() == small.len()
    &&& forall|k: int| 0 <= k < b.len() ==> #[trigger] b[k] == small[k] || b[k] == capital[k]
}

/// The text is written as a floating-point number is: an optional sign and
/// then `inf`, `infinity` or `nan` in any case, or a decimal number with an
/// optional exponent.
pub open spec fn is_float_numeral(s: Seq<char>) -> bool {
    let b = without_sign(s);
    spells(b, "inf"@, "INF"@) || spells(b, "infinity"@, "INFINITY"@) || spells(b, "nan"@, "NAN"@)
        || is_decimal_number(b)
}

fn find_either(s: &Vec<char>, a: char, b: char) -> (r: Option<usize>)
    ensures
        match r {
            Some(at) => first_of_either(s@, a, b, 0) == Some(at as int) && at < s.len(),
            None => first_of_either(s@, a, b, 0) is None,
        },
{
    let mut i: usize = 0;
    while i < s.len()
        invariant
            i <= s.len(),
            first_of_either(s@, a, b, 0) == first_of_either(s@, a, b, i as int),
        decreases s.len() - i,
    {
        if s[i] == a || s[i] == b {
            return Some(i);
        }
        i += 1;
    }
    None
}

fn digits_between(s: &Vec<char>, from: usize, to: usize) -> (r: bool)
    requires
        from <= to <= s.len(),
    ensures
        r == all_digits(s@.subrange(from as int, to as int)),
{
    let mut i: usize = from;
    while i < to
        invariant
            from <= i <= to <= s.len(),
            all_digits(s@.subrange(from as int, i as int)),
        decreases to - i,
    {
        if char_to_digit(s[i]).is_none() {
            assert(digit_value(s@.subrange(from as int, to as int)[i - from]) is None);
            return false;
        }
        assert forall|k: int| 0 <= k < i + 1 - from implies (#[trigger] digit_value(
            s@.subrange(from as int, i + 1)[k],
        )) is Some by {
            if k < i - from {
                assert(s@.subrange(from as int, i + 1)[k] == s@.subrange(from as int, i as int)[k]);
            }
        }
        i += 1;
    }
    true
}

fn mantissa_between(s: &Vec<char>, from: usize, to: usize) -> (r: bool)
    requires
        from <= to <= s.len(),
    ensures
        r == is_mantissa(s@.subrange(from as int, to as int)),
{
    let m = crate::text::slice_chars(s, from, to);
    match find_either(&m, '.', '.') {
        None => {
            assert(m@.subrange(0, m.len() as int) == m@);
            m.len() > 0 && digits_between(&m, 0, m.len())
        },
        Some(point) => m.len() > 1 && digits_between(&m, 0, point) && digits_between(
            &m,
            point + 1,
            m.len(),
        ),
    }
}

fn spells_word(b: &Vec<char>, from: usize, small: &str, capital: &str) -> (r: bool)
    requires
        from <= b.len(),
        small@.len() == capital@.len(),
    ensures
        r == spells(b@.subrange(from as int, b.len() as int), small@, capital@),
{
    let small_chars = crate::text::chars_of(small);
    let capital_chars = crate::text::chars_of(capital);
    if b.len() - from != small_chars.len() {
        return false;
    }
    let ghost body = b@.subrange(from as int, b.len() as int);
    let mut i: usize = 0;
    while i < small_chars.len()
        invariant
            from <= b.len(),
            body == b@.subrange(from as int, b.len() as int),
            body.len() == small_chars.len() == capital_chars.len(),
            small_chars@ == small@,
            capital_chars@ == capital@,
            i <= small_chars.len(),
            forall|k: int| 0 <= k < i ==> #[trigger] body[k] == small@[k] || body[k] == capital@[k],
        decreases small_chars.len() - i,
    {
        let c = b[from + i];
        assert(c == body[i as int]);
        if c != small_chars[i] && c != capital_chars[i] {
            return false;
        }
        i += 1;
    }
    true
}

/// Whether the text is written as a floating-point number is.
pub fn is_float_text(s: &Vec<char>) -> (r: bool)
    ensures
        r == is_float_numeral(s@),
{
    let from: usize = if s.len() > 0 && (s[0] == '+' || s[0] == '-') {
        1
    } else {
        0
    };
    let ghost b = without_sign(s@);
    assert(b == s@.subrange(from as int, s.len() as int));
    proof {
        reveal_strlit("inf");
        reveal_strlit("INF");
        reveal_strlit("infinity");
        reveal_strlit("INFINITY");
        reveal_strlit("nan");
        reveal_strlit("NAN");
    }
    if spells_word(s, from, "inf", "INF") || spells_word(s, from, "infinity", "INFINITY")
        || spells_word(s, from, "nan", "NAN") {
        return true;
    }
    let body = crate::text::slice_chars(s, from, s.len());
    match find_either(&body, 'e', 'E') {
        None => {
            assert(body@.subrange(0, body.len() as int) == body@);
            mantissa_between(&body, 0, body.len())
        },
        Some(mark) => {
            if !mantissa_between(&body, 0, mark) {
                return false;
            }
            let exponent_from: usize = if mark + 1 < body.len() && (body[mark + 1] == '+'
                || body[mark + 1] == '-') {
                mark + 2
            } else {
                mark + 1
            };
            let ghost e = body@.subrange(mark + 1, body.len() as int);
            assert(without_sign(e) == body@.subrange(exponent_from as int, body.len() as int));
            exponent_from < body.len() && digits_between(&body, exponent_from, body.len())
        },
    }
}

} // verus!
