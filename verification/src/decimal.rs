//! Unsigned numbers as text: read from decimal digits, written in decimal or
//! octal digits.

use vstd::prelude::*;
use vstd::string::*;

verus! {

/// Why a text is not an unsigned decimal number of 64 bits.
#[derive(Clone, Copy, Debug, PartialEq, Eq, Structural)]
pub enum ParseIntFault {
    /// The text is empty.
    Empty,
    /// The text holds something else than digits after an optional `+`.
    InvalidDigit,
    /// The number is above what 64 bits can hold.
    PosOverflow,
}

impl ParseIntFault {
    /// The fault in words.
    pub open spec fn text(self) -> Seq<char> {
        match self {
            ParseIntFault::Empty => "cannot parse integer from empty string"@,
            ParseIntFault::InvalidDigit => "invalid digit found in string"@,
            ParseIntFault::PosOverflow => "number too large to fit in target type"@,
        }
    }

    /// The fault in words.
    pub fn message(&self) -> (r: String)
        ensures
            r@ == self.text(),
    {
        match self {
            ParseIntFault::Empty => "cannot parse integer from empty string".to_owned(),
            ParseIntFault::InvalidDigit => "invalid digit found in string".to_owned(),
            ParseIntFault::PosOverflow => "number too large to fit in target type".to_owned(),
        }
    }
}

/// The value of the decimal digit `c`, if it is one.
pub open spec fn digit_value(c: char) -> Option<int> {
    if 48 <= c as int <= 57 {
        Some(c as int - 48)
    } else {
        None
    }
}

/// Reads the digits of `s` from left to right into the number `acc` read so
/// far. The scan stops at the first character that is no digit, or that
/// makes the number too large.
pub open spec fn scan_digits(acc: int, s: Seq<char>) -> Result<int, ParseIntFault>
    decreases s.len(),
{
    if s.len() == 0 {
        Ok(acc)
    } else {
        match digit_value(s[0]) {
            None => Err(ParseIntFault::InvalidDigit),
            Some(d) => if acc * 10 + d > u64::MAX {
                Err(ParseIntFault::PosOverflow)
            } else {
                scan_digits(acc * 10 + d, s.skip(1))
            },
        }
    }
}

/// The number that the text `s` is: digits only, after an optional `+`.
pub open spec fn decimal_u64(s: Seq<char>) -> Result<u64, ParseIntFault> {
    if s.len() == 0 {
        Err(ParseIntFault::Empty)
    } else {
        let digits = if s[0] == '+' {
            s.skip(1)
        } else {
            s
        };
        if digits.len() == 0 {
            Err(ParseIntFault::InvalidDigit)
        } else {
            match scan_digits(0, digits) {
                Ok(v) => Ok(v as u64),
                Err(e) => Err(e),
            }
        }
    }
}

/// The number that the text `s` is.
pub fn parse_u64(s: &str) -> (r: Result<u64, ParseIntFault>)
    ensures
        r == decimal_u64(s@),
{
    let n: usize = s.unicode_len();
    if n == 0 {
        return Err(ParseIntFault::Empty);
    }
    let start: usize = if s.get_char(0) as u32 == 43 {
        1
    } else {
        0
    };
    if start == n {
        return Err(ParseIntFault::InvalidDigit);
    }
    let ghost digits = s@.skip(start as int);
    let ghost outcome = scan_digits(0, digits);
    let mut acc: u64 = 0;
    let mut i: usize = start;
    assert(s@.skip(i as int) =~= digits);
    assert(digits =~= (if s@[0] == '+' {
        s@.skip(1)
    } else {
        s@
    }));
    while i < n
        invariant
            start <= i <= n,
            n == s@.len(),
            decimal_u64(s@) == (match outcome {
                Ok(v) => Ok::<u64, ParseIntFault>(v as u64),
                Err(e) => Err::<u64, ParseIntFault>(e),
            }),
            outcome == scan_digits(acc as int, s@.skip(i as int)),
        decreases n - i,
    {
        let code: u32 = s.get_char(i) as u32;
        let ghost rest = s@.skip(i as int);
        assert(rest[0] == s@[i as int]);
        assert(rest.skip(1) =~= s@.skip(i + 1));
        if code < 48 || code > 57 {
            return Err(ParseIntFault::InvalidDigit);
        }
        let d: u64 = (code - 48) as u64;
        if acc > u64::MAX / 10 || acc * 10 > u64::MAX - d {
            return Err(ParseIntFault::PosOverflow);
        }
        acc = acc * 10 + d;
        i += 1;
    }
    assert(s@.skip(n as int).len() == 0);
    Ok(acc)
}

/// The character for the digit `d`, which is below 10.
pub open spec fn digit_char(d: int) -> char {
    ((48 + d) as u8) as char
}

/// The number `n` in decimal digits, without leading zeros.
pub open spec fn decimal_text(n: nat) -> Seq<char>
    decreases n,
{
    if n < 10 {
        seq![digit_char(n as int)]
    } else {
        decimal_text(n / 10) + seq![digit_char((n % 10) as int)]
    }
}

/// The number `n` in octal digits, without leading zeros.
pub open spec fn octal_text(n: nat) -> Seq<char>
    decreases n,
{
    if n < 8 {
        seq![digit_char(n as int)]
    } else {
        octal_text(n / 8) + seq![digit_char((n % 8) as int)]
    }
}

/// The text of one digit.
fn digit_str(d: u64) -> (r: &'static str)
    requires
        d < 10,
    ensures
        r@ == seq![digit_char(d as int)],
{
    proof {
        reveal_strlit("0");
        reveal_strlit("1");
        reveal_strlit("2");
        reveal_strlit("3");
        reveal_strlit("4");
        reveal_strlit("5");
        reveal_strlit("6");
        reveal_strlit("7");
        reveal_strlit("8");
        reveal_strlit("9");
    }
    let r = if d == 0 {
        "0"
    } else if d == 1 {
        "1"
    } else if d == 2 {
        "2"
    } else if d == 3 {
        "3"
    } else if d == 4 {
        "4"
    } else if d == 5 {
        "5"
    } else if d == 6 {
        "6"
    } else if d == 7 {
        "7"
    } else if d == 8 {
        "8"
    } else {
        "9"
    };
    assert(r@ =~= seq![digit_char(d as int)]);
    r
}

/// The digits that stand in front of the last ones written, when `rest` is
/// what is left of the number.
spec fn decimal_front(rest: nat) -> Seq<char> {
    if rest == 0 {
        Seq::empty()
    } else {
        decimal_text(rest)
    }
}

/// The number `n` in decimal digits.
pub fn format_decimal(n: u64) -> (r: String)
    ensures
        r@ == decimal_text(n as nat),
{
    let mut text = digit_str(n % 10).to_owned();
    let mut rest: u64 = n / 10;
    assert(decimal_text(n as nat) =~= decimal_front(rest as nat) + text@);
    while rest > 0
        invariant
            decimal_text(n as nat) == decimal_front(rest as nat) + text@,
        decreases rest,
    {
        let digit = digit_str(rest % 10);
        text = digit.to_owned().concat(text.as_str());
        proof {
            let front = decimal_front((rest / 10) as nat);
            assert(decimal_text(rest as nat) =~= front + digit@);
            assert(decimal_text(n as nat) =~= front + text@);
        }
        rest = rest / 10;
    }
    assert(decimal_text(n as nat) =~= text@);
    text
}

/// The digits that stand in front of the last ones written, when `rest` is
/// what is left of the number.
spec fn octal_front(rest: nat) -> Seq<char> {
    if rest == 0 {
        Seq::empty()
    } else {
        octal_text(rest)
    }
}

/// The number `n` in octal digits.
pub fn format_octal(n: u64) -> (r: String)
    ensures
        r@ == octal_text(n as nat),
{
    let mut text = digit_str(n % 8).to_owned();
    let mut rest: u64 = n / 8;
    assert(octal_text(n as nat) =~= octal_front(rest as nat) + text@);
    while rest > 0
        invariant
            octal_text(n as nat) == octal_front(rest as nat) + text@,
        decreases rest,
    {
        let digit = digit_str(rest % 8);
        text = digit.to_owned().concat(text.as_str());
        proof {
            let front = octal_front((rest / 8) as nat);
            assert(octal_text(rest as nat) =~= front + digit@);
            assert(octal_text(n as nat) =~= front + text@);
        }
        rest = rest / 8;
    }
    assert(octal_text(n as nat) =~= text@);
    text
}

/// `n` blanks.
pub open spec fn spaces(n: nat) -> Seq<char> {
    Seq::new(n, |i: int| ' ')
}

/// The text `s` at the right of a field of `width` characters, or alone where
/// it is wider.
pub open spec fn right_aligned(s: Seq<char>, width: nat) -> Seq<char> {
    if s.len() >= width {
        s
    } else {
        spaces((width - s.len()) as nat) + s
    }
}

/// The text `s` at the left of a field of `width` characters, or alone where
/// it is wider.
pub open spec fn left_aligned(s: Seq<char>, width: nat) -> Seq<char> {
    if s.len() >= width {
        s
    } else {
        s + spaces((width - s.len()) as nat)
    }
}

/// `n` blanks.
pub fn blanks(n: usize) -> (r: String)
    ensures
        r@ == spaces(n as nat),
{
    let mut text = String::new();
    let mut i: usize = 0;
    assert(text@ =~= spaces(0));
    while i < n
        invariant
            i <= n,
            text@ == spaces(i as nat),
        decreases n - i,
    {
        proof {
            reveal_strlit(" ");
        }
        text.append(" ");
        i += 1;
        assert(text@ =~= spaces(i as nat));
    }
    text
}

/// The text `s` at the right of a field of `width` characters.
pub fn right_align(s: &str, width: usize) -> (r: String)
    ensures
        r@ == right_aligned(s@, width as nat),
{
    let n: usize = s.unicode_len();
    if n >= width {
        s.to_owned()
    } else {
        blanks(width - n).concat(s)
    }
}

/// The text `s` at the left of a field of `width` characters.
pub fn left_align(s: &str, width: usize) -> (r: String)
    ensures
        r@ == left_aligned(s@, width as nat),
{
    let n: usize = s.unicode_len();
    if n >= width {
        s.to_owned()
    } else {
        let pad = blanks(width - n);
        s.to_owned().concat(pad.as_str())
    }
}

/// Reading one more digit: what was read so far times ten, and the digit.
proof fn lemma_scan_one_more(acc: int, s: Seq<char>, d: int)
    requires
        0 <= d < 10,
        0 <= acc,
    ensures
        scan_digits(acc, s.push(digit_char(d))) == (match scan_digits(acc, s) {
            Ok(v) => if v * 10 + d > u64::MAX {
                Err::<int, ParseIntFault>(ParseIntFault::PosOverflow)
            } else {
                Ok::<int, ParseIntFault>(v * 10 + d)
            },
            Err(e) => Err::<int, ParseIntFault>(e),
        }),
    decreases s.len(),
{
    let longer = s.push(digit_char(d));
    if s.len() == 0 {
        assert(longer[0] == digit_char(d));
        assert(digit_value(digit_char(d)) == Some(d));
        assert(longer.skip(1) =~= Seq::<char>::empty());
        assert(scan_digits(acc * 10 + d, longer.skip(1)) == Ok::<int, ParseIntFault>(acc * 10 + d));
    } else {
        assert(longer[0] == s[0]);
        assert(longer.skip(1) =~= s.skip(1).push(digit_char(d)));
        match digit_value(s[0]) {
            None => {},
            Some(first) => {
                if acc * 10 + first <= u64::MAX {
                    lemma_scan_one_more(acc * 10 + first, s.skip(1), d);
                }
            },
        }
    }
}

/// The digits of a number are read as the number.
proof fn lemma_scan_decimal_text(n: nat)
    requires
        n <= u64::MAX,
    ensures
        scan_digits(0, decimal_text(n)) == Ok::<int, ParseIntFault>(n as int),
        decimal_text(n).len() > 0,
        decimal_text(n)[0] != '+',
    decreases n,
{
    if n < 10 {
        let text = decimal_text(n);
        assert(text =~= Seq::<char>::empty().push(digit_char(n as int)));
        lemma_scan_one_more(0, Seq::empty(), n as int);
    } else {
        let front = decimal_text(n / 10);
        lemma_scan_decimal_text(n / 10);
        lemma_scan_one_more(0, front, (n % 10) as int);
        assert(decimal_text(n) =~= front.push(digit_char((n % 10) as int)));
        assert(decimal_text(n)[0] == front[0]);
    }
}

/// A number that was written in decimal digits is read back as it was.
pub proof fn lemma_decimal_round_trip(n: u64)
    ensures
        decimal_u64(decimal_text(n as nat)) == Ok::<u64, ParseIntFault>(n),
{
    lemma_scan_decimal_text(n as nat);
}

} // verus!
