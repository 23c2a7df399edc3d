//! Numbers as text: decimal and hexadecimal digits, padding and parsing.
use vstd::prelude::*;
use vstd::string::*;
use crate::text;
use crate::text::chars_of;

verus! {

/// The character of a decimal digit.
pub open spec fn digit_char(d: nat) -> char {
    (48 + d) as char
}

/// The decimal text of `n`, without leading zeros.
pub open spec fn decimal(n: nat) -> Seq<char>
    decreases n,
{
    if n < 10 {
        seq![digit_char(n)]
    } else {
        decimal(n / 10).push(digit_char(n % 10))
    }
}

/// The decimal text of `i`, with a minus sign when negative.
pub open spec fn int_text(i: int) -> Seq<char> {
    if i < 0 {
        seq!['-'] + decimal((-i) as nat)
    } else {
        decimal(i as nat)
    }
}

/// The decimal text of `n`, with zeros in front up to two digits.
pub open spec fn two_digits(n: nat) -> Seq<char> {
    if n < 10 {
        seq!['0'] + decimal(n)
    } else {
        decimal(n)
    }
}

/// The decimal text of `n`, with zeros in front up to four digits.
pub open spec fn four_digits(n: nat) -> Seq<char> {
    seq![
        digit_char(n / 1000 % 10),
        digit_char(n / 100 % 10),
        digit_char(n / 10 % 10),
        digit_char(n % 10),
    ]
}

/// The character of a decimal digit.
pub fn digit(d: u64) -> (c: char)
    requires
        d < 10,
    ensures
        c == digit_char(d as nat),
{
    let b: u8 = d as u8;
    (48u8 + b) as char
}

/// The decimal text of `n`.
pub fn u64_text(n: u64) -> (s: String)
    ensures
        s@ == decimal(n as nat),
    decreases n,
{
    if n < 10 {
        let mut s = String::new();
        s.push(digit(n));
        proof {
            assert(s@ =~= decimal(n as nat));
        }
        s
    } else {
        let mut s: String = u64_text(n / 10);
        s.push(digit(n % 10));
        s
    }
}

/// The decimal text of `n`.
pub fn i64_text(n: i64) -> (s: String)
    ensures
        s@ == int_text(n as int),
{
    if n >= 0 {
        u64_text(n as u64)
    } else {
        let mut s = String::new();
        s.push('-');
        let m: u64 = if n == i64::MIN {
            9223372036854775808u64
        } else {
            (-n) as u64
        };
        let t: String = u64_text(m);
        s.append(t.as_str());
        proof {
            assert(s@ =~= seq!['-'] + decimal((-(n as int)) as nat));
        }
        s
    }
}

/// The decimal text of `n`, with zeros in front up to two digits.
pub fn two_digit_text(n: u64) -> (s: String)
    ensures
        s@ == two_digits(n as nat),
{
    let t: String = u64_text(n);
    if n < 10 {
        let mut s = String::new();
        s.push('0');
        s.append(t.as_str());
        proof {
            assert(s@ =~= seq!['0'] + decimal(n as nat));
        }
        s
    } else {
        t
    }
}

/// Every decimal text is a non-empty run of ASCII digits.
pub proof fn lemma_decimal_digits(n: nat)
    ensures
        decimal(n).len() > 0,
        forall|i: int| 0 <= i < decimal(n).len() ==> text::ascii_digit(#[trigger] decimal(n)[i]),
        n < 10 ==> decimal(n).len() == 1,
        10 <= n < 100 ==> decimal(n).len() == 2,
    decreases n,
{
    if n >= 10 {
        lemma_decimal_digits(n / 10);
        if n < 100 {
            assert(n / 10 < 10);
        }
    }
}

/// A number below one hundred takes two digits.
pub proof fn lemma_two_digits(n: nat)
    requires
        n < 100,
    ensures
        two_digits(n).len() == 2,
        text::ascii_digit(two_digits(n)[0]),
        text::ascii_digit(two_digits(n)[1]),
{
    lemma_decimal_digits(n);
}

/// The character of a lowercase hexadecimal digit.
pub open spec fn hex_char(d: nat) -> char {
    if d < 10 {
        (48 + d) as char
    } else {
        (87 + d) as char
    }
}

/// The bytes of `b` as two lowercase hexadecimal digits each.
pub open spec fn hex(b: Seq<u8>) -> Seq<char>
    decreases b.len(),
{
    if b.len() == 0 {
        Seq::empty()
    } else {
        hex(b.drop_last()).push(hex_char(b.last() as nat / 16)).push(hex_char(b.last() as nat % 16))
    }
}

/// The character of a lowercase hexadecimal digit.
fn hex_digit(d: u8) -> (c: char)
    requires
        d < 16,
    ensures
        c == hex_char(d as nat),
{
    if d < 10 {
        (48u8 + d) as char
    } else {
        (87u8 + d) as char
    }
}

/// The first `n` bytes of `b` in lowercase hexadecimal.
pub fn hex_text(b: &Vec<u8>, n: usize) -> (s: String)
    requires
        n <= b@.len(),
    ensures
        s@ == hex(b@.take(n as int)),
{
    let mut s = String::new();
    let mut i: usize = 0;
    while i < n
        invariant
            i <= n <= b@.len(),
            s@ == hex(b@.take(i as int)),
        decreases n - i,
    {
        let x: u8 = b[i];
        s.push(hex_digit(x / 16));
        s.push(hex_digit(x % 16));
        proof {
            assert(b@.take(i + 1).drop_last() =~= b@.take(i as int));
        }
        i = i + 1;
    }
    s
}

/// Hexadecimal text is twice as long as the bytes.
pub proof fn lemma_hex_len(b: Seq<u8>)
    ensures
        hex(b).len() == 2 * b.len(),
    decreases b.len(),
{
    if b.len() > 0 {
        lemma_hex_len(b.drop_last());
    }
}

/// The number that a run of decimal digits stands for.
pub open spec fn digits_value(s: Seq<char>) -> nat
    decreases s.len(),
{
    if s.len() == 0 {
        0
    } else {
        10 * digits_value(s.drop_last()) + (s.last() as u32 as nat - 48) as nat
    }
}

/// Whether `d` is a non-empty run of ASCII digits.
pub open spec fn all_digits(d: Seq<char>) -> bool {
    d.len() > 0 && forall|i: int| 0 <= i < d.len() ==> text::ascii_digit(#[trigger] d[i])
}

/// `s` without one leading plus sign.
pub open spec fn strip_plus(s: Seq<char>) -> Seq<char> {
    if s.len() > 0 && s[0] == '+' {
        s.skip(1)
    } else {
        s
    }
}

/// The number that `s` writes: decimal digits, which a plus sign may precede.
pub open spec fn number_of(s: Seq<char>) -> Option<nat> {
    if all_digits(strip_plus(s)) {
        Some(digits_value(strip_plus(s)))
    } else {
        None
    }
}

/// A run of digits stands for at least what its first digits stand for.
proof fn lemma_digits_value_take(s: Seq<char>, n: int)
    requires
        0 <= n <= s.len(),
    ensures
        digits_value(s.take(n)) <= digits_value(s),
        n < s.len() ==> digits_value(s.take(n + 1)) == 10 * digits_value(s.take(n)) + (
        s[n] as u32 as nat - 48) as nat,
    decreases s.len() - n,
{
    if n == s.len() {
        assert(s.take(n) =~= s);
    } else {
        lemma_digits_value_take(s, n + 1);
        assert(s.take(n + 1).drop_last() =~= s.take(n));
    }
}

/// The number that `s` writes, when it is one and at most `max`.
pub fn parse_number(s: &str, max: u64) -> (r: Option<u64>)
    ensures
        r is Some ==> number_of(s@) == Some(r->0 as nat) && r->0 <= max,
        r is None ==> number_of(s@) is None || number_of(s@)->0 > max,
{
    let v: Vec<char> = chars_of(s);
    let start: usize = if v.len() > 0 && v[0] == '+' {
        1
    } else {
        0
    };
    let ghost d = v@.skip(start as int);
    proof {
        assert(d =~= strip_plus(s@));
        assert(d.take(0) =~= Seq::<char>::empty());
    }
    if start == v.len() {
        return None;
    }
    let mut i: usize = start;
    let mut value: u64 = 0;
    let mut fits: bool = true;
    while i < v.len()
        invariant
            start <= i <= v@.len(),
            d == v@.skip(start as int),
            d == strip_plus(s@),
            fits ==> value == digits_value(d.take(i - start)) && value <= max,
            !fits ==> digits_value(d.take(i - start)) > max,
            forall|k: int| 0 <= k < i - start ==> text::ascii_digit(#[trigger] d[k]),
        decreases v@.len() - i,
    {
        let u: u32 = v[i] as u32;
        proof {
            lemma_digits_value_take(d, i - start);
            assert(d[i - start] == v@[i as int]);
        }
        if u < 48 || u > 57 {
            proof {
                assert(!text::ascii_digit(d[i - start]));
                assert(!all_digits(d));
            }
            return None;
        }
        let x: u64 = (u - 48) as u64;
        if fits {
            if value <= max / 10 && x <= max - 10 * value {
                value = 10 * value + x;
            } else {
                fits = false;
            }
        }
        i = i + 1;
    }
    proof {
        assert(d.take(d.len() as int) =~= d);
    }
    if fits {
        Some(value)
    } else {
        None
    }
}

/// Parsing a decimal text gives the number back.
pub proof fn lemma_number_of_decimal(n: nat)
    ensures
        number_of(decimal(n)) == Some(n),
{
    lemma_decimal_digits(n);
    lemma_digits_value_decimal(n);
    assert(decimal(n)[0] != '+');
}

proof fn lemma_digits_value_decimal(n: nat)
    ensures
        digits_value(decimal(n)) == n,
    decreases n,
{
    if n < 10 {
        assert(decimal(n).drop_last() =~= Seq::<char>::empty());
        assert(digits_value(decimal(n).drop_last()) == 0);
    } else {
        lemma_digits_value_decimal(n / 10);
        assert(decimal(n).drop_last() =~= decimal(n / 10));
    }
}

} // verus!
