//! Text as the broker writes and reads it: numbers in messages and file names,
//! and the few std text services that messages rest on.

use vstd::arithmetic::power::{lemma_pow0, lemma_pow1, lemma_pow_adds, lemma_pow_positive, pow};
use vstd::prelude::*;
use vstd::string::StringExecFns;
use vstd::utf8::{encode_utf8, valid_utf8};

verus! {

/// The character for a digit below sixteen, lower case.
pub open spec fn digit(d: nat) -> char {
    if d < 10 {
        (('0' as nat) + d) as char
    } else {
        (('a' as nat) + (d - 10) as nat) as char
    }
}

/// `n` in decimal, without leading zeros.
pub open spec fn decimal(n: nat) -> Seq<char>
    decreases n,
{
    if n < 10 {
        seq![digit(n)]
    } else {
        decimal(n / 10).push(digit(n % 10))
    }
}

/// The `k` low-order decimal digits of `n`, zeros included.
pub open spec fn digits(n: nat, k: nat) -> Seq<char>
    decreases k,
{
    if k == 0 {
        Seq::empty()
    } else {
        digits(n / 10, (k - 1) as nat).push(digit(n % 10))
    }
}

/// Two hexadecimal digits of a byte.
pub open spec fn hex2(b: u8) -> Seq<char> {
    seq![digit(b as nat / 16), digit(b as nat % 16)]
}

/// The one-character text of a digit below sixteen.
pub fn digit_text(d: u64) -> (s: &'static str)
    requires
        d < 16,
    ensures
        s@ == seq![digit(d as nat)],
{
    proof {
        reveal_strlit("0");
        reveal_strlit("1");
        reveal_strlit("2");
        reveal_strlit("3");
        reveal_strlit("4");
        reveal_strlit("5");
        reveal_strlit("6");
        reveal_strlit("7");
        reveal_strlit("8");
        reveal_strlit("9");
        reveal_strlit("a");
        reveal_strlit("b");
        reveal_strlit("c");
        reveal_strlit("d");
        reveal_strlit("e");
        reveal_strlit("f");
    }
    let s: &'static str = match d {
        0 => "0",
        1 => "1",
        2 => "2",
        3 => "3",
        4 => "4",
        5 => "5",
        6 => "6",
        7 => "7",
        8 => "8",
        9 => "9",
        10 => "a",
        11 => "b",
        12 => "c",
        13 => "d",
        14 => "e",
        _ => "f",
    };
    assert(s@ =~= seq![digit(d as nat)]);
    s
}

/// `n` in decimal.
pub fn decimal_text(n: u64) -> (s: String)
    ensures
        s@ == decimal(n as nat),
    decreases n,
{
    if n < 10 {
        digit_text(n).to_owned()
    } else {
        let mut s: String = decimal_text(n / 10);
        s.append(digit_text(n % 10));
        assert(s@ =~= decimal(n as nat));
        s
    }
}

/// The `k` low-order decimal digits of `n`, zeros included.
pub fn digits_text(n: u64, k: usize) -> (s: String)
    ensures
        s@ == digits(n as nat, k as nat),
    decreases k,
{
    if k == 0 {
        String::new()
    } else {
        let mut s: String = digits_text(n / 10, k - 1);
        s.append(digit_text(n % 10));
        assert(s@ =~= digits(n as nat, k as nat));
        s
    }
}

/// Two hexadecimal digits of a byte.
pub fn hex2_text(b: u8) -> (s: String)
    ensures
        s@ == hex2(b),
{
    let mut s: String = digit_text((b / 16) as u64).to_owned();
    s.append(digit_text((b % 16) as u64));
    assert(s@ =~= hex2(b));
    s
}

/// The text that std's `Debug` writes for a string: quoted and escaped.
pub uninterp spec fn quoted(s: Seq<char>) -> Seq<char>;

/// `Debug` of `str`, through `format!`: the quotes and escapes are std's, and
/// depend on nothing but the characters of `s`.
#[verifier::external_body]
pub(crate) fn quoted_text(s: &str) -> (r: String)
    ensures
        r@ == quoted(s@),
{
    format!("{:?}", s)
}

/// The message that std's `Utf8Error` shows for bytes that are not UTF-8.
pub uninterp spec fn utf8_complaint(bytes: Seq<u8>) -> Seq<char>;

/// `std::str::from_utf8`: bytes that are UTF-8 give the text they encode; any
/// others give the error's message, which depends on nothing but the bytes.
#[verifier::external_body]
pub(crate) fn utf8_text(bytes: &[u8]) -> (r: Result<String, String>)
    ensures
        match r {
            Ok(s) => valid_utf8(bytes@) && encode_utf8(s@) == bytes@,
            Err(m) => !valid_utf8(bytes@) && m@ == utf8_complaint(bytes@),
        },
{
    match std::str::from_utf8(bytes) {
        Ok(s) => Ok(s.to_owned()),
        Err(e) => Err(e.to_string()),
    }
}

/// The characters of a text, one by one.
pub fn chars_of(s: &str) -> (v: Vec<char>)
    ensures
        v@ == s@,
{
    let mut v: Vec<char> = Vec::new();
    for c in it: s.chars()
        invariant
            v@ == it.seq().take(it.index()),
    {
        v.push(c);
        assert(v@ =~= it.seq().take(it.index() + 1));
    }
    assert(v@ =~= s@);
    v
}

/// The number that decimal digits spell.
pub open spec fn number(s: Seq<char>) -> nat
    decreases s.len(),
{
    if s.len() == 0 {
        0
    } else {
        number(s.drop_last()) * 10 + (s.last() as nat - '0' as nat) as nat
    }
}

pub open spec fn is_digit(c: char) -> bool {
    '0' <= c <= '9'
}

pub open spec fn all_digits(s: Seq<char>) -> bool {
    forall|i: int| 0 <= i < s.len() ==> is_digit(#[trigger] s[i])
}

/// A text without the plus sign that it may start with.
pub open spec fn unsigned(s: Seq<char>) -> Seq<char> {
    if s.len() > 0 && s[0] == '+' {
        s.skip(1)
    } else {
        s
    }
}

/// The number that a text names: digits only, after an optional plus sign, at
/// least one digit, and within 64 bits.
pub open spec fn parsed_u64(s: Seq<char>) -> Option<u64> {
    let d = unsigned(s);
    if d.len() > 0 && all_digits(d) && number(d) <= u64::MAX {
        Some(number(d) as u64)
    } else {
        None
    }
}

/// Leading digits spell no more than the whole.
proof fn lemma_number_prefix(s: Seq<char>, k: int)
    requires
        0 <= k <= s.len(),
    ensures
        number(s.take(k)) <= number(s),
    decreases s.len(),
{
    if k == s.len() {
        assert(s.take(k) =~= s);
    } else {
        lemma_number_prefix(s.drop_last(), k);
        assert(s.drop_last().take(k) =~= s.take(k));
    }
}

/// Read `chars[..end]` as a number.
pub fn parse_u64(chars: &Vec<char>, end: usize) -> (r: Option<u64>)
    requires
        end <= chars@.len(),
    ensures
        r == parsed_u64(chars@.take(end as int)),
{
    let ghost s = chars@.take(end as int);
    let ghost d = unsigned(s);
    let start: usize = if end > 0 && chars[0] == '+' {
        1
    } else {
        0
    };
    assert(d =~= chars@.subrange(start as int, end as int));
    if start == end {
        return None;
    }
    let mut v: u64 = 0;
    let mut i: usize = start;
    assert(number(d.take(0)) == 0);
    while i < end
        invariant
            start <= i <= end <= chars@.len(),
            d == chars@.subrange(start as int, end as int),
            d == unsigned(s),
            s == chars@.take(end as int),
            all_digits(d.take(i - start)),
            v as nat == number(d.take(i - start)),
        decreases end - i,
    {
        let c: char = chars[i];
        assert(d[i - start] == c);
        if c < '0' || c > '9' {
            assert(!is_digit(d[i - start]));
            return None;
        }
        let x: u64 = (c as u32 - '0' as u32) as u64;
        proof {
            let head = d.take(i - start + 1);
            assert(head.drop_last() =~= d.take(i - start));
            assert(head.last() == c);
            assert(number(head) == v as nat * 10 + x as nat);
            lemma_number_prefix(d, i - start + 1);
        }
        if v > (u64::MAX - x) / 10 {
            assert(v as nat * 10 + x as nat > u64::MAX);
            return None;
        }
        v = v * 10 + x;
        i = i + 1;
    }
    assert(d.take(i - start) =~= d);
    Some(v)
}

/// The digits are the ten decimal ones and the first six letters, and those of a byte
/// in hexadecimal are its high half and its low half.
pub proof fn law_digit(d: nat, b: u8)
    requires
        d < 16,
    ensures
        digit(d) == "0123456789abcdef"@[d as int],
        hex2(b) == seq!["0123456789abcdef"@[b as int / 16], "0123456789abcdef"@[b as int % 16]],
{
    reveal_strlit("0123456789abcdef");
    lemma_digit(d);
    lemma_digit(b as nat / 16);
    lemma_digit(b as nat % 16);
}

proof fn lemma_digit(d: nat)
    requires
        d < 16,
    ensures
        digit(d) == "0123456789abcdef"@[d as int],
{
    reveal_strlit("0123456789abcdef");
}

/// The decimal digits are these ten characters and no others.
pub proof fn law_is_digit(c: char)
    ensures
        is_digit(c) <==> "0123456789"@.contains(c),
{
    reveal_strlit("0123456789");
    if is_digit(c) {
        assert("0123456789"@[c as int - '0' as int] == c);
    }
}

/// The number that digits spell: of none it is zero, of one the digit's place among
/// the ten, and digits in front count for ten times as much with each digit behind
/// them.
pub proof fn law_number(s: Seq<char>, t: Seq<char>, d: nat)
    requires
        d < 10,
    ensures
        number(Seq::empty()) == 0,
        number(seq!["0123456789"@[d as int]]) == d,
        number(s + t) as int == number(s) * pow(10, t.len()) + number(t),
    decreases t.len(),
{
    reveal_strlit("0123456789");
    let one = seq!["0123456789"@[d as int]];
    assert(one.drop_last() =~= Seq::<char>::empty());
    assert(number(one.drop_last()) == 0);
    if t.len() == 0 {
        assert(s + t =~= s);
        lemma_pow0(10);
        assert(number(s) * 1 == number(s));
    } else {
        let u = t.drop_last();
        law_number(s, u, d);
        assert((s + t).drop_last() =~= s + u);
        assert((s + t).last() == t.last());
        lemma_pow1(10);
        lemma_pow_adds(10, u.len(), 1);
        let x = number(s) as int;
        let p = pow(10, u.len());
        assert(x * p * 10 == x * (p * 10)) by (nonlinear_arith);
    }
}

/// A number written in decimal is digits that spell the number, the first of them
/// zero for zero alone.
pub proof fn law_decimal(n: nat)
    ensures
        decimal(n).len() > 0,
        all_digits(decimal(n)),
        number(decimal(n)) == n,
        decimal(n)[0] == '0' ==> n == 0 && decimal(n).len() == 1,
    decreases n,
{
    if n < 10 {
        assert(number(decimal(n).drop_last()) == 0);
    } else {
        law_decimal(n / 10);
        assert(decimal(n).drop_last() =~= decimal(n / 10));
    }
}

/// Digits that do not start with a zero, or are a zero alone, are the decimal form of
/// the number that they spell.
pub proof fn law_decimal_form(s: Seq<char>)
    requires
        s.len() > 0,
        all_digits(s),
        s[0] == '0' ==> s.len() == 1,
    ensures
        decimal(number(s)) == s,
    decreases s.len(),
{
    let init = s.drop_last();
    let n = number(s);
    assert(is_digit(s.last()));
    if s.len() == 1 {
        assert(number(init) == 0);
        assert(decimal(n) =~= s);
    } else {
        assert forall|i: int| 0 <= i < init.len() implies is_digit(#[trigger] init[i]) by {
            assert(is_digit(s[i]));
        }
        if init[0] == '0' {
            assert(s[0] == '0');
        }
        law_decimal_form(init);
        law_decimal(number(init));
        assert(number(init) > 0) by {
            if number(init) == 0 {
                assert(init == decimal(0));
                assert(init[0] == '0');
            }
        }
        assert(n / 10 == number(init));
        assert(n % 10 == (s.last() as nat - '0' as nat) as nat);
        assert(decimal(n) =~= s);
    }
}

/// Digits to a width are that many, and spell the number as far as the width goes.
pub proof fn law_digits(n: nat, k: nat)
    ensures
        digits(n, k).len() == k,
        all_digits(digits(n, k)),
        number(digits(n, k)) as int == n as int % pow(10, k),
    decreases k,
{
    if k == 0 {
        lemma_pow0(10);
    } else {
        let j = (k - 1) as nat;
        law_digits(n / 10, j);
        assert(digits(n, k).drop_last() =~= digits(n / 10, j));
        lemma_pow1(10);
        lemma_pow_adds(10, 1, j);
        lemma_pow_positive(10, j);
        vstd::arithmetic::div_mod::lemma_mod_breakdown(n as int, 10, pow(10, j));
    }
}

/// Digits, with or without a plus sign in front, are read as the number that they
/// spell if it fits 64 bits. Anything else is no number.
pub proof fn law_parsed(s: Seq<char>, i: int)
    ensures
        s.len() > 0 && all_digits(s) && number(s) <= 0xFFFF_FFFF_FFFF_FFFF ==> parsed_u64(s)
            == Some(number(s) as u64) && parsed_u64(seq!['+'] + s) == Some(number(s) as u64),
        all_digits(s) && number(s) > 0xFFFF_FFFF_FFFF_FFFF ==> parsed_u64(s) == None::<u64>
            && parsed_u64(seq!['+'] + s) == None::<u64>,
        parsed_u64(Seq::empty()) == None::<u64>,
        parsed_u64(seq!['+']) == None::<u64>,
        0 <= i < s.len() && !is_digit(s[i]) && !(i == 0 && s[0] == '+') ==> parsed_u64(s) == None::<
            u64,
        >,
        0 <= i < s.len() && !is_digit(s[i]) ==> parsed_u64(seq!['+'] + s) == None::<u64>,
{
    let signed = seq!['+'] + s;
    assert(signed.skip(1) =~= s);
    assert(seq!['+'].skip(1) =~= Seq::<char>::empty());
    if all_digits(s) && s.len() > 0 {
        assert(is_digit(s[0]));
    }
    if 0 <= i < s.len() && !is_digit(s[i]) {
        let d = unsigned(s);
        if s[0] == '+' {
            if i > 0 {
                assert(d[i - 1] == s[i]);
            }
        } else {
            assert(d[i] == s[i]);
        }
    }
}

} // verus!
