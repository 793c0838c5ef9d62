//! Names of the files in a log directory.
//!
//! ```text
//! 00000000000000000000.log
//! 00000000000000000000.index
//! 00000000000001048576.log    ← new segment after rollover
//! 00000000000001048576.index
//! ```

use crate::text::{
    all_digits, chars_of, digits, digits_text, is_digit, law_parsed, number, parse_u64, parsed_u64,
};
use vstd::prelude::*;
use vstd::string::StringExecFns;

verus! {

/// The name of the `.log` file of the segment at `base_offset`.
pub open spec fn log_name(base_offset: u64) -> Seq<char> {
    digits(base_offset as nat, 20) + ".log"@
}

/// The name of the `.index` file of the segment at `base_offset`.
pub open spec fn index_name(base_offset: u64) -> Seq<char> {
    digits(base_offset as nat, 20) + ".index"@
}

pub open spec fn ends_with_log(s: Seq<char>) -> bool {
    s.len() >= 4 && s.skip(s.len() - 4) == ".log"@
}

/// A name without the `.log` endings it has.
pub open spec fn stem(s: Seq<char>) -> Seq<char>
    decreases s.len(),
{
    if ends_with_log(s) {
        stem(s.take(s.len() - 4))
    } else {
        s
    }
}

/// The base offset that a directory entry's name gives, if it is a segment's.
pub open spec fn base_of_name(name: Seq<char>) -> Option<u64> {
    if ends_with_log(name) {
        parsed_u64(stem(name))
    } else {
        None
    }
}

/// The name of the `.log` file of the segment at `base_offset`.
pub fn log_file_name(base_offset: u64) -> (s: String)
    ensures
        s@ == log_name(base_offset),
{
    let mut s: String = digits_text(base_offset, 20);
    s.append(".log");
    s
}

/// The name of the `.index` file of the segment at `base_offset`.
pub fn index_file_name(base_offset: u64) -> (s: String)
    ensures
        s@ == index_name(base_offset),
{
    let mut s: String = digits_text(base_offset, 20);
    s.append(".index");
    s
}

/// Whether `chars[..end]` ends in `.log`.
fn has_log_ending(chars: &Vec<char>, end: usize) -> (b: bool)
    requires
        end <= chars@.len(),
    ensures
        b == ends_with_log(chars@.take(end as int)),
{
    proof {
        reveal_strlit(".log");
    }
    if end < 4 {
        return false;
    }
    let ghost s = chars@.take(end as int);
    let b: bool = chars[end - 4] == '.' && chars[end - 3] == 'l' && chars[end - 2] == 'o'
        && chars[end - 1] == 'g';
    proof {
        let tail = s.skip(s.len() - 4);
        if b {
            assert(tail =~= ".log"@);
        } else {
            assert(tail[0] == chars@[end - 4] && tail[1] == chars@[end - 3] && tail[2]
                == chars@[end - 2] && tail[3] == chars@[end - 1]);
        }
    }
    b
}

/// The base offset that a directory entry's name gives, if it is a segment's.
pub fn base_offset_of(name: &str) -> (r: Option<u64>)
    ensures
        r == base_of_name(name@),
{
    let chars: Vec<char> = chars_of(name);
    let mut end: usize = chars.len();
    assert(chars@.take(end as int) =~= name@);
    if !has_log_ending(&chars, end) {
        return None;
    }
    while has_log_ending(&chars, end)
        invariant
            end <= chars@.len(),
            stem(chars@.take(end as int)) == stem(name@),
        ensures
            end <= chars@.len(),
            chars@.take(end as int) == stem(name@),
        decreases end,
    {
        assert(chars@.take(end as int).take(end - 4) =~= chars@.take(end - 4));
        end = end - 4;
    }
    parse_u64(&chars, end)
}

// ── Laws ─────────────────────────────────────────────────────────────────────

/// 10 to the power `k`.
pub open spec fn pow10(k: nat) -> nat
    decreases k,
{
    if k == 0 {
        1
    } else {
        10 * pow10((k - 1) as nat)
    }
}

/// Alphabetical order: the first difference decides.
pub open spec fn alphabetical(a: Seq<char>, b: Seq<char>) -> bool {
    exists|i: int|
        #![trigger a[i]]
        0 <= i < a.len() && i < b.len() && a[i] < b[i] && a.take(i) == b.take(i)
}

proof fn lemma_digits(n: nat, k: nat)
    requires
        n < pow10(k),
    ensures
        digits(n, k).len() == k,
        all_digits(digits(n, k)),
        number(digits(n, k)) == n,
    decreases k,
{
    if k > 0 {
        lemma_digits(n / 10, (k - 1) as nat);
        assert(digits(n, k).drop_last() =~= digits(n / 10, (k - 1) as nat));
    }
}

proof fn lemma_digits_ordered(m: nat, n: nat, k: nat)
    requires
        m < n < pow10(k),
    ensures
        alphabetical(digits(m, k), digits(n, k)),
    decreases k,
{
    if k > 0 {
        let a = digits(m, k);
        let b = digits(n, k);
        let a0 = digits(m / 10, (k - 1) as nat);
        let b0 = digits(n / 10, (k - 1) as nat);
        lemma_digits(m / 10, (k - 1) as nat);
        lemma_digits(n / 10, (k - 1) as nat);
        if m / 10 == n / 10 {
            let i = k - 1;
            assert(a.take(i) =~= a0);
            assert(b.take(i) =~= b0);
            assert(a[i] < b[i]);
        } else {
            lemma_digits_ordered(m / 10, n / 10, (k - 1) as nat);
            let i = choose|i: int|
                #![trigger a0[i]]
                0 <= i < a0.len() && i < b0.len() && a0[i] < b0[i] && a0.take(i) == b0.take(i);
            assert(a[i] == a0[i] && b[i] == b0[i]);
            assert(a.take(i) =~= a0.take(i));
            assert(b.take(i) =~= b0.take(i));
        }
    }
}

proof fn lemma_twenty_digits()
    ensures
        u64::MAX < pow10(20),
{
    reveal_with_fuel(pow10, 21);
}

/// Alphabetical order of file names is offset order.
pub proof fn law_names_ordered(a: u64, b: u64)
    requires
        a < b,
    ensures
        alphabetical(log_name(a), log_name(b)),
        alphabetical(index_name(a), index_name(b)),
{
    let x = digits(a as nat, 20);
    let y = digits(b as nat, 20);
    lemma_twenty_digits();
    lemma_digits(a as nat, 20);
    lemma_digits(b as nat, 20);
    lemma_digits_ordered(a as nat, b as nat, 20);
    let i = choose|i: int|
        #![trigger x[i]]
        0 <= i < x.len() && i < y.len() && x[i] < y[i] && x.take(i) == y.take(i);
    assert(log_name(a)[i] == x[i] && index_name(a)[i] == x[i]);
    assert(log_name(a).take(i) =~= x.take(i) && log_name(b).take(i) =~= y.take(i));
    assert(index_name(a).take(i) =~= x.take(i) && index_name(b).take(i) =~= y.take(i));
}

/// The name of a segment's `.log` file gives its base offset back; the name of
/// its `.index` file is not taken for a segment.
pub proof fn law_name_recovered(base_offset: u64)
    ensures
        base_of_name(log_name(base_offset)) == Some(base_offset),
        base_of_name(index_name(base_offset)) == None::<u64>,
{
    reveal_strlit(".log");
    reveal_strlit(".index");
    let d = digits(base_offset as nat, 20);
    lemma_twenty_digits();
    lemma_digits(base_offset as nat, 20);
    let name = log_name(base_offset);
    assert(name.skip(name.len() - 4) =~= ".log"@);
    assert(name.take(name.len() - 4) =~= d);
    assert(is_digit(d[19]));
    assert(d.skip(16)[3] == d[19]);
    assert(".log"@[3] == 'g');
    assert(!ends_with_log(d));
    assert(stem(d) == d);
    assert(stem(name) == d);
    assert(is_digit(d[0]));
    let other = index_name(base_offset);
    assert(other.skip(other.len() - 4)[3] == 'x');
}

/// A file name is the base offset in twenty digits, and the ending.
pub proof fn law_name_text(base_offset: u64)
    ensures
        log_name(base_offset).len() == 24,
        log_name(base_offset).skip(20) == ".log"@,
        index_name(base_offset).len() == 26,
        index_name(base_offset).skip(20) == ".index"@,
        log_name(base_offset).take(20) == index_name(base_offset).take(20),
        all_digits(log_name(base_offset).take(20)),
        number(log_name(base_offset).take(20)) == base_offset,
{
    reveal_strlit(".log");
    reveal_strlit(".index");
    lemma_twenty_digits();
    lemma_digits(base_offset as nat, 20);
    let d = digits(base_offset as nat, 20);
    assert(log_name(base_offset).skip(20) =~= ".log"@);
    assert(index_name(base_offset).skip(20) =~= ".index"@);
    assert(log_name(base_offset).take(20) =~= d);
    assert(index_name(base_offset).take(20) =~= d);
}

/// Any digits before the ending give the number that they spell, whatever their count,
/// a plus sign in front or the ending a second time. A name without the ending, or with
/// another character among the digits, gives none.
pub proof fn law_other_names(s: Seq<char>, i: int)
    ensures
        s.len() > 0 && all_digits(s) && number(s) <= 0xFFFF_FFFF_FFFF_FFFF ==> {
            &&& base_of_name(s + ".log"@) == Some(number(s) as u64)
            &&& base_of_name(seq!['+'] + s + ".log"@) == Some(number(s) as u64)
            &&& base_of_name(s + ".log"@ + ".log"@) == Some(number(s) as u64)
        },
        all_digits(s) && number(s) > 0xFFFF_FFFF_FFFF_FFFF ==> base_of_name(s + ".log"@) == None::<
            u64,
        >,
        base_of_name(".log"@) == None::<u64>,
        s.len() < 4 || s.skip(s.len() - 4) != ".log"@ ==> base_of_name(s) == None::<u64>,
        0 <= i < s.len() && !is_digit(s[i]) && !(i == 0 && s[0] == '+') && (s.len() < 4 || s.skip(
            s.len() - 4,
        ) != ".log"@) ==> base_of_name(s + ".log"@) == None::<u64>,
{
    reveal_strlit(".log");
    law_parsed(s, i);
    lemma_ending(s);
    lemma_ending(s + ".log"@);
    lemma_ending(seq!['+'] + s);
    lemma_ending(Seq::empty());
    assert(Seq::<char>::empty() + ".log"@ =~= ".log"@);
    let signed = seq!['+'] + s;
    if s.len() > 0 && all_digits(s) {
        assert(is_digit(s.last()));
        assert(signed.last() == s.last());
        if s.len() >= 4 {
            assert(s.skip(s.len() - 4)[3] == s.last());
        }
        if signed.len() >= 4 {
            assert(signed.skip(signed.len() - 4)[3] == s.last());
        }
        assert(!ends_with_log(s) && !ends_with_log(signed));
    }
}

proof fn lemma_ending(s: Seq<char>)
    ensures
        ends_with_log(s + ".log"@),
        stem(s + ".log"@) == stem(s),
{
    reveal_strlit(".log");
    let name = s + ".log"@;
    assert(name.skip(name.len() - 4) =~= ".log"@);
    assert(name.take(name.len() - 4) =~= s);
}

} // verus!
