//! Characters, digits and decimal numbers.

use vstd::prelude::*;
use vstd::string::*;

verus! {

/// Whether `c` is one of the ten ASCII digits.
pub open spec fn is_digit(c: char) -> bool {
    '0' <= c && c <= '9'
}

/// Whether `c` is ASCII white space: space, tab, line feed, form feed or
/// carriage return.
pub open spec fn is_space(c: char) -> bool {
    c == ' ' || c == '\t' || c == '\n' || c == '\x0C' || c == '\r'
}

/// The number that the digit `c` stands for.
pub open spec fn digit_value(c: char) -> int {
    c as u32 as int - '0' as u32 as int
}

/// Whether `c` is one of the ten ASCII digits.
pub fn char_is_digit(c: char) -> (b: bool)
    ensures
        b == is_digit(c),
{
    '0' <= c && c <= '9'
}

/// Whether `c` is ASCII white space.
pub fn char_is_space(c: char) -> (b: bool)
    ensures
        b == is_space(c),
{
    c == ' ' || c == '\t' || c == '\n' || c == '\x0C' || c == '\r'
}

/// The number that the digit `c` stands for.
pub fn char_digit_value(c: char) -> (d: u32)
    requires
        is_digit(c),
    ensures
        d == digit_value(c),
        d <= 9,
{
    c as u32 - '0' as u32
}

/// The characters of `s`, one by one.
pub fn chars_of(s: &str) -> (v: Vec<char>)
    ensures
        v@ == s@,
{
    let mut v: Vec<char> = Vec::new();
    for c in it: s.chars()
        invariant
            it.seq() == s@,
            v@ == s@.subrange(0, it.index() as int),
    {
        v.push(c);
        assert(v@ =~= s@.subrange(0, it.index() + 1));
    }
    assert(v@ =~= s@);
    v
}

/// Whether the two strings hold the same characters.
pub fn str_eq(a: &str, b: &str) -> (same: bool)
    ensures
        same == (a@ == b@),
{
    let a_chars = chars_of(a);
    let b_chars = chars_of(b);
    if a_chars.len() != b_chars.len() {
        return false;
    }
    let same = starts_with_at(&a_chars, 0, &b_chars);
    assert(a@.subrange(0, a@.len() as int) =~= a@);
    same
}

/// Whether the characters `sym` stand in `input` at index `at`.
pub fn starts_with_at(input: &Vec<char>, at: usize, sym: &Vec<char>) -> (b: bool)
    requires
        at <= input.len(),
    ensures
        b == sym@.is_prefix_of(input@.subrange(at as int, input@.len() as int)),
{
    let n: usize = sym.len();
    let ghost rest = input@.subrange(at as int, input@.len() as int);
    if n > input.len() - at {
        return false;
    }
    let mut i: usize = 0;
    while i < n
        invariant
            i <= n,
            n == sym@.len(),
            at + n <= input.len(),
            rest == input@.subrange(at as int, input@.len() as int),
            sym@.subrange(0, i as int) == rest.subrange(0, i as int),
        decreases n - i,
    {
        if sym[i] != input[at + i] {
            assert(sym@[i as int] != rest.subrange(0, n as int)[i as int]);
            return false;
        }
        i += 1;
        assert(sym@.subrange(0, i as int) =~= sym@.subrange(0, i - 1).push(sym@[i - 1]));
        assert(rest.subrange(0, i as int) =~= rest.subrange(0, i - 1).push(rest[i - 1]));
    }
    assert(sym@ =~= sym@.subrange(0, n as int));
    true
}

/// The character that writes the digit `d`.
pub open spec fn digit_char(d: nat) -> char {
    if d == 0 {
        '0'
    } else if d == 1 {
        '1'
    } else if d == 2 {
        '2'
    } else if d == 3 {
        '3'
    } else if d == 4 {
        '4'
    } else if d == 5 {
        '5'
    } else if d == 6 {
        '6'
    } else if d == 7 {
        '7'
    } else if d == 8 {
        '8'
    } else {
        '9'
    }
}

/// The decimal digits of `n`, without leading zeros.
pub open spec fn nat_text(n: nat) -> Seq<char>
    decreases n,
{
    if n < 10 {
        seq![digit_char(n)]
    } else {
        nat_text(n / 10).push(digit_char(n % 10))
    }
}

/// The decimal text of `v`, with a minus sign where it is negative.
pub open spec fn int_text(v: int) -> Seq<char> {
    if v < 0 {
        seq!['-'] + nat_text((-v) as nat)
    } else {
        nat_text(v as nat)
    }
}

/// The number that a run of digits writes in decimal.
pub open spec fn decimal_value(ds: Seq<char>) -> nat
    decreases ds.len(),
{
    if ds.len() == 0 {
        0
    } else {
        (decimal_value(ds.drop_last()) * 10 + digit_value(ds.last())) as nat
    }
}

/// Whether every character of `ds` is a digit.
pub open spec fn all_digits(ds: Seq<char>) -> bool {
    forall|i: int| 0 <= i < ds.len() ==> is_digit(#[trigger] ds[i])
}

/// The decimal text of a number is made of digits, and reads back as that
/// number.
pub proof fn lemma_nat_text_reads_back(n: nat)
    ensures
        nat_text(n).len() >= 1,
        all_digits(nat_text(n)),
        decimal_value(nat_text(n)) == n,
    decreases n,
{
    if n < 10 {
        let t = nat_text(n);
        assert(t.drop_last() =~= Seq::<char>::empty());
        assert(decimal_value(t.drop_last()) == 0);
        assert(digit_value(digit_char(n)) == n);
    } else {
        lemma_nat_text_reads_back(n / 10);
        let t = nat_text(n);
        assert(t.drop_last() =~= nat_text(n / 10));
        assert(t.last() == digit_char(n % 10));
        assert(digit_value(digit_char(n % 10)) == n % 10);
    }
}

/// A run of digits is worth at least as much as any of its beginnings.
pub proof fn lemma_decimal_value_grows(ds: Seq<char>, k: int)
    requires
        0 <= k <= ds.len(),
        all_digits(ds),
    ensures
        decimal_value(ds.subrange(0, k)) <= decimal_value(ds),
    decreases ds.len() - k,
{
    if k == ds.len() {
        assert(ds.subrange(0, k) =~= ds);
    } else {
        let longer = ds.subrange(0, k + 1);
        assert(longer.drop_last() =~= ds.subrange(0, k));
        assert(longer.last() == ds[k]);
        assert(is_digit(ds[k]));
        lemma_decimal_value_grows(ds, k + 1);
    }
}

/// The digit `d` as a string of one character.
fn digit_str(d: u64) -> (s: &'static str)
    requires
        d < 10,
    ensures
        s@ == seq![digit_char(d as nat)],
{
    proof {
        reveal_strlit("0");
        reveal_strlit("1");
        reveal_strlit("2");
        reveal_strlit("3");
        reveal_strlit("4");
        reveal_strlit("5");
        reveal_strlit("6");
        reveal_strlit("7");
        reveal_strlit("8");
        reveal_strlit("9");
        assert("0"@ =~= seq!['0']);
        assert("1"@ =~= seq!['1']);
        assert("2"@ =~= seq!['2']);
        assert("3"@ =~= seq!['3']);
        assert("4"@ =~= seq!['4']);
        assert("5"@ =~= seq!['5']);
        assert("6"@ =~= seq!['6']);
        assert("7"@ =~= seq!['7']);
        assert("8"@ =~= seq!['8']);
        assert("9"@ =~= seq!['9']);
    }
    if d == 0 {
        "0"
    } else if d == 1 {
        "1"
    } else if d == 2 {
        "2"
    } else if d == 3 {
        "3"
    } else if d == 4 {
        "4"
    } else if d == 5 {
        "5"
    } else if d == 6 {
        "6"
    } else if d == 7 {
        "7"
    } else if d == 8 {
        "8"
    } else {
        "9"
    }
}

/// Appends the decimal digits of `n` to `s`.
pub fn push_nat(s: &mut String, n: u64)
    ensures
        final(s)@ == old(s)@ + nat_text(n as nat),
    decreases n,
{
    if n >= 10 {
        push_nat(s, n / 10);
    }
    s.append(digit_str(n % 10));
    assert(s@ =~= old(s)@ + nat_text(n as nat));
}

/// Appends the decimal text of `v` to `s`.
pub fn push_int(s: &mut String, v: i32)
    ensures
        final(s)@ == old(s)@ + int_text(v as int),
{
    if v < 0 {
        proof {
            reveal_strlit("-");
            assert("-"@ =~= seq!['-']);
        }
        s.append("-");
        push_nat(s, (-(v as i64)) as u64);
    } else {
        push_nat(s, v as u64);
    }
    assert(s@ =~= old(s)@ + int_text(v as int));
}

/// Reads the digits `chars[from..to]` as a decimal number, if it fits.
pub fn parse_digits(chars: &Vec<char>, from: usize, to: usize) -> (r: Option<i32>)
    requires
        from <= to <= chars.len(),
        all_digits(chars@.subrange(from as int, to as int)),
    ensures
        match r {
            Some(v) => v == decimal_value(chars@.subrange(from as int, to as int)),
            None => decimal_value(chars@.subrange(from as int, to as int)) > i32::MAX,
        },
{
    let ghost ds = chars@.subrange(from as int, to as int);
    let mut acc: u64 = 0;
    let mut i: usize = from;
    while i < to
        invariant
            from <= i <= to,
            to <= chars.len(),
            ds == chars@.subrange(from as int, to as int),
            all_digits(ds),
            acc <= i32::MAX,
            acc == decimal_value(ds.subrange(0, i - from)),
        decreases to - i,
    {
        assert(is_digit(ds[i - from]));
        let d: u32 = char_digit_value(chars[i]);
        let next: u64 = acc * 10 + d as u64;
        proof {
            let longer = ds.subrange(0, i - from + 1);
            assert(longer.drop_last() =~= ds.subrange(0, i - from));
            assert(longer.last() == chars@[i as int]);
            assert(next == decimal_value(longer));
            lemma_decimal_value_grows(ds, i - from + 1);
        }
        if next > i32::MAX as u64 {
            return None;
        }
        acc = next;
        i += 1;
    }
    assert(ds.subrange(0, to - from) =~= ds);
    Some(acc as i32)
}

} // verus!
