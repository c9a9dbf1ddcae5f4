//! Decimal numerals: the canonical digit string of a number, a greedy parser
//! for it, and the proof that the parser inverts the printer.

use vstd::prelude::*;
use vstd::string::StrSliceExecFns;
use vstd::string::StringExecFns;

verus! {

/// Whether `c` is a decimal digit.
pub open spec fn is_digit(c: char) -> bool {
    c == '0' || c == '1' || c == '2' || c == '3' || c == '4' || c == '5' || c == '6' || c == '7'
        || c == '8' || c == '9'
}

/// The value of a digit character (0 for anything that is not a digit).
pub open spec fn digit_val(c: char) -> nat {
    if c == '1' {
        1
    } else if c == '2' {
        2
    } else if c == '3' {
        3
    } else if c == '4' {
        4
    } else if c == '5' {
        5
    } else if c == '6' {
        6
    } else if c == '7' {
        7
    } else if c == '8' {
        8
    } else if c == '9' {
        9
    } else {
        0
    }
}

/// The digit character for a value below ten ('0' for anything else).
pub open spec fn digit_char(d: nat) -> char {
    if d == 1 {
        '1'
    } else if d == 2 {
        '2'
    } else if d == 3 {
        '3'
    } else if d == 4 {
        '4'
    } else if d == 5 {
        '5'
    } else if d == 6 {
        '6'
    } else if d == 7 {
        '7'
    } else if d == 8 {
        '8'
    } else if d == 9 {
        '9'
    } else {
        '0'
    }
}

/// The canonical decimal numeral of `n`, most significant digit first.
pub open spec fn dec_rep(n: nat) -> Seq<char>
    decreases n,
{
    if n < 10 {
        seq![digit_char(n)]
    } else {
        dec_rep(n / 10).push(digit_char(n % 10))
    }
}

/// Whether every character of `s` is a digit.
pub open spec fn all_digits(s: Seq<char>) -> bool {
    forall|i: int| 0 <= i < s.len() ==> is_digit(#[trigger] s[i])
}

/// The value of a digit string read most significant digit first.
pub open spec fn seq_val(s: Seq<char>) -> nat
    decreases s.len(),
{
    if s.len() == 0 {
        0
    } else {
        seq_val(s.drop_last()) * 10 + digit_val(s.last())
    }
}

/// How many leading characters of `s` are digits.
pub open spec fn take_digits(s: Seq<char>) -> nat
    decreases s.len(),
{
    if s.len() > 0 && is_digit(s[0]) {
        (1 + take_digits(s.skip(1))) as nat
    } else {
        0
    }
}

/// The greedy number parser: consumes the maximal leading digit run and
/// yields its value and the remainder; fails when there is no leading digit
/// or the value does not fit a `usize`.
pub open spec fn parse_num(s: Seq<char>) -> Option<(nat, Seq<char>)> {
    let k = take_digits(s) as int;
    if k == 0 {
        None
    } else if seq_val(s.take(k)) > usize::MAX {
        None
    } else {
        Some((seq_val(s.take(k)), s.skip(k)))
    }
}

/// The canonical numeral consists of digits and is never empty.
pub proof fn lemma_dec_rep_digits(n: nat)
    ensures
        all_digits(dec_rep(n)),
        dec_rep(n).len() >= 1,
    decreases n,
{
    if n < 10 {
    } else {
        lemma_dec_rep_digits(n / 10);
        assert(dec_rep(n).drop_last() == dec_rep(n / 10));
        assert(forall|i: int|
            0 <= i < dec_rep(n / 10).len() ==> dec_rep(n)[i] == dec_rep(n / 10)[i]);
        assert(is_digit(dec_rep(n).last()));
    }
}

/// Reading the canonical numeral back gives the number.
pub proof fn lemma_seq_val_dec_rep(n: nat)
    ensures
        seq_val(dec_rep(n)) == n,
    decreases n,
{
    if n < 10 {
        assert(dec_rep(n) == seq![digit_char(n)]);
        assert(dec_rep(n).len() == 1);
        assert(dec_rep(n).drop_last() =~= Seq::<char>::empty());
        assert(dec_rep(n).last() == digit_char(n));
        assert(seq_val(Seq::<char>::empty()) == 0);
        assert(seq_val(dec_rep(n)) == 0 * 10 + digit_val(digit_char(n)));
        assert(digit_val(digit_char(n)) == n);
    } else {
        lemma_seq_val_dec_rep(n / 10);
        assert(dec_rep(n).drop_last() == dec_rep(n / 10));
        assert(seq_val(dec_rep(n)) == (n / 10) * 10 + digit_val(digit_char(n % 10)));
        assert(digit_val(digit_char(n % 10)) == n % 10);
        assert((n / 10) * 10 + n % 10 == n) by (nonlinear_arith);
    }
}

/// `take_digits` counts exactly `c` when the first `c` characters are digits
/// and the character after them (if any) is not.
pub proof fn lemma_take_digits_count(s: Seq<char>, c: nat)
    requires
        c <= s.len(),
        forall|j: int| 0 <= j < c ==> is_digit(#[trigger] s[j]),
        c == s.len() || !is_digit(s[c as int]),
    ensures
        take_digits(s) == c,
    decreases c,
{
    if c == 0 {
    } else {
        assert(is_digit(s[0]));
        lemma_take_digits_count(s.skip(1), (c - 1) as nat);
        assert(forall|j: int| 0 <= j < s.skip(1).len() ==> s.skip(1)[j] == s[j + 1]);
    }
}

/// A value never shrinks when more digits follow it.
pub proof fn lemma_seq_val_prefix(s: Seq<char>, m: int)
    requires
        0 <= m <= s.len(),
    ensures
        seq_val(s.take(m)) <= seq_val(s),
    decreases s.len(),
{
    if m == s.len() {
        assert(s.take(m) =~= s);
    } else {
        assert(s.drop_last().take(m) =~= s.take(m));
        lemma_seq_val_prefix(s.drop_last(), m);
        assert(seq_val(s.drop_last()) * 10 >= seq_val(s.drop_last())) by (nonlinear_arith);
    }
}

/// The greedy parser inverts the printer: a canonical numeral that fits a
/// `usize`, followed by anything that does not begin with a digit, parses to
/// exactly that number and that remainder.
pub proof fn lemma_parse_num_encoding(n: nat, rest: Seq<char>)
    requires
        n <= usize::MAX,
        rest.len() == 0 || !is_digit(rest[0]),
    ensures
        parse_num(dec_rep(n) + rest) == Some((n, rest)),
{
    let d = dec_rep(n);
    let s = d + rest;
    lemma_dec_rep_digits(n);
    lemma_seq_val_dec_rep(n);
    assert(forall|j: int| 0 <= j < d.len() ==> s[j] == d[j]);
    lemma_take_digits_count(s, d.len());
    assert(s.take(d.len() as int) =~= d);
    assert(s.skip(d.len() as int) =~= rest);
}

/// Executable digit test, matching [`is_digit`].
pub fn is_digit_exec(c: char) -> (r: bool)
    ensures
        r == is_digit(c),
{
    match c {
        '0' | '1' | '2' | '3' | '4' | '5' | '6' | '7' | '8' | '9' => true,
        _ => false,
    }
}

/// Executable digit value, matching [`digit_val`].
pub fn digit_val_exec(c: char) -> (r: usize)
    requires
        is_digit(c),
    ensures
        r as nat == digit_val(c),
        r <= 9,
{
    match c {
        '1' => 1,
        '2' => 2,
        '3' => 3,
        '4' => 4,
        '5' => 5,
        '6' => 6,
        '7' => 7,
        '8' => 8,
        '9' => 9,
        _ => 0,
    }
}

/// The one-character string for a digit, matching [`digit_char`].
pub fn digit_str(d: usize) -> (r: &'static str)
    requires
        d < 10,
    ensures
        r@ == seq![digit_char(d as nat)],
{
    proof {
        reveal_strlit("0");
        reveal_strlit("1");
        reveal_strlit("2");
        reveal_strlit("3");
        reveal_strlit("4");
        reveal_strlit("5");
        reveal_strlit("6");
        reveal_strlit("7");
        reveal_strlit("8");
        reveal_strlit("9");
    }
    let r: &'static str = if d == 1 {
        "1"
    } else if d == 2 {
        "2"
    } else if d == 3 {
        "3"
    } else if d == 4 {
        "4"
    } else if d == 5 {
        "5"
    } else if d == 6 {
        "6"
    } else if d == 7 {
        "7"
    } else if d == 8 {
        "8"
    } else if d == 9 {
        "9"
    } else {
        "0"
    };
    proof {
        assert(r@ =~= seq![digit_char(d as nat)]);
    }
    r
}

/// Renders `n` as its canonical decimal numeral.
pub fn num_to_string(n: usize) -> (r: String)
    ensures
        r@ == dec_rep(n as nat),
    decreases n,
{
    if n < 10 {
        let r = digit_str(n).to_owned();
        proof {
            assert(r@ =~= dec_rep(n as nat));
        }
        r
    } else {
        let mut r = num_to_string(n / 10);
        r.append(digit_str(n % 10));
        proof {
            assert(r@ =~= dec_rep(n as nat));
        }
        r
    }
}

/// Runs the greedy number parser on `s` starting at character position
/// `pos`; `n` is the character length of `s`. On success the value and the
/// position after the digit run come back.
pub fn read_num(s: &str, n: usize, pos: usize) -> (r: Option<(usize, usize)>)
    requires
        n == s@.len(),
        pos <= n,
    ensures
        match r {
            Some(p) => {
                &&& pos < p.1 <= n
                &&& parse_num(s@.skip(pos as int)) == Some((p.0 as nat, s@.skip(p.1 as int)))
            },
            None => parse_num(s@.skip(pos as int)) is None,
        },
{
    let ghost suffix = s@.skip(pos as int);
    let mut end = pos;
    while end < n && is_digit_exec(s.get_char(end))
        invariant
            n == s@.len(),
            pos <= end <= n,
            forall|j: int| pos <= j < end ==> is_digit(#[trigger] s@[j]),
        decreases n - end,
    {
        end = end + 1;
    }
    proof {
        assert(forall|j: int| 0 <= j < suffix.len() ==> suffix[j] == s@[pos + j]);
        lemma_take_digits_count(suffix, (end - pos) as nat);
    }
    if end == pos {
        return None;
    }
    let ghost digits = suffix.take((end - pos) as int);
    let mut acc: usize = 0;
    let mut i = pos;
    while i < end
        invariant
            n == s@.len(),
            pos <= i <= end <= n,
            forall|j: int| pos <= j < end ==> is_digit(#[trigger] s@[j]),
            digits == suffix.take((end - pos) as int),
            suffix == s@.skip(pos as int),
            take_digits(suffix) == (end - pos) as nat,
            acc as nat == seq_val(s@.subrange(pos as int, i as int)),
        decreases end - i,
    {
        let c = s.get_char(i);
        let d = digit_val_exec(c);
        let ghost prefix = s@.subrange(pos as int, i as int);
        let ghost prefix2 = s@.subrange(pos as int, i + 1);
        proof {
            assert(prefix2.drop_last() =~= prefix);
            assert(prefix2.last() == s@[i as int]);
            assert(seq_val(prefix2) == seq_val(prefix) * 10 + digit_val(s@[i as int]));
        }
        let next = match acc.checked_mul(10) {
            Some(x) => x.checked_add(d),
            None => None,
        };
        match next {
            Some(x) => {
                acc = x;
                i = i + 1;
            },
            None => {
                proof {
                    assert(seq_val(prefix2) > usize::MAX);
                    assert(prefix2 =~= digits.take(i + 1 - pos));
                    lemma_seq_val_prefix(digits, i + 1 - pos);
                    assert(seq_val(digits) > usize::MAX);
                    assert(take_digits(suffix) == (end - pos) as nat);
                    assert(suffix.take((end - pos) as int) == digits);
                    assert(parse_num(s@.skip(pos as int)) is None);
                }
                return None;
            },
        }
    }
    proof {
        assert(s@.subrange(pos as int, end as int) =~= digits);
        assert(s@.skip(pos as int).skip((end - pos) as int) =~= s@.skip(end as int));
    }
    Some((acc, end))
}

} // verus!
