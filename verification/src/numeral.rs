//! Decimal digit runs: the mathematical model of decimal notation, the
//! conversion from integers to decimal strings, and the lemmas connecting
//! the two directions.

use vstd::prelude::*;

verus! {

/// The digit character for a value below ten.
pub open spec fn digit_char(d: nat) -> char {
    if d == 0 {
        '0'
    } else if d == 1 {
        '1'
    } else if d == 2 {
        '2'
    } else if d == 3 {
        '3'
    } else if d == 4 {
        '4'
    } else if d == 5 {
        '5'
    } else if d == 6 {
        '6'
    } else if d == 7 {
        '7'
    } else if d == 8 {
        '8'
    } else {
        '9'
    }
}

/// Whether `c` is an ASCII decimal digit.
pub open spec fn is_digit_char(c: char) -> bool {
    48 <= c as u32 && c as u32 <= 57
}

/// The numeric value of a digit character.
pub open spec fn digit_val(c: char) -> nat {
    (c as u32 - 48) as nat
}

/// The decimal digit string of a non-negative integer, most significant
/// digit first, with no leading zeros (except for zero itself).
pub open spec fn dec_digits(n: nat) -> Seq<char>
    decreases n,
{
    if n < 10 {
        seq![digit_char(n)]
    } else {
        dec_digits(n / 10) + seq![digit_char(n % 10)]
    }
}

/// The decimal string of an integer, with a leading '-' when negative.
pub open spec fn dec_int(n: int) -> Seq<char> {
    if n < 0 {
        seq!['-'] + dec_digits((-n) as nat)
    } else {
        dec_digits(n as nat)
    }
}

/// The value of a run of decimal digit characters read in base ten.
pub open spec fn run_val(s: Seq<char>) -> nat
    decreases s.len(),
{
    if s.len() == 0 {
        0
    } else {
        run_val(s.drop_last()) * 10 + digit_val(s.last())
    }
}

/// A digit character's value round-trips.
pub proof fn lemma_digit_char_val(d: nat)
    requires
        d < 10,
    ensures
        is_digit_char(digit_char(d)),
        digit_val(digit_char(d)) == d,
{
}

/// Every character of a decimal digit string is a digit.
pub proof fn lemma_dec_digits_are_digits(n: nat)
    ensures
        dec_digits(n).len() >= 1,
        forall|i: int|
            0 <= i < dec_digits(n).len() ==> is_digit_char(#[trigger] dec_digits(n)[i]),
    decreases n,
{
    if n < 10 {
        lemma_digit_char_val(n);
    } else {
        lemma_dec_digits_are_digits(n / 10);
        lemma_digit_char_val(n % 10);
    }
}

/// Reading the decimal digit string of `n` back as a number yields `n`.
pub proof fn lemma_run_val_dec_digits(n: nat)
    ensures
        run_val(dec_digits(n)) == n,
    decreases n,
{
    if n < 10 {
        lemma_digit_char_val(n);
        assert(dec_digits(n).drop_last() =~= Seq::<char>::empty());
        assert(run_val(Seq::<char>::empty()) == 0);
        assert(dec_digits(n).last() == digit_char(n));
    } else {
        lemma_run_val_dec_digits(n / 10);
        lemma_digit_char_val(n % 10);
        assert((dec_digits(n / 10) + seq![digit_char(n % 10)]).drop_last() =~= dec_digits(
            n / 10,
        ));
        assert((dec_digits(n / 10) + seq![digit_char(n % 10)]).last() == digit_char(n % 10));
        assert(run_val(dec_digits(n)) == run_val(dec_digits(n / 10)) * 10 + digit_val(
            digit_char(n % 10),
        ));
    }
}

/// Appending one digit multiplies the value by ten and adds the digit.
pub proof fn lemma_run_val_push(s: Seq<char>, c: char)
    ensures
        run_val(s.push(c)) == run_val(s) * 10 + digit_val(c),
{
    assert(s.push(c).drop_last() =~= s);
}

fn digit_str(d: u64) -> (r: String)
    requires
        d < 10,
    ensures
        r@ == seq![digit_char(d as nat)],
{
    let s: &'static str = if d == 0 {
        "0"
    } else if d == 1 {
        "1"
    } else if d == 2 {
        "2"
    } else if d == 3 {
        "3"
    } else if d == 4 {
        "4"
    } else if d == 5 {
        "5"
    } else if d == 6 {
        "6"
    } else if d == 7 {
        "7"
    } else if d == 8 {
        "8"
    } else {
        "9"
    };
    proof {
        reveal_strlit("0");
        reveal_strlit("1");
        reveal_strlit("2");
        reveal_strlit("3");
        reveal_strlit("4");
        reveal_strlit("5");
        reveal_strlit("6");
        reveal_strlit("7");
        reveal_strlit("8");
        reveal_strlit("9");
        assert(s@ =~= seq![digit_char(d as nat)]);
    }
    s.to_owned()
}

/// The decimal string of an unsigned integer.
pub fn u64_to_decimal(m: u64) -> (r: String)
    ensures
        r@ == dec_digits(m as nat),
    decreases m,
{
    if m < 10 {
        digit_str(m)
    } else {
        let mut s = u64_to_decimal(m / 10);
        let last = digit_str(m % 10);
        s.append(last.as_str());
        s
    }
}

/// The decimal string of a signed integer, with a leading '-' when negative.
pub fn i64_to_decimal(n: i64) -> (r: String)
    ensures
        r@ == dec_int(n as int),
{
    if n >= 0 {
        u64_to_decimal(n as u64)
    } else {
        let m: u64 = if n == i64::MIN {
            9223372036854775808u64
        } else {
            (-n) as u64
        };
        assert(m as int == -(n as int));
        let mut s = String::new();
        let minus: &'static str = "-";
        proof {
            reveal_strlit("-");
            assert(minus@ =~= seq!['-']);
        }
        s.append(minus);
        let rest = u64_to_decimal(m);
        s.append(rest.as_str());
        proof {
            assert(s@ =~= seq!['-'] + dec_digits((-(n as int)) as nat));
        }
        s
    }
}

} // verus!
