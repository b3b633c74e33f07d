//! Text shown for numbers and response codes.
use vstd::prelude::*;

verus! {

/// The decimal digit character of `d`.
pub open spec fn digit_char(d: nat) -> char {
    if d == 0 {
        '0'
    } else if d == 1 {
        '1'
    } else if d == 2 {
        '2'
    } else if d == 3 {
        '3'
    } else if d == 4 {
        '4'
    } else if d == 5 {
        '5'
    } else if d == 6 {
        '6'
    } else if d == 7 {
        '7'
    } else if d == 8 {
        '8'
    } else {
        '9'
    }
}

/// `n` in decimal, without leading zeros.
pub open spec fn decimal_text(n: nat) -> Seq<char>
    decreases n,
{
    if n < 10 {
        seq![digit_char(n)]
    } else {
        decimal_text(n / 10).push(digit_char(n % 10))
    }
}

/// How a response code is shown: its name, or `RCODE` and its number.
pub open spec fn rcode_text(c: u8) -> Seq<char> {
    if c == 0 {
        seq!['N', 'O', 'E', 'R', 'R', 'O', 'R']
    } else if c == 1 {
        seq!['F', 'O', 'R', 'M', 'E', 'R', 'R']
    } else if c == 2 {
        seq!['S', 'E', 'R', 'V', 'F', 'A', 'I', 'L']
    } else if c == 3 {
        seq!['N', 'X', 'D', 'O', 'M', 'A', 'I', 'N']
    } else if c == 4 {
        seq!['N', 'O', 'T', 'I', 'M', 'P']
    } else if c == 5 {
        seq!['R', 'E', 'F', 'U', 'S', 'E', 'D']
    } else {
        seq!['R', 'C', 'O', 'D', 'E'] + decimal_text(c as nat)
    }
}

fn append_digit(s: &mut String, d: u8)
    requires
        d < 10,
    ensures
        final(s)@ == old(s)@.push(digit_char(d as nat)),
{
    proof {
        reveal_strlit("0");
        reveal_strlit("1");
        reveal_strlit("2");
        reveal_strlit("3");
        reveal_strlit("4");
        reveal_strlit("5");
        reveal_strlit("6");
        reveal_strlit("7");
        reveal_strlit("8");
        reveal_strlit("9");
    }
    let t = if d == 0 {
        "0"
    } else if d == 1 {
        "1"
    } else if d == 2 {
        "2"
    } else if d == 3 {
        "3"
    } else if d == 4 {
        "4"
    } else if d == 5 {
        "5"
    } else if d == 6 {
        "6"
    } else if d == 7 {
        "7"
    } else if d == 8 {
        "8"
    } else {
        "9"
    };
    s.append(t);
}

/// Appends `n` in decimal.
pub fn append_decimal(s: &mut String, n: u8)
    ensures
        final(s)@ == old(s)@ + decimal_text(n as nat),
    decreases n,
{
    if n >= 10 {
        append_decimal(s, n / 10);
    }
    append_digit(s, n % 10);
    proof {
        if n < 10 {
            assert(decimal_text(n as nat) == seq![digit_char(n as nat)]);
        }
    }
}

/// The text of a response code.
pub fn text_of_rcode(c: u8) -> (r: String)
    ensures
        r@ == rcode_text(c),
{
    proof {
        reveal_strlit("NOERROR");
        reveal_strlit("FORMERR");
        reveal_strlit("SERVFAIL");
        reveal_strlit("NXDOMAIN");
        reveal_strlit("NOTIMP");
        reveal_strlit("REFUSED");
        reveal_strlit("RCODE");
    }
    if c == 0 {
        String::from_str("NOERROR")
    } else if c == 1 {
        String::from_str("FORMERR")
    } else if c == 2 {
        String::from_str("SERVFAIL")
    } else if c == 3 {
        String::from_str("NXDOMAIN")
    } else if c == 4 {
        String::from_str("NOTIMP")
    } else if c == 5 {
        String::from_str("REFUSED")
    } else {
        let mut s = String::from_str("RCODE");
        append_decimal(&mut s, c);
        s
    }
}

/// The number that a string of decimal digit characters spells.
pub open spec fn digits_value(s: Seq<char>) -> int
    decreases s.len(),
{
    if s.len() == 0 {
        0
    } else {
        digits_value(s.drop_last()) * 10 + (s.last() as int - '0' as int)
    }
}

/// The decimal text of a number is its usual spelling: at least one digit,
/// every character a digit `0`..`9`, no leading zero but in `0` itself, and
/// its digits read back as the number.
pub proof fn lemma_decimal_text(n: nat)
    ensures
        decimal_text(n).len() >= 1,
        forall|i: int| 0 <= i < decimal_text(n).len() ==> '0' <= #[trigger] decimal_text(n)[i] <= '9',
        decimal_text(n)[0] == '0' ==> n == 0 && decimal_text(n).len() == 1,
        digits_value(decimal_text(n)) == n,
    decreases n,
{
    if n < 10 {
        assert(digit_char(n) as int == '0' as int + n);
        assert(seq![digit_char(n)].drop_last() =~= Seq::<char>::empty());
        assert(digits_value(Seq::<char>::empty()) == 0);
        assert(seq![digit_char(n)].last() == digit_char(n));
        assert(digits_value(seq![digit_char(n)]) == n);
    } else {
        lemma_decimal_text(n / 10);
        let d = n % 10;
        assert(digit_char(d) as int == '0' as int + d);
        let t = decimal_text(n / 10);
        assert(t.push(digit_char(d)).drop_last() =~= t);
        assert(t.push(digit_char(d))[0] == t[0]);
        assert(t.push(digit_char(d)).last() == digit_char(d));
        assert(decimal_text(n) == t.push(digit_char(d)));
        assert(digits_value(t.push(digit_char(d))) == digits_value(t) * 10 + d);
        assert(n == (n / 10) * 10 + d);
    }
}

/// What a number is printed as reads back as that number: the decimal text
/// is a string of decimal digits whose value is the number.
pub proof fn lemma_decimal_text_reads_back(n: nat)
    ensures
        crate::rr::is_decimal(crate::rr::ascii(decimal_text(n))),
        crate::rr::decimal_value(crate::rr::ascii(decimal_text(n))) == n,
    decreases n,
{
    let b = crate::rr::ascii(decimal_text(n));
    if n < 10 {
        assert(digit_char(n) as u8 == 0x30 + n);
        assert(b =~= seq![(0x30 + n) as u8]);
        assert(b.drop_last() =~= Seq::<u8>::empty());
        assert(crate::rr::decimal_value(Seq::<u8>::empty()) == 0);
    } else {
        lemma_decimal_text_reads_back(n / 10);
        let d = n % 10;
        assert(digit_char(d) as u8 == 0x30 + d);
        let t = crate::rr::ascii(decimal_text(n / 10));
        assert(b =~= t.push((0x30 + d) as u8));
        assert(b.drop_last() =~= t);
        assert(n == (n / 10) * 10 + d);
        assert forall|i: int| 0 <= i < b.len() implies crate::rr::is_digit(#[trigger] b[i]) by {
            if i < t.len() {
                assert(b[i] == t[i]);
            }
        }
    }
}

} // verus!
