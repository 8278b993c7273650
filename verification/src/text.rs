//! Decimal numbers and the text pieces that messages are built from.
use vstd::prelude::*;
use vstd::string::*;

verus! {

/// The character of a decimal digit.
pub open spec fn digit_char(d: nat) -> char {
    (48 + d) as u8 as char
}

/// `n` written in decimal, without leading zeros.
pub open spec fn decimal_text(n: nat) -> Seq<char>
    decreases n,
{
    if n < 10 {
        seq![digit_char(n)]
    } else {
        decimal_text(n / 10).push(digit_char(n % 10))
    }
}

/// One decimal digit as text.
fn digit(d: u64) -> (r: &'static str)
    requires
        d < 10,
    ensures
        r@ == seq![digit_char(d as nat)],
{
    proof {
        reveal_strlit("0");
        reveal_strlit("1");
        reveal_strlit("2");
        reveal_strlit("3");
        reveal_strlit("4");
        reveal_strlit("5");
        reveal_strlit("6");
        reveal_strlit("7");
        reveal_strlit("8");
        reveal_strlit("9");
        assert("0"@ =~= seq!['0'] && "1"@ =~= seq!['1'] && "2"@ =~= seq!['2'] && "3"@ =~= seq!['3']);
        assert("4"@ =~= seq!['4'] && "5"@ =~= seq!['5'] && "6"@ =~= seq!['6'] && "7"@ =~= seq!['7']);
        assert("8"@ =~= seq!['8'] && "9"@ =~= seq!['9']);
    }
    if d == 0 {
        "0"
    } else if d == 1 {
        "1"
    } else if d == 2 {
        "2"
    } else if d == 3 {
        "3"
    } else if d == 4 {
        "4"
    } else if d == 5 {
        "5"
    } else if d == 6 {
        "6"
    } else if d == 7 {
        "7"
    } else if d == 8 {
        "8"
    } else {
        "9"
    }
}

/// Appends `n` in decimal.
pub fn push_decimal(out: &mut String, n: u64)
    ensures
        final(out)@ == old(out)@ + decimal_text(n as nat),
    decreases n,
{
    if n >= 10 {
        push_decimal(out, n / 10);
    }
    let d = digit(n % 10);
    out.append(d);
    proof {
        if n < 10 {
            assert(n % 10 == n);
        } else {
            assert(decimal_text(n as nat) == decimal_text((n / 10) as nat).push(digit_char((n % 10) as nat)));
        }
        assert(out@ =~= old(out)@ + decimal_text(n as nat));
    }
}

/// `n` written in decimal.
pub fn decimal(n: u64) -> (r: String)
    ensures
        r@ == decimal_text(n as nat),
{
    let mut out = String::new();
    push_decimal(&mut out, n);
    assert(out@ =~= decimal_text(n as nat));
    out
}

/// A signed number written in decimal, the minus sign in front where it is negative.
pub open spec fn signed_decimal_text(n: int) -> Seq<char> {
    if n < 0 {
        "-"@ + decimal_text((-n) as nat)
    } else {
        decimal_text(n as nat)
    }
}

/// `n` written in decimal.
pub fn signed_decimal(n: i64) -> (r: String)
    ensures
        r@ == signed_decimal_text(n as int),
{
    if n < 0 {
        let mut out = "-".to_owned();
        let magnitude: u64 = if n == i64::MIN { 0x8000_0000_0000_0000 } else { (-n) as u64 };
        push_decimal(&mut out, magnitude);
        out
    } else {
        decimal(n as u64)
    }
}

/// The number that some decimal digits stand for.
pub open spec fn numeral(s: Seq<char>) -> int
    decreases s.len(),
{
    if s.len() == 0 {
        0
    } else {
        numeral(s.drop_last()) * 10 + (s.last() as u32 - '0' as u32)
    }
}

/// A number written in decimal is made of digits, reads back as the number, and begins with a zero
/// only where it is zero.
pub proof fn decimals_read_back(n: nat)
    ensures
        decimal_text(n).len() > 0,
        numeral(decimal_text(n)) == n,
        forall|i: int| 0 <= i < decimal_text(n).len() ==> '0' <= #[trigger] decimal_text(n)[i] <= '9',
        n > 0 ==> decimal_text(n)[0] != '0',
        n == 0 ==> decimal_text(n).len() == 1,
    decreases n,
{
    let text = decimal_text(n);
    if n < 10 {
        assert(text.drop_last() =~= Seq::<char>::empty());
        assert(numeral(Seq::<char>::empty()) == 0);
    } else {
        decimals_read_back(n / 10);
        assert(text.drop_last() =~= decimal_text(n / 10));
        assert(text[0] == decimal_text(n / 10)[0]);
        assert forall|i: int| 0 <= i < text.len() implies '0' <= #[trigger] text[i] <= '9' by {
            if i < text.len() - 1 {
                assert(text[i] == decimal_text(n / 10)[i]);
            }
        }
    }
}

/// A negative number is its magnitude with a minus sign in front, and any other is written as it
/// is: two numbers are never written alike.
pub proof fn signed_decimals_read_back(n: int)
    ensures
        n < 0 ==> signed_decimal_text(n)[0] == '-' && numeral(signed_decimal_text(n).skip(1)) == -n,
        n >= 0 ==> numeral(signed_decimal_text(n)) == n && signed_decimal_text(n)[0] != '-',
{
    if n < 0 {
        decimals_read_back((-n) as nat);
        reveal_strlit("-");
        assert(signed_decimal_text(n).skip(1) =~= decimal_text((-n) as nat));
    } else {
        decimals_read_back(n as nat);
        assert('0' <= decimal_text(n as nat)[0]);
    }
}

/// `part` stands somewhere in `text`, as it is.
pub open spec fn mentions(text: Seq<char>, part: Seq<char>) -> bool {
    exists|i: int|
        0 <= i <= text.len() - part.len() && #[trigger] text.subrange(i, i + part.len()) == part
}

/// What a text mentions, a longer one does, and a text mentions what it ends with.
pub proof fn lemma_mentions()
    ensures
        forall|p: Seq<char>| #[trigger] mentions(p, p),
        forall|s: Seq<char>, p: Seq<char>| #![trigger mentions(s + p, p)] mentions(s + p, p),
        forall|s: Seq<char>, t: Seq<char>, p: Seq<char>|
            mentions(s, p) ==> #[trigger] mentions(s + t, p),
{
    assert forall|p: Seq<char>| #[trigger] mentions(p, p) by {
        let i: int = 0;
        assert(p.subrange(i, i + p.len()) =~= p);
    }
    assert forall|s: Seq<char>, p: Seq<char>| #![trigger mentions(s + p, p)] mentions(s + p, p) by {
        let i = s.len() as int;
        assert((s + p).subrange(i, i + p.len()) =~= p);
    }
    assert forall|s: Seq<char>, t: Seq<char>, p: Seq<char>| mentions(s, p) implies #[trigger] mentions(
        s + t,
        p,
    ) by {
        let i = choose|i: int|
            0 <= i <= s.len() - p.len() && #[trigger] s.subrange(i, i + p.len()) == p;
        assert((s + t).subrange(i, i + p.len()) =~= s.subrange(i, i + p.len()));
    }
}

/// Some digits stand for `n`.
pub open spec fn digits_of(s: Seq<char>, n: nat) -> bool {
    &&& s.len() > 0
    &&& forall|i: int| 0 <= i < s.len() ==> '0' <= #[trigger] s[i] <= '9'
    &&& numeral(s) == n
    &&& n > 0 ==> s[0] != '0'
}

} // verus!
