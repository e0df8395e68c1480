//! Plain-text rendering: decimal numerals and the layout of terms.
use vstd::prelude::*;

verus! {

/// The character of a decimal digit.
pub open spec fn digit_char(d: int) -> char {
    seq!['0', '1', '2', '3', '4', '5', '6', '7', '8', '9'][d]
}

/// The decimal digits of a natural number, most significant first.
pub open spec fn digits(n: nat) -> Seq<char>
    decreases n,
{
    if n < 10 {
        seq![digit_char(n as int)]
    } else {
        digits(n / 10) + seq![digit_char((n % 10) as int)]
    }
}

/// The decimal numeral of an integer, with a leading `-` when negative.
pub open spec fn decimal(v: int) -> Seq<char> {
    if v < 0 {
        seq!['-'] + digits((-v) as nat)
    } else {
        digits(v as nat)
    }
}

/// The one-character text of a decimal digit.
fn digit_text(d: u64) -> (r: &'static str)
    requires
        d < 10,
    ensures
        r@ == seq![digit_char(d as int)],
{
    proof {
        reveal_strlit("0");
        reveal_strlit("1");
        reveal_strlit("2");
        reveal_strlit("3");
        reveal_strlit("4");
        reveal_strlit("5");
        reveal_strlit("6");
        reveal_strlit("7");
        reveal_strlit("8");
        reveal_strlit("9");
    }
    let r = if d == 0 {
        "0"
    } else if d == 1 {
        "1"
    } else if d == 2 {
        "2"
    } else if d == 3 {
        "3"
    } else if d == 4 {
        "4"
    } else if d == 5 {
        "5"
    } else if d == 6 {
        "6"
    } else if d == 7 {
        "7"
    } else if d == 8 {
        "8"
    } else {
        "9"
    };
    assert(r@ =~= seq![digit_char(d as int)]);
    r
}

/// The decimal digits of `n`, most significant first.
fn digits_text(n: u64) -> (r: String)
    ensures
        r@ == digits(n as nat),
{
    let mut m = n;
    let mut out = String::new();
    while m >= 10
        invariant
            digits(n as nat) == digits(m as nat) + out@,
        decreases m,
    {
        let mut next = String::from_str(digit_text(m % 10));
        next.append(out.as_str());
        proof {
            assert(digits(m as nat) == digits((m / 10) as nat) + seq![digit_char((m % 10) as int)]);
            assert(digits(m as nat) + out@ =~= digits((m / 10) as nat) + next@);
        }
        out = next;
        m = m / 10;
    }
    let mut first = String::from_str(digit_text(m));
    first.append(out.as_str());
    proof {
        assert(digits(n as nat) =~= first@);
    }
    first
}

/// The decimal numeral of an exponent.
pub(crate) fn degree_text(v: i64) -> (r: String)
    ensures
        r@ == decimal(v as int),
{
    if v < 0 {
        let magnitude: u64 = (-(v as i128)) as u64;
        let mut out = String::from_str("-");
        out.append(digits_text(magnitude).as_str());
        proof {
            reveal_strlit("-");
            assert(out@ =~= decimal(v as int));
        }
        out
    } else {
        digits_text(v as u64)
    }
}

/// The decimal numeral of an index.
pub(crate) fn index_text(v: usize) -> (r: String)
    ensures
        r@ == decimal(v as int),
{
    digits_text(v as u64)
}

/// The texts joined with `sep` between consecutive ones.
pub open spec fn join(texts: Seq<Seq<char>>, sep: Seq<char>) -> Seq<char>
    decreases texts.len(),
{
    if texts.len() == 0 {
        Seq::empty()
    } else if texts.len() == 1 {
        texts[0]
    } else {
        join(texts.drop_last(), sep) + sep + texts.last()
    }
}

pub proof fn lemma_join_push(texts: Seq<Seq<char>>, sep: Seq<char>, i: int)
    requires
        0 <= i < texts.len(),
    ensures
        join(texts.take(i + 1), sep) == if i == 0 {
            texts[0]
        } else {
            join(texts.take(i), sep) + sep + texts[i]
        },
{
    assert(texts.take(i + 1).drop_last() =~= texts.take(i));
}

} // verus!
