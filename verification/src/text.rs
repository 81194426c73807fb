//! Numbers and lists as text.

use vstd::prelude::*;
use vstd::string::*;

verus! {

/// The character of a decimal digit.
pub open spec fn digit(d: nat) -> char {
    if d == 0 {
        '0'
    } else if d == 1 {
        '1'
    } else if d == 2 {
        '2'
    } else if d == 3 {
        '3'
    } else if d == 4 {
        '4'
    } else if d == 5 {
        '5'
    } else if d == 6 {
        '6'
    } else if d == 7 {
        '7'
    } else if d == 8 {
        '8'
    } else {
        '9'
    }
}

/// A number in decimal notation.
pub open spec fn decimal(n: nat) -> Seq<char>
    decreases n,
{
    if n < 10 {
        seq![digit(n)]
    } else {
        decimal(n / 10).push(digit(n % 10))
    }
}

/// Different numbers are written differently.
pub proof fn lemma_decimal_injective(a: nat, b: nat)
    requires
        decimal(a) == decimal(b),
    ensures
        a == b,
    decreases a,
{
    assert(decimal(a).last() == digit(a % 10)) by {
        if a < 10 {
            assert(a % 10 == a) by (nonlinear_arith)
                requires
                    a < 10,
            ;
        }
    }
    assert(decimal(b).last() == digit(b % 10)) by {
        if b < 10 {
            assert(b % 10 == b) by (nonlinear_arith)
                requires
                    b < 10,
            ;
        }
    }
    lemma_decimal_nonempty(a / 10);
    lemma_decimal_nonempty(b / 10);
    if a >= 10 && b >= 10 {
        assert(decimal(a).drop_last() =~= decimal(a / 10));
        assert(decimal(b).drop_last() =~= decimal(b / 10));
        lemma_decimal_injective(a / 10, b / 10);
    }
}

proof fn lemma_decimal_nonempty(a: nat)
    ensures
        decimal(a).len() > 0,
    decreases a,
{
}

/// A number behind a letter.
pub open spec fn label(letter: char, n: nat) -> Seq<char> {
    seq![letter] + decimal(n)
}

pub proof fn lemma_label_injective(letter: char, a: nat, b: nat)
    requires
        label(letter, a) == label(letter, b),
    ensures
        a == b,
{
    assert(label(letter, a).drop_first() =~= decimal(a));
    assert(label(letter, b).drop_first() =~= decimal(b));
    lemma_decimal_injective(a, b);
}

/// A label is longer than its letter.
pub proof fn lemma_label_len(letter: char, n: nat)
    ensures
        label(letter, n).len() > 1,
{
    lemma_decimal_nonempty(n);
}

fn digit_of(d: usize) -> (s: &'static str)
    requires
        d < 10,
    ensures
        s@ == seq![digit(d as nat)],
{
    proof {
        reveal_strlit("0");
        reveal_strlit("1");
        reveal_strlit("2");
        reveal_strlit("3");
        reveal_strlit("4");
        reveal_strlit("5");
        reveal_strlit("6");
        reveal_strlit("7");
        reveal_strlit("8");
        reveal_strlit("9");
    }
    let s = match d {
        0 => "0",
        1 => "1",
        2 => "2",
        3 => "3",
        4 => "4",
        5 => "5",
        6 => "6",
        7 => "7",
        8 => "8",
        _ => "9",
    };
    assert(s@ =~= seq![digit(d as nat)]);
    s
}

/// Writes a number in decimal notation.
pub fn decimal_of(n: usize) -> (s: String)
    ensures
        s@ == decimal(n as nat),
    decreases n,
{
    if n < 10 {
        digit_of(n).to_owned()
    } else {
        let mut s = decimal_of(n / 10);
        s.append(digit_of(n % 10));
        assert(s@ =~= decimal(n as nat));
        s
    }
}

/// Texts with a separator between them.
pub open spec fn join(parts: Seq<Seq<char>>, sep: Seq<char>) -> Seq<char>
    decreases parts.len(),
{
    if parts.len() == 0 {
        Seq::empty()
    } else if parts.len() == 1 {
        parts[0]
    } else {
        join(parts.drop_last(), sep) + sep + parts.last()
    }
}

/// The characters of each text.
pub open spec fn chars(parts: Seq<String>) -> Seq<Seq<char>> {
    parts.map_values(|s: String| s@)
}

pub fn join_texts(parts: &Vec<String>, sep: &str) -> (s: String)
    ensures
        s@ == join(chars(parts@), sep@),
{
    let mut s = String::new();
    for i in 0..parts.len()
        invariant
            s@ == join(chars(parts@).take(i as int), sep@),
    {
        proof {
            assert(chars(parts@).take(i + 1).drop_last() =~= chars(parts@).take(i as int));
            if i == 0 {
                assert(chars(parts@).take(1)[0] == parts@[0]@);
            }
        }
        if i > 0 {
            s.append(sep);
            s.append(parts[i].as_str());
        } else {
            s = parts[i].clone();
        }
        assert(s@ =~= join(chars(parts@).take(i + 1), sep@));
    }
    assert(chars(parts@).take(parts@.len() as int) =~= chars(parts@));
    s
}

} // verus!
