//! Numbers as decimal text.

use crate::tile::Tile;
use vstd::prelude::*;
use vstd::string::StringExecFns;

verus! {

/// The character of a decimal digit.
pub open spec fn digit_char(d: nat) -> char {
    if d == 0 {
        '0'
    } else if d == 1 {
        '1'
    } else if d == 2 {
        '2'
    } else if d == 3 {
        '3'
    } else if d == 4 {
        '4'
    } else if d == 5 {
        '5'
    } else if d == 6 {
        '6'
    } else if d == 7 {
        '7'
    } else if d == 8 {
        '8'
    } else {
        '9'
    }
}

/// A number in decimal digits, without leading zeros; zero is `0`.
pub open spec fn decimal(n: nat) -> Seq<char>
    decreases n,
{
    if n < 10 {
        seq![digit_char(n)]
    } else {
        decimal(n / 10).push(digit_char(n % 10))
    }
}

/// The digits in the order in which they are read, given least digit first.
pub open spec fn read_back(digits: Seq<u8>) -> Seq<char> {
    Seq::new(digits.len(), |i: int| digit_char(digits[digits.len() - 1 - i] as nat))
}

fn digit_text(d: u8) -> (text: &'static str)
    requires
        d < 10,
    ensures
        text@ == seq![digit_char(d as nat)],
{
    proof {
        reveal_strlit("0");
        reveal_strlit("1");
        reveal_strlit("2");
        reveal_strlit("3");
        reveal_strlit("4");
        reveal_strlit("5");
        reveal_strlit("6");
        reveal_strlit("7");
        reveal_strlit("8");
        reveal_strlit("9");
    }
    let text = if d == 0 {
        "0"
    } else if d == 1 {
        "1"
    } else if d == 2 {
        "2"
    } else if d == 3 {
        "3"
    } else if d == 4 {
        "4"
    } else if d == 5 {
        "5"
    } else if d == 6 {
        "6"
    } else if d == 7 {
        "7"
    } else if d == 8 {
        "8"
    } else {
        "9"
    };
    assert(text@ =~= seq![digit_char(d as nat)]);
    text
}

/// Appends a number in decimal digits to the text.
pub fn append_decimal(text: &mut String, n: u128)
    ensures
        final(text)@ == old(text)@ + decimal(n as nat),
{
    let mut digits: Vec<u8> = Vec::new();
    let mut rest: u128 = n;
    let mut open = true;
    assert(read_back(digits@) =~= Seq::<char>::empty());
    while open
        invariant
            open ==> decimal(n as nat) == decimal(rest as nat) + read_back(digits@),
            !open ==> decimal(n as nat) == read_back(digits@),
            forall|i: int| 0 <= i < digits@.len() ==> digits@[i] < 10,
        decreases rest + if open { 1int } else { 0int },
    {
        let d = (rest % 10) as u8;
        let ghost before = digits@;
        let ghost was = rest;
        digits.push(d);
        rest = rest / 10;
        proof {
            assert(read_back(digits@) =~= seq![digit_char(d as nat)] + read_back(before));
            if was < 10 {
                assert(decimal(was as nat) =~= seq![digit_char(d as nat)]);
            } else {
                assert(decimal(was as nat) =~= decimal(rest as nat) + seq![digit_char(d as nat)]);
                assert(decimal(n as nat) =~= decimal(rest as nat) + read_back(digits@));
            }
        }
        if rest == 0 {
            open = false;
        }
    }
    let count = digits.len();
    let mut left = count;
    let ghost start = text@;
    while left > 0
        invariant
            left <= count,
            count == digits@.len(),
            forall|i: int| 0 <= i < digits@.len() ==> digits@[i] < 10,
            text@ == start + read_back(digits@).take(count - left),
        decreases left,
    {
        left = left - 1;
        let ghost so_far = text@;
        text.append(digit_text(digits[left]));
        proof {
            let all = read_back(digits@);
            assert(all[count - 1 - left] == digit_char(digits@[left as int] as nat));
            assert(all.take(count - left) =~= all.take(count - 1 - left).push(all[count - 1 - left]));
            assert(text@ =~= start + all.take(count - left));
        }
    }
    proof {
        assert(read_back(digits@).take(count as int) =~= read_back(digits@));
    }
}

impl Tile {
    /// The tile as `zoom/x/y`.
    pub open spec fn text(self) -> Seq<char> {
        decimal(self.zoom as nat) + "/"@ + decimal(self.x as nat) + "/"@ + decimal(self.y as nat)
    }

    /// The tile as `zoom/x/y`.
    pub fn to_text(&self) -> (out: String)
        ensures
            out@ == self.text(),
    {
        let mut out = String::new();
        append_decimal(&mut out, self.zoom as u128);
        out.append("/");
        append_decimal(&mut out, self.x as u128);
        out.append("/");
        append_decimal(&mut out, self.y as u128);
        proof {
            assert(out@ =~= self.text());
        }
        out
    }
}

} // verus!
