use vstd::prelude::*;

verus! {

/// The character for one decimal digit.
pub open spec fn digit_char(d: nat) -> char {
    if d == 0 {
        '0'
    } else if d == 1 {
        '1'
    } else if d == 2 {
        '2'
    } else if d == 3 {
        '3'
    } else if d == 4 {
        '4'
    } else if d == 5 {
        '5'
    } else if d == 6 {
        '6'
    } else if d == 7 {
        '7'
    } else if d == 8 {
        '8'
    } else {
        '9'
    }
}

/// The usual decimal numeral of `n`, most significant digit first, no sign
/// and no leading zero (except for `n == 0` itself).
pub open spec fn decimal_chars(n: nat) -> Seq<char>
    decreases n,
{
    if n < 10 {
        seq![digit_char(n)]
    } else {
        decimal_chars(n / 10).push(digit_char(n % 10))
    }
}

fn digit_str(d: usize) -> (r: &'static str)
    requires
        d < 10,
    ensures
        r@ == seq![digit_char(d as nat)],
{
    if d == 0 {
        let s = "0";
        proof {
            reveal_strlit("0");
            assert(s@ =~= seq![digit_char(0)]);
        }
        s
    } else if d == 1 {
        let s = "1";
        proof {
            reveal_strlit("1");
            assert(s@ =~= seq![digit_char(1)]);
        }
        s
    } else if d == 2 {
        let s = "2";
        proof {
            reveal_strlit("2");
            assert(s@ =~= seq![digit_char(2)]);
        }
        s
    } else if d == 3 {
        let s = "3";
        proof {
            reveal_strlit("3");
            assert(s@ =~= seq![digit_char(3)]);
        }
        s
    } else if d == 4 {
        let s = "4";
        proof {
            reveal_strlit("4");
            assert(s@ =~= seq![digit_char(4)]);
        }
        s
    } else if d == 5 {
        let s = "5";
        proof {
            reveal_strlit("5");
            assert(s@ =~= seq![digit_char(5)]);
        }
        s
    } else if d == 6 {
        let s = "6";
        proof {
            reveal_strlit("6");
            assert(s@ =~= seq![digit_char(6)]);
        }
        s
    } else if d == 7 {
        let s = "7";
        proof {
            reveal_strlit("7");
            assert(s@ =~= seq![digit_char(7)]);
        }
        s
    } else if d == 8 {
        let s = "8";
        proof {
            reveal_strlit("8");
            assert(s@ =~= seq![digit_char(8)]);
        }
        s
    } else {
        let s = "9";
        proof {
            reveal_strlit("9");
            assert(s@ =~= seq![digit_char(9)]);
        }
        s
    }
}

/// Renders `n` as its decimal numeral.
pub fn decimal_string(n: usize) -> (r: String)
    ensures
        r@ == decimal_chars(n as nat),
    decreases n,
{
    if n < 10 {
        String::from_str(digit_str(n))
    } else {
        let mut out = decimal_string(n / 10);
        out.append(digit_str(n % 10));
        proof {
            assert(out@ =~= decimal_chars(n as nat));
        }
        out
    }
}

} // verus!
