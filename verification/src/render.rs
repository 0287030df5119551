//! Rendering a failing path as a human-readable chain.
//!
//! A failure report names, level by level, the label of the subcase chosen
//! and its sibling index, as in `push path (#0) -> clear path (#1)`.

use vstd::prelude::*;
use vstd::string::StringExecFns;

verus! {

/// The character for one decimal digit.
pub open spec fn digit_char(d: nat) -> char {
    if d == 0 {
        '0'
    } else if d == 1 {
        '1'
    } else if d == 2 {
        '2'
    } else if d == 3 {
        '3'
    } else if d == 4 {
        '4'
    } else if d == 5 {
        '5'
    } else if d == 6 {
        '6'
    } else if d == 7 {
        '7'
    } else if d == 8 {
        '8'
    } else {
        '9'
    }
}

/// The decimal digits of `n`, most significant first, no leading zeros.
pub open spec fn dec_digits(n: nat) -> Seq<char>
    decreases n,
{
    if n < 10 {
        seq![digit_char(n)]
    } else {
        dec_digits(n / 10).push(digit_char(n % 10))
    }
}

/// One link of the chain: the label followed by the sibling index.
pub open spec fn rendered_entry(label: Seq<char>, index: u32) -> Seq<char> {
    label + " (#"@ + dec_digits(index as nat) + ")"@
}

/// The whole chain: one link per level, joined by arrows; levels beyond the
/// shorter of the two sequences are dropped.
pub open spec fn rendered_path(labels: Seq<&str>, indices: Seq<u32>) -> Seq<char>
    decreases labels.len(),
{
    if labels.len() == 0 || indices.len() == 0 {
        Seq::empty()
    } else if labels.len() == 1 || indices.len() == 1 {
        rendered_entry(labels[0]@, indices[0])
    } else {
        rendered_entry(labels[0]@, indices[0]) + " -> "@ + rendered_path(
            labels.drop_first(),
            indices.drop_first(),
        )
    }
}

/// The digit character for `d`.
fn digit_str(d: u32) -> (r: &'static str)
    requires
        d < 10,
    ensures
        r@ == seq![digit_char(d as nat)],
{
    let r: &'static str = if d == 0 {
        "0"
    } else if d == 1 {
        "1"
    } else if d == 2 {
        "2"
    } else if d == 3 {
        "3"
    } else if d == 4 {
        "4"
    } else if d == 5 {
        "5"
    } else if d == 6 {
        "6"
    } else if d == 7 {
        "7"
    } else if d == 8 {
        "8"
    } else {
        "9"
    };
    proof {
        reveal_strlit("0");
        reveal_strlit("1");
        reveal_strlit("2");
        reveal_strlit("3");
        reveal_strlit("4");
        reveal_strlit("5");
        reveal_strlit("6");
        reveal_strlit("7");
        reveal_strlit("8");
        reveal_strlit("9");
        assert(r@ =~= seq![digit_char(d as nat)]);
    }
    r
}

/// Writes `n` in decimal.
pub fn decimal_string(n: u32) -> (s: String)
    ensures
        s@ == dec_digits(n as nat),
    decreases n,
{
    if n < 10 {
        String::from_str(digit_str(n))
    } else {
        let mut s = decimal_string(n / 10);
        s.append(digit_str(n % 10));
        proof {
            assert(s@ =~= dec_digits(n as nat));
        }
        s
    }
}

/// Builds the chain from the labels and sibling indices recorded for a pass.
pub fn rendered_report(labels: &Vec<&'static str>, indices: &Vec<u32>) -> (s: String)
    ensures
        s@ == rendered_path(labels@, indices@),
{
    proof {
        assert(labels@.skip(0) =~= labels@);
        assert(indices@.skip(0) =~= indices@);
    }
    rendered_from(labels, indices, 0)
}

/// The chain for the levels from `i` on.
fn rendered_from(labels: &Vec<&'static str>, indices: &Vec<u32>, i: usize) -> (s: String)
    requires
        i <= labels@.len(),
        i <= indices@.len(),
    ensures
        s@ == rendered_path(labels@.skip(i as int), indices@.skip(i as int)),
    decreases labels@.len() - i,
{
    if i >= labels.len() || i >= indices.len() {
        let s = String::new();
        proof {
            assert(s@ =~= rendered_path(labels@.skip(i as int), indices@.skip(i as int)));
        }
        s
    } else {
        let mut s = String::from_str(labels[i]);
        s.append(" (#");
        let digits = decimal_string(indices[i]);
        s.append(digits.as_str());
        s.append(")");
        proof {
            assert(s@ =~= rendered_entry(labels@.skip(i as int)[0]@, indices@.skip(i as int)[0]));
        }
        if i + 1 < labels.len() && i + 1 < indices.len() {
            s.append(" -> ");
            let rest = rendered_from(labels, indices, i + 1);
            s.append(rest.as_str());
            proof {
                assert(labels@.skip(i as int).drop_first() =~= labels@.skip(i as int + 1));
                assert(indices@.skip(i as int).drop_first() =~= indices@.skip(i as int + 1));
                assert(s@ =~= rendered_path(labels@.skip(i as int), indices@.skip(i as int)));
            }
            s
        } else {
            proof {
                assert(s@ =~= rendered_path(labels@.skip(i as int), indices@.skip(i as int)));
            }
            s
        }
    }
}

} // verus!
