//! Small helpers for the code that launches kernels.

use crate::text::{decimal_text, push_char, push_decimal, push_text};
use vstd::prelude::*;

verus! {

/// A whole number written in decimal digits, with a minus sign if it is
/// negative.
pub open spec fn signed_text(v: int) -> Seq<char> {
    if v < 0 {
        seq!['-'] + decimal_text((-v) as nat)
    } else {
        decimal_text(v as nat)
    }
}

/// The first `n` of `values`, written one after the other with a comma and
/// a blank between them.
pub open spec fn joined_text(values: Seq<isize>, n: nat) -> Seq<char>
    decreases n,
{
    if n == 0 {
        Seq::empty()
    } else if n == 1 {
        signed_text(values[0] as int)
    } else {
        joined_text(values, (n - 1) as nat) + seq![',', ' '] + signed_text(values[n - 1] as int)
    }
}

/// A list of numbers as an array of C: in braces, with commas between the
/// numbers.
pub open spec fn array_text(values: Seq<isize>) -> Seq<char> {
    seq!['{'] + joined_text(values, values.len()) + seq!['}']
}

/// The first `n` of `values`, each as an array of C, with a comma and a
/// blank between them.
pub open spec fn joined_arrays(values: Seq<Vec<isize>>, n: nat) -> Seq<char>
    decreases n,
{
    if n == 0 {
        Seq::empty()
    } else if n == 1 {
        array_text(values[0]@)
    } else {
        joined_arrays(values, (n - 1) as nat) + seq![',', ' '] + array_text(values[n - 1]@)
    }
}

/// A list of lists of numbers as a nested array of C.
pub open spec fn nested_array_text(values: Seq<Vec<isize>>) -> Seq<char> {
    seq!['{'] + joined_arrays(values, values.len()) + seq!['}']
}

fn push_signed(out: &mut String, v: isize)
    ensures
        final(out)@ == old(out)@ + signed_text(v as int),
{
    if v < 0 {
        push_char(out, '-');
        push_decimal(out, (-(v as i128)) as u64);
        assert(old(out)@.push('-') + decimal_text((-v) as nat) =~= old(out)@ + signed_text(v as int));
    } else {
        push_decimal(out, v as u64);
    }
}

fn push_array(out: &mut String, values: &[isize])
    ensures
        final(out)@ == old(out)@ + array_text(values@),
{
    let ghost before = out@;
    push_char(out, '{');
    let mut i: usize = 0;
    assert(before.push('{') =~= before + seq!['{'] + joined_text(values@, 0));
    while i < values.len()
        invariant
            i <= values@.len(),
            out@ == before + seq!['{'] + joined_text(values@, i as nat),
        decreases values@.len() - i,
    {
        let ghost prior = out@;
        if i != 0 {
            push_text(out, ", ");
            proof {
                reveal_strlit(", ");
                assert(", "@ =~= seq![',', ' ']);
            }
        }
        push_signed(out, values[i]);
        proof {
            if i == 0 {
                assert(joined_text(values@, 0) =~= Seq::<char>::empty());
                assert(out@ =~= before + seq!['{'] + joined_text(values@, 1));
            } else {
                assert(out@ =~= before + seq!['{'] + joined_text(values@, (i + 1) as nat));
            }
        }
        i += 1;
    }
    push_char(out, '}');
    assert(out@ =~= before + array_text(values@));
}

/// The values as an array literal of C: in braces, with a comma and a
/// blank between two values.
pub fn c_array_string(values: &[isize]) -> (r: String)
    ensures
        r@ == array_text(values@),
{
    let mut out = String::new();
    push_array(&mut out, values);
    assert(Seq::<char>::empty() + array_text(values@) =~= array_text(values@));
    out
}

/// The rows as a nested array literal of C.
pub fn c_nested_array_string(values: &[Vec<isize>]) -> (r: String)
    ensures
        r@ == nested_array_text(values@),
{
    let mut out = String::new();
    push_char(&mut out, '{');
    let mut i: usize = 0;
    assert(Seq::<char>::empty().push('{') =~= seq!['{'] + joined_arrays(values@, 0));
    while i < values.len()
        invariant
            i <= values@.len(),
            out@ == seq!['{'] + joined_arrays(values@, i as nat),
        decreases values@.len() - i,
    {
        if i != 0 {
            push_text(&mut out, ", ");
            proof {
                reveal_strlit(", ");
                assert(", "@ =~= seq![',', ' ']);
            }
        }
        push_array(&mut out, values[i].as_slice());
        proof {
            if i == 0 {
                assert(joined_arrays(values@, 0) =~= Seq::<char>::empty());
                assert(out@ =~= seq!['{'] + joined_arrays(values@, 1));
            } else {
                assert(out@ =~= seq!['{'] + joined_arrays(values@, (i + 1) as nat));
            }
        }
        i += 1;
    }
    push_char(&mut out, '}');
    assert(out@ =~= nested_array_text(values@));
    out
}

/// How many groups of `y` it takes to hold `x`: the quotient, rounded up.
pub fn ceil_div(x: u32, y: u32) -> (r: u32)
    requires
        y > 0,
        x + y <= u32::MAX,
    ensures
        r == (x + y - 1) / (y as int),
        r * y >= x,
        r * y < x + y,
{
    let r = (x + y - 1) / y;
    proof {
        let n = (x + y - 1) as int;
        vstd::arithmetic::div_mod::lemma_fundamental_div_mod(n, y as int);
        vstd::arithmetic::div_mod::lemma_mod_bound(n, y as int);
        assert(r * y == y * (n / (y as int))) by (nonlinear_arith)
            requires
                r == n / (y as int),
        ;
    }
    r
}

} // verus!
