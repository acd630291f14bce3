//! Building strings character by character, and rendering numbers as
//! decimal text.

use vstd::prelude::*;

use crate::model::{decimal_chars, digit_char};

verus! {

/// Relies on String::push: appends exactly one character to the string.
#[verifier::external_body]
pub(crate) fn push_char(s: &mut String, c: char)
    ensures
        final(s)@ == old(s)@ + seq![c],
{
    s.push(c)
}

/// Renders a number as its canonical decimal text.
pub fn decimal_string(n: usize) -> (r: String)
    ensures
        r@ == decimal_chars(n as nat),
    decreases n,
{
    let d: u8 = (n % 10) as u8 + 48;
    proof {
        assert(byte_char_is_digit_char(n));
    }
    if n < 10 {
        let mut s = String::new();
        push_char(&mut s, d as char);
        proof {
            assert(s@ =~= decimal_chars(n as nat));
        }
        s
    } else {
        let mut s = decimal_string(n / 10);
        push_char(&mut s, d as char);
        proof {
            assert(s@ =~= decimal_chars(n as nat));
        }
        s
    }
}

/// The exec digit byte and the spec digit character agree.
spec fn byte_char_is_digit_char(n: usize) -> bool {
    ((n % 10) as u8 + 48) as char == digit_char((n % 10) as nat)
}

/// The guard `v > (m - d) / 10` detects exactly when `v * 10 + d` would
/// exceed `m`.
pub proof fn lemma_overflow_check(v: nat, d: nat, m: nat)
    requires
        d < 10,
        d <= m,
    ensures
        (v > (m - d) / 10) <==> (v * 10 + d > m),
{
    let q = ((m - d) as nat) / 10;
    vstd::arithmetic::div_mod::lemma_fundamental_div_mod((m - d) as int, 10);
    assert(m - d == 10 * (((m - d) as int) / 10) + ((m - d) as int) % 10);
}

} // verus!
