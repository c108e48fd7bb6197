//! Integer helpers of the compile step: scaled-cell rounding and the
//! authored paths of nodes.

use vstd::prelude::*;
use crate::collect::{append_path, append_path_spec};
use crate::spec::{effective_name_spec, SpecNode};
use crate::text::str_eq;

verus! {

/// `a / b` rounded toward negative infinity (`b > 0`).
pub open spec fn floor_div_spec(a: int, b: int) -> int {
    a / b
}

/// `a / b` rounded toward positive infinity (`b > 0`).
pub open spec fn ceil_div_spec(a: int, b: int) -> int {
    if a % b == 0 {
        a / b
    } else {
        a / b + 1
    }
}

/// Integer division rounding toward negative infinity.
pub fn floor_div(a: i32, b: i32) -> (r: i32)
    requires
        b > 0,
    ensures
        r == floor_div_spec(a as int, b as int),
        r * b <= a < r * b + b,
{
    let q: i64 = if a >= 0 {
        ((a as u64) / (b as u64)) as i64
    } else {
        let n: u64 = (-(a as i64)) as u64;
        let m: u64 = b as u64;
        let t: u64 = (n + m - 1) / m;
        proof {
            vstd::arithmetic::div_mod::lemma_fundamental_div_mod((n + m - 1) as int, m as int);
            assert(t <= n) by (nonlinear_arith)
                requires
                    (n + m - 1) as int == (m as int) * (t as int) + ((n + m - 1) as int) % (m as int),
                    0 <= ((n + m - 1) as int) % (m as int),
                    n >= 1,
                    m >= 1,
            {
            }
        }
        -(t as i64)
    };
    proof {
        if a >= 0 {
            vstd::arithmetic::div_mod::lemma_fundamental_div_mod(a as int, b as int);
            assert(q == (a as int) / (b as int));
            assert(0 <= a - q * b < b) by (nonlinear_arith)
                requires
                    q == (a as int) / (b as int),
                    a == (b as int) * ((a as int) / (b as int)) + (a as int) % (b as int),
                    0 <= (a as int) % (b as int) < b,
            {
            }
        } else {
            let n = -(a as int);
            let t = -q;
            vstd::arithmetic::div_mod::lemma_fundamental_div_mod(n + b - 1, b as int);
            assert(0 <= a - q * b < b) by (nonlinear_arith)
                requires
                    n == -(a as int),
                    t == -q,
                    n + b - 1 == (b as int) * t + (n + b - 1) % (b as int),
                    0 <= (n + b - 1) % (b as int) < b,
            {
            }
        }
        vstd::arithmetic::div_mod::lemma_fundamental_div_mod_converse(a as int, b as int, q as int, a - q * b);
        assert(i32::MIN <= q <= i32::MAX) by (nonlinear_arith)
            requires
                q * b <= a,
                a < q * b + b,
                b >= 1,
                i32::MIN <= a <= i32::MAX,
        {
        }
    }
    q as i32
}

/// Integer division rounding toward positive infinity.
pub fn ceil_div(a: i32, b: i32) -> (r: i32)
    requires
        b > 0,
    ensures
        r == ceil_div_spec(a as int, b as int),
        r * b - b < a <= r * b,
{
    let f = floor_div(a, b);
    let rem: i64 = (a as i64) - (f as i64) * (b as i64);
    proof {
        vstd::arithmetic::div_mod::lemma_fundamental_div_mod_converse(a as int, b as int, f as int, rem as int);
    }
    assert((f + 1) * b == f * b + b) by (nonlinear_arith);
    if rem == 0 {
        f
    } else {
        assert(f < i32::MAX) by (nonlinear_arith)
            requires
                f * b <= a,
                rem > 0,
                rem == a - f * b,
                a <= i32::MAX,
                b >= 1,
        {
        }
        f + 1
    }
}

/// The authored path of a node under `parent_path`: its effective name
/// appended with `/`, or the parent path itself for unnamed nodes.
pub fn build_path(parent_path: &str, spec: &SpecNode) -> (r: String)
    ensures
        r@ == append_path_spec(parent_path@, effective_name_spec(*spec)),
{
    append_path(parent_path, spec.effective_name())
}

/// Whether a non-empty path is one of the hidden parts.
pub fn is_hidden(path: &str, hidden: &[String]) -> (r: bool)
    ensures
        r == (path@.len() > 0 && exists|i: int| 0 <= i < hidden@.len() && (#[trigger] hidden@[i])@ == path@),
{
    if path.unicode_len() == 0 {
        return false;
    }
    let mut i: usize = 0;
    while i < hidden.len()
        invariant
            i <= hidden@.len(),
            path@.len() > 0,
            forall|j: int| 0 <= j < i ==> (#[trigger] hidden@[j])@ != path@,
        decreases hidden@.len() - i,
    {
        if str_eq(hidden[i].as_str(), path) {
            assert(hidden@[i as int]@ == path@);
            return true;
        }
        i = i + 1;
    }
    false
}

} // verus!
