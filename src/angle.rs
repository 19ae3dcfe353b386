//! Degree arithmetic on whole degrees.
use vstd::prelude::*;

verus! {

/// `v` wrapped into `[0, 360)`.
pub open spec fn wrap360(v: int) -> int {
    v % 360
}

/// Wraps `v` into `[0, 360)`: `((v mod 360) + 360) mod 360`.
fn mod360(v: i64) -> (r: i32)
    requires
        -0x1_0000_0000 <= v <= 0x1_0000_0000,
    ensures
        r == wrap360(v as int),
        0 <= r < 360,
{
    if v >= 0 {
        (v % 360) as i32
    } else {
        let m = (-v) % 360;
        proof {
            let q = (-v) / 360;
            assert(-v == q * 360 + m) by (nonlinear_arith)
                requires -v >= 0, q == (-v) / 360, m == (-v) % 360;
            assert(0 <= m < 360);
            if m == 0 {
                assert(v == (-q) * 360);
                vstd::arithmetic::div_mod::lemma_mod_multiples_basic(-q, 360);
            } else {
                assert(v == (-q - 1) * 360 + (360 - m)) by (nonlinear_arith)
                    requires -v == q * 360 + m;
                vstd::arithmetic::div_mod::lemma_fundamental_div_mod_converse(
                    v as int, 360, -q - 1, 360 - m);
            }
        }
        if m == 0 {
            0
        } else {
            (360 - m) as i32
        }
    }
}

/// Degrees travelled counter-clockwise from `start_deg` to reach `end_deg`.
pub fn degrees_left(start_deg: i32, end_deg: i32) -> (r: i32)
    ensures
        r == wrap360(end_deg - start_deg),
        0 <= r < 360,
{
    mod360(end_deg as i64 - start_deg as i64)
}

/// Degrees travelled clockwise from `start_deg` to reach `end_deg`.
pub fn degrees_right(start_deg: i32, end_deg: i32) -> (r: i32)
    ensures
        r == wrap360(start_deg - end_deg),
        0 <= r < 360,
{
    mod360(start_deg as i64 - end_deg as i64)
}

/// The shorter of the two ways round from `start_deg` to `end_deg`.
pub fn degrees_apart(start_deg: i32, end_deg: i32) -> (r: i32)
    ensures
        r == if wrap360(end_deg - start_deg) <= wrap360(start_deg - end_deg) {
            wrap360(end_deg - start_deg)
        } else {
            wrap360(start_deg - end_deg)
        },
        0 <= r <= 180,
{
    let l = degrees_left(start_deg, end_deg);
    let r = degrees_right(start_deg, end_deg);
    proof {
        lemma_left_right_sum(start_deg as int, end_deg as int);
    }
    if l <= r {
        l
    } else {
        r
    }
}

/// Going left and going right between two headings add up to a whole turn,
/// or to nothing when the headings coincide.
pub proof fn lemma_left_right_sum(start_deg: int, end_deg: int)
    ensures
        wrap360(end_deg - start_deg) == 0 <==> wrap360(start_deg - end_deg) == 0,
        wrap360(end_deg - start_deg) != 0 ==> wrap360(end_deg - start_deg) + wrap360(
            start_deg - end_deg,
        ) == 360,
{
    let d = end_deg - start_deg;
    assert(((d % 360) + ((-d) % 360)) % 360 == 0) by (nonlinear_arith);
    assert(0 <= d % 360 < 360) by (nonlinear_arith);
    assert(0 <= (-d) % 360 < 360) by (nonlinear_arith);
}

} // verus!
