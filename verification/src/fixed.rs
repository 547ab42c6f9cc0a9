use vstd::prelude::*;
use vstd::arithmetic::div_mod::lemma_div_is_ordered;
use vstd::arithmetic::div_mod::lemma_div_pos_is_pos;
use crate::SCALE;

verus! {

/// One coordinate of the complex plane in fixed point: the value represented
/// is `units / SCALE`.
#[derive(Clone, Copy, PartialEq, Eq, Structural, Debug)]
pub struct Fixed {
    pub units: i64,
}

/// A point of the complex plane, both coordinates in fixed point.
#[derive(Clone, Copy, PartialEq, Eq, Structural, Debug)]
pub struct ComplexPoint {
    pub re: Fixed,
    pub im: Fixed,
}

/// Division of `p` by SCALE, truncating toward zero.
pub open spec fn scale_trunc(p: int) -> int {
    if p >= 0 {
        p / (SCALE as int)
    } else {
        -((-p) / (SCALE as int))
    }
}

/// Truncating toward zero keeps a symmetric bound: |p| <= m gives
/// |scale_trunc(p)| <= m / SCALE.
pub proof fn lemma_scale_trunc_bound(p: int, m: int)
    requires
        -m <= p <= m,
    ensures
        -(m / (SCALE as int)) <= scale_trunc(p) <= m / (SCALE as int),
{
    if p >= 0 {
        lemma_div_is_ordered(p, m, SCALE as int);
        lemma_div_pos_is_pos(p, SCALE as int);
    } else {
        lemma_div_is_ordered(-p, m, SCALE as int);
        lemma_div_pos_is_pos(-p, SCALE as int);
    }
}

/// Truncating division of `p` by SCALE.
pub fn scale_div(p: i64) -> (r: i64)
    requires
        i64::MIN < p,
    ensures
        r == scale_trunc(p as int),
{
    if p >= 0 {
        let q: u64 = (p as u64) / (SCALE as u64);
        proof {
            lemma_div_pos_is_pos(p as int, SCALE as int);
            lemma_div_is_ordered(p as int, i64::MAX as int, SCALE as int);
        }
        q as i64
    } else {
        let q: u64 = ((-p) as u64) / (SCALE as u64);
        proof {
            lemma_div_pos_is_pos(-(p as int), SCALE as int);
            lemma_div_is_ordered(-(p as int), i64::MAX as int, SCALE as int);
        }
        -(q as i64)
    }
}

} // verus!
