//! Cumulative growth paths built from periodic returns, in fixed point.
//!
//! A return is written in basis points (`1_000` is +10%) and a growth factor
//! in units of `GROWTH_UNIT` (`GROWTH_UNIT` is a factor of 1.0). Each step
//! multiplies exactly and then rounds toward zero to the nearest unit.

use vstd::prelude::*;

verus! {

/// The fixed-point value of a growth factor of 1.0.
pub const GROWTH_UNIT: i64 = 1_000_000_000;

/// Basis points in a whole: a return of `BASIS_POINTS` doubles a value.
pub const BASIS_POINTS: i64 = 10_000;

/// Integer division rounding toward zero (Rust's `/`), for a positive divisor.
pub open spec fn div_toward_zero(a: int, b: int) -> int {
    if a >= 0 {
        a / b
    } else {
        -((-a) / b)
    }
}

/// The value `v` after one period whose return is `r` basis points.
pub open spec fn grow(v: int, r: int) -> int {
    div_toward_zero(v * (BASIS_POINTS + r), BASIS_POINTS as int)
}

/// The cumulative growth path of `rets`: it starts at the unit and holds
/// one value after each return.
pub open spec fn growth_path(rets: Seq<i64>) -> Seq<int>
    decreases rets.len(),
{
    if rets.len() == 0 {
        seq![GROWTH_UNIT as int]
    } else {
        let prev = growth_path(rets.drop_last());
        prev.push(grow(prev.last(), rets.last() as int))
    }
}

/// Every value of `path` can be held in an `i64`.
pub open spec fn fits_i64(path: Seq<int>) -> bool {
    forall|k: int| 0 <= k < path.len() ==> i64::MIN <= #[trigger] path[k] <= i64::MAX
}

/// The values of a fixed-point path, as integers.
pub open spec fn path_values(path: Seq<i64>) -> Seq<int> {
    path.map_values(|x: i64| x as int)
}

/// The path holds one value more than there are returns, the first the unit.
pub proof fn lemma_growth_path_len(rets: Seq<i64>)
    ensures
        growth_path(rets).len() == rets.len() + 1,
        growth_path(rets)[0] == GROWTH_UNIT,
    decreases rets.len(),
{
    if rets.len() > 0 {
        lemma_growth_path_len(rets.drop_last());
    }
}

/// The path of the first `k` returns is the start of the whole path.
pub proof fn lemma_growth_path_prefix(rets: Seq<i64>, k: int)
    requires
        0 <= k <= rets.len(),
    ensures
        growth_path(rets.take(k)) == growth_path(rets).take(k + 1),
    decreases rets.len(),
{
    lemma_growth_path_len(rets);
    if k == rets.len() {
        assert(rets.take(k) =~= rets);
    } else {
        let init = rets.drop_last();
        assert(rets.take(k) =~= init.take(k));
        lemma_growth_path_prefix(init, k);
        lemma_growth_path_len(init);
        assert(growth_path(init).take(k + 1) =~= growth_path(rets).take(k + 1));
    }
}

/// Each value of the path follows from the one before it.
pub proof fn lemma_growth_path_step(rets: Seq<i64>, i: int)
    requires
        0 <= i < rets.len(),
    ensures
        growth_path(rets)[i + 1] == grow(growth_path(rets)[i], rets[i] as int),
{
    lemma_growth_path_prefix(rets, i + 1);
    lemma_growth_path_len(rets);
    let head = rets.take(i + 1);
    assert(head.drop_last() =~= rets.take(i));
    lemma_growth_path_prefix(rets, i);
    lemma_growth_path_len(rets.take(i));
    assert(growth_path(rets.take(i + 1))[i + 1] == growth_path(rets)[i + 1]);
    assert(growth_path(rets.take(i))[i] == growth_path(rets)[i]);
}

proof fn lemma_grow_not_below(v: int, r: int)
    requires
        0 <= v,
        0 <= r,
    ensures
        grow(v, r) >= v,
{
    assert(v * (BASIS_POINTS + r) >= v * BASIS_POINTS) by (nonlinear_arith)
        requires
            0 <= v,
            0 <= r,
    ;
    assert((v * BASIS_POINTS) / (BASIS_POINTS as int) == v) by (nonlinear_arith);
    assert((v * (BASIS_POINTS + r)) / (BASIS_POINTS as int) >= (v * BASIS_POINTS) / (
    BASIS_POINTS as int)) by (nonlinear_arith)
        requires
            v * (BASIS_POINTS + r) >= v * BASIS_POINTS,
    ;
}

/// With no negative return the growth path starts at the unit and never falls.
pub proof fn lemma_growth_path_rising(rets: Seq<i64>)
    requires
        forall|k: int| 0 <= k < rets.len() ==> #[trigger] rets[k] >= 0,
    ensures
        growth_path(rets)[0] == GROWTH_UNIT,
        forall|i: int, j: int|
            0 <= i <= j < growth_path(rets).len() ==> growth_path(rets)[i] <= growth_path(rets)[j],
    decreases rets.len(),
{
    lemma_growth_path_len(rets);
    if rets.len() > 0 {
        let init = rets.drop_last();
        lemma_growth_path_rising(init);
        lemma_growth_path_len(init);
        let prev = growth_path(init);
        assert(prev.last() >= GROWTH_UNIT);
        lemma_grow_not_below(prev.last(), rets.last() as int);
        assert(growth_path(rets) == prev.push(grow(prev.last(), rets.last() as int)));
    }
}

/// One step of the path in fixed point: `None` where the value leaves `i64`.
fn grow_step(v: i64, r: i64) -> (out: Option<i64>)
    ensures
        match out {
            Some(w) => w as int == grow(v as int, r as int),
            None => !(i64::MIN <= grow(v as int, r as int) <= i64::MAX),
        },
{
    let factor: i128 = BASIS_POINTS as i128 + r as i128;
    let vv: i128 = v as i128;
    assert(-0x8000_0000_0000_0000 <= vv <= 0x7fff_ffff_ffff_ffff);
    assert(-0x8000_0000_0000_0000 + 10_000 <= factor <= 0x7fff_ffff_ffff_ffff + 10_000);
    assert(-0x4000_0000_0000_1388_0000_0000_0000_0000 <= vv * factor
        <= 0x4000_0000_0000_1388_0000_0000_0000_0000) by (nonlinear_arith)
        requires
            -0x8000_0000_0000_0000 <= vv <= 0x7fff_ffff_ffff_ffff,
            -0x8000_0000_0000_0000 + 10_000 <= factor <= 0x7fff_ffff_ffff_ffff + 10_000,
    ;
    let product: i128 = vv * factor;
    let quotient: i128 = if product >= 0 {
        ((product as u128) / (BASIS_POINTS as u128)) as i128
    } else {
        -((((-product) as u128) / (BASIS_POINTS as u128)) as i128)
    };
    if i64::MIN as i128 <= quotient && quotient <= i64::MAX as i128 {
        Some(quotient as i64)
    } else {
        None
    }
}

/// The cumulative growth path of `rets` (basis points), starting at
/// `GROWTH_UNIT`; `None` exactly where some value of the path leaves `i64`.
pub fn cum_returns(rets: &Vec<i64>) -> (out: Option<Vec<i64>>)
    ensures
        match out {
            Some(path) => fits_i64(growth_path(rets@)) && path_values(path@) == growth_path(
                rets@,
            ),
            None => !fits_i64(growth_path(rets@)),
        },
{
    let mut res: Vec<i64> = Vec::new();
    let mut current: i64 = GROWTH_UNIT;
    res.push(current);
    proof {
        lemma_growth_path_len(rets@.take(0));
        assert(path_values(res@) =~= growth_path(rets@.take(0)));
    }
    let mut i: usize = 0;
    while i < rets.len()
        invariant
            0 <= i <= rets.len(),
            path_values(res@) == growth_path(rets@.take(i as int)),
            res@.len() == i + 1,
            current == res@[i as int],
        decreases rets.len() - i,
    {
        proof {
            lemma_growth_path_prefix(rets@, i as int + 1);
            lemma_growth_path_prefix(rets@, i as int);
            lemma_growth_path_len(rets@);
            lemma_growth_path_step(rets@, i as int);
            assert(path_values(res@)[i as int] == current as int);
        }
        match grow_step(current, rets[i]) {
            Some(next) => {
                res.push(next);
                current = next;
                proof {
                    assert(path_values(res@) =~= growth_path(rets@).take(i + 2));
                }
            },
            None => {
                proof {
                    assert(growth_path(rets@)[i + 1] == grow(
                        growth_path(rets@)[i as int],
                        rets@[i as int] as int,
                    ));
                    assert(growth_path(rets@).take(i + 1)[i as int] == growth_path(
                        rets@,
                    )[i as int]);
                }
                return None;
            },
        }
        i = i + 1;
    }
    proof {
        assert(rets@.take(i as int) =~= rets@);
        lemma_growth_path_len(rets@);
        assert forall|k: int| 0 <= k < growth_path(rets@).len() implies i64::MIN
            <= #[trigger] growth_path(rets@)[k] <= i64::MAX by {
            assert(path_values(res@)[k] == res@[k] as int);
        }
    }
    Some(res)
}

} // verus!
