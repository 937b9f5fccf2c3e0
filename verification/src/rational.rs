//! Exact decimal and rational arithmetic for the digital-to-physical
//! rescaling step.
//!
//! Numeric header fields are ASCII decimals, so they are held exactly as a
//! mantissa and a power-of-ten denominator (`Dec`). A rescaled sample is an
//! exact rational (`Ratio`); no precision is lost anywhere in the pipeline.

use vstd::prelude::*;

verus! {

/// `10^e` as a mathematical integer.
pub open spec fn pow10(e: nat) -> int
    decreases e,
{
    if e == 0 {
        1
    } else {
        10 * pow10((e - 1) as nat)
    }
}

pub proof fn lemma_pow10_pos(e: nat)
    ensures
        pow10(e) >= 1,
    decreases e,
{
    if e > 0 {
        lemma_pow10_pos((e - 1) as nat);
    }
}

pub proof fn lemma_pow10_mono(a: nat, b: nat)
    requires
        a <= b,
    ensures
        pow10(a) <= pow10(b),
    decreases b,
{
    if a < b {
        lemma_pow10_mono(a, (b - 1) as nat);
        lemma_pow10_pos((b - 1) as nat);
    }
}

pub proof fn lemma_pow10_vals()
    ensures
        pow10(0) == 1,
        pow10(1) == 10,
        pow10(2) == 100,
        pow10(3) == 1000,
        pow10(4) == 10000,
        pow10(5) == 100000,
        pow10(6) == 1000000,
        pow10(7) == 10000000,
        pow10(8) == 100000000,
        pow10(9) == 1000000000,
{
    assert(pow10(0) == 1);
    assert(pow10(1) == 10);
    assert(pow10(2) == 100);
    assert(pow10(3) == 1000);
    assert(pow10(4) == 10000);
    assert(pow10(5) == 100000);
    assert(pow10(6) == 1000000);
    assert(pow10(7) == 10000000);
    assert(pow10(8) == 100000000);
    assert(pow10(9) == 1000000000);
}

pub proof fn lemma_pow10_add(a: nat, b: nat)
    ensures
        pow10(a + b) == pow10(a) * pow10(b),
    decreases a,
{
    if a == 0 {
    } else {
        lemma_pow10_add((a - 1) as nat, b);
        assert(10 * (pow10((a - 1) as nat) * pow10(b)) == (10 * pow10((a - 1) as nat)) * pow10(b))
            by (nonlinear_arith);
        assert((a + b - 1) as nat == ((a - 1) as nat + b) as nat);
    }
}

/// `|x * y| <= bx * by` whenever `|x| <= bx` and `|y| <= by`.
pub proof fn lemma_mul_bound(x: int, y: int, bx: int, by: int)
    requires
        -bx <= x <= bx,
        -by <= y <= by,
        0 <= bx,
        0 <= by,
    ensures
        -(bx * by) <= x * y <= bx * by,
{
    assert(-(bx * by) <= x * y <= bx * by) by (nonlinear_arith)
        requires
            -bx <= x <= bx,
            -by <= y <= by,
            0 <= bx,
            0 <= by,
    ;
}

/// A decimal number with value `m / 10^e`, as parsed from an ASCII
/// numeric field of at most eight characters.
#[derive(Clone, Copy, Debug, PartialEq, Eq, Structural)]
pub struct Dec {
    pub m: i64,
    pub e: u32,
}

impl Dec {
    /// The bounds any value parsed from an eight-character field obeys.
    pub open spec fn wf(self) -> bool {
        -100_000_000 <= self.m <= 100_000_000 && self.e <= 7
    }

    /// The value as a numerator/denominator pair.
    pub open spec fn rat(self) -> (int, int) {
        (self.m as int, pow10(self.e as nat))
    }
}

/// An exact rational value `num / den`, with `den != 0` wherever the
/// decoder produces one.
#[derive(Clone, Copy, Debug, PartialEq, Eq, Structural)]
pub struct Ratio {
    pub num: i128,
    pub den: i128,
}

pub open spec fn rat_add(x: (int, int), y: (int, int)) -> (int, int) {
    (x.0 * y.1 + y.0 * x.1, x.1 * y.1)
}

pub open spec fn rat_sub(x: (int, int), y: (int, int)) -> (int, int) {
    (x.0 * y.1 - y.0 * x.1, x.1 * y.1)
}

pub open spec fn rat_mul(x: (int, int), y: (int, int)) -> (int, int) {
    (x.0 * y.0, x.1 * y.1)
}

pub open spec fn rat_div(x: (int, int), y: (int, int)) -> (int, int) {
    (x.0 * y.1, x.1 * y.0)
}

/// Equality of rationals by cross-multiplication.
pub open spec fn rat_eqv(x: (int, int), y: (int, int)) -> bool {
    x.0 * y.1 == y.0 * x.1
}

/// `scale = (physical_min - physical_max) / (digital_min - digital_max)`
pub open spec fn scale_rat(pm: Dec, px: Dec, dm: Dec, dx: Dec) -> (int, int) {
    rat_div(rat_sub(pm.rat(), px.rat()), rat_sub(dm.rat(), dx.rat()))
}

/// `offset = physical_min - scale * digital_min`
pub open spec fn offset_rat(pm: Dec, px: Dec, dm: Dec, dx: Dec) -> (int, int) {
    rat_sub(pm.rat(), rat_mul(scale_rat(pm, px, dm, dx), dm.rat()))
}

/// `physical = digital * scale + offset`, the calibration formula.
pub open spec fn phys_rat(d: int, pm: Dec, px: Dec, dm: Dec, dx: Dec) -> (int, int) {
    rat_add(rat_mul((d, 1), scale_rat(pm, px, dm, dx)), offset_rat(pm, px, dm, dx))
}

/// The digital extremes are distinct as rational values, so the scale
/// denominator is nonzero.
pub open spec fn dig_range_ok(dm: Dec, dx: Dec) -> bool {
    dm.m * pow10(dx.e as nat) != dx.m * pow10(dm.e as nat)
}

/// The numerator the decoder computes for a rescaled sample.
pub open spec fn phys_num(d: int, pm: Dec, px: Dec, dm: Dec, dx: Dec) -> int {
    (pm.m * pow10(px.e as nat) - px.m * pow10(pm.e as nat)) * pow10(dx.e as nat) * (d * pow10(
        dm.e as nat,
    ) - dm.m) + pm.m * pow10(px.e as nat) * (dm.m * pow10(dx.e as nat) - dx.m * pow10(
        dm.e as nat,
    ))
}

/// The denominator the decoder computes for a rescaled sample.
pub open spec fn phys_den(pm: Dec, px: Dec, dm: Dec, dx: Dec) -> int {
    pow10(pm.e as nat) * pow10(px.e as nat) * (dm.m * pow10(dx.e as nat) - dx.m * pow10(
        dm.e as nat,
    ))
}

/// `10^e` as a machine integer, for exponents a `Dec` can carry.
pub fn pow10_i128(e: u32) -> (r: i128)
    requires
        e <= 7,
    ensures
        r == pow10(e as nat),
        1 <= r <= 10_000_000,
{
    let mut r: i128 = 1;
    let mut i: u32 = 0;
    while i < e
        invariant
            i <= e,
            e <= 7,
            r == pow10(i as nat),
        decreases e - i,
    {
        proof {
            lemma_pow10_vals();
            lemma_pow10_mono(i as nat, 6);
        }
        r = r * 10;
        i = i + 1;
    }
    proof {
        lemma_pow10_vals();
        lemma_pow10_mono(e as nat, 7);
        lemma_pow10_pos(e as nat);
    }
    r
}

/// Rescales one digital sample code to its physical value, exactly.
pub fn scale_sample(d: i16, pm: Dec, px: Dec, dm: Dec, dx: Dec) -> (r: Ratio)
    requires
        pm.wf(),
        px.wf(),
        dm.wf(),
        dx.wf(),
        dig_range_ok(dm, dx),
    ensures
        r.num == phys_num(d as int, pm, px, dm, dx),
        r.den == phys_den(pm, px, dm, dx),
        r.den != 0,
{
    proof {
        lemma_pow10_vals();
    }
    let pa: i128 = pow10_i128(pm.e) as i128;
    let pb: i128 = pow10_i128(px.e) as i128;
    let pc: i128 = pow10_i128(dm.e) as i128;
    let pe: i128 = pow10_i128(dx.e) as i128;
    let ma: i128 = pm.m as i128;
    let mb: i128 = px.m as i128;
    let mc: i128 = dm.m as i128;
    let me: i128 = dx.m as i128;
    proof {
        lemma_mul_bound(ma as int, pb as int, 100_000_000, 10_000_000);
        lemma_mul_bound(mb as int, pa as int, 100_000_000, 10_000_000);
        lemma_mul_bound(d as int, pc as int, 32768, 10_000_000);
        lemma_mul_bound(mc as int, pe as int, 100_000_000, 10_000_000);
        lemma_mul_bound(me as int, pc as int, 100_000_000, 10_000_000);
    }
    // t1 = pmin - pmax, t2 = d - dmin, t3 = dmin - dmax, over a common
    // power-of-ten denominator each.
    let t1: i128 = ma * pb - mb * pa;
    let t2: i128 = d as i128 * pc - mc;
    let t3: i128 = mc * pe - me * pc;
    proof {
        lemma_mul_bound(t1 as int, pe as int, 2_000_000_000_000_000, 10_000_000);
        lemma_mul_bound(
            (t1 * pe) as int,
            t2 as int,
            20_000_000_000_000_000_000_000,
            1_000_000_000_000,
        );
        lemma_mul_bound(ma as int, pb as int, 100_000_000, 10_000_000);
        lemma_mul_bound((ma * pb) as int, t3 as int, 1_000_000_000_000_000, 2_000_000_000_000_000);
        lemma_mul_bound(pa as int, pb as int, 10_000_000, 10_000_000);
        lemma_mul_bound((pa * pb) as int, t3 as int, 100_000_000_000_000, 2_000_000_000_000_000);
    }
    let num: i128 = t1 * pe * t2 + ma * pb * t3;
    let den: i128 = pa * pb * t3;
    proof {
        assert(t3 != 0);
        assert(pa * pb >= 1) by (nonlinear_arith)
            requires
                pa >= 1,
                pb >= 1,
        ;
        assert((pa * pb) * t3 != 0) by (nonlinear_arith)
            requires
                pa * pb >= 1,
                t3 != 0,
        ;
    }
    Ratio { num, den }
}

/// The computed numerator/denominator pair of a rescaled sample is, as a
/// rational, exactly `digital * scale + offset` with
/// `scale = (physical_min - physical_max) / (digital_min - digital_max)`
/// and `offset = physical_min - scale * digital_min`.
#[verifier::rlimit(100)]
pub proof fn lemma_phys_matches_formula(d: int, pm: Dec, px: Dec, dm: Dec, dx: Dec)
    requires
        dig_range_ok(dm, dx),
    ensures
        rat_eqv((phys_num(d, pm, px, dm, dx), phys_den(pm, px, dm, dx)), phys_rat(d, pm, px, dm, dx)),
{
    let a = pm.m as int;
    let b = px.m as int;
    let c = dm.m as int;
    let ee = dx.m as int;
    let pa = pow10(pm.e as nat);
    let pb = pow10(px.e as nat);
    let pc = pow10(dm.e as nat);
    let pe = pow10(dx.e as nat);
    let t = a * pb - b * pa;
    let s = c * pe - ee * pc;
    let sc = scale_rat(pm, px, dm, dx);
    let off = offset_rat(pm, px, dm, dx);
    let m1 = rat_mul((d, 1), sc);
    let res = phys_rat(d, pm, px, dm, dx);
    assert(sc.0 == t * (pc * pe));
    assert(sc.1 == (pa * pb) * s);
    assert(m1.0 == d * (t * (pc * pe)));
    assert(m1.1 == 1 * ((pa * pb) * s));
    assert(off.0 == a * (((pa * pb) * s) * pc) - ((t * (pc * pe)) * c) * pa);
    assert(off.1 == pa * (((pa * pb) * s) * pc));
    assert(res.0 == m1.0 * off.1 + off.0 * m1.1);
    assert(res.1 == m1.1 * off.1);
    let cn = t * pe * (d * pc - c) + a * pb * s;
    let cd = pa * pb * s;
    assert(phys_num(d, pm, px, dm, dx) == cn);
    assert(phys_den(pm, px, dm, dx) == cd);
    // Both sides share the factor pa * pa * pb * pc * s.
    let f = pa * (pa * pb) * pc * s;
    let x = d * (t * (pc * pe)) * (pa * (((pa * pb) * s) * pc));
    let y = (a * (((pa * pb) * s) * pc) - ((t * (pc * pe)) * c) * pa) * (1 * ((pa * pb) * s));
    assert(res.0 == x + y);
    assert(x == f * (t * pe * (d * pc))) by (nonlinear_arith)
        requires
            x == d * (t * (pc * pe)) * (pa * (((pa * pb) * s) * pc)),
            f == pa * (pa * pb) * pc * s,
    ;
    let u = a * (((pa * pb) * s) * pc);
    let v = ((t * (pc * pe)) * c) * pa;
    let w = 1 * ((pa * pb) * s);
    assert(y == u * w - v * w) by (nonlinear_arith)
        requires
            y == (u - v) * w,
    ;
    assert(u * w == f * (a * pb * s)) by (nonlinear_arith)
        requires
            u == a * (((pa * pb) * s) * pc),
            w == 1 * ((pa * pb) * s),
            f == pa * (pa * pb) * pc * s,
    ;
    let g = (((((((t * pe) * c) * pa) * pa) * pb) * s) * pc);
    assert(v * w == g) by (nonlinear_arith)
        requires
            v == ((t * (pc * pe)) * c) * pa,
            w == 1 * ((pa * pb) * s),
            g == (((((((t * pe) * c) * pa) * pa) * pb) * s) * pc),
    ;
    assert(f * (t * pe * c) == g) by (nonlinear_arith)
        requires
            f == pa * (pa * pb) * pc * s,
            g == (((((((t * pe) * c) * pa) * pa) * pb) * s) * pc),
    ;
    assert(y == f * (a * pb * s) - f * (t * pe * c));
    assert(f * (t * pe * (d * pc)) + (f * (a * pb * s) - f * (t * pe * c)) == f * cn)
        by (nonlinear_arith)
        requires
            cn == t * pe * (d * pc - c) + a * pb * s,
    ;
    assert(res.1 == f * cd) by (nonlinear_arith)
        requires
            res.1 == (1 * ((pa * pb) * s)) * (pa * (((pa * pb) * s) * pc)),
            cd == pa * pb * s,
            f == pa * (pa * pb) * pc * s,
    ;
    assert(cn * (f * cd) == (f * cn) * cd) by (nonlinear_arith);
}

} // verus!
