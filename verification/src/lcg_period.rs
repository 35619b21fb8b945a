//! The generator of [`crate::landmarks`] has full period: from any state,
//! the next 2^64 states take every 64-bit value. So the pseudo-random
//! selection reaches `k` distinct indices among `n` points whenever `k` is at
//! most `min(n, 2^31)`.
use vstd::prelude::*;
use vstd::arithmetic::div_mod::lemma_add_mod_noop;
use vstd::arithmetic::div_mod::lemma_fundamental_div_mod;
use vstd::arithmetic::div_mod::lemma_mod_bound;
use vstd::arithmetic::div_mod::lemma_mod_mod;
use vstd::arithmetic::div_mod::lemma_mod_multiples_vanish;
use vstd::arithmetic::div_mod::lemma_mul_mod_noop_left;
use vstd::arithmetic::div_mod::lemma_mul_mod_noop_right;
use vstd::arithmetic::div_mod::lemma_small_mod;
use vstd::set_lib::FiniteRange;
use crate::landmarks::drawn;
use crate::landmarks::lcg_draw;
use crate::landmarks::lcg_state;
use crate::landmarks::lcg_step;
use crate::landmarks::LCG_INCREMENT;
use crate::landmarks::LCG_MULTIPLIER;

verus! {

/// `2^j`.
pub open spec fn two_to(j: nat) -> nat
    decreases j,
{
    if j == 0 {
        1
    } else {
        2 * two_to((j - 1) as nat)
    }
}

/// The state `t` generator steps after `x`.
pub open spec fn lcg_iter(x: u64, t: nat) -> u64
    decreases t,
{
    if t == 0 {
        x
    } else {
        lcg_step(lcg_iter(x, (t - 1) as nat))
    }
}

/// The coefficients `(a, c)` of `2^j` generator steps, `x -> a*x + c`
/// modulo 2^64.
pub open spec fn affine_pow(j: nat) -> (int, int)
    decreases j,
{
    if j == 0 {
        (LCG_MULTIPLIER as int, LCG_INCREMENT as int)
    } else {
        let (a, c) = affine_pow((j - 1) as nat);
        ((a * a) % 0x1_0000_0000_0000_0000int, (c * (a + 1)) % 0x1_0000_0000_0000_0000int)
    }
}

proof fn lemma_two_to_adds(a: nat, b: nat)
    ensures
        two_to(a + b) == two_to(a) * two_to(b),
        two_to(a) > 0,
    decreases a,
{
    if a > 0 {
        let a1: nat = (a - 1) as nat;
        lemma_two_to_adds(a1, b);
        let p = two_to(a1);
        let q = two_to(b);
        assert(two_to(a) == 2 * p);
        assert(two_to(a + b) == 2 * two_to(a1 + b));
        assert(2 * (p * q) == (2 * p) * q) by (nonlinear_arith);
        assert(two_to(a) * two_to(b) == (2 * p) * q);
        assert(two_to(a + b) == 2 * (p * q));
    } else {
        assert(two_to(0) == 1);
        assert(a + b == b);
        assert(two_to(a) * two_to(b) == two_to(b));
    }
}

proof fn lemma_iter_adds(x: u64, a: nat, b: nat)
    ensures
        lcg_iter(x, a + b) == lcg_iter(lcg_iter(x, a), b),
    decreases b,
{
    if b > 0 {
        lemma_iter_adds(x, a, (b - 1) as nat);
        assert(lcg_iter(x, a + b) == lcg_step(lcg_iter(x, (a + b - 1) as nat)));
    }
}

proof fn lemma_state_is_iter(seed: u64, t: nat)
    ensures
        lcg_state(seed, t) == lcg_iter(lcg_state(seed, 0), t),
    decreases t,
{
    if t > 0 {
        lemma_state_is_iter(seed, (t - 1) as nat);
    }
}

proof fn lemma_affine_pow_range(j: nat)
    ensures
        0 <= affine_pow(j).0,
        0 <= affine_pow(j).1,
    decreases j,
{
    if j > 0 {
        lemma_affine_pow_range((j - 1) as nat);
        let (a, c) = affine_pow((j - 1) as nat);
        lemma_mod_bound(a * a, 0x1_0000_0000_0000_0000int);
        lemma_mod_bound(c * (a + 1), 0x1_0000_0000_0000_0000int);
    }
}

/// `2^j` steps of the generator act as `x -> a*x + c` modulo 2^64.
proof fn lemma_affine_pow(x: u64, j: nat)
    ensures
        lcg_iter(x, two_to(j)) as int == (affine_pow(j).0 * x + affine_pow(j).1)
            % 0x1_0000_0000_0000_0000int,
    decreases j,
{
    let m: int = 0x1_0000_0000_0000_0000int;
    if j == 0 {
        assert(lcg_iter(x, 1) == lcg_step(x)) by {
            reveal_with_fuel(lcg_iter, 2);
        }
        assert(two_to(0) == 1);
        lemma_mod_bound(x as int * LCG_MULTIPLIER as int + LCG_INCREMENT as int, m);
    } else {
        let h = two_to((j - 1) as nat);
        let (a, c) = affine_pow((j - 1) as nat);
        lemma_affine_pow_range((j - 1) as nat);
        lemma_iter_adds(x, h, h);
        let y = lcg_iter(x, h);
        lemma_affine_pow(x, (j - 1) as nat);
        lemma_affine_pow(y, (j - 1) as nat);
        // (a*y + c) % m with y = (a*x + c) % m
        let z = a * x + c;
        lemma_add_mod_noop(a * y, c, m);
        lemma_mul_mod_noop_right(a, z, m);
        lemma_add_mod_noop(a * z, c, m);
        // ((a*a % m)*x + (c*(a+1)) % m) % m
        let a2 = (a * a) % m;
        let c2 = (c * (a + 1)) % m;
        lemma_add_mod_noop(a2 * x, c2, m);
        lemma_mul_mod_noop_left(a * a, x as int, m);
        lemma_mod_mod(c * (a + 1), m, 1);
        assert((c * (a + 1)) % m % m == c2 % m);
        lemma_add_mod_noop((a * a) * x, c * (a + 1), m);
        assert(a * z + c == (a * a) * x + c * (a + 1)) by (nonlinear_arith)
            requires
                z == a * x + c,
        ;
        assert(two_to(j) == h + h);
    }
}

proof fn lemma_two_to_64()
    ensures
        two_to(64) == 0x1_0000_0000_0000_0000nat,
{
    reveal_with_fuel(two_to, 9);
    assert(two_to(8) == 256);
    lemma_two_to_adds(8, 8);
    assert(two_to(16) == 65536);
    lemma_two_to_adds(16, 16);
    assert(two_to(32) == 0x1_0000_0000nat);
    lemma_two_to_adds(32, 32);
    assert(two_to(64) == 0x1_0000_0000nat * 0x1_0000_0000nat);
}

proof fn lemma_two_to_at_least_two(e: nat)
    requires
        e >= 1,
    ensures
        two_to(e) >= 2,
{
    lemma_two_to_adds((e - 1) as nat, 0);
    assert(two_to(e) == 2 * two_to((e - 1) as nat));
}

/// `two_to(e)` divides `two_to(f)` when `e <= f`, and a value modulo the
/// larger power keeps its residue modulo the smaller one.
proof fn lemma_mod_two_to(x: int, e: nat, f: nat)
    requires
        e <= f,
    ensures
        (x % (two_to(f) as int)) % (two_to(e) as int) == x % (two_to(e) as int),
{
    lemma_two_to_adds(e, (f - e) as nat);
    lemma_two_to_adds((f - e) as nat, 0);
    lemma_mod_mod(x, two_to(e) as int, two_to((f - e) as nat) as int);
}

proof fn lemma_square_near_one(a: int, e: nat)
    requires
        e >= 2,
        a % (two_to(e) as int) == 1,
    ensures
        (a * a) % (two_to(e + 1) as int) == 1,
{
    let p = two_to(e) as int;
    let h = two_to((e - 1) as nat) as int;
    lemma_two_to_adds((e - 1) as nat, 1);
    lemma_two_to_adds(e, 1);
    assert(p == h * 2);
    assert(two_to(e + 1) as int == p * 2);
    lemma_fundamental_div_mod(a, p);
    let q = a / p;
    assert(a * a == (p * 2) * (q + h * q * q) + 1) by (nonlinear_arith)
        requires
            a == p * q + 1,
            p == h * 2,
    ;
    lemma_mod_multiples_vanish(q + h * q * q, 1, p * 2);
    lemma_small_mod(1, (p * 2) as nat);
}

proof fn lemma_increment_bits(c: int, a: int, j: nat)
    requires
        c % (two_to(j + 1) as int) == two_to(j) as int,
        a % (two_to(j + 2) as int) == 1,
    ensures
        (c * (a + 1)) % (two_to(j + 2) as int) == two_to(j + 1) as int,
{
    let h = two_to(j) as int;
    lemma_two_to_adds(j, 1);
    lemma_two_to_adds(j, 2);
    assert(two_to(1) == 2 && two_to(2) == 4) by {
        reveal_with_fuel(two_to, 3);
    }
    assert(two_to(j + 1) as int == h * 2);
    assert(two_to(j + 2) as int == h * 4);
    lemma_fundamental_div_mod(c, h * 2);
    lemma_fundamental_div_mod(a, h * 4);
    let w = c / (h * 2);
    let q = a / (h * 4);
    assert(c * (a + 1) == (h * 4) * (h * 2 * w * q + w + h * q) + h * 2) by (nonlinear_arith)
        requires
            c == h * 2 * w + h,
            a == h * 4 * q + 1,
    ;
    lemma_mod_multiples_vanish(h * 2 * w * q + w + h * q, h * 2, h * 4);
    lemma_small_mod((h * 2) as nat, (h * 4) as nat);
}

/// The coefficients of `2^j` steps, for `j < 64`: `a` is `1` modulo
/// `2^min(j+2, 64)`, and `c` is `2^j` modulo `2^(j+1)`.
proof fn lemma_affine_pow_low_bits(j: nat)
    requires
        j < 64,
    ensures
        affine_pow(j).0 % (two_to(if j + 2 <= 64 {
            j + 2
        } else {
            64
        }) as int) == 1,
        affine_pow(j).1 % (two_to(j + 1) as int) == two_to(j) as int,
    decreases j,
{
    lemma_two_to_64();
    if j == 0 {
        assert(two_to(2) == 4 && two_to(1) == 2 && two_to(0) == 1) by {
            reveal_with_fuel(two_to, 3);
        }
    } else {
        let j0 = (j - 1) as nat;
        lemma_affine_pow_low_bits(j0);
        let (a, c) = affine_pow(j0);
        let m: int = 0x1_0000_0000_0000_0000int;
        // j0 <= 62, so the modulus of `a` is 2^(j0 + 2)
        lemma_square_near_one(a, j0 + 2);
        let e2: nat = if j + 2 <= 64 {
            j + 2
        } else {
            64
        };
        lemma_mod_two_to(a * a, e2, j0 + 3);
        lemma_mod_two_to(a * a, e2, 64);
        lemma_two_to_at_least_two(e2);
        lemma_small_mod(1, two_to(e2));
        lemma_increment_bits(c, a, j0);
        lemma_mod_two_to(c * (a + 1), j0 + 2, 64);
        assert(affine_pow(j) == ((a * a) % m, (c * (a + 1)) % m));
        assert((a * a) % (two_to(e2) as int) == 1);
        assert(affine_pow(j).0 % (two_to(e2) as int) == 1);
        assert(j0 + 2 == j + 1);
        assert(affine_pow(j).1 % (two_to(j + 1) as int) == two_to(j) as int);
    }
}

/// `2^j` steps (`j < 64`) flip bit `j` of the state and keep the bits below.
proof fn lemma_flip(y: u64, j: nat)
    requires
        j < 64,
    ensures
        lcg_iter(y, two_to(j)) as int % (two_to(j + 1) as int) == (y + two_to(j)) % (two_to(
            j + 1,
        ) as int),
{
    let m: int = 0x1_0000_0000_0000_0000int;
    let p = two_to(j + 1) as int;
    let (a, c) = affine_pow(j);
    lemma_affine_pow(y, j);
    lemma_affine_pow_low_bits(j);
    lemma_mod_two_to(a, j + 1, if j + 2 <= 64 {
        j + 2
    } else {
        64
    });
    lemma_two_to_at_least_two(j + 1);
    lemma_small_mod(1, two_to(j + 1));
    lemma_two_to_adds((63 - j) as nat, 0);
    lemma_affine_pow_range(j);
    lemma_two_to_adds(j + 1, (63 - j) as nat);
    lemma_two_to_64();
    assert(m == p * two_to((63 - j) as nat));
    let z = a * y + c;
    lemma_mod_mod(z, p, two_to((63 - j) as nat) as int);
    lemma_fundamental_div_mod(a, p);
    lemma_fundamental_div_mod(c, p);
    let qa = a / p;
    let qc = c / p;
    assert(z == p * (qa * y + qc) + (y + two_to(j))) by (nonlinear_arith)
        requires
            a == p * qa + 1,
            c == p * qc + two_to(j),
            z == a * y + c,
    ;
    lemma_mod_multiples_vanish(qa * y + qc, y + two_to(j), p);
}

proof fn lemma_residue_choice(y: int, h: int, r: int)
    requires
        h > 0,
        0 <= r < 2 * h,
        y >= 0,
        y % h == r % h,
    ensures
        y % (2 * h) == r || (y + h) % (2 * h) == r,
{
    let p = 2 * h;
    lemma_fundamental_div_mod(y, p);
    lemma_mod_bound(y, p);
    let yp = y % p;
    let q = y / p;
    lemma_mod_mod(y, h, 2);
    assert(yp % h == y % h);
    lemma_add_mod_noop(y, h, p);
    lemma_small_mod(h as nat, p as nat);
    if yp < h {
        lemma_small_mod(yp as nat, h as nat);
        lemma_small_mod((yp + h) as nat, p as nat);
        if r < h {
            lemma_small_mod(r as nat, h as nat);
        } else {
            lemma_mod_multiples_vanish(1, r - h, h);
            lemma_small_mod((r - h) as nat, h as nat);
        }
    } else {
        lemma_mod_multiples_vanish(1, yp - h, h);
        lemma_small_mod((yp - h) as nat, h as nat);
        lemma_mod_multiples_vanish(1, yp + h - p, p);
        lemma_small_mod((yp + h - p) as nat, p as nat);
        if r < h {
            lemma_small_mod(r as nat, h as nat);
        } else {
            lemma_mod_multiples_vanish(1, r - h, h);
            lemma_small_mod((r - h) as nat, h as nat);
        }
    }
}

/// From any state, every residue modulo `2^j` (`j <= 64`) is reached within
/// `2^j` steps.
proof fn lemma_hits(x: u64, j: nat, r: nat)
    requires
        j <= 64,
        r < two_to(j),
    ensures
        exists|t: nat| t < two_to(j) && #[trigger] lcg_iter(x, t) as int % (two_to(j) as int) == r,
    decreases j,
{
    if j == 0 {
        assert(lcg_iter(x, 0) as int % 1 == 0);
    } else {
        let j0 = (j - 1) as nat;
        let h = two_to(j0) as int;
        let p = two_to(j) as int;
        lemma_two_to_adds(j0, 0);
        assert(p == 2 * h);
        let r0 = (r as int % h) as nat;
        lemma_mod_bound(r as int, h);
        lemma_hits(x, j0, r0);
        let t0 = choose|t: nat| t < two_to(j0) && #[trigger] lcg_iter(x, t) as int % h == r0;
        let y = lcg_iter(x, t0);
        lemma_residue_choice(y as int, h, r as int);
        if y as int % p == r as int {
            assert(t0 < two_to(j) && lcg_iter(x, t0) as int % p == r);
        } else {
            lemma_iter_adds(x, t0, two_to(j0));
            lemma_flip(y, j0);
            let t1 = t0 + two_to(j0);
            assert(lcg_iter(x, t1) == lcg_iter(y, two_to(j0)));
            assert(t1 < two_to(j) && lcg_iter(x, t1) as int % p == r);
        }
    }
}

/// From any state, every 64-bit value is reached within `2^64` steps.
proof fn lemma_every_state_reached(x: u64, v: u64)
    ensures
        exists|t: nat| lcg_iter(x, t) == v,
{
    lemma_two_to_64();
    lemma_hits(x, 64, v as nat);
    let t = choose|t: nat|
        t < two_to(64) && #[trigger] lcg_iter(x, t) as int % (two_to(64) as int) == v as nat;
    lemma_small_mod(lcg_iter(x, t) as nat, two_to(64));
    assert(lcg_iter(x, t) == v);
}

proof fn lemma_shift_back(x: u64)
    requires
        x < 0x8000_0000,
    ensures
        ((x * 0x2_0000_0000u64) as u64) >> 33u64 == x,
{
    assert(x < 0x8000_0000u64 ==> (((x * 0x2_0000_0000u64) as u64) >> 33u64) == x)
        by (bit_vector);
}

proof fn lemma_state_from_first(seed: u64, t: nat)
    ensures
        lcg_state(seed, t + 1) == lcg_iter(lcg_state(seed, 1), t),
{
    lemma_state_is_iter(seed, t + 1);
    lemma_state_is_iter(seed, 1);
    lemma_iter_adds(lcg_state(seed, 0), 1, t);
}

/// Every index below `min(n, 2^31)` is drawn at some step.
proof fn lemma_every_index_drawn(seed: u64, n: nat, x: usize)
    requires
        n > 0,
        x < n,
        x < 0x8000_0000,
    ensures
        exists|t: nat| drawn(seed, n, t).contains(x),
{
    let xv = x as u64;
    let v: u64 = (xv * 0x2_0000_0000u64) as u64;
    lemma_shift_back(xv);
    lemma_every_state_reached(lcg_state(seed, 1), v);
    let t = choose|t: nat| lcg_iter(lcg_state(seed, 1), t) == v;
    lemma_state_from_first(seed, t);
    lemma_small_mod(x as nat, n);
    assert(lcg_draw(seed, n, t + 1) == x);
    assert(drawn(seed, n, t + 1) == drawn(seed, n, t).insert(lcg_draw(seed, n, t + 1)));
    assert(drawn(seed, n, t + 1).contains(x));
}

/// There is a step by which every index below `m <= min(n, 2^31)` has
/// been drawn.
proof fn lemma_all_drawn_by(seed: u64, n: nat, m: nat) -> (t: nat)
    requires
        n > 0,
        m <= n,
        m <= 0x8000_0000,
    ensures
        forall|x: usize| #![trigger drawn(seed, n, t).contains(x)]
            x < m ==> drawn(seed, n, t).contains(x),
    decreases m,
{
    if m == 0 {
        0
    } else {
        let t0 = lemma_all_drawn_by(seed, n, (m - 1) as nat);
        let x = (m - 1) as usize;
        lemma_every_index_drawn(seed, n, x);
        let t1 = choose|t: nat| drawn(seed, n, t).contains(x);
        let t = if t0 < t1 {
            t1
        } else {
            t0
        };
        crate::landmarks::lemma_drawn_grows(seed, n, t0, t);
        crate::landmarks::lemma_drawn_grows(seed, n, t1, t);
        assert forall|y: usize| y < m implies drawn(seed, n, t).contains(y) by {
            if y < m - 1 {
                assert(drawn(seed, n, t0).contains(y));
            }
        }
        t
    }
}

/// The generator reaches `k` distinct indices among `n` points when
/// `k <= min(n, 2^31)`.
pub proof fn lemma_random_fills(seed: u64, n: nat, k: nat)
    requires
        k <= n,
        k <= 0x8000_0000,
    ensures
        exists|t: nat| drawn(seed, n, t).len() >= k,
{
    if n > 0 {
        let m: nat = if n < 0x8000_0000 {
            n
        } else {
            0x8000_0000
        };
        let range = Set::<usize>::range(0, m as usize);
        <usize as FiniteRange>::range_properties(0, m as usize);
        // every index below m is drawn by the time the last of them is
        let big = lemma_all_drawn_by(seed, n, m);
        assert forall|x: usize| range.contains(x) implies drawn(seed, n, big).contains(x) by {}
        crate::landmarks::lemma_drawn_bounded(seed, n, big);
        vstd::set_lib::lemma_len_subset(range, drawn(seed, n, big));
        assert(drawn(seed, n, big).len() >= k);
    } else {
        assert(drawn(seed, n, 0).len() >= k);
    }
}

/// No more than `2^31` distinct indices are ever drawn, so for `k > 2^31`
/// the selection never ends: the bound on `k` is exact.
pub proof fn lemma_random_draws_bounded(seed: u64, n: nat, t: nat)
    requires
        n > 0,
    ensures
        drawn(seed, n, t).len() <= 0x8000_0000,
{
    let range = Set::<usize>::range(0, 0x8000_0000usize);
    <usize as FiniteRange>::range_properties(0, 0x8000_0000usize);
    assert forall|x: usize| drawn(seed, n, t).contains(x) implies range.contains(x) by {
        lemma_drawn_below(seed, n, t, x);
    }
    crate::landmarks::lemma_drawn_bounded(seed, n, t);
    vstd::set_lib::lemma_len_subset(drawn(seed, n, t), range);
}

proof fn lemma_drawn_below(seed: u64, n: nat, t: nat, x: usize)
    requires
        n > 0,
        drawn(seed, n, t).contains(x),
    ensures
        x < 0x8000_0000,
    decreases t,
{
    if t > 0 {
        if x == lcg_draw(seed, n, t) {
            let v = lcg_state(seed, t);
            assert(v >> 33u64 <= 0x7fff_ffffu64) by (bit_vector);
            vstd::arithmetic::div_mod::lemma_mod_bound((v >> 33u64) as int, n as int);
            assert((((v >> 33u64) as nat) % n) <= (v >> 33u64) as nat) by {
                if ((v >> 33u64) as nat) < n {
                    lemma_small_mod((v >> 33u64) as nat, n);
                } else {
                    vstd::arithmetic::div_mod::lemma_mod_decreases((v >> 33u64) as nat, n);
                }
            }
        } else {
            lemma_drawn_below(seed, n, (t - 1) as nat, x);
        }
    }
}

} // verus!
