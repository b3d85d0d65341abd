use vstd::prelude::*;
use vstd::arithmetic::div_mod::{lemma_add_mod_noop, lemma_mul_mod_noop_general, lemma_small_mod};
use vstd::arithmetic::mul::{
    lemma_mul_is_associative, lemma_mul_is_distributive_add,
    lemma_mul_is_distributive_add_other_way,
};

verus! {

/// Modulus of all matrix arithmetic here.
pub const MOD: u64 = 1_000_000_007;

/// A 2x2 matrix, row by row.
pub type Matrix = [[u64; 2]; 2];

/// A 2x2 matrix over the integers, as `(row 0 col 0, row 0 col 1, row 1 col 0, row 1 col 1)`.
pub type Mat = (int, int, int, int);

/// The entries of `m` as integers.
pub open spec fn entries(m: Matrix) -> Mat {
    (m[0][0] as int, m[0][1] as int, m[1][0] as int, m[1][1] as int)
}

/// Every entry of `m` is below the modulus.
pub open spec fn reduced_matrix(m: Matrix) -> bool {
    forall|i: int, j: int| 0 <= i < 2 && 0 <= j < 2 ==> m[i][j] < MOD
}

/// Each entry of `x` taken modulo `MOD`.
pub open spec fn mod_entries(x: Mat) -> Mat {
    (x.0 % MOD as int, x.1 % MOD as int, x.2 % MOD as int, x.3 % MOD as int)
}

/// The product of two matrices over the integers.
pub open spec fn mat_prod(x: Mat, y: Mat) -> Mat {
    (
        x.0 * y.0 + x.1 * y.2,
        x.0 * y.1 + x.1 * y.3,
        x.2 * y.0 + x.3 * y.2,
        x.2 * y.1 + x.3 * y.3,
    )
}

/// `m` raised to the power `n` over the integers.
pub open spec fn mat_power(m: Mat, n: nat) -> Mat
    decreases n,
{
    if n == 0 {
        (1, 0, 0, 1)
    } else {
        mat_prod(mat_power(m, (n - 1) as nat), m)
    }
}

/// The Fibonacci numbers: 0, 1, 1, 2, 3, 5, ...
pub open spec fn fib(n: nat) -> nat
    decreases n,
{
    if n == 0 {
        0
    } else if n == 1 {
        1
    } else {
        fib((n - 1) as nat) + fib((n - 2) as nat)
    }
}

proof fn lemma_entry_mod(a: int, b: int, c: int, d: int)
    ensures
        ((a % MOD as int) * (b % MOD as int) % MOD as int + (c % MOD as int) * (d % MOD as int)
            % MOD as int) % MOD as int == (a * b + c * d) % MOD as int,
{
    let p = MOD as int;
    lemma_mul_mod_noop_general(a, b, p);
    lemma_mul_mod_noop_general(c, d, p);
    lemma_add_mod_noop(a * b, c * d, p);
}

/// Reducing the factors modulo `MOD` does not change the reduced product.
proof fn lemma_prod_mod(x: Mat, y: Mat)
    ensures
        mod_entries(mat_prod(mod_entries(x), mod_entries(y))) == mod_entries(mat_prod(x, y)),
{
    let p = MOD as int;
    let (a, b, c, d) = x;
    let (e, f, g, h) = y;
    let (am, bm, cm, dm) = (a % p, b % p, c % p, d % p);
    let (em, fm, gm, hm) = (e % p, f % p, g % p, h % p);
    assert((am * em + bm * gm) % p == (a * e + b * g) % p) by {
        lemma_entry_mod_sum(a, e, b, g);
    }
    assert((am * fm + bm * hm) % p == (a * f + b * h) % p) by {
        lemma_entry_mod_sum(a, f, b, h);
    }
    assert((cm * em + dm * gm) % p == (c * e + d * g) % p) by {
        lemma_entry_mod_sum(c, e, d, g);
    }
    assert((cm * fm + dm * hm) % p == (c * f + d * h) % p) by {
        lemma_entry_mod_sum(c, f, d, h);
    }
}

proof fn lemma_entry_mod_sum(a: int, b: int, c: int, d: int)
    ensures
        ((a % MOD as int) * (b % MOD as int) + (c % MOD as int) * (d % MOD as int)) % MOD as int
            == (a * b + c * d) % MOD as int,
{
    let p = MOD as int;
    lemma_entry_mod(a, b, c, d);
    lemma_add_mod_noop((a % p) * (b % p), (c % p) * (d % p), p);
    lemma_mul_mod_noop_general(a % p, b % p, p);
    lemma_mul_mod_noop_general(c % p, d % p, p);
    lemma_mul_mod_noop_general(a, b, p);
    lemma_mul_mod_noop_general(c, d, p);
}

proof fn lemma_entry_assoc(a: int, b: int, e: int, f: int, g: int, h: int, i: int, k: int)
    ensures
        (a * e + b * g) * i + (a * f + b * h) * k == a * (e * i + f * k) + b * (g * i + h * k),
{
    lemma_mul_is_distributive_add_other_way(i, a * e, b * g);
    lemma_mul_is_distributive_add_other_way(k, a * f, b * h);
    lemma_mul_is_distributive_add(a, e * i, f * k);
    lemma_mul_is_distributive_add(b, g * i, h * k);
    lemma_mul_is_associative(a, e, i);
    lemma_mul_is_associative(b, g, i);
    lemma_mul_is_associative(a, f, k);
    lemma_mul_is_associative(b, h, k);
}

proof fn lemma_prod_assoc(x: Mat, y: Mat, z: Mat)
    ensures
        mat_prod(mat_prod(x, y), z) == mat_prod(x, mat_prod(y, z)),
{
    let (a, b, c, d) = x;
    let (e, f, g, h) = y;
    let (i, j, k, l) = z;
    lemma_entry_assoc(a, b, e, f, g, h, i, k);
    lemma_entry_assoc(a, b, e, f, g, h, j, l);
    lemma_entry_assoc(c, d, e, f, g, h, i, k);
    lemma_entry_assoc(c, d, e, f, g, h, j, l);
}

/// Powers of one matrix multiply by adding their exponents.
proof fn lemma_power_add(m: Mat, a: nat, b: nat)
    ensures
        mat_power(m, a + b) == mat_prod(mat_power(m, a), mat_power(m, b)),
    decreases b,
{
    if b == 0 {
        let x = mat_power(m, a);
        assert(mat_prod(x, (1, 0, 0, 1)) == x);
    } else {
        lemma_power_add(m, a, (b - 1) as nat);
        assert(mat_power(m, a + b) == mat_prod(mat_power(m, (a + b - 1) as nat), m));
        lemma_prod_assoc(mat_power(m, a), mat_power(m, (b - 1) as nat), m);
    }
}

/// The powers of `[[1, 1], [1, 0]]` hold consecutive Fibonacci numbers.
proof fn lemma_fib_power(n: nat)
    requires
        n >= 1,
    ensures
        mat_power((1, 1, 1, 0), n) == (
            fib(n + 1) as int,
            fib(n) as int,
            fib(n) as int,
            fib((n - 1) as nat) as int,
        ),
    decreases n,
{
    if n > 1 {
        lemma_fib_power((n - 1) as nat);
        assert(fib(n + 1) == fib(n) + fib((n - 1) as nat));
        assert(fib(n) == fib((n - 1) as nat) + fib((n - 2) as nat));
    } else {
        assert(mat_power((1, 1, 1, 0), 0) == (1int, 0int, 0int, 1int));
        assert(fib(2) == 1) by {
            assert(fib(2) == fib(1) + fib(0));
        }
    }
}

/// Product of two matrices modulo `MOD`.
pub fn mat_mul(a: &Matrix, b: &Matrix) -> (r: Matrix)
    requires
        reduced_matrix(*a),
        reduced_matrix(*b),
    ensures
        reduced_matrix(r),
        entries(r) == mod_entries(mat_prod(entries(*a), entries(*b))),
{
    assert(a[0][0] < MOD && a[0][1] < MOD && a[1][0] < MOD && a[1][1] < MOD);
    assert(b[0][0] < MOD && b[0][1] < MOD && b[1][0] < MOD && b[1][1] < MOD);
    assert(0x8000_0000 * 0x8000_0000 == 0x4000_0000_0000_0000) by (nonlinear_arith);
    assert forall|x: u64, y: u64| x < MOD && y < MOD implies #[trigger] (x * y) <= 0x4000_0000_0000_0000 by {
        assert(x * y <= 0x8000_0000 * 0x8000_0000) by (nonlinear_arith)
            requires
                x < 0x8000_0000,
                y < 0x8000_0000,
        ;
    }
    let r: Matrix = [
        [
            (a[0][0] * b[0][0] % MOD + a[0][1] * b[1][0] % MOD) % MOD,
            (a[0][0] * b[0][1] % MOD + a[0][1] * b[1][1] % MOD) % MOD,
        ],
        [
            (a[1][0] * b[0][0] % MOD + a[1][1] * b[1][0] % MOD) % MOD,
            (a[1][0] * b[0][1] % MOD + a[1][1] * b[1][1] % MOD) % MOD,
        ],
    ];
    proof {
        let (x, y) = (entries(*a), entries(*b));
        lemma_entry_mod(x.0, y.0, x.1, y.2);
        lemma_entry_mod(x.0, y.1, x.1, y.3);
        lemma_entry_mod(x.2, y.0, x.3, y.2);
        lemma_entry_mod(x.2, y.1, x.3, y.3);
        lemma_small_mod(x.0 as nat, MOD as nat);
        lemma_small_mod(x.1 as nat, MOD as nat);
        lemma_small_mod(x.2 as nat, MOD as nat);
        lemma_small_mod(x.3 as nat, MOD as nat);
        lemma_small_mod(y.0 as nat, MOD as nat);
        lemma_small_mod(y.1 as nat, MOD as nat);
        lemma_small_mod(y.2 as nat, MOD as nat);
        lemma_small_mod(y.3 as nat, MOD as nat);
    }
    r
}

/// `m` raised to the power `n` modulo `MOD`, by repeated squaring.
pub fn mat_pow(m: Matrix, n: u64) -> (r: Matrix)
    requires
        reduced_matrix(m),
    ensures
        reduced_matrix(r),
        entries(r) == mod_entries(mat_power(entries(m), n as nat)),
{
    let ghost base = entries(m);
    let mut m = m;
    let mut n = n;
    let mut result: Matrix = [[1, 0], [0, 1]];
    let ghost n0 = n as nat;
    let ghost er: nat = 0;
    let ghost em: nat = 1;
    proof {
        assert(mat_power(base, 0) == (1int, 0int, 0int, 1int));
        assert(mat_power(base, 1) == mat_prod(mat_power(base, 0), base));
        let (a, b, c, d) = base;
        assert(1 * a + 0 * c == a && 1 * b + 0 * d == b) by (nonlinear_arith);
        assert(0 * a + 1 * c == c && 0 * b + 1 * d == d) by (nonlinear_arith);
        assert(mat_prod((1, 0, 0, 1), base) == base);
        lemma_small_mod(base.0 as nat, MOD as nat);
        lemma_small_mod(base.1 as nat, MOD as nat);
        lemma_small_mod(base.2 as nat, MOD as nat);
        lemma_small_mod(base.3 as nat, MOD as nat);
        assert(mat_power(base, 0) == (1int, 0int, 0int, 1int));
    }
    while n > 0
        invariant
            reduced_matrix(result),
            reduced_matrix(m),
            entries(result) == mod_entries(mat_power(base, er)),
            entries(m) == mod_entries(mat_power(base, em)),
            er + em * n == n0,
        decreases n,
    {
        let ghost n1 = n as int;
        proof {
            assert(n & 1 == n % 2) by (bit_vector);
            assert(n >> 1 == n / 2) by (bit_vector);
        }
        if n & 1 == 1 {
            result = mat_mul(&result, &m);
            proof {
                lemma_prod_mod(mat_power(base, er), mat_power(base, em));
                lemma_power_add(base, er, em);
                er = er + em;
            }
        }
        m = mat_mul(&m, &m);
        proof {
            lemma_prod_mod(mat_power(base, em), mat_power(base, em));
            lemma_power_add(base, em, em);
        }
        n >>= 1;
        proof {
            if n1 % 2 == 1 {
                assert(er + 2 * em * n == n0) by (nonlinear_arith)
                    requires
                        er == (er - em) + em,
                        (er - em) + em * n1 == n0,
                        n1 == 2 * n + 1,
                ;
            } else {
                assert(er + 2 * em * n == n0) by (nonlinear_arith)
                    requires
                        er + em * n1 == n0,
                        n1 == 2 * n,
                ;
            }
            em = em + em;
        }
    }
    result
}

/// The `n`th Fibonacci number modulo `MOD`.
pub fn fibonacci(n: u64) -> (r: u64)
    ensures
        r == fib(n as nat) as int % MOD as int,
{
    if n == 0 {
        return 0;
    }
    if n == 1 {
        return 1;
    }
    let base: Matrix = [[1, 1], [1, 0]];
    assert(entries(base) == (1int, 1int, 1int, 0int));
    let result = mat_pow(base, n);
    proof {
        lemma_fib_power(n as nat);
    }
    result[0][1]
}

} // verus!
