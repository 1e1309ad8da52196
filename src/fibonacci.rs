use vstd::prelude::*;

verus! {

/// The Fibonacci numbers as counted here: 1, 1, 2, 3, 5, 8, ...
pub open spec fn fib(n: nat) -> nat
    decreases n,
{
    if n < 2 {
        1
    } else {
        fib((n - 1) as nat) + fib((n - 2) as nat)
    }
}

/// The standard Fibonacci numbers 0, 1, 1, 2, 3, ..., of which `fib` is the
/// shift by one.
pub open spec fn std_fib(n: int) -> int
    decreases n,
{
    if n <= 0 {
        0
    } else if n == 1 {
        1
    } else {
        std_fib(n - 1) + std_fib(n - 2)
    }
}

proof fn lemma_fib_shift(n: nat)
    ensures
        fib(n) == std_fib(n + 1 as int),
    decreases n,
{
    lemma_small_std_fibs();
    if n >= 2 {
        lemma_fib_shift((n - 1) as nat);
        lemma_fib_shift((n - 2) as nat);
        assert(std_fib(n + 1 as int) == std_fib(n as int) + std_fib(n - 1 as int));
    }
}

proof fn lemma_std_fib_monotone(i: int, j: int)
    requires
        0 <= i <= j,
    ensures
        std_fib(i) <= std_fib(j),
    decreases j,
{
    if i < j {
        lemma_std_fib_monotone(i, j - 1);
        if j >= 2 {
            assert(std_fib(j) == std_fib(j - 1) + std_fib(j - 2));
            assert(std_fib(j - 2) >= 0) by {
                lemma_std_fib_nonneg(j - 2);
            }
        }
    }
}

proof fn lemma_std_fib_nonneg(n: int)
    ensures
        std_fib(n) >= 0,
    decreases n,
{
    if n >= 2 {
        lemma_std_fib_nonneg(n - 1);
        lemma_std_fib_nonneg(n - 2);
    }
}

proof fn lemma_small_std_fibs()
    ensures
        std_fib(0) == 0,
        std_fib(1) == 1,
        std_fib(2) == 1,
{
    reveal_with_fuel(std_fib, 3);
}

/// The addition law `F(m+n+1) = F(m+1) F(n+1) + F(m) F(n)`.
proof fn lemma_std_fib_add(m: int, n: int)
    requires
        m >= 0,
        n >= 0,
    ensures
        std_fib(m + n + 1) == std_fib(m + 1) * std_fib(n + 1) + std_fib(m) * std_fib(n),
    decreases n,
{
    lemma_small_std_fibs();
    if n >= 2 {
        lemma_std_fib_add(m, n - 1);
        lemma_std_fib_add(m, n - 2);
        assert(std_fib(m + n) == std_fib(m + 1) * std_fib(n) + std_fib(m) * std_fib(n - 1));
        assert(std_fib(m + n - 1) == std_fib(m + 1) * std_fib(n - 1) + std_fib(m) * std_fib(n - 2));
        let a = std_fib(m + 1);
        let b = std_fib(m);
        let x = std_fib(n + 1);
        let y = std_fib(n);
        let z = std_fib(n - 1);
        let w = std_fib(n - 2);
        assert(std_fib(m + n + 1) == std_fib(m + n) + std_fib(m + n - 1));
        assert(x == y + z);
        assert(y == z + w);
        assert(a * x + b * y == (a * y + b * z) + (a * z + b * w)) by (nonlinear_arith)
            requires
                x == y + z,
                y == z + w,
        ;
    } else if n == 1 {
        assert(std_fib(m + 2) == std_fib(m + 1) + std_fib(m));
    }
}

/// Naive recursion: returns `fib(n)`.
pub fn fibonacci(n: u32) -> (r: u64)
    requires
        fib(n as nat) <= u64::MAX,
    ensures
        r == fib(n as nat),
    decreases n,
{
    if n < 2 {
        return 1;
    }
    return fibonacci(n - 1) + fibonacci(n - 2);
}

/// A 2x2 matrix of `u64`, `[[a, b], [c, d]]`.
#[allow(non_camel_case_types)]
#[derive(Debug, Clone, Copy)]
struct fibonacci_matrix {
    a: u64,
    b: u64,
    c: u64,
    d: u64,
}

/// `m` is the `e`-th power of `[[1, 1], [1, 0]]`.
spec fn is_fib_power(m: fibonacci_matrix, e: int) -> bool {
    &&& m.a == std_fib(e + 1)
    &&& m.b == std_fib(e)
    &&& m.c == std_fib(e)
    &&& m.d == std_fib(e + 1) - std_fib(e)
}

impl fibonacci_matrix {
    fn new() -> (r: fibonacci_matrix)
        ensures
            is_fib_power(r, 1),
    {
        proof {
            lemma_small_std_fibs();
        }
        Self { a: 1, b: 1, c: 1, d: 0 }
    }

    /// Raises the matrix, which holds `[[1, 1], [1, 0]]`, to the power `exp`
    /// by repeated squaring.
    fn pow(&mut self, exp: u32)
        requires
            is_fib_power(*old(self), 1),
            std_fib(exp + 1) <= u64::MAX,
        ensures
            is_fib_power(*final(self), exp as int),
        decreases exp,
    {
        if exp == 0 {
            self.a = 1;
            self.b = 0;
            self.c = 0;
            self.d = 1;
            return;
        }
        if exp == 1 {
            return;
        }
        let mat = *self;
        proof {
            lemma_small_std_fibs();
        }
        let h: u32 = exp / 2;
        proof {
            lemma_std_fib_monotone(h + 1, exp + 1);
        }
        let ghost hh: int = h as int;
        self.pow(h);
        let sq = *self;
        proof {
            let f1 = std_fib(h + 1);
            let f0 = std_fib(hh);
            let fm = std_fib(hh - 1);
            lemma_std_fib_add(hh, hh);
            lemma_std_fib_add(hh - 1, hh);
            assert(h + 1 == (h - 1) + 2);
            assert(f1 == f0 + fm);
            lemma_std_fib_monotone(2 * hh + 1, exp + 1);
            assert(std_fib(2 * hh) == f0 * f1 + fm * f0);
            assert(f1 * f0 + f0 * (f1 - f0) == std_fib(2 * hh)) by (nonlinear_arith)
                requires
                    f1 == f0 + fm,
                    std_fib(2 * hh) == f0 * f1 + fm * f0,
            ;
            assert(std_fib(2 * hh + 1) == std_fib(2 * hh) + std_fib(2 * hh - 1));
            assert(f0 * f0 + (f1 - f0) * (f1 - f0) == std_fib(2 * hh - 1)) by (
            nonlinear_arith)
                requires
                    f1 == f0 + fm,
                    std_fib(2 * hh + 1) == f1 * f1 + f0 * f0,
                    std_fib(2 * hh + 1) == std_fib(2 * hh) + std_fib(2 * hh - 1),
                    std_fib(2 * hh) == f0 * f1 + fm * f0,
            ;
            lemma_std_fib_monotone(2 * hh - 1, 2 * hh + 1);
            lemma_std_fib_monotone(2 * hh, 2 * hh + 1);
        }
        self.mul_assign(sq);
        if exp % 2 == 1 {
            proof {
                assert(std_fib(2 * hh + 2) == std_fib(2 * hh + 1) + std_fib(2 * hh));
                assert(2 * h + 2 == exp + 1);
                assert(mat.a == 1 && mat.b == 1 && mat.c == 1 && mat.d == 0);
                assert(self.a * mat.a == self.a && self.b * mat.c == self.b);
                assert(self.a * mat.b == self.a && self.b * mat.d == 0);
                assert(self.c * mat.a == self.c && self.d * mat.c == self.d);
                assert(self.c * mat.b == self.c && self.d * mat.d == 0);
                lemma_std_fib_nonneg(2 * hh);
            }
            self.mul_assign(mat);
        } else {
            assert(2 * h == exp);
        }
    }

    /// Multiplies the matrix on the right by `rhs`.
    fn mul_assign(&mut self, rhs: fibonacci_matrix)
        requires
            old(self).a * rhs.a + old(self).b * rhs.c <= u64::MAX,
            old(self).a * rhs.b + old(self).b * rhs.d <= u64::MAX,
            old(self).c * rhs.a + old(self).d * rhs.c <= u64::MAX,
            old(self).c * rhs.b + old(self).d * rhs.d <= u64::MAX,
        ensures
            final(self).a == old(self).a * rhs.a + old(self).b * rhs.c,
            final(self).b == old(self).a * rhs.b + old(self).b * rhs.d,
            final(self).c == old(self).c * rhs.a + old(self).d * rhs.c,
            final(self).d == old(self).c * rhs.b + old(self).d * rhs.d,
    {
        proof {
            assert(self.a * rhs.a <= self.a * rhs.a + self.b * rhs.c) by (nonlinear_arith);
            assert(self.a * rhs.b <= self.a * rhs.b + self.b * rhs.d) by (nonlinear_arith);
            assert(self.c * rhs.a <= self.c * rhs.a + self.d * rhs.c) by (nonlinear_arith);
            assert(self.c * rhs.b <= self.c * rhs.b + self.d * rhs.d) by (nonlinear_arith);
        }
        let a = self.a * rhs.a + self.b * rhs.c;
        let b = self.a * rhs.b + self.b * rhs.d;
        let c = self.c * rhs.a + self.d * rhs.c;
        let d = self.c * rhs.b + self.d * rhs.d;
        self.a = a;
        self.b = b;
        self.c = c;
        self.d = d;
    }
}

/// Matrix exponentiation: the top-left entry of `[[1, 1], [1, 0]]^n`, which
/// is `fib(n)`.
pub fn divide_conquer_fibonacci(n: u32) -> (r: u64)
    requires
        fib(n as nat) <= u64::MAX,
    ensures
        r == fib(n as nat),
{
    proof {
        lemma_fib_shift(n as nat);
    }
    let mut mat = fibonacci_matrix::new();
    mat.pow(n);
    mat.a
}

/// Every entry of `memo` is either unset (0) or the Fibonacci number of its
/// index.
spec fn memo_valid(memo: Seq<u64>) -> bool {
    forall|k: int| 0 <= k < memo.len() ==> #[trigger] memo[k] == 0 || memo[k] == fib(k as nat)
}

fn dp_fibonacci(n: u32, memo: &mut Vec<u64>) -> (r: u64)
    requires
        n < old(memo)@.len(),
        memo_valid(old(memo)@),
        fib(n as nat) <= u64::MAX,
    ensures
        r == fib(n as nat),
        final(memo)@.len() == old(memo)@.len(),
        memo_valid(final(memo)@),
    decreases n,
{
    if n < 2 {
        return 1;
    }
    if memo[n as usize] == 0 {
        let x = dp_fibonacci(n - 1, memo);
        let y = dp_fibonacci(n - 2, memo);
        memo.set(n as usize, x + y);
    }
    return memo[n as usize];
}

/// Memoised recursion: returns `fib(n)`.
pub fn dynamic_programming_fibonacci(n: u32) -> (r: u64)
    requires
        fib(n as nat) <= u64::MAX,
    ensures
        r == fib(n as nat),
{
    let mut memo: Vec<u64> = Vec::new();
    let mut k: u32 = 0;
    while k < n
        invariant
            k <= n,
            memo@.len() == k,
            forall|m: int| 0 <= m < memo@.len() ==> #[trigger] memo@[m] == 0,
        decreases n - k,
    {
        memo.push(0);
        k = k + 1;
    }
    memo.push(0);
    memo.push(0);
    dp_fibonacci(n, &mut memo)
}

} // verus!
