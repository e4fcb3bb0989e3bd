use vstd::prelude::*;

verus! {

/// One step of the Fibonacci walk from `(a, b)`: on to `(b, a + b)`, or back to
/// `(0, 1)` where `a + b` does not fit in an `i128`.
pub open spec fn fib_step(a: i128, b: i128) -> (i128, i128) {
    let sum = a + b;
    if i128::MIN <= sum <= i128::MAX {
        (b, sum as i128)
    } else {
        (0, 1)
    }
}

/// Where `n` steps of the walk lead from `(a, b)`.
pub open spec fn fib_walk(a: i128, b: i128, n: nat) -> (i128, i128)
    decreases n,
{
    if n == 0 {
        (a, b)
    } else {
        let (a2, b2) = fib_step(a, b);
        fib_walk(a2, b2, (n - 1) as nat)
    }
}

/// Walks the Fibonacci sequence from `(0, 1)` for `n` steps (none where `n` is
/// not positive), starting over whenever the next number overflows; gives the
/// last pair. It only serves to keep a worker busy.
pub fn fibonacci(n: i128) -> (r: (i128, i128))
    ensures
        r == fib_walk(0, 1, if n > 0 { n as nat } else { 0 }),
{
    let mut a: i128 = 0;
    let mut b: i128 = 1;
    let mut left: i128 = n;
    while left > 0
        invariant
            fib_walk(0, 1, if n > 0 { n as nat } else { 0 }) == fib_walk(
                a,
                b,
                if left > 0 { left as nat } else { 0 },
            ),
        decreases left,
    {
        match a.checked_add(b) {
            Some(sum) => {
                a = b;
                b = sum;
            },
            None => {
                a = 0;
                b = 1;
            },
        }
        left = left - 1;
    }
    (a, b)
}

} // verus!
