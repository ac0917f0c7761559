//! Greatest common divisor of a list of integers by the Euclidean algorithm.
use vstd::prelude::*;

verus! {

/// `d` divides `a`: `a` is an integer multiple of `d`.
pub open spec fn divides(d: int, a: int) -> bool {
    exists|k: int| a == #[trigger] (d * k)
}

/// `d` divides each of the first `n` entries of `x`.
pub open spec fn divides_all(d: int, x: Seq<i32>, n: int) -> bool {
    forall|i: int| 0 <= i < n ==> divides(d, #[trigger] x[i] as int)
}

/// `g` is a greatest common divisor of the first `n` entries of `x` (the one when `g > 0`):
/// it divides each of them, and each of their common divisors divides it.
pub open spec fn is_gcd(g: int, x: Seq<i32>, n: int) -> bool {
    &&& divides_all(g, x, n)
    &&& forall|d: int| #[trigger] divides_all(d, x, n) ==> divides(d, g)
}

proof fn lemma_divides_combination(d: int, a: int, b: int, m: int)
    requires
        divides(d, a),
        divides(d, b),
    ensures
        divides(d, b + a * m),
{
    let ka = choose|k: int| a == #[trigger] (d * k);
    let kb = choose|k: int| b == #[trigger] (d * k);
    assert(b + a * m == d * (kb + ka * m)) by (nonlinear_arith)
        requires
            a == d * ka,
            b == d * kb,
    ;
}

proof fn lemma_divides_self(d: int)
    ensures
        divides(d, d),
{
    assert(d == d * 1);
}

proof fn lemma_divides_multiple(d: int, m: int)
    ensures
        divides(d, d * m),
{
}

proof fn lemma_divides_neg(d: int, a: int)
    ensures
        divides(d, a) <==> divides(d, -a),
{
    if divides(d, a) {
        let k = choose|k: int| a == #[trigger] (d * k);
        assert(-a == d * (-k)) by (nonlinear_arith)
            requires
                a == d * k,
        ;
    }
    if divides(d, -a) {
        let k = choose|k: int| -a == #[trigger] (d * k);
        assert(a == d * (-k)) by (nonlinear_arith)
            requires
                -a == d * k,
        ;
    }
}

proof fn lemma_divides_le(d: int, m: int)
    requires
        d > 0,
        m > 0,
        divides(d, m),
    ensures
        d <= m,
{
    let k = choose|k: int| m == #[trigger] (d * k);
    assert(d <= m) by (nonlinear_arith)
        requires
            d > 0,
            m > 0,
            m == d * k,
    ;
}

/// The remainder of `q` by `p` is `q` less a multiple of `p`.
proof fn lemma_rem_multiple(q: u32, p: u32)
    requires
        p != 0,
    ensures
        q % p == q + p * (-((q as int) / (p as int))),
{
    vstd::arithmetic::div_mod::lemma_fundamental_div_mod(q as int, p as int);
    let t = (q as int) / (p as int);
    assert(p * (-t) == -(p * t)) by (nonlinear_arith);
}

/// The absolute value of `v`.
pub open spec fn abs(v: int) -> int {
    if v < 0 {
        -v
    } else {
        v
    }
}

/// Greatest common divisor of the entries of `x` by the Euclidean algorithm, on their
/// absolute values (a single entry gives its absolute value); 0 when the list is empty
/// or holds a 0.
pub fn gcd(x: Vec<i32>) -> (r: i32)
    requires
        x@.len() == 0 || exists|i: int| 0 <= i < x@.len() && #[trigger] x@[i] != i32::MIN,
    ensures
        (x@.len() == 0 || exists|i: int| 0 <= i < x@.len() && #[trigger] x@[i] == 0) ==> r == 0,
        (x@.len() > 0 && forall|i: int| 0 <= i < x@.len() ==> #[trigger] x@[i] != 0) ==> r > 0
            && is_gcd(r as int, x@, x@.len() as int),
{
    if x.len() == 0 {
        return 0;
    }
    let mut j: usize = 0;
    while j < x.len()
        invariant
            0 <= j <= x@.len(),
            forall|i: int| 0 <= i < j ==> #[trigger] x@[i] != 0,
        decreases x@.len() - j,
    {
        if x[j] == 0 {
            return 0;
        }
        j = j + 1;
    }
    let ghost x0 = x@;
    let dim: usize = x.len();
    let mut n: Vec<u32> = Vec::new();
    let mut j: usize = 0;
    while j < dim
        invariant
            0 <= j <= dim,
            dim == x0.len(),
            x@ == x0,
            n@.len() == j,
            forall|i: int| 0 <= i < j ==> #[trigger] n@[i] as int == abs(x0[i] as int),
        decreases dim - j,
    {
        let v = x[j];
        let a: u32 = if v < 0 {
            (-(v as i64)) as u32
        } else {
            v as u32
        };
        n.push(a);
        j = j + 1;
    }
    let mut counter: usize = 1;
    proof {
        assert forall|d: int| divides(d, n@[0] as int) <==> #[trigger] divides_all(d, x0, 1) by {
            lemma_divides_neg(d, x0[0] as int);
            if divides(d, n@[0] as int) {
                assert(divides(d, x0[0] as int));
            }
            if divides_all(d, x0, 1) {
                assert(divides(d, x0[0] as int));
            }
        }
    }
    if dim == 1 {
        let g = n[0];
        proof {
            lemma_divides_self(g as int);
            assert(x0[0] != i32::MIN);
        }
        return g as i32;
    }
    while counter < dim
        invariant
            1 <= counter <= dim,
            dim == n@.len(),
            dim == x0.len(),
            forall|i: int| 0 <= i < dim ==> #[trigger] x0[i] != 0,
            forall|i: int| counter <= i < dim ==> #[trigger] n@[i] as int == abs(x0[i] as int),
            n@[counter - 1] != 0,
            forall|d: int| divides(d, n@[counter - 1] as int) <==> #[trigger] divides_all(
                d,
                x0,
                counter as int,
            ),
            counter >= 2 ==> n@[counter - 2] == n@[counter - 1],
        decreases dim - counter,
    {
        let ghost c = counter as int;
        proof {
            assert forall|d: int|
                divides(d, n@[c - 1] as int) && divides(d, n@[c] as int) <==> #[trigger] divides_all(
                    d,
                    x0,
                    c + 1,
                ) by {
                lemma_divides_neg(d, x0[c] as int);
                if divides_all(d, x0, c + 1) {
                    assert(divides_all(d, x0, c));
                    assert(divides(d, x0[c] as int));
                }
                if divides(d, n@[c - 1] as int) && divides(d, n@[c] as int) {
                    assert(divides_all(d, x0, c));
                    assert forall|i: int| 0 <= i < c + 1 implies divides(d, #[trigger] x0[i] as int) by {
                        if i < c {
                            assert(divides(d, x0[i] as int));
                        }
                    }
                }
            }
        }
        while n[counter] % n[counter - 1] != 0
            invariant
                1 <= counter < dim,
                c == counter,
                dim == n@.len(),
                n@[c - 1] != 0,
                forall|i: int| counter < i < dim ==> #[trigger] n@[i] as int == abs(x0[i] as int),
                forall|d: int|
                    divides(d, n@[c - 1] as int) && divides(d, n@[c] as int) <==> #[trigger] divides_all(
                        d,
                        x0,
                        c + 1,
                    ),
            decreases n@[c - 1],
        {
            let p = n[counter - 1];
            let q = n[counter];
            let r = q % p;
            proof {
                lemma_rem_multiple(q, p);
                let m = -((q as int) / (p as int));
                assert forall|d: int|
                    divides(d, r as int) && divides(d, p as int) <==> #[trigger] divides_all(
                        d,
                        x0,
                        c + 1,
                    ) by {
                    if divides(d, p as int) && divides(d, q as int) {
                        lemma_divides_combination(d, p as int, q as int, m);
                    }
                    if divides(d, r as int) && divides(d, p as int) {
                        lemma_divides_combination(d, p as int, r as int, -m);
                        assert(r + p * (-m) == q) by (nonlinear_arith)
                            requires
                                r == q + p * m,
                        ;
                    }
                }
            }
            n.set(counter, r);
            let shelter = n[counter - 1];
            n.set(counter - 1, n[counter]);
            n.set(counter, shelter);
        }
        proof {
            let p = n@[c - 1];
            let q = n@[c];
            lemma_rem_multiple(q, p);
            let m = -((q as int) / (p as int));
            assert forall|d: int| divides(d, p as int) implies divides(d, q as int) by {
                lemma_divides_multiple(d, 0);
                assert(d * 0 == 0);
                assert(divides(d, 0));
                lemma_divides_combination(d, p as int, 0, -m);
                assert(0 + p * (-m) == q) by (nonlinear_arith)
                    requires
                        0 == q + p * m,
                ;
            }
        }
        let g = n[counter - 1];
        n.set(counter, g);
        counter = counter + 1;
    }
    let g = n[dim - 2];
    proof {
        lemma_divides_self(n@[dim - 1] as int);
        assert(g == n@[dim - 1]);
        assert(divides(g as int, n@[dim - 1] as int));
        assert(divides_all(g as int, x0, dim as int));
        let k = choose|k: int| 0 <= k < x0.len() && #[trigger] x0[k] != i32::MIN;
        assert(divides(g as int, x0[k] as int));
        lemma_divides_neg(g as int, x0[k] as int);
        lemma_divides_le(g as int, abs(x0[k] as int));
    }
    g as i32
}

} // verus!
