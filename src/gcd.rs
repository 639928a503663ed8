use vstd::prelude::*;

verus! {

/// Whether `e` divides `x`.
pub open spec fn divides(e: int, x: int) -> bool {
    x % e == 0
}

/// Whether `e` divides every number of `s`.
pub open spec fn divides_all(e: int, s: Seq<u64>) -> bool {
    forall|i: int| 0 <= i < s.len() ==> #[trigger] divides(e, s[i] as int)
}

/// Whether `e` divides both `a` and `b`.
pub open spec fn common_divisor(e: int, a: int, b: int) -> bool {
    divides(e, a) && divides(e, b)
}

proof fn lemma_multiple(e: int, x: int)
    requires
        e > 0,
        divides(e, x),
    ensures
        x == e * (x / e),
{
    vstd::arithmetic::div_mod::lemma_fundamental_div_mod(x, e);
}

proof fn lemma_divides_mod(e: int, n: int, m: int)
    requires
        e > 0,
        n > 0,
        m >= 0,
    ensures
        (divides(e, n) && divides(e, m)) <==> (divides(e, n) && divides(e, m % n)),
{
    vstd::arithmetic::div_mod::lemma_fundamental_div_mod(m, n);
    let q = m / n;
    let r = m % n;
    if divides(e, n) {
        lemma_multiple(e, n);
        let a = n / e;
        if divides(e, m) {
            lemma_multiple(e, m);
            let b = m / e;
            assert(r == e * (b - a * q) + 0) by (nonlinear_arith)
                requires m == n * q + r, n == e * a, m == e * b;
            vstd::arithmetic::div_mod::lemma_fundamental_div_mod_converse(r, e, b - a * q, 0);
        }
        if divides(e, r) {
            lemma_multiple(e, r);
            let c = r / e;
            assert(m == e * (a * q + c) + 0) by (nonlinear_arith)
                requires m == n * q + r, n == e * a, r == e * c;
            vstd::arithmetic::div_mod::lemma_fundamental_div_mod_converse(m, e, a * q + c, 0);
        }
    }
}

/// Greatest common divisor of two positive numbers, by Euclid's method: the
/// result is positive and its divisors are exactly the common divisors of
/// `n` and `m`.
pub fn gcd(n: u64, m: u64) -> (r: u64)
    requires
        n != 0,
        m != 0,
    ensures
        r > 0,
        forall|e: int| e > 0 ==> (#[trigger] divides(e, r as int) <==> divides(e, n as int) && divides(e, m as int)),
{
    let ghost n0 = n;
    let ghost m0 = m;
    let mut n = n;
    let mut m = m;
    while m != 0
        invariant
            n > 0,
            forall|e: int|
                e > 0 ==> (#[trigger] common_divisor(e, n as int, m as int) <==> common_divisor(
                    e,
                    n0 as int,
                    m0 as int,
                )),
        decreases m,
    {
        let ghost n1 = n;
        let ghost m1 = m;
        if m < n {
            let t = m;
            m = n;
            n = t;
        }
        let ghost before = m;
        m = m % n;
        assert forall|e: int| e > 0 implies (#[trigger] common_divisor(e, n as int, m as int)
            <==> common_divisor(e, n0 as int, m0 as int)) by {
            assert(common_divisor(e, n1 as int, m1 as int) <==> common_divisor(e, n0 as int, m0 as int));
            lemma_divides_mod(e, n as int, before as int);
        }
    }
    assert forall|e: int| e > 0 implies (#[trigger] divides(e, n as int) <==> divides(e, n0 as int)
        && divides(e, m0 as int)) by {
        assert(divides(e, m as int));
        assert(common_divisor(e, n as int, m as int) <==> common_divisor(e, n0 as int, m0 as int));
    }
    n
}

/// Whether every number of `s` is positive.
pub open spec fn all_positive(s: Seq<u64>) -> bool {
    forall|i: int| 0 <= i < s.len() ==> #[trigger] s[i] != 0
}

/// Greatest common divisor of a non-empty list of numbers, folding `gcd`
/// from the first entry on. A single entry, zero included, is its own
/// result; a longer list must hold positive numbers only. For positive
/// numbers the result is positive and its divisors are exactly the numbers
/// that divide every entry.
pub fn gcd_of_all(numbers: &Vec<u64>) -> (r: u64)
    requires
        numbers@.len() >= 1,
        numbers@.len() == 1 || all_positive(numbers@),
    ensures
        numbers@.len() == 1 ==> r == numbers@[0],
        all_positive(numbers@) ==> r > 0 && forall|e: int|
            e > 0 ==> (#[trigger] divides(e, r as int) <==> divides_all(e, numbers@)),
{
    if numbers.len() == 1 {
        assert forall|e: int| e > 0 implies (#[trigger] divides(e, numbers@[0] as int)
            <==> divides_all(e, numbers@)) by {
            if divides(e, numbers@[0] as int) {
                assert forall|j: int| 0 <= j < numbers@.len() implies #[trigger] divides(
                    e,
                    numbers@[j] as int,
                ) by {
                    assert(j == 0);
                }
            }
        }
        return numbers[0];
    }
    assert(all_positive(numbers@));
    let mut d = numbers[0];
    let mut i: usize = 1;
    assert forall|e: int| e > 0 implies (#[trigger] divides(e, d as int) <==> divides_all(
        e,
        numbers@.take(1),
    )) by {
        assert(numbers@.take(1)[0] == d);
    }
    while i < numbers.len()
        invariant
            1 <= i <= numbers@.len(),
            forall|j: int| 0 <= j < numbers@.len() ==> #[trigger] numbers@[j] != 0,
            d > 0,
            forall|e: int|
                e > 0 ==> (#[trigger] divides(e, d as int) <==> divides_all(
                    e,
                    numbers@.take(i as int),
                )),
        decreases numbers@.len() - i,
    {
        let next = gcd(d, numbers[i]);
        assert forall|e: int| e > 0 implies (#[trigger] divides(e, next as int) <==> divides_all(
            e,
            numbers@.take(i + 1),
        )) by {
            let before = numbers@.take(i as int);
            let after = numbers@.take(i + 1);
            if divides_all(e, after) {
                assert forall|j: int| 0 <= j < before.len() implies #[trigger] divides(
                    e,
                    before[j] as int,
                ) by {
                    assert(before[j] == after[j]);
                }
                assert(divides(e, after[i as int] as int));
            }
            if divides(e, next as int) {
                assert forall|j: int| 0 <= j < after.len() implies #[trigger] divides(
                    e,
                    after[j] as int,
                ) by {
                    if j < i {
                        assert(before[j] == after[j]);
                    }
                }
            }
        }
        d = next;
        i = i + 1;
    }
    assert(numbers@.take(i as int) =~= numbers@);
    d
}

} // verus!
