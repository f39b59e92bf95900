//! Multilinear extensions, given by their values on the Boolean hypercube.
//!
//! A table of `2^n` values is a function of `n` bits. The first variable is
//! the highest bit of the index and the last variable the lowest.

use crate::algebra::lemma_product_to_equal;
use crate::algebra::lemma_sum_to_congruent;
use crate::algebra::product_to;
use crate::algebra::sum_to;
use crate::field::lemma_reduce_add;
use crate::field::lemma_reduce_mul;
use crate::field::lemma_reduce_zero_one;
use crate::field::reduce;
use crate::field::Scalar;
use vstd::arithmetic::div_mod::lemma_div_denominator;
use vstd::arithmetic::power2::lemma2_to64;
use vstd::arithmetic::power2::lemma_pow2_pos;
use vstd::arithmetic::power2::lemma_pow2_strictly_increases;
use vstd::arithmetic::power2::lemma_pow2_unfold;
use vstd::arithmetic::power2::pow2;
use vstd::prelude::*;

verus! {

/// `x * y + (1 - x) * (1 - y)`: one where two bits agree, zero where they
/// differ.
pub open spec fn eq_term(x: int, y: int) -> int {
    x * y + (1 - x) * (1 - y)
}

/// The factors of the equality polynomial of two points.
pub open spec fn eq_factors(a: Seq<int>, b: Seq<int>) -> spec_fn(int) -> int {
    |i: int| eq_term(a[i], b[i])
}

/// The equality polynomial: the product of `eq_term(a[i], b[i])` over the
/// coordinates of `a`.
pub open spec fn eq_product(a: Seq<int>, b: Seq<int>) -> int {
    product_to(a.len(), eq_factors(a, b))
}

/// The bit that variable `i` of `n` has in the index `b`.
pub open spec fn index_bit(n: nat, i: int, b: int) -> int {
    (b / (pow2((n - 1 - i) as nat) as int)) % 2
}

/// The bits of the index `b`, one for each of `n` variables.
pub open spec fn index_bits(n: nat, b: int) -> Seq<int> {
    Seq::new(n, |i: int| index_bit(n, i, b))
}

/// The entry at index `b` of the equality table of `point`: the product over
/// the variables of `point[i]` where the bit of `b` is set and of
/// `1 - point[i]` where it is not.
pub open spec fn chi(point: Seq<int>, b: int) -> int {
    eq_product(index_bits(point.len(), b), point)
}

/// The terms of an inner product.
pub open spec fn inner_terms(a: Seq<int>, b: Seq<int>) -> spec_fn(int) -> int {
    |i: int| a[i] * b[i]
}

/// The inner product of `a` with `b`, over the indices of `a`.
pub open spec fn inner_product(a: Seq<int>, b: Seq<int>) -> int {
    sum_to(a.len(), inner_terms(a, b))
}

/// The terms of the evaluation of a multilinear extension.
pub open spec fn mle_terms(point: Seq<int>, evals: Seq<int>) -> spec_fn(int) -> int {
    |b: int| chi(point, b) * evals[b]
}

/// The multilinear extension of `evals` at `point`: the sum over the indices
/// `b` of `chi(point, b) * evals[b]`.
pub open spec fn mle_eval(point: Seq<int>, evals: Seq<int>) -> int {
    sum_to(evals.len(), mle_terms(point, evals))
}

/// The line through `lo` at zero and `hi` at one, at `r`.
pub open spec fn line(lo: int, hi: int, r: int) -> int {
    (1 - r) * lo + r * hi
}

/// The table with its first variable set to `r`.
pub open spec fn fold_low(mle: Seq<int>, r: int) -> Seq<int> {
    let half = mle.len() / 2;
    Seq::new(half, |i: int| reduce(line(mle[i], mle[i + half], r)))
}

/// The table with its last variable set to `r`.
pub open spec fn fold_high(mle: Seq<int>, r: int) -> Seq<int> {
    Seq::new(mle.len() / 2, |i: int| reduce(line(mle[2 * i], mle[2 * i + 1], r)))
}

/// The table with its first variables set to the coordinates of `point`, in
/// order.
pub open spec fn fold_rows(table: Seq<int>, point: Seq<int>) -> Seq<int>
    decreases point.len(),
{
    if point.len() == 0 {
        table
    } else {
        fold_low(fold_rows(table, point.drop_last()), point.last())
    }
}

/// The table with its last variables set to the coordinates of `point`, the
/// last variable to the last coordinate.
pub open spec fn fold_columns(table: Seq<int>, point: Seq<int>) -> Seq<int>
    decreases point.len(),
{
    if point.len() == 0 {
        table
    } else {
        fold_columns(fold_high(table, point.last()), point.drop_last())
    }
}

/// `p` is the least power of two that is at least `n`.
pub open spec fn is_next_power_of_two(n: nat, p: nat) -> bool {
    exists|e: nat| p == #[trigger] pow2(e) && n <= p && (e == 0 || pow2((e - 1) as nat) < n)
}

/// The least power of two that is at least `n`.
pub open spec fn next_power_of_two(n: nat) -> nat {
    choose|p: nat| is_next_power_of_two(n, p)
}

/// The table followed by as many copies of `fill` as bring its length to
/// the next power of two.
pub open spec fn padded(terms: Seq<int>, fill: int) -> Seq<int> {
    terms + Seq::new((next_power_of_two(terms.len()) - terms.len()) as nat, |i: int| fill)
}

/// The least power of two that is at least `n` is `2^e` where `2^e` is at
/// least `n` and `2^(e - 1)` is not.
pub proof fn lemma_next_power_of_two(n: nat, e: nat)
    requires
        n <= pow2(e),
        e == 0 || pow2((e - 1) as nat) < n,
    ensures
        next_power_of_two(n) == pow2(e),
        log2(next_power_of_two(n)) == e,
{
    assert(is_next_power_of_two(n, pow2(e)));
    let p = next_power_of_two(n);
    let f = choose|f: nat| p == #[trigger] pow2(f) && n <= p && (f == 0 || pow2((f - 1) as nat) < n);
    if f < e {
        if f < e - 1 {
            lemma_pow2_strictly_increases(f, (e - 1) as nat);
        }
    } else if e < f {
        if e < f - 1 {
            lemma_pow2_strictly_increases(e, (f - 1) as nat);
        }
    }
    lemma_log2_pow2(e);
}

/// Every length has a next power of two: it is at least the length, and it
/// is two to the number of its halvings.
pub proof fn lemma_next_power_of_two_exists(n: nat) -> (e: nat)
    ensures
        n <= pow2(e),
        e == 0 || pow2((e - 1) as nat) < n,
        next_power_of_two(n) == pow2(e),
        log2(next_power_of_two(n)) == e,
        n <= next_power_of_two(n),
        1 <= next_power_of_two(n),
        pow2(log2(next_power_of_two(n))) == next_power_of_two(n),
    decreases n,
{
    lemma2_to64();
    let e: nat = if n <= 1 {
        0
    } else {
        let below = lemma_next_power_of_two_exists((n + 1) / 2);
        lemma_pow2_unfold(below + 1);
        if below > 0 {
            lemma_pow2_unfold(below);
        }
        below + 1
    };
    lemma_next_power_of_two(n, e);
    lemma_pow2_pos(e);
    e
}

/// The number of times `n` can be halved before it reaches one.
pub open spec fn log2(n: nat) -> nat
    decreases n,
{
    if n <= 1 {
        0
    } else {
        1 + log2(n / 2)
    }
}

/// The number of variables of a table of `len` entries.
pub fn ilog2(len: usize) -> (rounds: usize)
    ensures
        rounds == log2(len as nat),
{
    let mut rest = len;
    let mut rounds: usize = 0;
    while rest > 1
        invariant
            rounds + log2(rest as nat) == log2(len as nat),
            rounds + rest <= len || rest <= 1,
        decreases rest,
    {
        rest = rest / 2;
        rounds = rounds + 1;
    }
    rounds
}

/// A power of two has as many halvings as its exponent.
pub proof fn lemma_log2_pow2(e: nat)
    ensures
        log2(pow2(e)) == e,
    decreases e,
{
    lemma2_to64();
    if e > 0 {
        lemma_pow2_unfold(e);
        lemma_pow2_pos((e - 1) as nat);
        lemma_log2_pow2((e - 1) as nat);
        assert(pow2(e) / 2 == pow2((e - 1) as nat));
    }
}

/// A number is halved fewer times than it counts.
pub proof fn lemma_log2_below(n: nat)
    ensures
        log2(n) <= n,
    decreases n,
{
    if n > 1 {
        lemma_log2_below(n / 2);
    }
}

/// Two to the number of halvings of a number is at most the number.
pub proof fn lemma_pow2_log2_below(n: nat)
    requires
        n >= 1,
    ensures
        pow2(log2(n)) <= n,
    decreases n,
{
    lemma2_to64();
    if n > 1 {
        lemma_pow2_log2_below(n / 2);
        lemma_pow2_unfold(log2(n));
    }
}

/// Whether `n` is a power of two.
pub fn is_power_of_two(n: usize) -> (ok: bool)
    ensures
        ok == (pow2(log2(n as nat)) == n),
{
    if n == 0 {
        proof {
            lemma_pow2_pos(log2(0));
        }
        return false;
    }
    let bits = ilog2(n);
    let mut size: usize = 1;
    let mut i: usize = 0;
    proof {
        lemma2_to64();
        lemma_pow2_log2_below(n as nat);
    }
    while i < bits
        invariant
            i <= bits,
            bits == log2(n as nat),
            size == pow2(i as nat),
            pow2(bits as nat) <= n,
        decreases bits - i,
    {
        proof {
            lemma_pow2_unfold((i + 1) as nat);
            if i + 1 < bits {
                lemma_pow2_strictly_increases((i + 1) as nat, bits as nat);
            }
        }
        size = size * 2;
        i += 1;
    }
    size == n
}

/// The number of halvings of the next power of two of `n`.
pub fn padded_log2(n: usize) -> (bits: usize)
    requires
        n <= usize::MAX / 2 + 1,
    ensures
        bits == log2(next_power_of_two(n as nat)),
        bits < usize::MAX,
{
    let mut size: usize = 1;
    let mut bits: usize = 0;
    proof {
        lemma2_to64();
    }
    while size < n
        invariant
            n <= usize::MAX / 2 + 1,
            size >= 1,
            size == pow2(bits as nat),
            bits == 0 || pow2((bits - 1) as nat) < n,
            bits < size,
        decreases usize::MAX - size,
    {
        proof {
            lemma_pow2_unfold((bits + 1) as nat);
        }
        size = size * 2;
        bits = bits + 1;
    }
    proof {
        lemma_next_power_of_two(n as nat, bits as nat);
    }
    bits
}

/// Appending a variable appends a bit to every index.
pub proof fn lemma_index_bits_push(n: nat, t: int, c: int)
    requires
        0 <= t,
        c == 0 || c == 1,
    ensures
        index_bits(n + 1, 2 * t + c) =~= index_bits(n, t).push(c),
{
    lemma2_to64();
    let longer = index_bits(n + 1, 2 * t + c);
    let shorter = index_bits(n, t).push(c);
    assert(longer.len() == shorter.len());
    assert forall|i: int| 0 <= i < n + 1 implies longer[i] == shorter[i] by {
        assert(longer[i] == index_bit(n + 1, i, 2 * t + c));
        if i < n {
            assert(shorter[i] == index_bit(n, i, t));
            let q = pow2((n - 1 - i) as nat) as int;
            lemma_pow2_pos((n - 1 - i) as nat);
            lemma_pow2_unfold((n - i) as nat);
            assert(pow2((n + 1 - 1 - i) as nat) == 2 * q);
            lemma_div_denominator(2 * t + c, 2, q);
            assert((2 * t + c) / 2 == t);
            assert((2 * t + c) / (2 * q) == t / q);
        } else {
            assert(shorter[i] == c);
            assert(pow2((n + 1 - 1 - i) as nat) == 1);
            assert((2 * t + c) / 1 == 2 * t + c);
        }
    }
}

/// The entry of a longer point is the entry of the shorter one times the
/// factor of the new variable.
pub proof fn lemma_chi_push(point: Seq<int>, x: int, t: int, c: int)
    requires
        0 <= t,
        c == 0 || c == 1,
    ensures
        chi(point.push(x), 2 * t + c) == chi(point, t) * (if c == 1 {
            x
        } else {
            1 - x
        }),
{
    let n = point.len();
    lemma_index_bits_push(n, t, c);
    let longer = eq_factors(index_bits(n + 1, 2 * t + c), point.push(x));
    let shorter = eq_factors(index_bits(n, t), point);
    lemma_product_to_equal(n, longer, shorter);
    assert(longer(n as int) == eq_term(c, x));
    assert(product_to(n + 1, longer) == product_to(n, longer) * longer(n as int));
}

/// The table of the equality polynomial of `point`: entry `b` is
/// `chi(point, b)`.
pub fn chis(point: &[Scalar]) -> (table: Vec<Scalar>)
    requires
        pow2(point.len() as nat) <= usize::MAX,
    ensures
        table.len() == pow2(point.len() as nat),
        forall|b: int|
            0 <= b < table.len() ==> (#[trigger] table[b])@ == reduce(chi(point.deep_view(), b)),
{
    let n = point.len();
    let ghost values = point.deep_view();
    let mut table: Vec<Scalar> = Vec::new();
    table.push(Scalar::one());
    proof {
        lemma2_to64();
        lemma_reduce_zero_one();
        assert(values.take(0).len() == 0);
        assert(chi(values.take(0), 0) == 1);
    }
    let mut i: usize = 0;
    while i < n
        invariant
            i <= n,
            n == point.len(),
            values == point.deep_view(),
            pow2(n as nat) <= usize::MAX,
            table.len() == pow2(i as nat),
            forall|b: int|
                0 <= b < table.len() ==> (#[trigger] table[b])@ == reduce(
                    chi(values.take(i as int), b),
                ),
        decreases n - i,
    {
        let r = point[i];
        let one_minus = Scalar::one().sub(&r);
        let mut next: Vec<Scalar> = Vec::new();
        let ghost shorter = values.take(i as int);
        let ghost longer = values.take(i + 1);
        proof {
            assert(longer =~= shorter.push(r@));
            lemma_pow2_unfold((i + 1) as nat);
        }
        let mut t: usize = 0;
        while t < table.len()
            invariant
                t <= table.len(),
                r@ == values[i as int],
                one_minus@ == reduce(1 - r@),
                longer == shorter.push(r@),
                next.len() == 2 * t,
                forall|b: int|
                    0 <= b < table.len() ==> (#[trigger] table[b])@ == reduce(chi(shorter, b)),
                forall|b: int|
                    0 <= b < next.len() ==> (#[trigger] next[b])@ == reduce(chi(longer, b)),
            decreases table.len() - t,
        {
            let entry = table[t];
            let low = one_minus.mul(&entry);
            let high = r.mul(&entry);
            proof {
                let c = chi(shorter, t as int);
                lemma_chi_push(shorter, r@, t as int, 0);
                lemma_chi_push(shorter, r@, t as int, 1);
                lemma_reduce_mul(1 - r@, c);
                lemma_reduce_mul(r@, c);
                assert((1 - r@) * c == c * (1 - r@)) by (nonlinear_arith);
                assert(r@ * c == c * r@) by (nonlinear_arith);
            }
            next.push(low);
            next.push(high);
            t += 1;
        }
        table = next;
        i += 1;
    }
    proof {
        assert(values.take(n as int) =~= values);
    }
    table
}

/// The equality polynomial of the points `a` and `b`.
pub fn eval_eq(a: &[Scalar], b: &[Scalar]) -> (value: Scalar)
    requires
        a.len() <= b.len(),
    ensures
        value@ == reduce(eq_product(a.deep_view(), b.deep_view())),
{
    let ghost factors = eq_factors(a.deep_view(), b.deep_view());
    let one = Scalar::one();
    let mut value = Scalar::one();
    proof {
        lemma_reduce_zero_one();
    }
    let mut i: usize = 0;
    while i < a.len()
        invariant
            i <= a.len() <= b.len(),
            one@ == 1,
            factors == eq_factors(a.deep_view(), b.deep_view()),
            value@ == reduce(product_to(i as nat, factors)),
        decreases a.len() - i,
    {
        let x = a[i];
        let y = b[i];
        let both = x.mul(&y);
        let neither = one.sub(&x).mul(&one.sub(&y));
        let term = both.add(&neither);
        let next = value.mul(&term);
        proof {
            lemma_reduce_mul(1 - x@, 1 - y@);
            lemma_reduce_add(x@ * y@, (1 - x@) * (1 - y@));
            assert(term@ == reduce(eq_term(x@, y@)));
            lemma_reduce_mul(product_to(i as nat, factors), eq_term(x@, y@));
            assert(factors(i as int) == eq_term(x@, y@));
        }
        value = next;
        i += 1;
    }
    value
}

/// The inner product of a table of weights with a table of values.
pub fn eval_chis(chis: &[Scalar], evals: &[Scalar]) -> (value: Scalar)
    requires
        chis.len() == evals.len(),
    ensures
        value@ == reduce(inner_product(chis.deep_view(), evals.deep_view())),
{
    let ghost terms = inner_terms(chis.deep_view(), evals.deep_view());
    let mut value = Scalar::zero();
    proof {
        lemma_reduce_zero_one();
    }
    let mut i: usize = 0;
    while i < chis.len()
        invariant
            i <= chis.len() == evals.len(),
            terms == inner_terms(chis.deep_view(), evals.deep_view()),
            value@ == reduce(sum_to(i as nat, terms)),
        decreases chis.len() - i,
    {
        let term = chis[i].mul(&evals[i]);
        let next = value.add(&term);
        proof {
            lemma_reduce_add(sum_to(i as nat, terms), chis[i as int]@ * evals[i as int]@);
            assert(terms(i as int) == chis[i as int]@ * evals[i as int]@);
        }
        value = next;
        i += 1;
    }
    value
}

/// The multilinear extension of `evals`, evaluated at `point`.
pub fn eval_mle(point: &[Scalar], evals: &[Scalar]) -> (value: Scalar)
    requires
        evals.len() == pow2(point.len() as nat),
    ensures
        value@ == reduce(mle_eval(point.deep_view(), evals.deep_view())),
{
    let table = chis(point);
    let value = eval_chis(table.as_slice(), evals);
    proof {
        let weights = table.deep_view();
        let values = evals.deep_view();
        assert forall|b: int| 0 <= b < weights.len() implies reduce(
            #[trigger] inner_terms(weights, values)(b),
        ) == reduce(mle_terms(point.deep_view(), values)(b)) by {
            assert(weights[b] == table[b]@);
            lemma_reduce_mul(chi(point.deep_view(), b), values[b]);
        }
        lemma_sum_to_congruent(
            weights.len(),
            inner_terms(weights, values),
            mle_terms(point.deep_view(), values),
        );
    }
    value
}

/// The table followed by as many copies of `fill` as bring its length to a
/// power of two.
pub fn pad_with(terms: &[Scalar], fill: Scalar) -> (out: Vec<Scalar>)
    requires
        terms.len() <= usize::MAX / 2 + 1,
    ensures
        out.deep_view() == padded(terms.deep_view(), fill@),
        out.len() == next_power_of_two(terms.len() as nat),
{
    let n = terms.len();
    let mut size: usize = 1;
    let ghost mut e: nat = 0;
    proof {
        lemma2_to64();
    }
    while size < n
        invariant
            n <= usize::MAX / 2 + 1,
            size >= 1,
            size == pow2(e),
            e == 0 || pow2((e - 1) as nat) < n,
        decreases usize::MAX - size,
    {
        proof {
            lemma_pow2_unfold(e + 1);
            e = e + 1;
        }
        size = size * 2;
    }
    proof {
        lemma_next_power_of_two(n as nat, e);
    }
    let mut out: Vec<Scalar> = Vec::new();
    let mut i: usize = 0;
    while i < n
        invariant
            i <= n == terms.len(),
            out.len() == i,
            out.deep_view() == terms.deep_view().take(i as int),
        decreases n - i,
    {
        let ghost before = out.deep_view();
        out.push(terms[i]);
        proof {
            assert(out.deep_view() =~= before.push(terms[i as int]@));
            assert(terms.deep_view().take(i + 1) =~= before.push(terms[i as int]@));
        }
        i += 1;
    }
    while i < size
        invariant
            n <= i <= size,
            n == terms.len(),
            out.len() == i,
            out.deep_view() == terms.deep_view() + Seq::new((i - n) as nat, |j: int| fill@),
        decreases size - i,
    {
        let ghost before = out.deep_view();
        out.push(fill);
        proof {
            assert(out.deep_view() =~= before.push(fill@));
            assert(terms.deep_view() + Seq::new((i + 1 - n) as nat, |j: int| fill@)
                =~= before.push(fill@));
        }
        i += 1;
    }
    proof {
        assert(terms.deep_view().take(n as int) =~= terms.deep_view());
    }
    out
}

/// The table followed by as many zeros as bring its length to a power of
/// two.
pub fn pad_next_power_of_two(terms: &[Scalar]) -> (out: Vec<Scalar>)
    requires
        terms.len() <= usize::MAX / 2 + 1,
    ensures
        out.deep_view() == padded(terms.deep_view(), 0),
        out.len() == next_power_of_two(terms.len() as nat),
{
    pad_with(terms, Scalar::zero())
}

/// Sets the first variable of a table to `r`, which halves the table.
pub fn set_variable_low(mle: &[Scalar], r: Scalar) -> (folded: Vec<Scalar>)
    ensures
        folded.deep_view() == fold_low(mle.deep_view(), r@),
{
    let half = mle.len() / 2;
    let one_minus = Scalar::one().sub(&r);
    let mut folded: Vec<Scalar> = Vec::new();
    let mut i: usize = 0;
    while i < half
        invariant
            i <= half == mle.len() / 2,
            one_minus@ == reduce(1 - r@),
            folded.deep_view() == fold_low(mle.deep_view(), r@).take(i as int),
        decreases half - i,
    {
        let ghost before = folded.deep_view();
        let entry = one_minus.mul(&mle[i]).add(&r.mul(&mle[i + half]));
        proof {
            lemma_line(mle[i as int]@, mle[i + half]@, r@, one_minus@, entry@);
        }
        folded.push(entry);
        proof {
            assert(folded.deep_view() =~= before.push(entry@));
            assert(fold_low(mle.deep_view(), r@).take(i + 1) =~= before.push(entry@));
        }
        i += 1;
    }
    proof {
        assert(fold_low(mle.deep_view(), r@).take(half as int) =~= fold_low(
            mle.deep_view(),
            r@,
        ));
    }
    folded
}

/// Sets the last variable of a table to `r`, which halves the table.
pub fn set_variable_high(mle: &[Scalar], r: Scalar) -> (folded: Vec<Scalar>)
    ensures
        folded.deep_view() == fold_high(mle.deep_view(), r@),
{
    let half = mle.len() / 2;
    let one_minus = Scalar::one().sub(&r);
    let mut folded: Vec<Scalar> = Vec::new();
    let mut i: usize = 0;
    while i < half
        invariant
            i <= half == mle.len() / 2,
            one_minus@ == reduce(1 - r@),
            folded.deep_view() == fold_high(mle.deep_view(), r@).take(i as int),
        decreases half - i,
    {
        let ghost before = folded.deep_view();
        let entry = one_minus.mul(&mle[2 * i]).add(&r.mul(&mle[2 * i + 1]));
        proof {
            lemma_line(mle[2 * i]@, mle[2 * i + 1]@, r@, one_minus@, entry@);
        }
        folded.push(entry);
        proof {
            assert(folded.deep_view() =~= before.push(entry@));
            assert(fold_high(mle.deep_view(), r@).take(i + 1) =~= before.push(entry@));
        }
        i += 1;
    }
    proof {
        assert(fold_high(mle.deep_view(), r@).take(half as int) =~= fold_high(
            mle.deep_view(),
            r@,
        ));
    }
    folded
}

/// The field computation of a point on a line.
pub proof fn lemma_line(lo: int, hi: int, r: int, one_minus: int, entry: int)
    requires
        one_minus == reduce(1 - r),
        entry == reduce(reduce(one_minus * lo) + reduce(r * hi)),
    ensures
        entry == reduce(line(lo, hi, r)),
{
    lemma_reduce_mul(1 - r, lo);
    lemma_reduce_add((1 - r) * lo, r * hi);
    lemma_reduce_add(one_minus * lo, r * hi);
}

} // verus!
