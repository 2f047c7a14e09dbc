//! The smallest and largest of numbers, and sums and means of integers.
use vstd::prelude::*;

use crate::arith;
use crate::arith::{meaning, NumOp};
use crate::number;
use crate::number::{nearest, Number};
use crate::number_law::small;

verus! {

/// `n` is one of the numbers, and none of them is below it; those that are not
/// numbers do not count.
pub open spec fn is_smallest(n: Number, v: Seq<Number>) -> bool {
    &&& v.contains(n)
    &&& forall|i: int| 0 <= i < v.len() && !(#[trigger] v[i]).nan() ==> n.at_most(v[i])
}

/// `n` is one of the numbers, and it is below none of them; those that are not
/// numbers do not count.
pub open spec fn is_largest(n: Number, v: Seq<Number>) -> bool {
    &&& v.contains(n)
    &&& forall|i: int| 0 <= i < v.len() && !(#[trigger] v[i]).nan() ==> v[i].at_most(n)
}

/// One of the numbers is no NaN.
pub open spec fn has_number(v: Seq<Number>) -> bool {
    exists|i: int| 0 <= i < v.len() && !(#[trigger] v[i]).nan()
}

proof fn lemma_least(v: Seq<Number>)
    ensures
        !arith::least(v).nan(),
        arith::least(v).bits == number::INFINITE_MAGNITUDE || v.contains(arith::least(v)),
        forall|i: int| 0 <= i < v.len() && !(#[trigger] v[i]).nan() ==> arith::least(v).at_most(v[i]),
    decreases v.len(),
{
    if v.len() > 0 {
        let head = v.drop_last();
        lemma_least(head);
        let m = arith::least(head);
        if head.contains(m) {
            let i = choose|i: int| 0 <= i < head.len() && head[i] == m;
            assert(v[i] == m);
        }
        assert(v[v.len() - 1] == v.last());
        assert forall|i: int| 0 <= i < v.len() && !(#[trigger] v[i]).nan() implies arith::least(
            v,
        ).at_most(v[i]) by {
            if i < head.len() {
                assert(head[i] == v[i]);
            }
        }
    }
}

proof fn lemma_greatest(v: Seq<Number>)
    ensures
        !arith::greatest(v).nan(),
        arith::greatest(v).bits == number::SIGN_WEIGHT + number::INFINITE_MAGNITUDE || v.contains(
            arith::greatest(v),
        ),
        forall|i: int| 0 <= i < v.len() && !(#[trigger] v[i]).nan() ==> v[i].at_most(arith::greatest(v)),
    decreases v.len(),
{
    if v.len() > 0 {
        let head = v.drop_last();
        lemma_greatest(head);
        let m = arith::greatest(head);
        if head.contains(m) {
            let i = choose|i: int| 0 <= i < head.len() && head[i] == m;
            assert(v[i] == m);
        }
        assert(v[v.len() - 1] == v.last());
        assert forall|i: int| 0 <= i < v.len() && !(#[trigger] v[i]).nan() implies v[i].at_most(
            arith::greatest(v),
        ) by {
            if i < head.len() {
                assert(head[i] == v[i]);
            }
        }
    }
}

/// The smallest and the largest of numbers are among them, and none is smaller or
/// larger.
pub proof fn law_extremes(v: Seq<Number>)
    requires
        has_number(v),
    ensures
        is_smallest(arith::least(v), v),
        is_largest(arith::greatest(v), v),
{
    lemma_least(v);
    lemma_greatest(v);
    let i = choose|i: int| 0 <= i < v.len() && !(#[trigger] v[i]).nan();
    assert(arith::least(v).at_most(v[i]));
    assert(v[i].at_most(arith::greatest(v)));
    if arith::least(v).bits == number::INFINITE_MAGNITUDE {
        assert(v[i].bits == number::INFINITE_MAGNITUDE);
        assert(v[i] == arith::least(v));
    }
    if arith::greatest(v).bits == number::SIGN_WEIGHT + number::INFINITE_MAGNITUDE {
        assert(v[i].bits == arith::greatest(v).bits);
        assert(v[i] == arith::greatest(v));
    }
}

/// Two numbers that are smallest, or largest, of lists with the same numbers in
/// another order are equal.
pub proof fn law_extremes_do_not_depend_on_order(
    u: Seq<Number>,
    v: Seq<Number>,
    m: Number,
    n: Number,
)
    requires
        u.to_multiset() == v.to_multiset(),
        has_number(u),
        (is_smallest(m, u) && is_smallest(n, v)) || (is_largest(m, u) && is_largest(n, v)),
        !m.nan(),
        !n.nan(),
    ensures
        m.equals(n),
{
    u.to_multiset_ensures();
    v.to_multiset_ensures();
    assert(u.contains(m));
    assert(v.contains(n));
    assert(u.to_multiset().contains(m));
    assert(v.to_multiset().contains(n));
    assert(v.contains(m));
    assert(u.contains(n));
    let i = choose|i: int| 0 <= i < v.len() && v[i] == m;
    let j = choose|j: int| 0 <= j < u.len() && u[j] == n;
    assert(!v[i].nan());
    assert(!u[j].nan());
}

/// The doubles of integers.
pub open spec fn doubles(v: Seq<int>) -> Seq<Number> {
    Seq::new(v.len(), |i: int| nearest(v[i]))
}

/// The sum of integers.
pub open spec fn total(v: Seq<int>) -> int
    decreases v.len(),
{
    if v.len() == 0 {
        0
    } else {
        v[0] + total(v.skip(1))
    }
}

/// All sums of the first few integers are small, and so are the integers.
pub open spec fn sums_small(v: Seq<int>) -> bool {
    &&& forall|i: int| 0 <= i < v.len() ==> small(#[trigger] v[i])
    &&& forall|k: int| 0 <= k <= v.len() ==> small(#[trigger] total(v.take(k)))
}

/// Arithmetic that is exact where the operands and the result are small integers,
/// as that of doubles is: sums, differences, products, quotients and remainders,
/// powers to the fourth, and roots of squares.
pub open spec fn exact<F: Fn(NumOp) -> Number>(calc: F) -> bool {
    &&& forall|a: int| small(a) ==> #[trigger] meaning(
        calc,
        NumOp::Add(meaning(calc, NumOp::EmptySum), nearest(a)),
    ) == nearest(a)
    &&& forall|a: int, b: int|
        small(a) && small(b) && small(a + b) ==> #[trigger] meaning(
            calc,
            NumOp::Add(nearest(a), nearest(b)),
        ) == nearest(a + b)
    &&& forall|a: int, b: int|
        small(a) && small(b) && small(a - b) ==> #[trigger] meaning(
            calc,
            NumOp::Sub(nearest(a), nearest(b)),
        ) == nearest(a - b)
    &&& forall|a: int, b: int|
        small(a) && small(b) && small(a * b) && a * b != 0 ==> #[trigger] meaning(
            calc,
            NumOp::Mul(nearest(a), nearest(b)),
        ) == nearest(a * b)
    &&& forall|a: int, b: int|
        small(a) && small(b) && b > 0 && a % b == 0 ==> #[trigger] meaning(
            calc,
            NumOp::Div(nearest(a), nearest(b)),
        ) == nearest(a / b)
    &&& forall|a: int, b: int|
        0 <= a && small(a) && 0 < b && small(b) ==> #[trigger] meaning(
            calc,
            NumOp::Rem(nearest(a), nearest(b)),
        ) == nearest(a % b)
    &&& forall|a: int|
        small(a) && small(a * a) ==> #[trigger] meaning(calc, NumOp::PowInt(nearest(a), 2))
            == nearest(a * a)
    &&& forall|a: int|
        small(a) && small(a * a * a) ==> #[trigger] meaning(calc, NumOp::PowInt(nearest(a), 3))
            == nearest(a * a * a)
    &&& forall|a: int|
        small(a) && small(a * a * a * a) ==> #[trigger] meaning(calc, NumOp::PowInt(nearest(a), 4))
            == nearest(a * a * a * a)
    &&& forall|a: int|
        0 <= a && small(a * a) ==> #[trigger] meaning(calc, NumOp::Sqrt(nearest(a * a)))
            == nearest(a)
}

pub proof fn lemma_total_last(v: Seq<int>)
    requires
        v.len() > 0,
    ensures
        total(v) == total(v.drop_last()) + v.last(),
    decreases v.len(),
{
    if v.len() == 1 {
        assert(v.skip(1) =~= Seq::empty());
        assert(v.drop_last() =~= Seq::empty());
    } else {
        lemma_total_last(v.skip(1));
        assert(v.skip(1).drop_last() =~= v.drop_last().skip(1));
        assert(v.drop_last()[0] == v[0]);
    }
}

/// The sum of integers, taken with exact arithmetic, is the double of their sum.
pub proof fn law_sum_of_integers<F: Fn(NumOp) -> Number>(v: Seq<int>, calc: F)
    requires
        exact(calc),
        v.len() > 0,
        sums_small(v),
    ensures
        arith::sum_of(doubles(v), calc) == nearest(total(v)),
    decreases v.len(),
{
    let head = v.drop_last();
    lemma_total_last(v);
    assert(v.take(v.len() as int) =~= v);
    assert(small(total(v.take(v.len() as int))));
    assert(v.take(head.len() as int) =~= head);
    assert(small(total(v.take(head.len() as int))));
    assert(doubles(v).drop_last() =~= doubles(head));
    assert(small(v[v.len() - 1]));
    if head.len() == 0 {
        assert(doubles(head) =~= Seq::empty());
        assert(total(head) == 0);
    } else {
        assert(sums_small(head)) by {
            assert forall|k: int| 0 <= k <= head.len() implies small(#[trigger] total(head.take(k))) by {
                assert(head.take(k) =~= v.take(k));
                assert(small(total(v.take(k))));
            }
            assert forall|i: int| 0 <= i < head.len() implies small(#[trigger] head[i]) by {
                assert(head[i] == v[i]);
            }
        }
        law_sum_of_integers(head, calc);
    }
}

/// The mean of integers whose sum their number divides is the double of the quotient.
pub proof fn law_mean_of_integers<F: Fn(NumOp) -> Number>(v: Seq<int>, m: int, calc: F)
    requires
        exact(calc),
        v.len() > 0,
        small(v.len() as int),
        sums_small(v),
        total(v) == m * v.len(),
    ensures
        arith::mean_of(doubles(v), calc) == nearest(m),
{
    law_sum_of_integers(v, calc);
    assert(v.take(v.len() as int) =~= v);
    assert(small(total(v.take(v.len() as int))));
    let n = v.len() as int;
    vstd::arithmetic::div_mod::lemma_mod_multiples_basic(m, n);
    vstd::arithmetic::div_mod::lemma_div_multiples_vanish(m, n);
    assert(n * m == m * n) by (nonlinear_arith);
    assert(doubles(v).len() == n);
}

/// The squares of the differences to an integer.
pub open spec fn squares(v: Seq<int>, m: int) -> Seq<int> {
    Seq::new(v.len(), |i: int| (v[i] - m) * (v[i] - m))
}

/// The differences to an integer and their squares are small.
pub open spec fn squares_small(v: Seq<int>, m: int) -> bool {
    &&& small(m)
    &&& forall|i: int|
        0 <= i < v.len() ==> small(#[trigger] v[i] - m) && small((v[i] - m) * (v[i] - m))
    &&& sums_small(squares(v, m))
}

/// The sum of the squared differences of integers to an integer is the double of
/// that sum.
pub proof fn law_squares_of_integers<F: Fn(NumOp) -> Number>(v: Seq<int>, m: int, calc: F)
    requires
        exact(calc),
        v.len() > 0,
        sums_small(v),
        squares_small(v, m),
    ensures
        arith::sum_of(arith::deviations(doubles(v), nearest(m), calc), calc) == nearest(
            total(squares(v, m)),
        ),
{
    let d = arith::deviations(doubles(v), nearest(m), calc);
    let q = squares(v, m);
    assert(d =~= doubles(q)) by {
        assert forall|i: int| 0 <= i < d.len() implies d[i] == doubles(q)[i] by {
            assert(small(v[i]));
            assert(small(v[i] - m) && small((v[i] - m) * (v[i] - m)));
            assert(meaning(calc, NumOp::Sub(nearest(v[i]), nearest(m))) == nearest(v[i] - m));
            assert(meaning(calc, NumOp::PowInt(nearest(v[i] - m), 2)) == nearest(
                (v[i] - m) * (v[i] - m),
            ));
        }
    }
    law_sum_of_integers(q, calc);
}

/// Numbers are added up one after the other, from the empty sum on, and each counts
/// once; the mean is the sum over their number.
pub proof fn law_sum_grows<F: Fn(NumOp) -> Number>(v: Seq<Number>, x: Number, calc: F)
    ensures
        crate::arith::sum_of(Seq::empty(), calc) == meaning(calc, NumOp::EmptySum),
        crate::arith::sum_of(v.push(x), calc) == meaning(
            calc,
            NumOp::Add(crate::arith::sum_of(v, calc), x),
        ),
        meaning(
            calc,
            NumOp::Div(crate::arith::sum_of(v, calc), nearest(v.len() as int)),
        ) == crate::arith::mean_of(v, calc),
{
    assert(v.push(x).drop_last() =~= v);
}

} // verus!
