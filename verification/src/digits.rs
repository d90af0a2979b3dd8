//! What the sum of distinct digits can be: the bound behind the cage check.

use vstd::prelude::*;
use crate::field::{Coords, in_grid};
use crate::tally::{tally, lemma_tally_same, lemma_tally_differ_at, lemma_tally_split, lemma_tally_between};

verus! {

/// The least total of `b` distinct digits: `1 + 2 + ... + b`.
pub open spec fn least_fill(b: int) -> int {
    b * (b + 1) / 2
}

/// The greatest total of `b` distinct digits: `9 + 8 + ...`, `b` terms.
pub open spec fn greatest_fill(b: int) -> int {
    b * (19 - b) / 2
}

/// No cells to fill add nothing, at the least and at the most.
pub proof fn lemma_fill_nothing()
    ensures
        least_fill(0) == 0,
        greatest_fill(0) == 0,
{
    assert(0int * (0int + 1) == 0 && 0int * (19 - 0int) == 0) by (nonlinear_arith);
}

/// On the cells that `sel` picks, `f` is a digit from 1 to 9 and no two
/// cells have the same.
pub open spec fn distinct_digits(sel: spec_fn(Coords) -> bool, f: spec_fn(Coords) -> int) -> bool {
    &&& forall|p: Coords| in_grid(p) && #[trigger] sel(p) ==> 1 <= f(p) <= 9
    &&& forall|p: Coords, q: Coords|
        in_grid(p) && in_grid(q) && #[trigger] sel(p) && #[trigger] sel(q) && p != q ==> f(p)
            != f(q)
}

/// The weight that counts the cells picked by `sel`.
pub open spec fn counting(sel: spec_fn(Coords) -> bool) -> spec_fn(Coords) -> int {
    |p: Coords|
        if sel(p) {
            1int
        } else {
            0int
        }
}

/// The weight that adds up `f` over the cells picked by `sel`.
pub open spec fn adding(sel: spec_fn(Coords) -> bool, f: spec_fn(Coords) -> int) -> spec_fn(
    Coords,
) -> int {
    |p: Coords|
        if sel(p) {
            f(p)
        } else {
            0int
        }
}

spec fn up_to(sel: spec_fn(Coords) -> bool, f: spec_fn(Coords) -> int, t: int) -> spec_fn(
    Coords,
) -> bool {
    |p: Coords| sel(p) && f(p) <= t
}

spec fn exactly(sel: spec_fn(Coords) -> bool, f: spec_fn(Coords) -> int, t: int) -> spec_fn(
    Coords,
) -> bool {
    |p: Coords| sel(p) && f(p) == t
}

spec fn nothing() -> spec_fn(Coords) -> int {
    |p: Coords| 0int
}

proof fn lemma_nothing()
    ensures
        tally(nothing()) == 0,
{
    lemma_tally_between(nothing(), 0, 0);
}

/// At most one picked cell holds the digit `t`, so those cells count 0 or 1
/// and add up to `t` times that.
proof fn lemma_one_digit(sel: spec_fn(Coords) -> bool, f: spec_fn(Coords) -> int, t: int)
    requires
        distinct_digits(sel, f),
    ensures
        0 <= tally(counting(exactly(sel, f, t))) <= 1,
        tally(adding(exactly(sel, f, t), f)) == t * tally(counting(exactly(sel, f, t))),
{
    let only = exactly(sel, f, t);
    lemma_nothing();
    if exists|p: Coords| in_grid(p) && #[trigger] only(p) {
        let c = choose|p: Coords| in_grid(p) && #[trigger] only(p);
        assert forall|p: Coords| in_grid(p) && p != c implies #[trigger] counting(only)(p)
            == nothing()(p) by {
            if only(p) {
                assert(sel(p) && sel(c));
            }
        }
        assert forall|p: Coords| in_grid(p) && p != c implies #[trigger] adding(only, f)(p)
            == nothing()(p) by {
            if only(p) {
                assert(sel(p) && sel(c));
            }
        }
        lemma_tally_differ_at(counting(only), nothing(), c);
        lemma_tally_differ_at(adding(only, f), nothing(), c);
    } else {
        assert forall|p: Coords| in_grid(p) implies #[trigger] counting(only)(p) == nothing()(
            p,
        ) by {
            assert(!only(p));
        }
        assert forall|p: Coords| in_grid(p) implies #[trigger] adding(only, f)(p) == nothing()(
            p,
        ) by {
            assert(!only(p));
        }
        lemma_tally_same(counting(only), nothing());
        lemma_tally_same(adding(only, f), nothing());
    }
}

/// The digits up to `t` that are picked: there are at most `t` of them, and
/// their total lies between the `b` least and the `b` greatest of `1..=t`.
proof fn lemma_digits_up_to(sel: spec_fn(Coords) -> bool, f: spec_fn(Coords) -> int, t: int)
    requires
        distinct_digits(sel, f),
        0 <= t <= 9,
    ensures
        0 <= tally(counting(up_to(sel, f, t))) <= t,
        ({
            let b = tally(counting(up_to(sel, f, t)));
            let s = tally(adding(up_to(sel, f, t), f));
            b * (b + 1) <= 2 * s <= b * (2 * t + 1 - b)
        }),
    decreases t,
{
    let now = up_to(sel, f, t);
    if t == 0 {
        lemma_nothing();
        assert forall|p: Coords| in_grid(p) implies #[trigger] counting(now)(p) == nothing()(
            p,
        ) by {
            if now(p) {
                assert(sel(p));
            }
        }
        assert forall|p: Coords| in_grid(p) implies #[trigger] adding(now, f)(p) == nothing()(
            p,
        ) by {
            if now(p) {
                assert(sel(p));
            }
        }
        lemma_tally_same(counting(now), nothing());
        lemma_tally_same(adding(now, f), nothing());
        let b = tally(counting(now));
        assert(b * (b + 1) == 0 && b * (2 * t + 1 - b) == 0) by (nonlinear_arith)
            requires
                b == 0,
        ;
    } else {
        let before = up_to(sel, f, t - 1);
        let only = exactly(sel, f, t);
        lemma_digits_up_to(sel, f, t - 1);
        lemma_one_digit(sel, f, t);
        assert forall|p: Coords| in_grid(p) implies #[trigger] counting(now)(p) == counting(
            before,
        )(p) + counting(only)(p) by {}
        assert forall|p: Coords| in_grid(p) implies #[trigger] adding(now, f)(p) == adding(
            before,
            f,
        )(p) + adding(only, f)(p) by {}
        lemma_tally_split(counting(now), counting(before), counting(only));
        lemma_tally_split(adding(now, f), adding(before, f), adding(only, f));
        let b0 = tally(counting(before));
        let s0 = tally(adding(before, f));
        let o = tally(counting(only));
        let b = tally(counting(now));
        let s = tally(adding(now, f));
        assert(b == b0 + o);
        assert(s == s0 + t * o);
        if o == 0 {
            assert(b * (2 * t + 1 - b) == b * (2 * (t - 1) + 1 - b) + 2 * b) by (nonlinear_arith);
            assert(t * o == 0);
        } else {
            assert(o == 1);
            assert(t * o == t);
            assert(b * (b + 1) == b0 * (b0 + 1) + 2 * b) by (nonlinear_arith)
                requires
                    b == b0 + 1,
            ;
            assert(b * (2 * t + 1 - b) == b0 * (2 * (t - 1) + 1 - b0) + 2 * t) by (nonlinear_arith)
                requires
                    b == b0 + 1,
            ;
        }
    }
}

/// Distinct digits on `b` cells add up to no less than `1 + ... + b` and no
/// more than `9 + 8 + ...` with `b` terms; and `b` is at most 9.
pub proof fn lemma_distinct_digits_total(sel: spec_fn(Coords) -> bool, f: spec_fn(Coords) -> int)
    requires
        distinct_digits(sel, f),
    ensures
        0 <= tally(counting(sel)) <= 9,
        least_fill(tally(counting(sel))) <= tally(adding(sel, f)) <= greatest_fill(
            tally(counting(sel)),
        ),
{
    let all = up_to(sel, f, 9);
    lemma_digits_up_to(sel, f, 9);
    assert forall|p: Coords| in_grid(p) implies #[trigger] counting(all)(p) == counting(sel)(
        p,
    ) by {
        if sel(p) {
            assert(all(p));
        }
    }
    assert forall|p: Coords| in_grid(p) implies #[trigger] adding(all, f)(p) == adding(sel, f)(
        p,
    ) by {
        if sel(p) {
            assert(all(p));
        }
    }
    lemma_tally_same(counting(all), counting(sel));
    lemma_tally_same(adding(all, f), adding(sel, f));
    let b = tally(counting(sel));
    let s = tally(adding(sel, f));
    assert(b * (b + 1) <= 2 * s <= b * (19 - b));
    lemma_fill_doubled(b);
}

/// Both products are even, so halving them loses nothing.
pub proof fn lemma_fill_doubled(b: int)
    requires
        0 <= b,
    ensures
        2 * least_fill(b) == b * (b + 1),
        2 * greatest_fill(b) == b * (19 - b),
    decreases b,
{
    if b > 0 {
        lemma_fill_doubled(b - 1);
        let low = b * (b + 1);
        let low0 = (b - 1) * ((b - 1) + 1);
        let high = b * (19 - b);
        let high0 = (b - 1) * (19 - (b - 1));
        assert(low == low0 + 2 * b) by (nonlinear_arith)
            requires
                low == b * (b + 1),
                low0 == (b - 1) * ((b - 1) + 1),
        ;
        assert(high == high0 + 2 * (10 - b)) by (nonlinear_arith)
            requires
                high == b * (19 - b),
                high0 == (b - 1) * (19 - (b - 1)),
        ;
        assert(2 * (low0 / 2) == low0);
        assert(2 * (high0 / 2) == high0);
    } else {
        assert(b * (b + 1) == 0 && b * (19 - b) == 0) by (nonlinear_arith)
            requires
                b == 0,
        ;
    }
}

} // verus!
