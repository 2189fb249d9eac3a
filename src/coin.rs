//! Drawing a number from `start..end` with a fair coin of `arity` sides.
//! Each round reads enough tosses, as base-`arity` digits, to cover the range;
//! a number past the range is thrown away and a new round begins. A round
//! needs tosses from outside, so the draw advances one toss at a time: the
//! caller tosses and hands each result to `toss_coin_next` until it is done.
use vstd::arithmetic::power::pow;
use vstd::prelude::*;

verus! {

/// A draw in progress.
pub struct Draw {
    start: usize,
    n: usize,
    arity: usize,
    answer: usize,
    sentinel: usize,
    digits: Ghost<nat>,
    bound: Ghost<int>,
}

/// What a draw needs next.
pub enum TossStep {
    /// The drawn number.
    Done(usize),
    /// One more toss.
    Toss(Draw),
}

impl Draw {
    /// The first number of the range.
    pub closed spec fn start_spec(&self) -> int {
        self.start as int
    }

    /// How many numbers the range holds.
    pub closed spec fn n_spec(&self) -> int {
        self.n as int
    }

    /// The number of sides of the coin.
    pub closed spec fn arity_spec(&self) -> int {
        self.arity as int
    }

    /// The digits read so far in this round, as a number.
    pub closed spec fn answer_spec(&self) -> int {
        self.answer as int
    }

    /// What is left of the round: it ends when this reaches zero.
    pub closed spec fn sentinel_spec(&self) -> int {
        self.sentinel as int
    }

    /// The round is consistent: `sentinel` is the round's bound divided by
    /// `arity` once per digit read, and the digits read stay below the bound.
    pub closed spec fn wf(&self) -> bool {
        &&& self.arity >= 2
        &&& self.n >= 2
        &&& self.start + self.n <= usize::MAX
        &&& (self.n + 1) * self.arity <= usize::MAX
        &&& self.sentinel >= 1
        &&& (self.bound@ == self.n - 1 || self.bound@ == self.n)
        &&& self.sentinel == self.bound@ / pow(self.arity as int, self.digits@)
        &&& self.answer < pow(self.arity as int, self.digits@)
    }
}

/// Starts drawing from `start..end` with a coin of `arity` sides. A range of
/// one number needs no toss.
pub fn toss_coin_start(start: usize, end: usize, arity: usize) -> (r: TossStep)
    requires
        start < end,
        arity >= 2,
        (end - start + 1) * arity <= usize::MAX,
    ensures
        end - start == 1 ==> r == TossStep::Done(start),
        end - start > 1 ==> (r matches TossStep::Toss(d) && d.wf() && d.start_spec() == start && d.n_spec()
            == end - start && d.arity_spec() == arity && d.answer_spec() == 0 && d.sentinel_spec() == end
            - start - 1),
{
    let num_of_possibilities = end - start;
    if num_of_possibilities == 1 {
        return TossStep::Done(start);
    }
    proof {
        reveal(pow);
        assert(pow(arity as int, 0) == 1);
    }
    TossStep::Toss(
        Draw {
            start,
            n: num_of_possibilities,
            arity,
            answer: 0,
            sentinel: num_of_possibilities - 1,
            digits: Ghost(0),
            bound: Ghost(num_of_possibilities - 1),
        },
    )
}

/// Takes one toss `coin` into the draw: it becomes the next digit. When the
/// round ends, the number is returned if it lies in the range; otherwise a
/// new round begins with the bound `n` (not `n - 1`).
pub fn toss_coin_next(draw: Draw, coin: usize) -> (r: TossStep)
    requires
        draw.wf(),
        coin < draw.arity_spec(),
    ensures
        ({
            let a2 = draw.answer_spec() * draw.arity_spec() + coin;
            let s2 = draw.sentinel_spec() / draw.arity_spec();
            &&& s2 > 0 ==> (r matches TossStep::Toss(d) && d.answer_spec() == a2 && d.sentinel_spec() == s2)
            &&& s2 == 0 && a2 < draw.n_spec() ==> r == TossStep::Done((draw.start_spec() + a2) as usize)
            &&& s2 == 0 && a2 >= draw.n_spec() ==> (r matches TossStep::Toss(d) && d.answer_spec() == 0
                && d.sentinel_spec() == draw.n_spec())
        }),
        r matches TossStep::Toss(d) ==> d.wf() && d.start_spec() == draw.start_spec() && d.n_spec()
            == draw.n_spec() && d.arity_spec() == draw.arity_spec(),
        r matches TossStep::Done(x) ==> draw.start_spec() <= x < draw.start_spec() + draw.n_spec(),
{
    let ghost p = pow(draw.arity as int, draw.digits@);
    proof {
        vstd::arithmetic::power::lemma_pow_positive(draw.arity as int, draw.digits@);
        // a bound below p would leave nothing of the round
        if p > draw.bound@ {
            vstd::arithmetic::div_mod::lemma_basic_div(draw.bound@, p);
        }
        assert(draw.answer * draw.arity + coin < p * draw.arity) by (nonlinear_arith)
            requires
                draw.answer < p,
                coin < draw.arity,
        ;
        assert(p * draw.arity <= draw.n * draw.arity) by (nonlinear_arith)
            requires
                p <= draw.n,
                draw.arity >= 2,
        ;
        assert(draw.n * draw.arity <= (draw.n + 1) * draw.arity) by (nonlinear_arith)
            requires
                draw.arity >= 2,
        ;
    }
    let answer = draw.answer * draw.arity + coin;
    let sentinel = draw.sentinel / draw.arity;
    let ghost digits = (draw.digits@ + 1) as nat;
    proof {
        reveal(pow);
        assert(pow(draw.arity as int, digits) == draw.arity * p);
        vstd::arithmetic::div_mod::lemma_div_denominator(draw.bound@, p, draw.arity as int);
        assert(p * draw.arity == draw.arity * p) by (nonlinear_arith);
    }
    if sentinel > 0 {
        return TossStep::Toss(
            Draw {
                start: draw.start,
                n: draw.n,
                arity: draw.arity,
                answer,
                sentinel,
                digits: Ghost(digits),
                bound: draw.bound,
            },
        );
    }
    if answer < draw.n {
        return TossStep::Done(draw.start + answer);
    }
    proof {
        assert(pow(draw.arity as int, 0) == 1);
    }
    TossStep::Toss(
        Draw {
            start: draw.start,
            n: draw.n,
            arity: draw.arity,
            answer: 0,
            sentinel: draw.n,
            digits: Ghost(0),
            bound: Ghost(draw.n as int),
        },
    )
}

} // verus!
