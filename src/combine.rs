use crate::timed::Timed;
use vstd::prelude::*;

verus! {

/// One of two values, tagged with the side it came from.
#[derive(Clone, Copy, PartialEq, Eq, Debug)]
pub enum Either<A, B> {
    Left(A),
    Right(B),
}

/// The state of `join(a, b)`: the outputs of the children that have completed.
/// A child is polled only while its output is missing.
pub struct Join<A, B> {
    a: Option<A>,
    b: Option<B>,
}

impl<A, B> Join<A, B> {
    pub closed spec fn left(&self) -> Option<A> {
        self.a
    }

    pub closed spec fn right(&self) -> Option<B> {
        self.b
    }

    pub fn new() -> (r: Join<A, B>)
        ensures
            r.left().is_none(),
            r.right().is_none(),
    {
        Join { a: None, b: None }
    }

    /// The next round polls the first child.
    pub fn polls_left(&self) -> (r: bool)
        ensures
            r == self.left().is_none(),
    {
        self.a.is_none()
    }

    /// The next round polls the second child.
    pub fn polls_right(&self) -> (r: bool)
        ensures
            r == self.right().is_none(),
    {
        self.b.is_none()
    }

    /// Records that the first child returned `Ready(v)`.
    pub fn complete_left(&mut self, v: A)
        requires
            old(self).left().is_none(),
        ensures
            final(self).left() == Some(v),
            final(self).right() == old(self).right(),
    {
        self.a = Some(v);
    }

    /// Records that the second child returned `Ready(v)`.
    pub fn complete_right(&mut self, v: B)
        requires
            old(self).right().is_none(),
        ensures
            final(self).right() == Some(v),
            final(self).left() == old(self).left(),
    {
        self.b = Some(v);
    }

    /// The joined output, once both children are ready; `None` while either is pending.
    pub fn output(self) -> (r: Option<(A, B)>)
        ensures
            match (self.left(), self.right()) {
                (Some(a), Some(b)) => r == Some((a, b)),
                _ => r.is_none(),
            },
    {
        match (self.a, self.b) {
            (Some(a), Some(b)) => Some((a, b)),
            _ => None,
        }
    }
}

/// The state of `race(a, b)`: the winner, once one child has returned `Ready`. Once there is
/// a winner neither child is polled again; the loser is dropped.
pub struct Race<A, B> {
    winner: Option<Either<A, B>>,
}

impl<A, B> Race<A, B> {
    pub closed spec fn winner(&self) -> Option<Either<A, B>> {
        self.winner
    }

    pub fn new() -> (r: Race<A, B>)
        ensures
            r.winner().is_none(),
    {
        Race { winner: None }
    }

    /// The next round polls the children.
    pub fn polls(&self) -> (r: bool)
        ensures
            r == self.winner().is_none(),
    {
        self.winner.is_none()
    }

    /// Records the result of polling the first child.
    pub fn offer_left(&mut self, a: Option<A>)
        requires
            old(self).winner().is_none(),
        ensures
            match a {
                Some(x) => final(self).winner() == Some(Either::<A, B>::Left(x)),
                None => final(self).winner().is_none(),
            },
    {
        match a {
            Some(x) => {
                self.winner = Some(Either::Left(x));
            },
            None => {},
        }
    }

    /// Records the result of polling the second child.
    pub fn offer_right(&mut self, b: Option<B>)
        requires
            old(self).winner().is_none(),
        ensures
            match b {
                Some(y) => final(self).winner() == Some(Either::<A, B>::Right(y)),
                None => final(self).winner().is_none(),
            },
    {
        match b {
            Some(y) => {
                self.winner = Some(Either::Right(y));
            },
            None => {},
        }
    }

    /// The winner, if there is one.
    pub fn output(self) -> (r: Option<Either<A, B>>)
        ensures
            r == self.winner(),
    {
        self.winner
    }
}

/// Waits for both timed futures: ready when the later one is, with both values.
pub fn join<A, B>(a: Timed<A>, b: Timed<B>) -> (r: Timed<(A, B)>)
    ensures
        r.at == if a.at >= b.at { a.at } else { b.at },
        r.value == (a.value, b.value),
{
    let at = if a.at >= b.at {
        a.at
    } else {
        b.at
    };
    Timed { at, value: (a.value, b.value) }
}

/// Waits for the first of two timed futures; on a tie the first one wins, since it is
/// polled first. The other is dropped.
pub fn race<A, B>(a: Timed<A>, b: Timed<B>) -> (r: Timed<Either<A, B>>)
    ensures
        a.at <= b.at ==> r == (Timed { at: a.at, value: Either::<A, B>::Left(a.value) }),
        a.at > b.at ==> r == (Timed { at: b.at, value: Either::<A, B>::Right(b.value) }),
{
    if a.at <= b.at {
        Timed { at: a.at, value: Either::Left(a.value) }
    } else {
        Timed { at: b.at, value: Either::Right(b.value) }
    }
}

/// Waits for every timed future; ready when the last one is, with the values in input order.
pub fn join_all<T>(fs: Vec<Timed<T>>) -> (r: Timed<Vec<T>>)
    ensures
        r.value@ == fs@.map_values(|f: Timed<T>| f.value),
        forall|i: int| 0 <= i < fs@.len() ==> (#[trigger] fs@[i]).at <= r.at,
        fs@.len() == 0 ==> r.at == 0,
        fs@.len() > 0 ==> exists|i: int| 0 <= i < fs@.len() && (#[trigger] fs@[i]).at == r.at,
{
    let ghost src = fs@;
    let n = fs.len();
    let mut rest = fs;
    let mut values: Vec<T> = Vec::new();
    let mut at: u64 = 0;
    let mut k: usize = 0;
    while k < n
        invariant
            k <= n,
            n == src.len(),
            rest@ == src.skip(k as int),
            values@ == src.take(k as int).map_values(|f: Timed<T>| f.value),
            forall|i: int| 0 <= i < k ==> (#[trigger] src[i]).at <= at,
            k == 0 ==> at == 0,
            k > 0 ==> exists|i: int| 0 <= i < k && (#[trigger] src[i]).at == at,
        decreases n - k,
    {
        assert(rest@[0] == src[k as int]);
        let f = rest.remove(0);
        values.push(f.value);
        if f.at >= at || k == 0 {
            at = f.at;
        }
        assert(src.take(k + 1).map_values(|f: Timed<T>| f.value) =~= src.take(k as int).map_values(
            |f: Timed<T>| f.value,
        ).push(src[k as int].value));
        assert(rest@ == src.skip(k + 1));
        k = k + 1;
    }
    assert(src.take(n as int) == src);
    Timed { at, value: values }
}

/// How a combinator ran: its output, the number of rounds it took, how many times each
/// child was polled, and the order of the polls (`true` for the first child).
pub struct Rounds<T> {
    pub output: T,
    pub rounds: u64,
    pub polls_left: u64,
    pub polls_right: u64,
    pub order: Vec<bool>,
}

/// The polls `join` makes in its first `k` rounds: in each round the first child, while it
/// has not returned `Ready` (it does in round `ra`), then the second (`Ready` in round `rb`).
pub open spec fn join_order(ra: int, rb: int, k: int) -> Seq<bool>
    decreases k,
{
    if k <= 0 {
        Seq::empty()
    } else {
        join_order(ra, rb, k - 1) + (if k - 1 <= ra { seq![true] } else { Seq::empty() }) + (if k - 1
            <= rb {
            seq![false]
        } else {
            Seq::empty()
        })
    }
}

/// `k` rounds in which neither child of a race was ready: first child, then second, each time.
pub open spec fn race_rounds(k: int) -> Seq<bool>
    decreases k,
{
    if k <= 0 {
        Seq::empty()
    } else {
        race_rounds(k - 1) + seq![true, false]
    }
}

/// Runs `join` over two children, the first of which returns `Ready(va)` on its poll in
/// round `ra` (counting from 0) and the second `Ready(vb)` in round `rb`.
pub fn drive_join<A, B>(ra: u64, va: A, rb: u64, vb: B) -> (r: Rounds<(A, B)>)
    requires
        ra < u64::MAX,
        rb < u64::MAX,
    ensures
        r.output == (va, vb),
        r.rounds == if ra >= rb { ra + 1 } else { rb + 1 },
        r.polls_left == ra + 1,
        r.polls_right == rb + 1,
        r.order@ == join_order(ra as int, rb as int, r.rounds as int),
{
    let mut order: Vec<bool> = Vec::new();
    let ghost a0 = va;
    let ghost b0 = vb;
    let mut j: Join<A, B> = Join::new();
    let mut oa = Some(va);
    let mut ob = Some(vb);
    let mut round: u64 = 0;
    let mut pa: u64 = 0;
    let mut pb: u64 = 0;
    let last = if ra >= rb {
        ra
    } else {
        rb
    };
    while round <= last
        invariant
            ra < u64::MAX,
            rb < u64::MAX,
            last == if ra >= rb { ra } else { rb },
            round <= last + 1,
            pa == if round <= ra { round as int } else { ra + 1 },
            pb == if round <= rb { round as int } else { rb + 1 },
            j.left() == if round <= ra { None } else { Some(a0) },
            j.right() == if round <= rb { None } else { Some(b0) },
            round <= ra ==> oa == Some(a0),
            round <= rb ==> ob == Some(b0),
            order@ == join_order(ra as int, rb as int, round as int),
        decreases last + 1 - round,
    {
        if j.polls_left() {
            order.push(true);
            pa = pa + 1;
            if round == ra {
                let v = oa.take().unwrap();
                j.complete_left(v);
            }
        }
        if j.polls_right() {
            order.push(false);
            pb = pb + 1;
            if round == rb {
                let v = ob.take().unwrap();
                j.complete_right(v);
            }
        }
        assert(order@ =~= join_order(ra as int, rb as int, round as int + 1));
        round = round + 1;
    }
    let output = j.output().unwrap();
    Rounds { output, rounds: round, polls_left: pa, polls_right: pb, order }
}

/// Runs `race` over two children, the first of which would return `Ready(va)` on its poll in
/// round `ra` and the second `Ready(vb)` in round `rb`. Each round polls the first child, then
/// the second while there is no winner yet.
pub fn drive_race<A, B>(ra: u64, va: A, rb: u64, vb: B) -> (r: Rounds<Either<A, B>>)
    requires
        ra < u64::MAX,
        rb < u64::MAX,
    ensures
        ra <= rb ==> r.output == Either::<A, B>::Left(va) && r.rounds == ra + 1 && r.polls_left == ra + 1
            && r.polls_right == ra,
        ra > rb ==> r.output == Either::<A, B>::Right(vb) && r.rounds == rb + 1 && r.polls_left == rb + 1
            && r.polls_right == rb + 1,
        ra <= rb ==> r.order@ == race_rounds(ra as int) + seq![true],
        ra > rb ==> r.order@ == race_rounds(rb as int) + seq![true, false],
{
    let mut order: Vec<bool> = Vec::new();
    let ghost a0 = va;
    let ghost b0 = vb;
    let mut race: Race<A, B> = Race::new();
    let mut oa = Some(va);
    let mut ob = Some(vb);
    let mut round: u64 = 0;
    let mut pa: u64 = 0;
    let mut pb: u64 = 0;
    let first = if ra <= rb {
        ra
    } else {
        rb
    };
    while race.polls()
        invariant
            ra < u64::MAX,
            rb < u64::MAX,
            first == if ra <= rb { ra } else { rb },
            round <= first + 1,
            race.winner().is_none() ==> round <= first && pa == round && pb == round,
            race.winner().is_some() ==> round == first + 1,
            race.winner().is_some() && ra <= rb ==> race.winner() == Some(Either::<A, B>::Left(a0))
                && pa == ra + 1 && pb == ra,
            race.winner().is_some() && ra > rb ==> race.winner() == Some(Either::<A, B>::Right(b0))
                && pa == rb + 1 && pb == rb + 1,
            race.winner().is_none() ==> oa == Some(a0) && ob == Some(b0),
            race.winner().is_none() ==> order@ == race_rounds(round as int),
            race.winner().is_some() && ra <= rb ==> order@ == race_rounds(ra as int) + seq![true],
            race.winner().is_some() && ra > rb ==> order@ == race_rounds(rb as int) + seq![true, false],
        decreases first + 1 - round,
    {
        let ghost o0 = order@;
        order.push(true);
        pa = pa + 1;
        if round == ra {
            race.offer_left(oa.take());
        } else {
            race.offer_left(None);
        }
        if race.polls() {
            order.push(false);
            pb = pb + 1;
            if round == rb {
                race.offer_right(ob.take());
            } else {
                race.offer_right(None);
            }
        }
        assert(race_rounds(round as int + 1) == race_rounds(round as int) + seq![true, false]);
        assert(o0.push(true).push(false) =~= o0 + seq![true, false]);
        assert(o0.push(true) =~= o0 + seq![true]);
        round = round + 1;
    }
    let output = race.output().unwrap();
    Rounds { output, rounds: round, polls_left: pa, polls_right: pb, order }
}

} // verus!
