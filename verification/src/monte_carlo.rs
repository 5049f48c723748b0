//! Walks at random: along a path, and through a park.

use crate::config::{Alley, Config, Intersection};
use crate::number::{apply, arith, count, counted, reliable, Arith, Op, ONE, ZERO};
use rand::rngs::StdRng;
use rand::Rng;
use vstd::prelude::*;

verus! {

/// The random generator of the `rand` crate that the walks draw from. Nothing
/// is known of its state.
#[verifier::external_type_specification]
#[verifier::external_body]
pub struct ExStdRng(StdRng);

/// Draws a coin flip with `Rng::gen::<bool>`. Nothing is claimed of the
/// outcome.
#[verifier::external_body]
fn flip(rng: &mut StdRng) -> bool {
    rng.gen::<bool>()
}

/// Draws an index with `Rng::gen_range(0..bound)`, which panics on an empty
/// range and else returns a value of the range: one below `bound`.
#[verifier::external_body]
fn index_below(rng: &mut StdRng, bound: usize) -> (index: usize)
    requires
        bound > 0,
    ensures
        index < bound,
{
    rng.gen_range(0..bound)
}

/// How a walk along a path stands: ended, at home (`true`) or in the well
/// (`false`), or paused at a position between the two.
#[derive(Debug, Clone, Copy, PartialEq, Eq, Structural)]
pub enum Walk {
    Ended(bool),
    Paused(usize),
}

/// How a walk on a path of `n` positions ends at `pos`: at home on position
/// 0, in the well on the last position or beyond it. Between the two it
/// goes on.
pub open spec fn walk_ended(n: usize, pos: usize) -> Option<bool> {
    if pos == 0 {
        Some(true)
    } else if pos >= n - 1 {
        Some(false)
    } else {
        None
    }
}

/// One step from `pos`: towards the well if `forward`, else towards home.
pub open spec fn walk_step(pos: usize, forward: bool) -> usize {
    if forward {
        (pos + 1) as usize
    } else {
        (pos - 1) as usize
    }
}

/// Where a walker who starts at `pos` stands after the flips of `coins`, one
/// step per flip, as far as the walk has not ended before.
pub open spec fn walk_after(n: usize, pos: usize, coins: Seq<bool>) -> Walk
    decreases coins.len(),
{
    match walk_ended(n, pos) {
        Some(home) => Walk::Ended(home),
        None => if coins.len() == 0 {
            Walk::Paused(pos)
        } else {
            walk_after(n, walk_step(pos, coins[0]), coins.drop_first())
        },
    }
}

/// A walk that has not ended stands strictly between home and the well.
pub proof fn lemma_walk_within(n: usize, pos: usize, coins: Seq<bool>)
    requires
        pos < n,
    ensures
        walk_after(n, pos, coins) matches Walk::Paused(at) ==> 0 < at < n - 1,
    decreases coins.len(),
{
    if walk_ended(n, pos) is None && coins.len() > 0 {
        lemma_walk_within(n, walk_step(pos, coins[0]), coins.drop_first());
    }
}

/// One more flip moves a paused walk by one step, and leaves an ended walk
/// as it is.
pub proof fn lemma_walk_one_more(n: usize, pos: usize, coins: Seq<bool>, coin: bool)
    requires
        pos < n,
    ensures
        walk_after(n, pos, coins.push(coin)) == match walk_after(n, pos, coins) {
            Walk::Ended(home) => Walk::Ended(home),
            Walk::Paused(at) => walk_after(n, at, seq![coin]),
        },
    decreases coins.len(),
{
    if walk_ended(n, pos) is None {
        if coins.len() == 0 {
            assert(coins.push(coin) =~= seq![coin]);
        } else {
            assert(coins.push(coin).drop_first() =~= coins.drop_first().push(coin));
            lemma_walk_one_more(n, walk_step(pos, coins[0]), coins.drop_first(), coin);
        }
    }
}

/// Walks from `start` as `coins` tell, one step per flip: forward, towards
/// the well, on `true`. The walk ends at home or in the well; flips that are
/// left over are not read, and a walk that runs out of flips is paused where
/// it stands.
pub fn walk_along(n: usize, start: usize, coins: &[bool]) -> (end: Walk)
    requires
        start < n,
    ensures
        end == walk_after(n, start, coins@),
{
    let mut pos: usize = start;
    let mut used: usize = 0;
    assert(coins@.skip(0) =~= coins@);
    loop
        invariant
            pos < n,
            used <= coins.len(),
            walk_after(n, start, coins@) == walk_after(n, pos, coins@.skip(used as int)),
        decreases coins.len() - used,
    {
        if pos == 0 {
            return Walk::Ended(true);
        }
        if pos >= n - 1 {
            return Walk::Ended(false);
        }
        if used == coins.len() {
            return Walk::Paused(pos);
        }
        assert(coins@.skip(used as int).drop_first() =~= coins@.skip(used + 1));
        pos = if coins[used] {
            pos + 1
        } else {
            pos - 1
        };
        used = used + 1;
    }
}

/// Walks from `start` by coin flips drawn from `rng`, for `max_steps` steps
/// at most.
///
/// Whatever is drawn, the result is what `walk_after` gives for some flips,
/// no more of them than `max_steps`; and a walk is paused only when all
/// `max_steps` steps were made.
pub fn walk(rng: &mut StdRng, n: usize, start: usize, max_steps: usize) -> (end: Walk)
    requires
        start < n,
    ensures
        exists|coins: Seq<bool>|
            coins.len() <= max_steps && #[trigger] walk_after(n, start, coins) == end && (end
                is Paused ==> coins.len() == max_steps),
{
    let mut pos: usize = start;
    let mut steps: usize = 0;
    let ghost mut coins: Seq<bool> = Seq::empty();
    loop
        invariant
            start < n,
            pos < n,
            steps <= max_steps,
            coins.len() == steps,
            walk_after(n, start, coins) == walk_after(n, pos, Seq::empty()),
        decreases max_steps - steps,
    {
        if pos == 0 {
            return Walk::Ended(true);
        }
        if pos >= n - 1 {
            return Walk::Ended(false);
        }
        if steps == max_steps {
            return Walk::Paused(pos);
        }
        let coin = flip(rng);
        proof {
            lemma_walk_one_more(n, start, coins, coin);
            coins = coins.push(coin);
        }
        pos = if coin {
            pos + 1
        } else {
            pos - 1
        };
        steps = steps + 1;
        assert(walk_after(n, pos, Seq::empty()) == walk_after(n, pos, seq![coin].drop_first()));
    }
}

/// The identifier at the other end of `alley`, seen from `pos`, where the
/// alley touches `pos`.
pub open spec fn far_end(alley: Alley, pos: usize) -> Option<usize> {
    if alley.a.id == pos {
        Some(alley.b.id)
    } else if alley.b.id == pos {
        Some(alley.a.id)
    } else {
        None
    }
}

/// The far ends of the alleys that touch `pos`, in the order of the alleys.
pub open spec fn neighbours(alleys: Seq<Alley>, pos: usize) -> Seq<usize>
    decreases alleys.len(),
{
    if alleys.len() == 0 {
        Seq::empty()
    } else {
        let before = neighbours(alleys.drop_last(), pos);
        match far_end(alleys.last(), pos) {
            Some(id) => before.push(id),
            None => before,
        }
    }
}

/// The end of `alley` that a walker reaches who leaves `pos` for `target`,
/// where the alley joins the two. An alley that joins them both ways is
/// taken towards its end `a`.
pub open spec fn heading(alley: Alley, pos: usize, target: usize) -> Option<Intersection> {
    if alley.a.id == target && alley.b.id == pos {
        Some(alley.a)
    } else if alley.b.id == target && alley.a.id == pos {
        Some(alley.b)
    } else {
        None
    }
}

/// What reaching the intersection `far` decides: an exit ends the walk well,
/// a well ends it badly, and an exit that is a well too counts as an exit.
pub open spec fn landed(far: Intersection) -> Option<bool> {
    if far.exit {
        Some(true)
    } else if far.well {
        Some(false)
    } else {
        None
    }
}

/// Every alley is one step long at least.
pub open spec fn passable(alleys: Seq<Alley>) -> bool {
    forall|k: int| 0 <= k < alleys.len() ==> (#[trigger] alleys[k]).length >= 1
}

/// How a walk through a park stands.
#[derive(Debug, Clone, Copy, PartialEq, Eq, Structural)]
pub enum ParkWalk {
    /// At the intersection `pos`, about to pick one of its neighbours.
    Choosing { pos: usize },
    /// Having left `pos` for `target`, in the alley of index `alley`,
    /// `offset` steps away from its far end.
    Crossing { pos: usize, target: usize, alley: usize, offset: usize },
    /// Over: through an exit (`true`) or in a well (`false`).
    Ended(bool),
}

impl ParkWalk {
    /// The state is one that a walk through `alleys` can be in: a walker who
    /// chooses has a neighbour to choose, and a walker who crosses is
    /// strictly inside an alley that joins the two intersections.
    pub open spec fn fits(self, alleys: Seq<Alley>) -> bool {
        match self {
            ParkWalk::Choosing { pos } => neighbours(alleys, pos).len() > 0,
            ParkWalk::Crossing { pos, target, alley, offset } => {
                &&& alley < alleys.len()
                &&& heading(alleys[alley as int], pos, target) is Some
                &&& 0 < offset < alleys[alley as int].length
            },
            ParkWalk::Ended(_) => true,
        }
    }
}

/// Where a walker stands who left `pos` for `target` and has the alleys from
/// index `from` on still to try, in order.
///
/// An alley that does not join the two is passed over. One of a single step
/// is crossed at once; a longer one is entered, one step in. Whoever arrives
/// at an exit or a well is done; else the walker goes on from the far end
/// with the alleys that are left, and chooses anew after the last.
pub open spec fn scanned(alleys: Seq<Alley>, pos: usize, target: usize, from: int) -> ParkWalk
    decreases alleys.len() - from,
{
    if from < 0 || from >= alleys.len() {
        ParkWalk::Choosing { pos }
    } else {
        match heading(alleys[from], pos, target) {
            None => scanned(alleys, pos, target, from + 1),
            Some(far) => if alleys[from].length <= 1 {
                arrived(alleys, far, target, from)
            } else {
                ParkWalk::Crossing {
                    pos,
                    target,
                    alley: from as usize,
                    offset: (alleys[from].length - 1) as usize,
                }
            },
        }
    }
}

/// Where a walker stands who has reached `far` through the alley of index
/// `alley` on the way to `target`.
pub open spec fn arrived(alleys: Seq<Alley>, far: Intersection, target: usize, alley: int) -> ParkWalk
    decreases alleys.len() - alley, 0int,
{
    match landed(far) {
        Some(out) => ParkWalk::Ended(out),
        None => if 0 <= alley < alleys.len() {
            scanned(alleys, far.id, target, alley + 1)
        } else {
            ParkWalk::Choosing { pos: far.id }
        },
    }
}

/// Where a walker stands who, choosing at `pos`, picked the neighbour of
/// index `index`.
pub open spec fn turned(alleys: Seq<Alley>, pos: usize, index: int) -> ParkWalk {
    scanned(alleys, pos, neighbours(alleys, pos)[index], 0)
}

/// Where a walker inside an alley stands after one step: towards the far end
/// unless `forward`. A step onto the far end arrives there; a step back onto
/// the near end gives the alley up, and the walker tries the alleys after it.
pub open spec fn stepped(
    alleys: Seq<Alley>,
    pos: usize,
    target: usize,
    alley: usize,
    offset: usize,
    forward: bool,
) -> ParkWalk {
    let at = walk_step(offset, forward);
    if at == 0 {
        arrived(alleys, heading(alleys[alley as int], pos, target)->0, target, alley as int)
    } else if at >= alleys[alley as int].length {
        scanned(alleys, pos, target, alley + 1)
    } else {
        ParkWalk::Crossing { pos, target, alley, offset: at }
    }
}

/// Whether one draw can lead from `a` to `b`: the pick of a neighbour where
/// `a` chooses, a coin flip where `a` crosses.
pub open spec fn follows(alleys: Seq<Alley>, a: ParkWalk, b: ParkWalk) -> bool {
    match a {
        ParkWalk::Choosing { pos } => exists|i: int|
            0 <= i < neighbours(alleys, pos).len() && b == #[trigger] turned(alleys, pos, i),
        ParkWalk::Crossing { pos, target, alley, offset } => {
            ||| b == stepped(alleys, pos, target, alley, offset, true)
            ||| b == stepped(alleys, pos, target, alley, offset, false)
        },
        ParkWalk::Ended(_) => false,
    }
}

/// Whether `draws` draws can lead from `a` to `b`.
pub open spec fn reaches(alleys: Seq<Alley>, a: ParkWalk, b: ParkWalk, draws: nat) -> bool
    decreases draws,
{
    if draws == 0 {
        a == b
    } else {
        exists|mid: ParkWalk|
            reaches(alleys, a, mid, (draws - 1) as nat) && #[trigger] follows(alleys, mid, b)
    }
}

/// An intersection that an alley touches has a neighbour.
pub proof fn lemma_touched(alleys: Seq<Alley>, alley: int, pos: usize)
    requires
        0 <= alley < alleys.len(),
        far_end(alleys[alley], pos) is Some,
    ensures
        neighbours(alleys, pos).len() > 0,
    decreases alleys.len(),
{
    if alley < alleys.len() - 1 {
        lemma_touched(alleys.drop_last(), alley, pos);
    }
}

/// Scanning leads to a state that fits.
pub proof fn lemma_scanned_fits(alleys: Seq<Alley>, pos: usize, target: usize, from: int)
    requires
        passable(alleys),
        alleys.len() <= usize::MAX,
        neighbours(alleys, pos).len() > 0,
        0 <= from,
    ensures
        scanned(alleys, pos, target, from).fits(alleys),
    decreases alleys.len() - from,
{
    if from < alleys.len() {
        match heading(alleys[from], pos, target) {
            None => {
                lemma_scanned_fits(alleys, pos, target, from + 1);
            },
            Some(far) => {
                if alleys[from].length <= 1 {
                    assert(scanned(alleys, pos, target, from) == arrived(alleys, far, target, from));
                    if landed(far) is None {
                        lemma_touched(alleys, from, far.id);
                        lemma_scanned_fits(alleys, far.id, target, from + 1);
                    }
                }
            },
        }
    }
}

/// The far ends of the alleys that touch `pos`, in the order of the alleys.
pub fn possible_alleys(config: &Config, pos: usize) -> (ids: Vec<usize>)
    ensures
        ids@ == neighbours(config.alleys@, pos),
{
    let mut ids: Vec<usize> = Vec::new();
    let mut k: usize = 0;
    while k < config.alleys.len()
        invariant
            k <= config.alleys.len(),
            ids@ == neighbours(config.alleys@.take(k as int), pos),
        decreases config.alleys.len() - k,
    {
        let alley = config.alleys[k];
        assert(config.alleys@.take(k + 1).drop_last() =~= config.alleys@.take(k as int));
        if alley.a.id == pos {
            ids.push(alley.b.id);
        } else if alley.b.id == pos {
            ids.push(alley.a.id);
        }
        k = k + 1;
    }
    assert(config.alleys@.take(k as int) =~= config.alleys@);
    ids
}

/// Tries the alleys from index `from` on for a walker who left `pos` for
/// `target`.
fn scan(config: &Config, pos: usize, target: usize, from: usize) -> (next: ParkWalk)
    requires
        passable(config.alleys@),
        neighbours(config.alleys@, pos).len() > 0,
    ensures
        next == scanned(config.alleys@, pos, target, from as int),
        next.fits(config.alleys@),
{
    let count: usize = config.alleys.len();
    proof {
        lemma_scanned_fits(config.alleys@, pos, target, from as int);
    }
    let mut at: usize = pos;
    let mut k: usize = from;
    while k < count
        invariant
            count == config.alleys.len(),
            scanned(config.alleys@, pos, target, from as int).fits(config.alleys@),
            scanned(config.alleys@, pos, target, from as int) == scanned(
                config.alleys@,
                at,
                target,
                k as int,
            ),
        decreases count - k,
    {
        let alley = config.alleys[k];
        let far = if alley.a.id == target && alley.b.id == at {
            Some(alley.a)
        } else if alley.b.id == target && alley.a.id == at {
            Some(alley.b)
        } else {
            None
        };
        match far {
            None => {},
            Some(far) => {
                if alley.length > 1 {
                    return ParkWalk::Crossing {
                        pos: at,
                        target,
                        alley: k,
                        offset: alley.length - 1,
                    };
                }
                assert(scanned(config.alleys@, at, target, k as int) == arrived(
                    config.alleys@,
                    far,
                    target,
                    k as int,
                ));
                if far.exit {
                    return ParkWalk::Ended(true);
                }
                if far.well {
                    return ParkWalk::Ended(false);
                }
                at = far.id;
            },
        }
        k = k + 1;
    }
    ParkWalk::Choosing { pos: at }
}

impl ParkWalk {
    /// Picks the neighbour of index `index` and sets out for it.
    pub fn turn(self, config: &Config, index: usize) -> (next: ParkWalk)
        requires
            passable(config.alleys@),
            self.fits(config.alleys@),
            self is Choosing,
            index < neighbours(config.alleys@, self->Choosing_pos).len(),
        ensures
            next == turned(config.alleys@, self->Choosing_pos, index as int),
            next.fits(config.alleys@),
            follows(config.alleys@, self, next),
    {
        match self {
            ParkWalk::Choosing { pos } => {
                let ids = possible_alleys(config, pos);
                scan(config, pos, ids[index], 0)
            },
            _ => self,
        }
    }

    /// Takes one step inside an alley: back towards the near end if
    /// `forward`, else on towards the far end.
    pub fn step(self, config: &Config, forward: bool) -> (next: ParkWalk)
        requires
            passable(config.alleys@),
            self.fits(config.alleys@),
            self is Crossing,
        ensures
            next == stepped(
                config.alleys@,
                self->Crossing_pos,
                self->target,
                self->alley,
                self->offset,
                forward,
            ),
            next.fits(config.alleys@),
            follows(config.alleys@, self, next),
    {
        match self {
            ParkWalk::Crossing { pos, target, alley, offset } => {
                assert(alley < config.alleys.len());
                let way = config.alleys[alley];
                let at: usize = if forward {
                    offset + 1
                } else {
                    offset - 1
                };
                if at == 0 {
                    let far = if way.a.id == target && way.b.id == pos {
                        way.a
                    } else {
                        way.b
                    };
                    proof {
                        lemma_touched(config.alleys@, alley as int, far.id);
                    }
                    if far.exit {
                        ParkWalk::Ended(true)
                    } else if far.well {
                        ParkWalk::Ended(false)
                    } else {
                        scan(config, far.id, target, alley + 1)
                    }
                } else if at >= way.length {
                    proof {
                        lemma_touched(config.alleys@, alley as int, pos);
                    }
                    scan(config, pos, target, alley + 1)
                } else {
                    ParkWalk::Crossing { pos, target, alley, offset: at }
                }
            },
            _ => self,
        }
    }
}

impl Config {
    /// A walk can set out: the start has an identifier, every alley is one
    /// step long at least, and some alley touches the start.
    pub open spec fn walkable(&self) -> bool {
        &&& self.starting_pos < usize::MAX
        &&& passable(self.alleys@)
        &&& neighbours(self.alleys@, (self.starting_pos + 1) as usize).len() > 0
    }

    /// Tells whether a walk can set out.
    pub fn is_walkable(&self) -> (ok: bool)
        ensures
            ok == self.walkable(),
    {
        if self.starting_pos == usize::MAX {
            return false;
        }
        let mut k: usize = 0;
        while k < self.alleys.len()
            invariant
                k <= self.alleys.len(),
                forall|j: int| 0 <= j < k ==> (#[trigger] self.alleys@[j]).length >= 1,
            decreases self.alleys.len() - k,
        {
            if self.alleys[k].length == 0 {
                return false;
            }
            k = k + 1;
        }
        possible_alleys(self, self.starting_pos + 1).len() > 0
    }
}

impl ParkWalk {
    /// The walker at the start of the park, about to pick a neighbour.
    pub fn enter(config: &Config) -> (walk: ParkWalk)
        requires
            config.walkable(),
        ensures
            walk == (ParkWalk::Choosing { pos: (config.starting_pos + 1) as usize }),
            walk.fits(config.alleys@),
    {
        ParkWalk::Choosing { pos: config.starting_pos + 1 }
    }

    /// Tells whether the state is one that a walk through the park can be in.
    pub fn is_fit(&self, config: &Config) -> (ok: bool)
        ensures
            ok == self.fits(config.alleys@),
    {
        match *self {
            ParkWalk::Choosing { pos } => possible_alleys(config, pos).len() > 0,
            ParkWalk::Crossing { pos, target, alley, offset } => {
                if alley >= config.alleys.len() {
                    return false;
                }
                let way = config.alleys[alley];
                let joins = (way.a.id == target && way.b.id == pos) || (way.b.id == target
                    && way.a.id == pos);
                joins && 0 < offset && offset < way.length
            },
            ParkWalk::Ended(_) => true,
        }
    }
}

/// Walks on from `from` by draws from `rng`, for `max_draws` draws at most:
/// an index where the walker chooses, a coin flip where the walker crosses.
///
/// Whatever is drawn, the result is a state that some draws lead to from
/// `from`, no more of them than `max_draws`; and the walk is left unended
/// only when all `max_draws` draws were made.
pub fn walk_park(rng: &mut StdRng, config: &Config, from: ParkWalk, max_draws: usize) -> (end:
    ParkWalk)
    requires
        passable(config.alleys@),
        from.fits(config.alleys@),
    ensures
        end.fits(config.alleys@),
        exists|draws: nat|
            draws <= max_draws && #[trigger] reaches(config.alleys@, from, end, draws) && (end
                !is Ended ==> draws == max_draws),
{
    let mut state = from;
    let mut draws: usize = 0;
    loop
        invariant
            passable(config.alleys@),
            state.fits(config.alleys@),
            draws <= max_draws,
            reaches(config.alleys@, from, state, draws as nat),
        decreases max_draws - draws,
    {
        let next = match state {
            ParkWalk::Ended(_) => {
                return state;
            },
            ParkWalk::Choosing { pos } => {
                if draws == max_draws {
                    return state;
                }
                let ids = possible_alleys(config, pos);
                let index = index_below(rng, ids.len());
                state.turn(config, index)
            },
            ParkWalk::Crossing { .. } => {
                if draws == max_draws {
                    return state;
                }
                let forward = flip(rng);
                state.step(config, forward)
            },
        };
        state = next;
        draws = draws + 1;
    }
}

/// The number for `k` ones added up one by one from zero.
pub open spec fn tally(c: Arith, k: nat) -> u64
    decreases k,
{
    if k == 0 {
        ZERO
    } else {
        c(Op::Add, tally(c, (k - 1) as nat), ONE)
    }
}

/// The part that `homes` walks are of `walks`.
pub open spec fn ratio(c: Arith, homes: nat, walks: nat) -> u64 {
    c(Op::Div, tally(c, homes), counted(c, walks))
}

/// Makes `max_iter` walks from `start` on a path of `n` positions, each of
/// `max_steps` steps at most, and tells which part of them ended at home.
///
/// Whatever is drawn, the result is the ratio for some number of walks out
/// of `max_iter`: for all of them where the start is home, and for none
/// where it is the well.
pub fn simulate_walk<F: Fn(Op, u64, u64) -> u64>(
    rng: &mut StdRng,
    n: usize,
    start: usize,
    max_iter: usize,
    max_steps: usize,
    unit: &F,
) -> (prob: u64)
    requires
        start < n,
        reliable(*unit),
    ensures
        exists|homes: nat|
            homes <= max_iter && prob == #[trigger] ratio(arith(*unit), homes, max_iter as nat)
                && (walk_ended(n, start) == Some(true) ==> homes == max_iter) && (walk_ended(
                n,
                start,
            ) == Some(false) ==> homes == 0),
{
    let mut sum: u64 = ZERO;
    let mut homes: usize = 0;
    let mut done: usize = 0;
    while done < max_iter
        invariant
            start < n,
            reliable(*unit),
            homes <= done <= max_iter,
            sum == tally(arith(*unit), homes as nat),
            walk_ended(n, start) == Some(true) ==> homes == done,
            walk_ended(n, start) == Some(false) ==> homes == 0,
        decreases max_iter - done,
    {
        let end = walk(rng, n, start, max_steps);
        if end == Walk::Ended(true) {
            sum = apply(unit, Op::Add, sum, ONE);
            homes = homes + 1;
        }
        done = done + 1;
    }
    let prob = apply(unit, Op::Div, sum, count(max_iter, unit));
    assert(prob == ratio(arith(*unit), homes as nat, max_iter as nat));
    prob
}

/// Makes `max_iter` walks through the park, each of `max_draws` draws at
/// most, and tells which part of them ended through an exit.
///
/// Whatever is drawn, the result is the ratio for some number of walks out
/// of `max_iter`.
pub fn simulate_park_walk<F: Fn(Op, u64, u64) -> u64>(
    rng: &mut StdRng,
    config: &Config,
    max_iter: usize,
    max_draws: usize,
    unit: &F,
) -> (prob: u64)
    requires
        config.walkable(),
        reliable(*unit),
    ensures
        exists|homes: nat|
            homes <= max_iter && prob == #[trigger] ratio(arith(*unit), homes, max_iter as nat),
{
    let mut sum: u64 = ZERO;
    let mut homes: usize = 0;
    let mut done: usize = 0;
    while done < max_iter
        invariant
            config.walkable(),
            reliable(*unit),
            homes <= done <= max_iter,
            sum == tally(arith(*unit), homes as nat),
        decreases max_iter - done,
    {
        let end = walk_park(rng, config, ParkWalk::enter(config), max_draws);
        if end == ParkWalk::Ended(true) {
            sum = apply(unit, Op::Add, sum, ONE);
            homes = homes + 1;
        }
        done = done + 1;
    }
    let prob = apply(unit, Op::Div, sum, count(max_iter, unit));
    assert(prob == ratio(arith(*unit), homes as nat, max_iter as nat));
    prob
}

} // verus!
