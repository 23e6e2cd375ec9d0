//! Agents stepping over the field: sensing, choosing a move, and the tick.
use vstd::prelude::*;
use rand::distributions::Distribution;
use rand::Rng;
use rand::rngs::StdRng;
use crate::agent::{left_of, remembered, right_of, delta_of, Direction, Position, Spore};
use crate::arith::sum_to;
use crate::world::{
    at, deposited, scaled, spread_cell, wrap_add, wrap_index, ConfigError, Ratio, World,
};

verus! {

#[verifier::external_type_specification]
#[verifier::external_body]
pub struct ExStdRng(StdRng);

/// Relies on rand's `Rng::gen_range(low, high)`: a value in `[low, high)`;
/// it panics when `low >= high`.
#[verifier::external_body]
fn uniform_below(rng: &mut StdRng, n: usize) -> (r: usize)
    requires
        n > 0,
    ensures
        r < n,
{
    rng.gen_range(0, n)
}

/// The total of a list of weights.
pub open spec fn weight_total(s: Seq<u128>) -> int {
    sum_to(|i: int| s[i] as int, s.len() as int)
}

/// Relies on rand's `WeightedIndex::new` and `Distribution::sample`: `new`
/// fails exactly when no weight is positive; `sample` returns the index of
/// the item whose cumulative-weight interval holds a draw in
/// `[0, total)`, which is never an item of weight zero. The total is
/// accumulated with `+=`, so it must fit.
#[verifier::external_body]
fn weighted_pick(rng: &mut StdRng, weights: &Vec<u128>) -> (r: Option<usize>)
    requires
        weight_total(weights@) <= u128::MAX,
    ensures
        r.is_some() == (exists|i: int| 0 <= i < weights@.len() && #[trigger] weights@[i] > 0),
        r.is_some() ==> r.unwrap() < weights@.len() && weights@[r.unwrap() as int] > 0,
{
    match rand::distributions::WeightedIndex::new(weights.iter()) {
        Ok(dist) => Some(dist.sample(rng)),
        Err(_) => None,
    }
}

/// Where a step with heading `d` from `p` lands on a `w` by `h` torus.
pub open spec fn step_from(p: Position, d: Direction, w: int, h: int) -> Position {
    (((p.0 + delta_of(d).0) % w) as usize, ((p.1 + delta_of(d).1) % h) as usize)
}

/// Whether `d` is one of the three headings an agent heading `from` may take.
pub open spec fn allowed_turn(from: Direction, d: Direction) -> bool {
    d == from || d == left_of(from) || d == right_of(from)
}

/// What an agent senses at `target` on a `w` by `h` torus with these
/// cells: nothing where it has recently been, else the intensity there.
pub open spec fn scent_at(spore: Spore, cells: Seq<u64>, w: int, h: int, target: Position) -> int {
    if spore.history@.contains(target) {
        0
    } else {
        at(cells, w, h, target.0 as int, target.1 as int)
    }
}

/// What an agent senses at `target` on `world`.
pub open spec fn sensed(spore: Spore, world: World, target: Position) -> int {
    scent_at(spore, world.cells(), world.w(), world.h(), target)
}

/// Whether `after` went somewhere scented whenever one of the three cells
/// ahead of `before` was scented, as sensed on these cells.
pub open spec fn follows_scent(before: Spore, after: Spore, cells: Seq<u64>, w: int, h: int) -> bool {
    (exists|d: Direction|
        allowed_turn(before.direction, d) && #[trigger] scent_at(
            before,
            cells,
            w,
            h,
            step_from(before.position, d, w, h),
        ) > 0) ==> scent_at(before, cells, w, h, after.position) > 0
}

/// Whether `after` is `before` moved by one legal step on a `w` by `h` torus.
pub open spec fn legal_step(before: Spore, after: Spore, w: int, h: int) -> bool {
    &&& allowed_turn(before.direction, after.direction)
    &&& after.position == step_from(before.position, after.direction, w, h)
    &&& after.position.0 < w
    &&& after.position.1 < h
    &&& after.history.capacity() == before.history.capacity()
    &&& after.history@ == remembered(before.history@, before.history.capacity(), before.position)
    &&& after.wf()
}

/// The cells after each of `agents`, in order, deposits `amount` where it
/// stands on a `w` by `h` torus.
pub open spec fn deposit_all(cells: Seq<u64>, w: int, h: int, agents: Seq<Spore>, amount: u64) -> Seq<
    u64,
>
    decreases agents.len(),
{
    if agents.len() == 0 {
        cells
    } else {
        let p = agents.last().position;
        deposited(
            deposit_all(cells, w, h, agents.drop_last(), amount),
            wrap_index(p.0 as int, p.1 as int, w, h),
            amount,
        )
    }
}

/// A candidate move: where it lands, the heading that leads there, and
/// what the agent senses there.
#[derive(Clone, Copy, Debug)]
pub struct Move {
    pub position: Position,
    pub direction: Direction,
    pub pheromone: u64,
}

/// The candidates that sense something.
pub open spec fn nonzero_of(moves: Seq<Move>) -> Seq<Move> {
    moves.filter(|m: Move| m.pheromone > 0)
}

/// The candidate move with heading `direction` for `spore`.
pub fn look(direction: Direction, spore: &Spore, world: &World) -> (r: Move)
    requires
        world.wf(),
    ensures
        r.direction == direction,
        r.position == step_from(spore.position, direction, world.w(), world.h()),
        r.position.0 < world.w(),
        r.position.1 < world.h(),
        r.pheromone == sensed(*spore, *world, r.position),
{
    let (dx, dy) = direction.delta();
    let position = (
        wrap_add(spore.position.0, dx, world.width()),
        wrap_add(spore.position.1, dy, world.height()),
    );
    let pheromone = if spore.history.contains(&position) {
        0
    } else {
        world.get_pheromone(&position)
    };
    Move { position, direction, pheromone }
}

/// The candidates that sense something, in order.
pub fn nonzero_moves(moves: &Vec<Move>) -> (r: Vec<Move>)
    ensures
        r@ == nonzero_of(moves@),
{
    let mut r: Vec<Move> = Vec::new();
    let mut i: usize = 0;
    while i < moves.len()
        invariant
            i <= moves@.len(),
            r@ == nonzero_of(moves@.take(i as int)),
        decreases moves@.len() - i,
    {
        let m = moves[i];
        proof {
            assert(moves@.take(i as int + 1).drop_last() =~= moves@.take(i as int));
            assert(moves@.take(i as int + 1).last() == m);
            let t = moves@.take(i as int + 1);
            reveal(Seq::filter);
            assert(nonzero_of(t) == if m.pheromone > 0 {
                nonzero_of(t.drop_last()).push(m)
            } else {
                nonzero_of(t.drop_last())
            });
        }
        if m.pheromone > 0 {
            r.push(m);
        }
        i = i + 1;
    }
    proof {
        assert(moves@.take(moves@.len() as int) == moves@);
    }
    r
}

/// The candidate that a selection with these draws yields: the `k`-th
/// scented candidate when the weighted draw gave `Some(k)` for one, and
/// otherwise the `uniform`-th of all candidates.
pub open spec fn selected(moves: Seq<Move>, weighted: Option<usize>, uniform: int) -> Move {
    match weighted {
        Some(k) if k < nonzero_of(moves).len() => nonzero_of(moves)[k as int],
        _ => moves[uniform],
    }
}

/// Applies the outcome of the draws: `weighted` is the index drawn among
/// the scented candidates (`None` when there was no such draw, or it
/// failed), `uniform` the index drawn among all of them.
pub fn select_move(moves: &Vec<Move>, weighted: Option<usize>, uniform: usize) -> (r: Move)
    requires
        uniform < moves@.len(),
    ensures
        r == selected(moves@, weighted, uniform as int),
        moves@.contains(r),
{
    let nonzero = nonzero_moves(moves);
    proof {
        broadcast use vstd::seq_lib::group_filter_ensures;
    }
    match weighted {
        Some(k) => {
            if k < nonzero.len() {
                proof {
                    assert(nonzero@.contains(nonzero@[k as int]));
                    moves@.lemma_filter_contains_rev(|m: Move| m.pheromone > 0, nonzero@[k as int]);
                }
                return nonzero[k];
            }
        },
        None => {},
    }
    proof {
        assert(moves@.contains(moves@[uniform as int]));
    }
    moves[uniform]
}

/// The weights that a weighted draw over the scented candidates uses.
pub open spec fn scent_weights(moves: Seq<Move>) -> Seq<u128> {
    nonzero_of(moves).map_values(|m: Move| m.pheromone as u128)
}

/// The weights of the scented candidates, in order: what each senses.
pub fn scent_weights_of(moves: &Vec<Move>) -> (r: Vec<u128>)
    ensures
        r@ == scent_weights(moves@),
{
    let nonzero = nonzero_moves(moves);
    let mut r: Vec<u128> = Vec::new();
    let mut i: usize = 0;
    while i < nonzero.len()
        invariant
            i <= nonzero@.len(),
            r@ == nonzero@.take(i as int).map_values(|m: Move| m.pheromone as u128),
        decreases nonzero@.len() - i,
    {
        proof {
            assert(nonzero@.take(i as int + 1).map_values(|m: Move| m.pheromone as u128)
                =~= r@.push(nonzero@[i as int].pheromone as u128));
        }
        r.push(nonzero[i].pheromone as u128);
        i = i + 1;
    }
    proof {
        assert(nonzero@.take(nonzero@.len() as int) =~= nonzero@);
    }
    r
}

/// Weights that are each at most `u64::MAX`, in a list that fits in
/// memory, have a total within `u128`.
proof fn lemma_weight_total_fits(s: Seq<u128>)
    requires
        s.len() <= usize::MAX,
        forall|i: int| 0 <= i < s.len() ==> #[trigger] s[i] <= u64::MAX,
    ensures
        weight_total(s) <= u128::MAX,
{
    let n = s.len() as int;
    crate::arith::lemma_sum_le(|i: int| s[i] as int, |i: int| u64::MAX as int, n);
    crate::arith::lemma_sum_const(u64::MAX as int, n);
    assert(n * (u64::MAX as int) <= u128::MAX) by (nonlinear_arith)
        requires
            0 <= n <= usize::MAX,
            usize::MAX <= u64::MAX,
    ;
}

/// Picks one of `moves`: where some candidates sense something, one of
/// those, at random in proportion to what it senses; otherwise any
/// candidate uniformly at random.
pub fn choose_move(moves: &Vec<Move>, rng: &mut StdRng) -> (r: Move)
    requires
        moves@.len() > 0,
    ensures
        moves@.contains(r),
        exists|w: Option<usize>, u: int| 0 <= u < moves@.len() && r == #[trigger] selected(moves@, w, u),
        nonzero_of(moves@).len() > 0 ==> r.pheromone > 0,
{
    let weights = scent_weights_of(moves);
    proof {
        broadcast use vstd::seq_lib::group_filter_ensures;
    }
    let mut weighted: Option<usize> = None;
    if weights.len() > 0 {
        proof {
            assert forall|i: int| 0 <= i < weights@.len() implies #[trigger] weights@[i] <= u64::MAX
                && weights@[i] > 0 by {
                assert(nonzero_of(moves@)[i].pheromone > 0);
            }
            lemma_weight_total_fits(weights@);
            assert(weights@[0] > 0);
        }
        weighted = weighted_pick(rng, &weights);
        proof {
            if let Some(k) = weighted {
                assert(nonzero_of(moves@)[k as int].pheromone > 0);
            }
        }
    }
    let r = match weighted {
        Some(k) => select_move(moves, Some(k), 0),
        None => {
            let u = uniform_below(rng, moves.len());
            select_move(moves, None, u)
        },
    };
    r
}

/// Memory suppression: when the agent remembers the cell straight ahead
/// and the two diagonal candidates hold nothing, every candidate senses
/// zero, so no candidate is scented and the choice falls back to a
/// uniform draw over all three, whatever the field holds straight ahead.
pub proof fn lemma_memory_suppression(spore: Spore, world: World, moves: Seq<Move>)
    requires
        world.wf(),
        spore.history@.contains(step_from(spore.position, spore.direction, world.w(), world.h())),
        world.cell(
            step_from(spore.position, left_of(spore.direction), world.w(), world.h()).0 as int,
            step_from(spore.position, left_of(spore.direction), world.w(), world.h()).1 as int,
        ) == 0,
        world.cell(
            step_from(spore.position, right_of(spore.direction), world.w(), world.h()).0 as int,
            step_from(spore.position, right_of(spore.direction), world.w(), world.h()).1 as int,
        ) == 0,
        moves.len() == 3,
        moves[0].position == step_from(spore.position, spore.direction, world.w(), world.h()),
        moves[1].position == step_from(spore.position, left_of(spore.direction), world.w(), world.h()),
        moves[2].position == step_from(spore.position, right_of(spore.direction), world.w(), world.h()),
        forall|k: int| 0 <= k < 3 ==> #[trigger] moves[k].pheromone == sensed(spore, world, moves[k].position),
    ensures
        forall|k: int| 0 <= k < 3 ==> #[trigger] moves[k].pheromone == 0,
        nonzero_of(moves).len() == 0,
{
    assert(moves[0].pheromone == 0);
    assert(moves[1].pheromone == 0);
    assert(moves[2].pheromone == 0);
    broadcast use vstd::seq_lib::group_filter_ensures;
    if nonzero_of(moves).len() > 0 {
        let m = nonzero_of(moves)[0];
        assert(nonzero_of(moves).contains(m));
        moves.lemma_filter_contains_rev(|m: Move| m.pheromone > 0, m);
    }
}

/// One agent's turn: deposit `deposit` where it stands, sense the three
/// cells ahead, choose one of them, and move there.
pub fn step_spore(world: &mut World, spore: &mut Spore, deposit: u64, rng: &mut StdRng)
    requires
        old(world).wf(),
        old(spore).wf(),
        old(world).mass() + deposit <= u64::MAX,
    ensures
        final(world).wf(),
        final(world).w() == old(world).w(),
        final(world).h() == old(world).h(),
        final(world).cells() == deposited(
            old(world).cells(),
            wrap_index(
                old(spore).position.0 as int,
                old(spore).position.1 as int,
                old(world).w(),
                old(world).h(),
            ),
            deposit,
        ),
        final(world).mass() == old(world).mass() + deposit,
        legal_step(*old(spore), *final(spore), old(world).w(), old(world).h()),
        follows_scent(
            *old(spore),
            *final(spore),
            final(world).cells(),
            old(world).w(),
            old(world).h(),
        ),
{
    world.deposit_pheromone(&spore.position, deposit);
    let d = spore.direction;
    let mut moves: Vec<Move> = Vec::new();
    moves.push(look(d, spore, world));
    moves.push(look(d.left(), spore, world));
    moves.push(look(d.right(), spore, world));
    let next = choose_move(&moves, rng);
    proof {
        broadcast use vstd::seq_lib::group_filter_ensures;
        let k = choose|k: int| 0 <= k < moves@.len() && moves@[k] == next;
        assert(k == 0 || k == 1 || k == 2);
        let w = world.w();
        let h = world.h();
        if exists|e: Direction|
            allowed_turn(d, e) && #[trigger] scent_at(
                *spore,
                world.cells(),
                w,
                h,
                step_from(spore.position, e, w, h),
            ) > 0 {
            let e = choose|e: Direction|
                allowed_turn(d, e) && #[trigger] scent_at(
                    *spore,
                    world.cells(),
                    w,
                    h,
                    step_from(spore.position, e, w, h),
                ) > 0;
            let j: int = if e == d {
                0
            } else if e == left_of(d) {
                1
            } else {
                2
            };
            assert(moves@[j].pheromone > 0);
            assert(nonzero_of(moves@).contains(moves@[j]));
        }
    }
    spore.move_to(next.position);
    spore.turn(next.direction);
}

/// How the simulation runs: what each agent deposits per tick, the
/// retention factor, and whether the field spreads or only decays.
#[derive(Clone, Copy, Debug, PartialEq, Eq, Structural)]
pub struct Config {
    pub deposit: u64,
    pub diffuse: Ratio,
    pub spread: bool,
}

impl Default for Config {
    fn default() -> (r: Config)
        ensures
            r.deposit == 100,
            r.diffuse == (Ratio { num: 1, den: 4 }),
            !r.spread,
    {
        Config { deposit: 100, diffuse: Ratio { num: 1, den: 4 }, spread: false }
    }
}

/// A `width` by `height` random position for each of `count` draws.
pub fn random_positions(width: usize, height: usize, count: usize, rng: &mut StdRng) -> (r: Vec<
    Position,
>)
    requires
        width > 0,
        height > 0,
    ensures
        r@.len() == count,
        forall|i: int| 0 <= i < count ==> #[trigger] r@[i].0 < width && r@[i].1 < height,
{
    let mut r: Vec<Position> = Vec::new();
    let mut i: usize = 0;
    while i < count
        invariant
            width > 0,
            height > 0,
            i <= count,
            r@.len() == i,
            forall|k: int| 0 <= k < i ==> #[trigger] r@[k].0 < width && r@[k].1 < height,
        decreases count - i,
    {
        let x = uniform_below(rng, width);
        let y = uniform_below(rng, height);
        r.push((x, y));
        i = i + 1;
    }
    r
}

/// The whole simulation: the field, the agents in insertion order, and
/// the configuration.
pub struct Fungus {
    world: World,
    spores: Vec<Spore>,
    config: Config,
}

impl Fungus {
    pub closed spec fn field(&self) -> World {
        self.world
    }

    pub closed spec fn agents(&self) -> Seq<Spore> {
        self.spores@
    }

    pub closed spec fn settings(&self) -> Config {
        self.config
    }

    pub open spec fn wf(&self) -> bool {
        &&& self.field().wf()
        &&& self.settings().diffuse.wf()
        &&& forall|i: int| 0 <= i < self.agents().len() ==> #[trigger] self.agents()[i].wf()
    }

    /// Whether one more tick fits: the field's total plus one deposit per
    /// agent stays within `u64`.
    pub open spec fn room_for_tick(&self) -> bool {
        self.field().mass() + self.agents().len() * self.settings().deposit <= u64::MAX
    }

    /// A `width` by `height` simulation with a zero field, no agents and
    /// the default configuration.
    pub fn new(width: usize, height: usize) -> (r: Result<Fungus, ConfigError>)
        ensures
            (width == 0 || height == 0) <==> r == Err::<Fungus, ConfigError>(ConfigError::EmptyGrid),
            (width > 0 && height > 0 && width * height > usize::MAX) <==> r == Err::<
                Fungus,
                ConfigError,
            >(ConfigError::GridTooLarge),
            (width > 0 && height > 0 && width * height <= usize::MAX) ==> r.is_ok(),
            r matches Ok(f) ==> {
                &&& f.wf()
                &&& f.field().w() == width
                &&& f.field().h() == height
                &&& f.field().mass() == 0
                &&& forall|x: int, y: int| #[trigger] f.field().cell(x, y) == 0
                &&& f.agents().len() == 0
                &&& f.settings() == (Config {
                    deposit: 100,
                    diffuse: Ratio { num: 1, den: 4 },
                    spread: false,
                })
            },
    {
        match World::new(width, height) {
            Ok(world) => {
                let config = Config::default();
                let r = Fungus { world, spores: Vec::new(), config };
                assert forall|x: int, y: int| #[trigger] r.field().cell(x, y) == 0 by {
                    world.lemma_cell_is_cell_at(x, y);
                }
                Ok(r)
            },
            Err(e) => Err(e),
        }
    }

    /// This simulation with `config`, which is refused when its retention
    /// factor is not a fraction in `[0, 1]`.
    pub fn with_config(self, config: Config) -> (r: Result<Fungus, ConfigError>)
        requires
            self.wf(),
        ensures
            !config.diffuse.wf() <==> r == Err::<Fungus, ConfigError>(ConfigError::RetentionOutOfRange),
            config.diffuse.wf() ==> r.is_ok(),
            r matches Ok(f) ==> {
                &&& f.wf()
                &&& f.field() == self.field()
                &&& f.agents() == self.agents()
                &&& f.settings() == config
            },
    {
        if !config.diffuse.is_valid() {
            return Err(ConfigError::RetentionOutOfRange);
        }
        let r = Fungus { world: self.world, spores: self.spores, config };
        assert forall|i: int| 0 <= i < r.agents().len() implies #[trigger] r.agents()[i].wf() by {
            assert(r.agents()[i] == self.agents()[i]);
        }
        Ok(r)
    }

    /// Adds an agent after the others.
    pub fn add_spore(&mut self, spore: Spore)
        requires
            old(self).wf(),
            spore.wf(),
        ensures
            final(self).wf(),
            final(self).field() == old(self).field(),
            final(self).settings() == old(self).settings(),
            final(self).agents() == old(self).agents().push(spore),
    {
        self.spores.push(spore);
        assert forall|i: int| 0 <= i < self.agents().len() implies #[trigger] self.agents()[i].wf() by {
            if i < old(self).agents().len() {
                assert(self.agents()[i] == old(self).agents()[i]);
            }
        }
    }

    /// Adds `count` agents at random positions with random headings, each
    /// remembering up to `memory` positions (6 when `None`).
    pub fn add_random_spores(&mut self, count: usize, memory: Option<usize>, rng: &mut StdRng)
        requires
            old(self).wf(),
        ensures
            final(self).wf(),
            final(self).field() == old(self).field(),
            final(self).settings() == old(self).settings(),
            final(self).agents().len() == old(self).agents().len() + count,
            final(self).agents().take(old(self).agents().len() as int) == old(self).agents(),
            forall|i: int|
                old(self).agents().len() <= i < final(self).agents().len() ==> {
                    let s = #[trigger] final(self).agents()[i];
                    &&& s.position.0 < final(self).field().w()
                    &&& s.position.1 < final(self).field().h()
                    &&& s.history@ == Seq::<Position>::empty()
                    &&& s.history.capacity() == match memory {
                        Some(m) => m as nat,
                        None => 6nat,
                    }
                },
    {
        let positions = random_positions(self.world.width(), self.world.height(), count, rng);
        let mut i: usize = 0;
        while i < count
            invariant
                self.wf(),
                self.world == old(self).world,
                self.config == old(self).config,
                positions@.len() == count,
                forall|k: int|
                    0 <= k < count ==> #[trigger] positions@[k].0 < self.field().w()
                        && positions@[k].1 < self.field().h(),
                i <= count,
                self.spores@.len() == old(self).spores@.len() + i,
                self.spores@.take(old(self).spores@.len() as int) == old(self).spores@,
                forall|k: int|
                    old(self).spores@.len() <= k < self.spores@.len() ==> {
                        let s = #[trigger] self.spores@[k];
                        &&& s.position.0 < self.field().w()
                        &&& s.position.1 < self.field().h()
                        &&& s.history@ == Seq::<Position>::empty()
                        &&& s.history.capacity() == match memory {
                            Some(m) => m as nat,
                            None => 6nat,
                        }
                    },
            decreases count - i,
        {
            let mut spore = match memory {
                Some(m) => Spore::with_memory(m),
                None => Spore::default(),
            };
            spore.position = positions[i];
            let d = Direction::from_index(uniform_below(rng, 8));
            spore.direction = d.unwrap();
            proof {
                assert(self.spores@.push(spore).take(old(self).spores@.len() as int)
                    =~= self.spores@.take(old(self).spores@.len() as int));
            }
            let ghost before = self.spores@;
            assert forall|k: int| 0 <= k < before.len() implies #[trigger] before[k].wf() by {
                assert(self.agents()[k] == before[k]);
            }
            self.spores.push(spore);
            assert forall|k: int| 0 <= k < self.spores@.len() implies #[trigger] self.spores@[k].wf() by {
                if k < before.len() {
                    assert(self.spores@[k] == before[k]);
                    assert(self.agents()[k] == before[k]);
                }
            }
            i = i + 1;
        }
    }

    /// Whether one more tick fits within the field's integer range.
    pub fn tick_fits(&self) -> (r: bool)
        requires
            self.wf(),
        ensures
            r == self.room_for_tick(),
    {
        let total = self.world.total();
        match (self.spores.len() as u64).checked_mul(self.config.deposit) {
            Some(d) => match total.checked_add(d) {
                Some(_) => true,
                None => false,
            },
            None => {
                proof {
                    assert(self.agents().len() * self.settings().deposit > u64::MAX);
                    crate::arith::lemma_seq_sum_nonneg(self.world.cells());
                }
                false
            },
        }
    }

    /// One tick: every agent in turn deposits, senses and moves (each
    /// seeing what the earlier ones deposited), then the whole field
    /// spreads or decays once.
    pub fn iterate(&mut self, rng: &mut StdRng)
        requires
            old(self).wf(),
            old(self).room_for_tick(),
        ensures
            final(self).wf(),
            final(self).settings() == old(self).settings(),
            final(self).field().w() == old(self).field().w(),
            final(self).field().h() == old(self).field().h(),
            final(self).agents().len() == old(self).agents().len(),
            forall|i: int|
                0 <= i < old(self).agents().len() ==> legal_step(
                    #[trigger] old(self).agents()[i],
                    final(self).agents()[i],
                    old(self).field().w(),
                    old(self).field().h(),
                ),
            final(self).field().cells().len() == old(self).field().cells().len(),
            ({
                let laid = deposit_all(
                    old(self).field().cells(),
                    old(self).field().w(),
                    old(self).field().h(),
                    old(self).agents(),
                    old(self).settings().deposit,
                );
                forall|c: int|
                    0 <= c < old(self).field().cells().len() ==> #[trigger] final(self).field().cells()[c]
                        as int == if old(self).settings().spread {
                        spread_cell(
                            laid,
                            old(self).field().w(),
                            old(self).field().h(),
                            old(self).settings().diffuse,
                            c,
                        )
                    } else {
                        scaled(laid[c] as int, old(self).settings().diffuse)
                    }
            }),
            forall|j: int|
                0 <= j < old(self).agents().len() ==> follows_scent(
                    #[trigger] old(self).agents()[j],
                    final(self).agents()[j],
                    deposit_all(
                        old(self).field().cells(),
                        old(self).field().w(),
                        old(self).field().h(),
                        old(self).agents().take(j + 1),
                        old(self).settings().deposit,
                    ),
                    old(self).field().w(),
                    old(self).field().h(),
                ),
            old(self).settings().spread ==> final(self).field().mass() == old(self).field().mass()
                + old(self).agents().len() * old(self).settings().deposit,
            !old(self).settings().spread ==> final(self).field().mass()
                * old(self).settings().diffuse.den <= (old(self).field().mass() + old(
                self,
            ).agents().len() * old(self).settings().deposit) * old(self).settings().diffuse.num,
    {
        let n = self.spores.len();
        let deposit = self.config.deposit;
        let mut i: usize = 0;
        while i < n
            invariant
                n == old(self).spores@.len(),
                deposit == old(self).config.deposit,
                self.config == old(self).config,
                self.config.diffuse.wf(),
                self.world.wf(),
                self.world.w() == old(self).world.w(),
                self.world.h() == old(self).world.h(),
                old(self).world.mass() + n * deposit <= u64::MAX,
                self.world.mass() == old(self).world.mass() + i * deposit,
                self.world.cells() == deposit_all(
                    old(self).world.cells(),
                    self.world.w(),
                    self.world.h(),
                    old(self).spores@.take(i as int),
                    deposit,
                ),
                i <= n,
                self.spores@.len() == n,
                forall|k: int|
                    0 <= k < i ==> legal_step(
                        #[trigger] old(self).spores@[k],
                        self.spores@[k],
                        self.world.w(),
                        self.world.h(),
                    ),
                forall|k: int|
                    0 <= k < i ==> follows_scent(
                        #[trigger] old(self).spores@[k],
                        self.spores@[k],
                        deposit_all(
                            old(self).world.cells(),
                            self.world.w(),
                            self.world.h(),
                            old(self).spores@.take(k + 1),
                            deposit,
                        ),
                        self.world.w(),
                        self.world.h(),
                    ),
                forall|k: int| i <= k < n ==> #[trigger] self.spores@[k] == old(self).spores@[k],
                forall|k: int| 0 <= k < n ==> #[trigger] old(self).spores@[k].wf(),
            decreases n - i,
        {
            proof {
                assert(i * deposit + deposit <= n * deposit) by (nonlinear_arith)
                    requires
                        i < n,
                ;
                assert((i + 1) * deposit == i * deposit + deposit) by (nonlinear_arith);
            }
            step_spore(&mut self.world, &mut self.spores[i], deposit, rng);
            proof {
                let t = old(self).spores@.take(i as int + 1);
                assert(t.drop_last() =~= old(self).spores@.take(i as int));
                assert(t.last() == old(self).spores@[i as int]);
            }
            i = i + 1;
        }
        proof {
            assert(old(self).spores@.take(n as int) =~= old(self).spores@);
        }
        if self.config.spread {
            self.world.diffuse_and_spread(self.config.diffuse);
        } else {
            self.world.diffuse_pheromone(self.config.diffuse);
        }
        assert forall|k: int| 0 <= k < self.agents().len() implies #[trigger] self.agents()[k].wf() by {
            assert(legal_step(old(self).spores@[k], self.spores@[k], old(self).world.w(), old(self).world.h()));
        }
    }

    /// The field.
    pub fn world(&self) -> (r: &World)
        ensures
            *r == self.field(),
    {
        &self.world
    }

    /// The agents, in insertion order.
    pub fn spores(&self) -> (r: &Vec<Spore>)
        ensures
            r@ == self.agents(),
    {
        &self.spores
    }

    /// The configuration.
    pub fn config(&self) -> (r: Config)
        ensures
            r == self.settings(),
    {
        self.config
    }
}

} // verus!
