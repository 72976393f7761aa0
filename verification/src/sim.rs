//! The simulation engine: the state of a run and the operations on it.

use crate::graph::{rows, ColonyGraph};
use crate::model::{count_true, occupants, random_placement, swap_removed, SimView};
use crate::proofs::{lemma_count_positive, lemma_count_update, lemma_initial_wf, lemma_occupants};
use crate::rng::pick;
use vstd::prelude::*;

verus! {

/// A run of the simulation: the colony graph, the ants, and the state of the
/// random generator that moves them.
pub struct AntSimulation {
    graph: ColonyGraph,
    /// Number of ants currently at each colony.
    ant_count: Vec<usize>,
    /// Is a colony destroyed.
    destroyed: Vec<bool>,
    ant_position: Vec<usize>,
    move_count: Vec<u32>,
    ant_alive: Vec<bool>,
    ants_at_colony: Vec<Vec<usize>>,
    alive_ants: usize,
    /// Living ants that have made fewer than `max_moves` moves.
    active_ants_under_max_moves: usize,
    max_moves: u32,
    rng_state: u64,
}

impl View for AntSimulation {
    type V = SimView;

    closed spec fn view(&self) -> SimView {
        SimView {
            graph: self.graph@,
            destroyed: self.destroyed@,
            counts: self.ant_count@,
            members: rows(self.ants_at_colony@),
            position: self.ant_position@,
            moves: self.move_count@,
            alive: self.ant_alive@,
            alive_count: self.alive_ants,
            active_count: self.active_ants_under_max_moves,
            cap: self.max_moves,
            rng: self.rng_state,
        }
    }
}

impl AntSimulation {
    /// The invariant of a simulation: the graph's layout is consistent and
    /// the state satisfies the invariant of the model.
    pub closed spec fn wf(&self) -> bool {
        &&& self.graph.wf()
        &&& self@.wf()
    }

    /// The graph that the simulation runs on.
    pub closed spec fn graph_of(&self) -> ColonyGraph {
        self.graph
    }

    /// A well-formed simulation has a well-formed state over a well-formed
    /// graph.
    pub proof fn lemma_wf(&self)
        requires
            self.wf(),
        ensures
            self@.wf(),
            self.graph_of().wf(),
            self.graph_of()@ == self@.graph,
    {
    }

    /// Starts a run with one ant per entry of `placement`, each on the colony
    /// that its entry names.
    pub fn with_placement(graph: ColonyGraph, placement: Vec<usize>, max_moves: u32, seed: u64) -> (sim:
        Self)
        requires
            graph.wf(),
            forall|a: int| 0 <= a < placement@.len() ==>
                (#[trigger] placement@[a]) < graph@.sites(),
        ensures
            sim.wf(),
            sim@ == SimView::initial(graph@, placement@, max_moves, seed),
            sim.graph_of() == graph,
    {
        let sites = graph.site_count();
        let ants = placement.len();
        let mut ant_count: Vec<usize> = vec![0usize; sites];
        let mut ants_at_colony: Vec<Vec<usize>> = Vec::new();
        let mut s: usize = 0;
        while s < sites
            invariant
                s <= sites,
                ants_at_colony@.len() == s,
                forall|t: int| 0 <= t < s ==>
                    (#[trigger] ants_at_colony@[t])@ == Seq::<usize>::empty(),
            decreases sites - s,
        {
            ants_at_colony.push(Vec::new());
            s += 1;
        }
        let mut ant: usize = 0;
        while ant < ants
            invariant
                ant <= ants,
                ants == placement@.len(),
                sites == graph@.sites(),
                ant_count@.len() == sites,
                ants_at_colony@.len() == sites,
                forall|a: int| 0 <= a < placement@.len() ==> (#[trigger] placement@[a]) < sites,
                forall|t: int|
                    0 <= t < sites ==> (#[trigger] ants_at_colony@[t])@ == occupants(
                        placement@.take(ant as int),
                        t,
                    ),
                forall|t: int|
                    0 <= t < sites ==> (#[trigger] ant_count@[t]) == occupants(
                        placement@.take(ant as int),
                        t,
                    ).len(),
            decreases ants - ant,
        {
            let colony = placement[ant];
            let ghost sofar = placement@.take(ant as int);
            let ghost longer = placement@.take(ant + 1);
            proof {
                assert(longer.drop_last() == sofar);
                lemma_occupants(longer, colony as int);
            }
            ants_at_colony[colony].push(ant);
            ant_count[colony] += 1;
            ant += 1;
            proof {
                assert forall|t: int| 0 <= t < sites implies (#[trigger] ants_at_colony@[t])@
                    == occupants(longer, t) by {}
                assert forall|t: int| 0 <= t < sites implies (#[trigger] ant_count@[t]) == occupants(
                    longer,
                    t,
                ).len() by {}
            }
        }
        let sim = AntSimulation {
            graph,
            ant_count,
            destroyed: vec![false; sites],
            ant_position: placement,
            move_count: vec![0u32; ants],
            ant_alive: vec![true; ants],
            ants_at_colony,
            alive_ants: ants,
            active_ants_under_max_moves: if max_moves > 0 {
                ants
            } else {
                0
            },
            max_moves,
            rng_state: seed,
        };
        proof {
            assert(placement@.take(ants as int) == placement@);
            graph.lemma_wf_view();
            lemma_initial_wf(graph@, placement@, max_moves, seed);
            let start = SimView::initial(graph@, placement@, max_moves, seed);
            assert(sim@.destroyed == start.destroyed);
            assert(sim@.counts == start.counts);
            assert(sim@.members == start.members);
            assert(sim@.moves == start.moves);
            assert(sim@.alive == start.alive);
        }
        sim
    }

    /// Starts a run with `num_ants` ants, each placed on a colony drawn from
    /// the generator seeded with `seed`.
    pub fn new(graph: ColonyGraph, num_ants: usize, max_moves: u32, seed: u64) -> (sim: Self)
        requires
            graph.wf(),
            num_ants > 0 ==> graph@.sites() > 0,
        ensures
            sim.wf(),
            sim@ == SimView::initial(
                graph@,
                random_placement(seed, graph@.sites(), num_ants as nat).0,
                max_moves,
                random_placement(seed, graph@.sites(), num_ants as nat).1,
            ),
            sim.graph_of() == graph,
    {
        let sites = graph.site_count();
        let mut placement: Vec<usize> = Vec::new();
        let mut state = seed;
        let mut ant: usize = 0;
        while ant < num_ants
            invariant
                ant <= num_ants,
                num_ants > 0 ==> sites > 0,
                sites == graph@.sites(),
                (placement@, state) == random_placement(seed, sites as nat, ant as nat),
                forall|a: int| 0 <= a < placement@.len() ==> (#[trigger] placement@[a]) < sites,
            decreases num_ants - ant,
        {
            let drawn = pick(state, sites);
            placement.push(drawn.0);
            state = drawn.1;
            ant += 1;
        }
        Self::with_placement(graph, placement, max_moves, state)
    }

    /// The number of ants, dead or alive.
    pub fn total_ants(&self) -> (n: usize)
        requires
            self.wf(),
        ensures
            n == self@.ants(),
    {
        self.ant_alive.len()
    }

    /// The number of colonies, destroyed or not.
    pub fn total_colonies(&self) -> (n: usize)
        requires
            self.wf(),
        ensures
            n == self@.sites(),
    {
        self.destroyed.len()
    }

    /// The graph that the simulation runs on.
    pub fn graph(&self) -> (graph: &ColonyGraph)
        requires
            self.wf(),
        ensures
            *graph == self.graph_of(),
            graph.wf(),
            graph@ == self@.graph,
    {
        &self.graph
    }

    /// Has `colony_id` been destroyed.
    pub fn is_destroyed(&self, colony_id: usize) -> (gone: bool)
        requires
            self.wf(),
            colony_id < self@.sites(),
        ensures
            gone == self@.destroyed[colony_id as int],
    {
        self.destroyed[colony_id]
    }

    /// The cached number of ants on `colony_id`.
    pub fn occupancy(&self, colony_id: usize) -> (count: usize)
        requires
            self.wf(),
            colony_id < self@.sites(),
        ensures
            count == self@.counts[colony_id as int],
            count == self@.members[colony_id as int].len(),
    {
        self.ant_count[colony_id]
    }

    /// The ants on `colony_id`, in storage order.
    pub fn occupants(&self, colony_id: usize) -> (ants: &Vec<usize>)
        requires
            self.wf(),
            colony_id < self@.sites(),
        ensures
            ants@ == self@.members[colony_id as int],
    {
        &self.ants_at_colony[colony_id]
    }

    /// Is `ant_id` alive.
    pub fn is_alive(&self, ant_id: usize) -> (alive: bool)
        requires
            self.wf(),
            ant_id < self@.ants(),
        ensures
            alive == self@.alive[ant_id as int],
    {
        self.ant_alive[ant_id]
    }

    /// The colony that `ant_id` stands on, or stood on when it died.
    pub fn position_of(&self, ant_id: usize) -> (colony: usize)
        requires
            self.wf(),
            ant_id < self@.ants(),
        ensures
            colony == self@.position[ant_id as int],
    {
        self.ant_position[ant_id]
    }

    /// The number of moves that `ant_id` has completed.
    pub fn moves_of(&self, ant_id: usize) -> (moves: u32)
        requires
            self.wf(),
            ant_id < self@.ants(),
        ensures
            moves == self@.moves[ant_id as int],
    {
        self.move_count[ant_id]
    }

    /// The number of living ants.
    pub fn alive_ants(&self) -> (n: usize)
        requires
            self.wf(),
        ensures
            n == self@.alive_count,
            n == count_true(self@.alive),
    {
        self.alive_ants
    }

    /// The number of living ants whose move count is below the budget.
    pub fn active_under_budget(&self) -> (n: usize)
        requires
            self.wf(),
        ensures
            n == self@.active_count,
            n == count_true(self@.under_budget()),
    {
        self.active_ants_under_max_moves
    }

    /// The move budget of every ant.
    pub fn max_moves(&self) -> (cap: u32)
        requires
            self.wf(),
        ensures
            cap == self@.cap,
    {
        self.max_moves
    }

    /// The state of the random generator.
    pub fn rng_state(&self) -> (state: u64)
        requires
            self.wf(),
        ensures
            state == self@.rng,
    {
        self.rng_state
    }

    /// The destinations open to an ant on `colony_id`: `buffer` is emptied
    /// and filled with the stored edge targets that are not destroyed, in
    /// stored order.
    pub fn get_valid_moves(&self, colony_id: usize, buffer: &mut Vec<usize>)
        requires
            self.wf(),
            colony_id < self@.sites(),
        ensures
            final(buffer)@ == self@.valid_moves(colony_id as int),
    {
        buffer.clear();
        let count = self.graph.degree(colony_id);
        let ghost stored = self@.graph.adjacency[colony_id as int];
        let ghost standing = |t: usize| !self@.destroyed[t as int];
        proof {
            self.graph.lemma_wf_view();
            assert(stored.take(0).filter(standing) == Seq::<usize>::empty()) by {
                reveal(Seq::filter);
            }
        }
        let mut i: usize = 0;
        while i < count
            invariant
                self.wf(),
                colony_id < self@.sites(),
                i <= count,
                count == stored.len(),
                stored == self@.graph.adjacency[colony_id as int],
                standing == (|t: usize| !self@.destroyed[t as int]),
                buffer@ == stored.take(i as int).filter(standing),
            decreases count - i,
        {
            let neighbor = self.graph.neighbor(colony_id, i);
            proof {
                assert(stored.take(i + 1) == stored.take(i as int).push(neighbor));
                stored.take(i as int).lemma_filter_push(neighbor, standing);
            }
            if !self.destroyed[neighbor] {
                buffer.push(neighbor);
            }
            i += 1;
        }
        proof {
            assert(stored.take(count as int) == stored);
        }
    }

    /// Takes `ant` off the membership list of `colony`, the last entry moving
    /// into its place; a list that does not hold it is left as it is.
    fn remove_ant_from_colony(&mut self, colony: usize, ant: usize)
        requires
            colony < old(self).ants_at_colony@.len(),
            old(self)@.members[colony as int].no_duplicates(),
        ensures
            final(self)@ == (SimView {
                members: old(self)@.members.update(
                    colony as int,
                    if old(self)@.members[colony as int].contains(ant) {
                        swap_removed(
                            old(self)@.members[colony as int],
                            old(self)@.members[colony as int].index_of(ant),
                        )
                    } else {
                        old(self)@.members[colony as int]
                    },
                ),
                ..old(self)@
            }),
            final(self).graph == old(self).graph,
    {
        let ghost list = self@.members[colony as int];
        let count = self.ants_at_colony[colony].len();
        let mut pos: usize = 0;
        while pos < count && self.ants_at_colony[colony][pos] != ant
            invariant
                *self == *old(self),
                colony < self.ants_at_colony@.len(),
                list == self.ants_at_colony@[colony as int]@,
                count == list.len(),
                pos <= count,
                forall|i: int| 0 <= i < pos ==> list[i] != ant,
            decreases count - pos,
        {
            pos += 1;
        }
        if pos < count {
            proof {
                assert(list.contains(ant));
                let found = list.index_of(ant);
                assert(list[found] == ant);
                assert(found == pos);
            }
            self.ants_at_colony[colony].swap_remove(pos);
            assert(self@.members == old(self)@.members.update(
                colony as int,
                swap_removed(list, pos as int),
            ));
        } else {
            assert(!list.contains(ant));
            assert(self@.members == old(self)@.members.update(colony as int, list));
        }
    }

    /// Moves the living ant `agent` from `from_site`, where it stands, to
    /// `to_site`: both occupancies and membership lists are updated, the
    /// ant's move count goes up by one, and an ant that thereby reaches its
    /// budget no longer counts as under budget.
    pub fn relocate(&mut self, agent: usize, from_site: usize, to_site: usize)
        requires
            old(self).wf(),
            agent < old(self)@.ants(),
            old(self)@.alive[agent as int],
            old(self)@.position[agent as int] == from_site,
            to_site < old(self)@.sites(),
            !old(self)@.destroyed[to_site as int],
            old(self)@.moves[agent as int] < u32::MAX,
        ensures
            final(self).wf(),
            final(self)@ == old(self)@.relocate(agent as int, from_site as int, to_site as int),
            final(self).graph_of() == old(self).graph_of(),
    {
        let ghost before = self@;
        proof {
            before.lemma_living_place(agent as int);
            before.lemma_relocate_wf(agent as int, from_site as int, to_site as int);
            assert(before.counts[from_site as int] == before.members[from_site as int].len());
            assert(before.members[from_site as int].no_duplicates());
            assert(before.members[from_site as int].contains(agent));
        }
        self.ant_position[agent] = to_site;
        self.move_count[agent] += 1;
        if self.move_count[agent] == self.max_moves {
            proof {
                lemma_count_positive(before.under_budget(), agent as int);
            }
            self.active_ants_under_max_moves -= 1;
        }
        self.ant_count[from_site] -= 1;
        self.ant_count[to_site] += 1;
        self.remove_ant_from_colony(from_site, agent);
        self.ants_at_colony[to_site].push(agent);
        proof {
            let after = before.relocate(agent as int, from_site as int, to_site as int);
            assert(self@.members == after.members);
            assert(self@.counts == after.counts);
            assert(self@.position == after.position);
            assert(self@.moves == after.moves);
        }
    }

    /// Marks `colony_id` destroyed and empties it; a colony that is destroyed
    /// already is left as it is.
    fn destroy_colony(&mut self, colony_id: usize)
        requires
            colony_id < old(self).destroyed@.len(),
            old(self).ant_count@.len() == old(self).destroyed@.len(),
            old(self).ants_at_colony@.len() == old(self).destroyed@.len(),
        ensures
            final(self)@ == old(self)@.destroy_site(colony_id as int),
            final(self).graph == old(self).graph,
    {
        if !self.destroyed[colony_id] {
            self.destroyed[colony_id] = true;
            self.ant_count[colony_id] = 0;
            self.ants_at_colony[colony_id].clear();
            assert(self@.members == old(self)@.members.update(colony_id as int, Seq::empty()));
        }
    }

    /// Kills `ant_id`: it no longer counts as alive, nor as under budget if
    /// it was; an ant that is dead already is left as it is.
    fn kill_ant(&mut self, ant_id: usize)
        requires
            ant_id < old(self).ant_alive@.len(),
            old(self).move_count@.len() == old(self).ant_alive@.len(),
            old(self).ant_alive@[ant_id as int] ==> old(self).alive_ants >= 1,
            old(self).ant_alive@[ant_id as int] && old(self).move_count@[ant_id as int] < old(
                self,
            ).max_moves ==> old(self).active_ants_under_max_moves >= 1,
        ensures
            final(self)@ == old(self)@.kill(ant_id as int),
            final(self).graph == old(self).graph,
    {
        if self.ant_alive[ant_id] {
            self.ant_alive[ant_id] = false;
            self.alive_ants -= 1;
            if self.move_count[ant_id] < self.max_moves {
                self.active_ants_under_max_moves -= 1;
            }
        }
    }

    /// The collision check of `colony_id`: if it holds exactly two ants, the
    /// colony is destroyed, both ants are killed and the pair is returned in
    /// the order of the membership list; otherwise nothing changes.
    pub fn check_collision(&mut self, colony_id: usize) -> (pair: Option<(usize, usize)>)
        requires
            old(self).wf(),
            colony_id < old(self)@.sites(),
        ensures
            final(self).wf(),
            final(self)@ == old(self)@.collide(colony_id as int),
            final(self)@.follows(old(self)@),
            final(self).graph_of() == old(self).graph_of(),
            pair == if old(self)@.collides(colony_id as int) {
                Some(
                    (
                        old(self)@.members[colony_id as int][0],
                        old(self)@.members[colony_id as int][1],
                    ),
                )
            } else {
                None
            },
    {
        let ghost before = self@;
        proof {
            before.lemma_collide(colony_id as int);
        }
        if self.ant_count[colony_id] == 2 {
            let ant1 = self.ants_at_colony[colony_id][0];
            let ant2 = self.ants_at_colony[colony_id][1];
            proof {
                let pair = before.members[colony_id as int];
                assert(pair[0] < before.ants() && before.alive[pair[0] as int]);
                assert(pair[1] < before.ants() && before.alive[pair[1] as int]);
                lemma_count_positive(before.alive, ant1 as int);
                let razed = before.destroy_site(colony_id as int);
                let first = razed.kill(ant1 as int);
                lemma_count_update(before.alive, ant1 as int, false);
                lemma_count_positive(first.alive, ant2 as int);
                if before.moves[ant1 as int] < before.cap {
                    lemma_count_positive(before.under_budget(), ant1 as int);
                }
                assert(first.under_budget() == before.under_budget().update(ant1 as int, false));
                lemma_count_update(before.under_budget(), ant1 as int, false);
                if before.moves[ant2 as int] < before.cap {
                    lemma_count_positive(first.under_budget(), ant2 as int);
                }
            }
            self.destroy_colony(colony_id);
            self.kill_ant(ant1);
            self.kill_ant(ant2);
            return Some((ant1, ant2));
        }
        None
    }

    /// The turn of `ant_id`: a living ant whose colony has a neighbour that
    /// still stands goes to one of them, drawn from the generator, and the
    /// pair of the colony it left and the colony it reached is returned. A
    /// dead ant and an ant at a dead end change nothing. `buffer` is scratch
    /// space that holds the open destinations afterwards.
    pub fn move_ant(&mut self, ant_id: usize, buffer: &mut Vec<usize>) -> (r: Option<(usize, usize)>)
        requires
            old(self).wf(),
            ant_id < old(self)@.ants(),
            old(self)@.moves[ant_id as int] < u32::MAX,
        ensures
            final(self).wf(),
            final(self)@ == old(self)@.step(ant_id as int),
            final(self)@.follows(old(self)@),
            final(self).graph_of() == old(self).graph_of(),
            r == if old(self)@.moves_on(ant_id as int) {
                Some((old(self)@.position[ant_id as int], old(self)@.destination(ant_id as int)))
            } else {
                None
            },
            final(buffer)@ == if old(self)@.alive[ant_id as int] {
                old(self)@.valid_moves(old(self)@.position[ant_id as int] as int)
            } else {
                old(buffer)@
            },
    {
        let ghost before = self@;
        proof {
            before.lemma_step(ant_id as int);
        }
        if !self.ant_alive[ant_id] {
            return None;
        }
        proof {
            before.lemma_living_place(ant_id as int);
        }
        let current_colony = self.ant_position[ant_id];
        self.get_valid_moves(current_colony, buffer);
        if buffer.is_empty() {
            return None;
        }
        proof {
            before.lemma_valid_moves(current_colony as int);
        }
        let drawn = pick(self.rng_state, buffer.len());
        let next_colony = buffer[drawn.0];
        self.rng_state = drawn.1;
        proof {
            let seeded = SimView { rng: drawn.1, ..before };
            assert(self@ == seeded);
            assert(seeded.under_budget() == before.under_budget());
            assert(seeded.wf());
        }
        self.relocate(ant_id, current_colony, next_colony);
        Some((current_colony, next_colony))
    }

    /// One tick: every ant has its turn in ascending order, each colony that
    /// an arrival brings to exactly two occupants is recorded (unless it is
    /// the last one recorded), and the recorded colonies are then checked for
    /// collisions in recorded order.
    pub fn run_iteration(&mut self)
        requires
            old(self).wf(),
            old(self)@.can_tick(),
        ensures
            final(self).wf(),
            final(self)@ == old(self)@.tick(),
            final(self)@.follows(old(self)@),
            final(self).graph_of() == old(self).graph_of(),
    {
        let ghost before = self@;
        let mut buffer: Vec<usize> = Vec::with_capacity(4);
        let mut colonies_to_check: Vec<usize> = Vec::new();
        let total_ants = self.ant_alive.len();
        let mut ant_id: usize = 0;
        while ant_id < total_ants
            invariant
                self.wf(),
                before.wf(),
                before.can_tick(),
                total_ants == before.ants(),
                ant_id <= total_ants,
                (self@, colonies_to_check@) == before.movement(ant_id as nat),
                self.graph_of() == old(self).graph_of(),
            decreases total_ants - ant_id,
        {
            let ghost turn = self@;
            let ghost sofar = colonies_to_check@;
            proof {
                before.lemma_movement(ant_id as nat);
                turn.lemma_step(ant_id as int);
            }
            match self.move_ant(ant_id, &mut buffer) {
                Some((_, next_colony)) => {
                    if self.ant_count[next_colony] == 2 {
                        // avoid pushing the same colony twice in a row
                        let recorded = colonies_to_check.len();
                        if recorded == 0 || colonies_to_check[recorded - 1] != next_colony {
                            colonies_to_check.push(next_colony);
                        }
                    }
                },
                None => {},
            }
            ant_id += 1;
            proof {
                assert(colonies_to_check@ == turn.recorded(ant_id - 1, sofar));
            }
        }
        let ghost moved = self@;
        let ghost recorded = colonies_to_check@;
        proof {
            before.lemma_movement(total_ants as nat);
            assert(recorded == before.movement(total_ants as nat).1);
            assert forall|j: int| 0 <= j < recorded.len() implies (#[trigger] recorded[j])
                < moved.sites() by {
                assert(before.movement(total_ants as nat).1[j] < before.sites());
            }
            moved.lemma_resolve(recorded);
            before.lemma_tick();
            assert(recorded.skip(0) == recorded);
        }
        let count = colonies_to_check.len();
        let mut i: usize = 0;
        while i < count
            invariant
                self.wf(),
                i <= count,
                count == recorded.len(),
                colonies_to_check@ == recorded,
                self@.sites() == moved.sites(),
                forall|j: int| 0 <= j < recorded.len() ==> (#[trigger] recorded[j]) < moved.sites(),
                self@.resolve(recorded.skip(i as int)) == moved.resolve(recorded),
                self.graph_of() == old(self).graph_of(),
            decreases count - i,
        {
            proof {
                assert(recorded.skip(i as int).drop_first() == recorded.skip(i + 1));
            }
            self.check_collision(colonies_to_check[i]);
            i += 1;
        }
    }

    /// Runs ticks while `should_continue` holds, `max_ticks` of them at the
    /// most, and returns how many ran.
    pub fn run(&mut self, max_ticks: u32) -> (ticks: u32)
        requires
            old(self).wf(),
            old(self)@.can_run(max_ticks as nat),
        ensures
            final(self).wf(),
            final(self)@ == old(self)@.run(max_ticks as nat).0,
            ticks == old(self)@.run(max_ticks as nat).1,
            ticks <= max_ticks,
            ticks < max_ticks ==> !final(self)@.should_continue(),
            final(self)@.follows(old(self)@),
            final(self).graph_of() == old(self).graph_of(),
    {
        let ghost before = self@;
        proof {
            before.lemma_run(max_ticks as nat);
        }
        let mut iterations: u32 = 0;
        while iterations < max_ticks && self.should_continue()
            invariant
                self.wf(),
                iterations <= max_ticks,
                self@.can_run((max_ticks - iterations) as nat),
                self@.run((max_ticks - iterations) as nat).0 == before.run(max_ticks as nat).0,
                self@.run((max_ticks - iterations) as nat).1 + iterations == before.run(
                    max_ticks as nat,
                ).1,
                self.graph_of() == old(self).graph_of(),
            decreases max_ticks - iterations,
        {
            proof {
                self@.lemma_tick_room((max_ticks - iterations) as nat);
            }
            self.run_iteration();
            iterations += 1;
        }
        iterations
    }

    /// Should another tick run: an ant is alive and a living ant has moves
    /// left in its budget.
    pub fn should_continue(&self) -> (go: bool)
        requires
            self.wf(),
        ensures
            go == self@.should_continue(),
    {
        self.alive_ants > 0 && self.active_ants_under_max_moves > 0
    }

    /// The number of living ants, the number of colonies that still stand,
    /// and the number of all colonies.
    pub fn stats(&self) -> (r: (usize, usize, usize))
        requires
            self.wf(),
        ensures
            r.0 == count_true(self@.alive),
            r.1 == count_true(self@.standing()),
            r.2 == self@.sites(),
    {
        let sites = self.destroyed.len();
        let mut active_colonies: usize = 0;
        let mut s: usize = 0;
        while s < sites
            invariant
                s <= sites,
                sites == self.destroyed@.len(),
                self@.destroyed == self.destroyed@,
                active_colonies == count_true(self@.standing().take(s as int)),
                active_colonies <= s,
            decreases sites - s,
        {
            proof {
                let flags = self@.standing();
                assert(flags.take(s + 1).drop_last() == flags.take(s as int));
            }
            if !self.destroyed[s] {
                active_colonies += 1;
            }
            s += 1;
        }
        proof {
            assert(self@.standing().take(sites as int) == self@.standing());
        }
        (self.alive_ants, active_colonies, sites)
    }
}

} // verus!
