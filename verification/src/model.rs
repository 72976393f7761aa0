//! The mathematical model of a simulation: what a state is, when it is
//! well formed, and how every operation of the engine transforms it.

use crate::graph::GraphView;
use crate::rng::{picked, state_after};
use vstd::prelude::*;

verus! {

/// How many entries of `flags` are true.
pub open spec fn count_true(flags: Seq<bool>) -> nat
    decreases flags.len(),
{
    if flags.len() == 0 {
        0
    } else {
        count_true(flags.drop_last()) + if flags.last() {
            1nat
        } else {
            0nat
        }
    }
}

/// `list` without the entry at `index`, the last entry moved into its place.
pub open spec fn swap_removed(list: Seq<usize>, index: int) -> Seq<usize> {
    list.update(index, list.last()).drop_last()
}

/// The ants that `placement` puts on `site`, in ascending order.
pub open spec fn occupants(placement: Seq<usize>, site: int) -> Seq<usize>
    decreases placement.len(),
{
    if placement.len() == 0 {
        Seq::empty()
    } else {
        let before = occupants(placement.drop_last(), site);
        if placement.last() == site {
            before.push((placement.len() - 1) as usize)
        } else {
            before
        }
    }
}

/// The colonies that the generator picks for `ants` ants, one draw among all
/// `sites` colonies per ant in ascending order, and the state of the
/// generator after the last draw.
pub open spec fn random_placement(rng: u64, sites: nat, ants: nat) -> (Seq<usize>, u64)
    decreases ants,
{
    if ants == 0 {
        (Seq::empty(), rng)
    } else {
        let before = random_placement(rng, sites, (ants - 1) as nat);
        (before.0.push(picked(before.1, sites) as usize), state_after(before.1, sites))
    }
}

/// The whole state of a simulation.
pub struct SimView {
    /// The colony graph, fixed for the whole run.
    pub graph: GraphView,
    /// Per colony: has it been destroyed.
    pub destroyed: Seq<bool>,
    /// Per colony: the cached number of occupants.
    pub counts: Seq<usize>,
    /// Per colony: the ants that stand there, in storage order.
    pub members: Seq<Seq<usize>>,
    /// Per ant: the colony it stands on (meaningful while it is alive).
    pub position: Seq<usize>,
    /// Per ant: the number of moves it has completed.
    pub moves: Seq<u32>,
    /// Per ant: is it alive.
    pub alive: Seq<bool>,
    /// The cached number of living ants.
    pub alive_count: usize,
    /// The cached number of living ants with fewer than `cap` moves.
    pub active_count: usize,
    /// The move budget of every ant.
    pub cap: u32,
    /// The state of the random generator.
    pub rng: u64,
}

impl SimView {
    /// The state at the start of a run: no colony destroyed, every ant alive
    /// on the colony that `placement` gives it, no move made yet.
    pub open spec fn initial(graph: GraphView, placement: Seq<usize>, cap: u32, rng: u64) -> SimView {
        SimView {
            graph,
            destroyed: Seq::new(graph.sites(), |s: int| false),
            counts: Seq::new(graph.sites(), |s: int| occupants(placement, s).len() as usize),
            members: Seq::new(graph.sites(), |s: int| occupants(placement, s)),
            position: placement,
            moves: Seq::new(placement.len(), |a: int| 0u32),
            alive: Seq::new(placement.len(), |a: int| true),
            alive_count: placement.len() as usize,
            active_count: if cap > 0 {
                placement.len() as usize
            } else {
                0
            },
            cap,
            rng,
        }
    }

    /// Per colony: does it still stand.
    pub open spec fn standing(self) -> Seq<bool> {
        Seq::new(self.destroyed.len(), |s: int| !self.destroyed[s])
    }

    /// The number of colonies.
    pub open spec fn sites(self) -> nat {
        self.destroyed.len()
    }

    /// The number of ants, dead or alive.
    pub open spec fn ants(self) -> nat {
        self.alive.len()
    }

    /// Per ant: is it alive with moves left in its budget.
    pub open spec fn under_budget(self) -> Seq<bool> {
        Seq::new(self.alive.len(), |a: int| self.alive[a] && self.moves[a] < self.cap)
    }

    /// The per-colony and per-ant sequences have matching lengths, every
    /// colony and every ant has a `usize` for its number, and the graph is
    /// well formed.
    pub open spec fn shaped(self) -> bool {
        &&& self.graph.wf()
        &&& self.graph.sites() == self.destroyed.len()
        &&& self.counts.len() == self.destroyed.len()
        &&& self.members.len() == self.destroyed.len()
        &&& self.position.len() == self.alive.len()
        &&& self.moves.len() == self.alive.len()
        &&& self.alive.len() <= usize::MAX
        &&& self.destroyed.len() <= usize::MAX
    }

    /// Every occupant counter equals the size of its membership list.
    pub open spec fn counts_match(self) -> bool {
        forall|s: int|
            #![trigger self.counts[s]]
            #![trigger self.members[s]]
            0 <= s < self.sites() ==> self.counts[s] == self.members[s].len()
    }

    /// A destroyed colony has no occupants.
    pub open spec fn destroyed_empty(self) -> bool {
        forall|s: int| 0 <= s < self.sites() && #[trigger] self.destroyed[s] ==>
            self.members[s].len() == 0
    }

    /// Every listed occupant is a living ant that stands on that colony.
    pub open spec fn members_stand(self) -> bool {
        forall|s: int, i: int|
            0 <= s < self.sites() && 0 <= i < self.members[s].len() ==> {
                let a = #[trigger] self.members[s][i];
                &&& a < self.ants()
                &&& self.alive[a as int]
                &&& self.position[a as int] == s
            }
    }

    /// No ant is listed twice on one colony.
    pub open spec fn members_distinct(self) -> bool {
        forall|s: int| 0 <= s < self.sites() ==> (#[trigger] self.members[s]).no_duplicates()
    }

    /// Every living ant is listed on the colony it stands on.
    pub open spec fn living_listed(self) -> bool {
        forall|a: int|
            0 <= a < self.ants() && #[trigger] self.alive[a] ==> {
                &&& self.position[a] < self.sites()
                &&& self.members[self.position[a] as int].contains(a as usize)
            }
    }

    /// The invariant of the simulation: occupancy is consistent with the
    /// ants' positions and the two aggregate counters are exact.
    pub open spec fn wf(self) -> bool {
        &&& self.shaped()
        &&& self.counts_match()
        &&& self.destroyed_empty()
        &&& self.members_stand()
        &&& self.members_distinct()
        &&& self.living_listed()
        &&& self.alive_count == count_true(self.alive)
        &&& self.active_count == count_true(self.under_budget())
    }

    /// The destinations open to an ant on `site`: the stored edge targets
    /// that are not destroyed, in stored order.
    pub open spec fn valid_moves(self, site: int) -> Seq<usize> {
        self.graph.adjacency[site].filter(|t: usize| !self.destroyed[t as int])
    }

    /// The state after `ant` went from `from` to `to`.
    pub open spec fn relocate(self, ant: int, from: int, to: int) -> SimView {
        let at = self.members[from].index_of(ant as usize);
        let left = self.members.update(from, swap_removed(self.members[from], at));
        let counts_left = self.counts.update(from, (self.counts[from] - 1) as usize);
        let moved = (self.moves[ant] + 1) as u32;
        SimView {
            members: left.update(to, left[to].push(ant as usize)),
            counts: counts_left.update(to, (counts_left[to] + 1) as usize),
            position: self.position.update(ant, to as usize),
            moves: self.moves.update(ant, moved),
            active_count: if moved == self.cap {
                (self.active_count - 1) as usize
            } else {
                self.active_count
            },
            ..self
        }
    }

    /// The state after `ant` was killed; unchanged if it was dead already.
    pub open spec fn kill(self, ant: int) -> SimView {
        if !self.alive[ant] {
            self
        } else {
            SimView {
                alive: self.alive.update(ant, false),
                alive_count: (self.alive_count - 1) as usize,
                active_count: if self.moves[ant] < self.cap {
                    (self.active_count - 1) as usize
                } else {
                    self.active_count
                },
                ..self
            }
        }
    }

    /// The state after `site` was destroyed; unchanged if it was destroyed
    /// already.
    pub open spec fn destroy_site(self, site: int) -> SimView {
        if self.destroyed[site] {
            self
        } else {
            SimView {
                destroyed: self.destroyed.update(site, true),
                counts: self.counts.update(site, 0),
                members: self.members.update(site, Seq::empty()),
                ..self
            }
        }
    }

    /// Does `site` hold exactly two ants.
    pub open spec fn collides(self, site: int) -> bool {
        self.counts[site] == 2
    }

    /// The state after the collision check of `site`: a colony that holds
    /// exactly two ants is destroyed and both die; any other is left alone.
    pub open spec fn collide(self, site: int) -> SimView {
        if self.collides(site) {
            self.destroy_site(site).kill(self.members[site][0] as int).kill(
                self.members[site][1] as int,
            )
        } else {
            self
        }
    }

    /// Will `ant` change colony when its turn comes: it is alive and its
    /// colony has a neighbour that still stands.
    pub open spec fn moves_on(self, ant: int) -> bool {
        self.alive[ant] && self.valid_moves(self.position[ant] as int).len() > 0
    }

    /// The destination that the generator picks for `ant`.
    pub open spec fn destination(self, ant: int) -> usize {
        let choices = self.valid_moves(self.position[ant] as int);
        choices[picked(self.rng, choices.len())]
    }

    /// The state after the turn of `ant`. A dead ant and an ant at a dead end
    /// leave the state as it is, the generator included.
    pub open spec fn step(self, ant: int) -> SimView {
        if self.moves_on(ant) {
            let choices = self.valid_moves(self.position[ant] as int);
            SimView { rng: state_after(self.rng, choices.len()), ..self }.relocate(
                ant,
                self.position[ant] as int,
                self.destination(ant) as int,
            )
        } else {
            self
        }
    }

    /// The list of colonies to check after the turn of `ant`, `self` being
    /// the state before that turn: the destination is added if the arrival
    /// brought it to exactly two occupants and it is not the last entry.
    pub open spec fn recorded(self, ant: int, sofar: Seq<usize>) -> Seq<usize> {
        let next = self.destination(ant);
        if self.moves_on(ant) && self.step(ant).counts[next as int] == 2 && (sofar.len() == 0
            || sofar.last() != next) {
            sofar.push(next)
        } else {
            sofar
        }
    }

    /// The state and the list of colonies to check after the turns of the
    /// ants `0..upto`, taken in ascending order.
    pub open spec fn movement(self, upto: nat) -> (SimView, Seq<usize>)
        decreases upto,
    {
        if upto == 0 {
            (self, Seq::empty())
        } else {
            let before = self.movement((upto - 1) as nat);
            (before.0.step(upto - 1), before.0.recorded(upto - 1, before.1))
        }
    }

    /// The state after the collision checks of `sites`, front to back.
    pub open spec fn resolve(self, sites: Seq<usize>) -> SimView
        decreases sites.len(),
    {
        if sites.len() == 0 {
            self
        } else {
            self.collide(sites[0] as int).resolve(sites.drop_first())
        }
    }

    /// The state after the movement pass of one tick.
    pub open spec fn after_moves(self) -> SimView {
        self.movement(self.ants()).0
    }

    /// The state after one tick: every ant has its turn, then the recorded
    /// colonies are checked for collisions.
    pub open spec fn tick(self) -> SimView {
        let moved = self.movement(self.ants());
        moved.0.resolve(moved.1)
    }

    /// `self` can follow `before` in a run: the same graph, budget and
    /// numbers of colonies and ants, every colony that was destroyed still
    /// destroyed and every ant that was dead still dead.
    pub open spec fn follows(self, before: SimView) -> bool {
        &&& self.graph == before.graph
        &&& self.cap == before.cap
        &&& self.sites() == before.sites()
        &&& self.ants() == before.ants()
        &&& forall|s: int|
            0 <= s < before.sites() && #[trigger] before.destroyed[s] ==> self.destroyed[s]
        &&& forall|a: int| 0 <= a < before.ants() && !(#[trigger] before.alive[a]) ==>
            !self.alive[a]
    }

    /// Should another tick run: some ant is alive and some living ant has
    /// moves left.
    pub open spec fn should_continue(self) -> bool {
        self.alive_count > 0 && self.active_count > 0
    }

    /// Every move counter has room for `ticks` more moves.
    pub open spec fn can_run(self, ticks: nat) -> bool {
        forall|a: int| 0 <= a < self.moves.len() ==> (#[trigger] self.moves[a]) + ticks <= u32::MAX
    }

    /// Every move counter has room for the move of one more tick.
    pub open spec fn can_tick(self) -> bool {
        self.can_run(1)
    }

    /// The state after `ticks` ticks.
    pub open spec fn after_ticks(self, ticks: nat) -> SimView
        decreases ticks,
    {
        if ticks == 0 {
            self
        } else {
            self.after_ticks((ticks - 1) as nat).tick()
        }
    }

    /// Has `site` no neighbour that still stands.
    pub open spec fn dead_end(self, site: int) -> bool {
        self.valid_moves(site).len() == 0
    }

    /// The ants that some membership list holds.
    pub open spec fn listed(self) -> Set<usize> {
        Set::new(|a: usize| exists|s: int| 0 <= s < self.sites() && self.members[s].contains(a))
    }

    /// The ants that are alive.
    pub open spec fn living(self) -> Set<usize> {
        Set::new(|a: usize| a < self.ants() && self.alive[a as int])
    }

    /// The state after the driver ran with a ceiling of `ceiling` ticks, and
    /// the number of ticks it ran.
    pub open spec fn run(self, ceiling: nat) -> (SimView, nat)
        decreases ceiling,
    {
        if ceiling == 0 || !self.should_continue() {
            (self, 0)
        } else {
            let rest = self.tick().run((ceiling - 1) as nat);
            (rest.0, rest.1 + 1)
        }
    }
}

} // verus!
