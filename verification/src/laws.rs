//! What holds of every run: the laws of the simulation, stated over the
//! model and proved from its definitions.

use crate::model::{count_true, SimView};
use vstd::prelude::*;

verus! {

impl SimView {
    /// Occupancy is consistent in every well-formed state: the counter of
    /// every colony is the size of its membership set, and the ants that the
    /// membership sets hold are exactly the living ants.
    pub proof fn law_occupancy_consistent(self)
        requires
            self.wf(),
        ensures
            forall|s: int|
                0 <= s < self.sites() ==>
                    #[trigger] self.counts[s] == self.members[s].to_set().len(),
            self.listed() == self.living(),
    {
        assert forall|s: int| 0 <= s < self.sites() implies #[trigger] self.counts[s]
            == self.members[s].to_set().len() by {
            assert(self.members[s].no_duplicates());
            self.members[s].unique_seq_to_set();
        }
        assert forall|a: usize| self.listed().contains(a) implies self.living().contains(a) by {
            let s = choose|s: int| 0 <= s < self.sites() && self.members[s].contains(a);
            let i = choose|i: int| 0 <= i < self.members[s].len() && self.members[s][i] == a;
            assert(self.members[s][i] == a);
        }
        assert forall|a: usize| self.living().contains(a) implies self.listed().contains(a) by {
            assert(self.alive[a as int]);
            assert(self.members[self.position[a as int] as int].contains(a));
        }
        assert(self.listed() =~= self.living());
    }

    /// The two aggregate counters are exact in every well-formed state: the
    /// number of living ants, and the number of living ants whose move count
    /// is strictly below the budget.
    pub proof fn law_budget_accounting(self)
        requires
            self.wf(),
        ensures
            self.alive_count == count_true(self.alive),
            self.active_count == count_true(
                Seq::new(self.ants(), |a: int| self.alive[a] && self.moves[a] < self.cap),
            ),
            self.active_count <= self.alive_count <= self.ants(),
    {
        self.lemma_counters_ordered();
    }

    /// The invariant holds at the start and at the end of every tick, and
    /// nothing is undone: after any number of ticks every colony that was
    /// destroyed is still destroyed and every ant that was dead is still
    /// dead.
    pub proof fn law_ticks_keep_invariant(self, ticks: nat)
        requires
            self.wf(),
            self.can_run(ticks),
        ensures
            self.after_ticks(ticks).wf(),
            self.after_ticks(ticks).follows(self),
            self.after_ticks(ticks).can_run(0),
    {
        self.lemma_after_ticks(ticks);
    }

    /// A run can be reproduced: two simulations in the same state, the state
    /// of the generator included, go through the same states tick by tick
    /// and end a run in the same state after the same number of ticks.
    pub proof fn law_same_state_same_run(self, other: SimView, ticks: nat)
        requires
            self == other,
        ensures
            self.tick() == other.tick(),
            self.after_ticks(ticks) == other.after_ticks(ticks),
            self.run(ticks) == other.run(ticks),
            self.remaining_world() == other.remaining_world(),
    {
    }

    /// An ant at a dead end stays where it is with the move count it has,
    /// tick after tick; it is alive for as long as its colony stands (a
    /// second ant that walks in destroys the colony and kills both).
    pub proof fn law_dead_end_stable(self, ant: int, ticks: nat)
        requires
            self.wf(),
            self.can_run(ticks),
            0 <= ant < self.ants(),
            self.alive[ant],
            self.dead_end(self.position[ant] as int),
        ensures
            self.after_ticks(ticks).position[ant] == self.position[ant],
            self.after_ticks(ticks).moves[ant] == self.moves[ant],
            self.after_ticks(ticks).dead_end(self.position[ant] as int),
            self.after_ticks(ticks).alive[ant]
                == !self.after_ticks(ticks).destroyed[self.position[ant] as int],
    {
        self.lemma_living_place(ant);
        self.lemma_dead_end_ticks(ant, ticks);
    }

    /// Three arrivals spare the colony: a colony that is empty before a tick
    /// and holds three ants when all ants have had their turn is not
    /// destroyed in that tick. Its three occupants are three living ants that
    /// reached it in this tick, each by the one move of its turn.
    pub proof fn law_three_arrivals_spare_colony(self, site: int)
        requires
            self.wf(),
            self.can_tick(),
            0 <= site < self.sites(),
            !self.destroyed[site],
            self.counts[site] == 0,
            self.after_moves().counts[site] == 3,
        ensures
            !self.tick().destroyed[site],
            self.tick().counts[site] == 3,
            self.tick().members[site] == self.after_moves().members[site],
            self.tick().members[site].no_duplicates(),
            forall|i: int|
                0 <= i < 3 ==> {
                    let ant = #[trigger] self.tick().members[site][i] as int;
                    &&& 0 <= ant < self.ants()
                    &&& self.alive[ant]
                    &&& self.position[ant] != site
                    &&& self.tick().alive[ant]
                    &&& self.tick().position[ant] == site
                    &&& self.tick().moves[ant] == self.moves[ant] + 1
                },
    {
        self.lemma_only_pairs_collide(site);
        self.lemma_movement(self.ants());
        self.lemma_tick();
        let moved = self.movement(self.ants());
        moved.0.lemma_resolve(moved.1);
        let after = self.tick();
        assert(after.counts[site] == after.members[site].len());
        assert(after.members[site].no_duplicates());
        assert forall|i: int| 0 <= i < 3 implies {
            let ant = #[trigger] after.members[site][i] as int;
            &&& 0 <= ant < self.ants()
            &&& self.alive[ant]
            &&& self.position[ant] != site
            &&& after.alive[ant]
            &&& after.position[ant] == site
            &&& after.moves[ant] == self.moves[ant] + 1
        } by {
            let ant = after.members[site][i] as int;
            assert(after.alive[ant] && after.position[ant] == site);
            assert(self.alive[ant]);
            if self.position[ant] == site {
                assert(self.members[site].contains(ant as usize));
                assert(self.counts[site] == self.members[site].len());
            }
            assert(moved.0.position[ant] != self.position[ant]);
        }
    }

    /// A colony that holds any number of ants but two when all ants have
    /// moved is left as it is by the collision checks of that tick.
    pub proof fn lemma_only_pairs_collide(self, site: int)
        requires
            self.wf(),
            self.can_tick(),
            0 <= site < self.sites(),
            self.after_moves().counts[site] != 2,
        ensures
            self.tick().destroyed[site] == self.destroyed[site],
            self.tick().counts[site] == self.after_moves().counts[site],
            self.tick().members[site] == self.after_moves().members[site],
    {
        self.lemma_movement(self.ants());
        let moved = self.movement(self.ants());
        moved.0.lemma_resolve_spares(moved.1, site);
    }
}

} // verus!
