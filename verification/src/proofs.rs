//! Proofs that the operations of the model keep the invariant.

use crate::graph::GraphView;
use crate::model::{count_true, occupants, swap_removed, SimView};
use crate::rng::{picked, state_after};
use vstd::prelude::*;

verus! {

/// A count of true entries never exceeds the length.
pub proof fn lemma_count_bound(flags: Seq<bool>)
    ensures
        count_true(flags) <= flags.len(),
    decreases flags.len(),
{
    if flags.len() > 0 {
        lemma_count_bound(flags.drop_last());
    }
}

/// Changing one entry changes the count by that entry alone.
pub proof fn lemma_count_update(flags: Seq<bool>, at: int, value: bool)
    requires
        0 <= at < flags.len(),
    ensures
        count_true(flags.update(at, value)) + (if flags[at] { 1int } else { 0int })
            == count_true(flags) + (if value { 1int } else { 0int }),
    decreases flags.len(),
{
    let updated = flags.update(at, value);
    if at == flags.len() - 1 {
        assert(updated.drop_last() == flags.drop_last());
    } else {
        assert(updated.drop_last() == flags.drop_last().update(at, value));
        lemma_count_update(flags.drop_last(), at, value);
    }
}

/// A sequence with a true entry counts at least one.
pub proof fn lemma_count_positive(flags: Seq<bool>, at: int)
    requires
        0 <= at < flags.len(),
        flags[at],
    ensures
        count_true(flags) >= 1,
{
    lemma_count_update(flags, at, false);
}

/// A sequence of nothing but true entries counts its length.
pub proof fn lemma_count_all(flags: Seq<bool>)
    requires
        forall|i: int| 0 <= i < flags.len() ==> flags[i],
    ensures
        count_true(flags) == flags.len(),
    decreases flags.len(),
{
    if flags.len() > 0 {
        lemma_count_all(flags.drop_last());
    }
}

/// A sequence without a true entry counts zero.
pub proof fn lemma_count_none(flags: Seq<bool>)
    requires
        forall|i: int| 0 <= i < flags.len() ==> !flags[i],
    ensures
        count_true(flags) == 0,
    decreases flags.len(),
{
    if flags.len() > 0 {
        lemma_count_none(flags.drop_last());
    }
}

/// What is left after a swap-removal from a list without duplicates: every
/// entry but the removed one, still without duplicates.
pub proof fn lemma_swap_removed(list: Seq<usize>, at: int)
    requires
        0 <= at < list.len(),
        list.no_duplicates(),
    ensures
        swap_removed(list, at).len() == list.len() - 1,
        swap_removed(list, at).no_duplicates(),
        !swap_removed(list, at).contains(list[at]),
        forall|x: usize| x != list[at] && list.contains(x) ==> swap_removed(list, at).contains(x),
        forall|i: int|
            0 <= i < swap_removed(list, at).len() ==> list.contains(
                #[trigger] swap_removed(list, at)[i],
            ),
{
    let rest = swap_removed(list, at);
    let last = list.len() - 1;
    assert forall|i: int| 0 <= i < rest.len() implies list.contains(#[trigger] rest[i]) by {
        if i == at {
            assert(list[last] == rest[i]);
        } else {
            assert(list[i] == rest[i]);
        }
    }
    assert forall|x: usize| x != list[at] && list.contains(x) implies rest.contains(x) by {
        let j = choose|j: int| 0 <= j < list.len() && list[j] == x;
        if j == last {
            assert(rest[at] == x);
        } else {
            assert(rest[j] == x);
        }
    }
    if rest.contains(list[at]) {
        let j = choose|j: int| 0 <= j < rest.len() && rest[j] == list[at];
        if j == at {
            assert(list[last] == list[at]);
        } else {
            assert(list[j] == list[at]);
        }
    }
}

impl SimView {
    /// A living ant stands on a colony that is not destroyed, at the one
    /// place of its membership list that `index_of` finds.
    pub proof fn lemma_living_place(self, ant: int)
        requires
            self.wf(),
            0 <= ant < self.ants(),
            self.alive[ant],
        ensures
            self.position[ant] < self.sites(),
            !self.destroyed[self.position[ant] as int],
            0 <= self.members[self.position[ant] as int].index_of(ant as usize)
                < self.members[self.position[ant] as int].len(),
            self.members[self.position[ant] as int][self.members[self.position[ant] as int].index_of(
                ant as usize,
            )] == ant,
            self.counts[self.position[ant] as int] >= 1,
    {
        let from = self.position[ant] as int;
        assert(self.members[from].contains(ant as usize));
    }

    /// Relocating a living ant from the colony it stands on to a colony that
    /// is not destroyed keeps the invariant.
    pub proof fn lemma_relocate_wf(self, ant: int, from: int, to: int)
        requires
            self.wf(),
            0 <= ant < self.ants(),
            self.alive[ant],
            self.position[ant] == from,
            0 <= to < self.sites(),
            !self.destroyed[to],
            self.moves[ant] < u32::MAX,
        ensures
            self.relocate(ant, from, to).wf(),
            from == to || self.counts[to] < usize::MAX,
    {
        self.lemma_living_place(ant);
        let after = self.relocate(ant, from, to);
        let at = self.members[from].index_of(ant as usize);
        let rest = swap_removed(self.members[from], at);
        let left = self.members.update(from, rest);
        lemma_swap_removed(self.members[from], at);
        assert(self.members[from].no_duplicates());
        assert(after.sites() == self.sites());
        assert(after.ants() == self.ants());
        // the membership lists
        assert forall|s: int, i: int|
            0 <= s < after.sites() && 0 <= i < after.members[s].len() implies {
            let a = #[trigger] after.members[s][i];
            &&& a < after.ants()
            &&& after.alive[a as int]
            &&& after.position[a as int] == s
        } by {
            let a = after.members[s][i];
            if s == to && i == left[to].len() {
                assert(a == ant);
            } else if s == from {
                assert(a == rest[i]);
                assert(rest.contains(rest[i]));
                assert(self.members[from].contains(rest[i]));
                let j = choose|j: int| 0 <= j < self.members[from].len() && self.members[from][j] == a;
                assert(self.members[from][j] == a);
                assert(a != ant);
            } else {
                assert(a == self.members[s][i]);
                assert(self.position[a as int] == s);
                assert(a != ant);
            }
        }
        assert forall|s: int| 0 <= s < after.sites() implies
            (#[trigger] after.members[s]).no_duplicates() by {
            if s == to {
                let old_to = left[to];
                assert(old_to.no_duplicates()) by {
                    if to != from {
                        assert(self.members[to].no_duplicates());
                    }
                }
                assert(!old_to.contains(ant as usize)) by {
                    if to != from && self.members[to].contains(ant as usize) {
                        let j = choose|j: int| 0 <= j < self.members[to].len() && self.members[to][j] == ant;
                        assert(self.position[self.members[to][j] as int] == to);
                    }
                }
                assert forall|i: int, j: int|
                    0 <= i < after.members[s].len() && 0 <= j < after.members[s].len() && i != j implies after.members[s][i]
                    != after.members[s][j] by {
                    if i == old_to.len() {
                        assert(old_to.contains(old_to[j]));
                    } else if j == old_to.len() {
                        assert(old_to.contains(old_to[i]));
                    }
                }
            } else if s == from {
            } else {
                assert(self.members[s].no_duplicates());
            }
        }
        assert forall|a: int| 0 <= a < after.ants() && #[trigger] after.alive[a] implies {
            &&& after.position[a] < after.sites()
            &&& after.members[after.position[a] as int].contains(a as usize)
        } by {
            if a == ant {
                assert(after.members[to][after.members[to].len() - 1] == ant);
            } else {
                assert(self.alive[a]);
                let p = self.position[a] as int;
                assert(self.members[p].contains(a as usize));
                if p == from {
                    assert(rest.contains(a as usize));
                }
                assert(left[p].contains(a as usize));
                if p == to {
                    let j = choose|j: int| 0 <= j < left[p].len() && left[p][j] == a;
                    assert(after.members[p][j] == a);
                }
            }
        }
        assert(after.counts_match()) by {
            assert(self.counts[from] == self.members[from].len());
            assert(self.counts[to] == self.members[to].len());
            if from != to {
                self.lemma_two_sites_fit(from, to);
            }
        }
        assert(after.destroyed_empty()) by {
            assert forall|s: int| 0 <= s < after.sites() && #[trigger] after.destroyed[s] implies
                after.members[s].len() == 0 by {
                assert(self.destroyed[s]);
                assert(s != from && s != to);
            }
        }
        // the counters
        let before_flags = self.under_budget();
        let after_flags = after.under_budget();
        assert(after_flags == before_flags.update(ant, after_flags[ant]));
        lemma_count_update(before_flags, ant, after_flags[ant]);
        if after.moves[ant] == self.cap {
            lemma_count_positive(before_flags, ant);
        }
    }

    /// The occupants of one colony and one ant of another are different ants,
    /// so a colony beside an occupied one holds fewer ants than there are.
    pub proof fn lemma_two_sites_fit(self, from: int, to: int)
        requires
            self.wf(),
            0 <= from < self.sites(),
            0 <= to < self.sites(),
            from != to,
            self.members[from].len() > 0,
        ensures
            self.members[to].len() < self.ants(),
            self.counts[to] < usize::MAX,
    {
        let a = self.members[from];
        let b = self.members[to];
        assert(self.counts[to] == b.len());
        let joined = b.push(a[0]);
        assert(joined.no_duplicates()) by {
            assert(b.no_duplicates());
            assert forall|i: int, j: int|
                0 <= i < joined.len() && 0 <= j < joined.len() && i != j implies joined[i]
                != joined[j] by {
                if i == b.len() {
                    assert(self.position[b[j] as int] == to);
                    assert(self.position[a[0] as int] == from);
                } else if j == b.len() {
                    assert(self.position[b[i] as int] == to);
                    assert(self.position[a[0] as int] == from);
                }
            }
        }
        let bound = Set::new(|x: usize| x < self.ants());
        assert forall|x: usize| joined.to_set().contains(x) implies bound.contains(x) by {
            let j = choose|j: int| 0 <= j < joined.len() && joined[j] == x;
            if j == b.len() {
                assert(a[0] < self.ants());
            } else {
                assert(b[j] < self.ants());
            }
        }
        joined.unique_seq_to_set();
        lemma_below_set(self.ants());
        vstd::set_lib::lemma_len_subset(joined.to_set(), bound);
    }
}

impl SimView {
    /// Every destination open from a colony is a colony of the graph that
    /// still stands.
    pub proof fn lemma_valid_moves(self, site: int)
        requires
            self.shaped(),
            0 <= site < self.sites(),
        ensures
            self.valid_moves(site).len() <= self.graph.adjacency[site].len(),
            forall|i: int|
                0 <= i < self.valid_moves(site).len() ==> {
                    &&& (#[trigger] self.valid_moves(site)[i]) < self.sites()
                    &&& !self.destroyed[self.valid_moves(site)[i] as int]
                    &&& self.graph.adjacency[site].contains(self.valid_moves(site)[i])
                },
    {
        let stored = self.graph.adjacency[site];
        let standing = |t: usize| !self.destroyed[t as int];
        let open = self.valid_moves(site);
        stored.lemma_filter_len(standing);
        assert forall|i: int| 0 <= i < open.len() implies {
            &&& (#[trigger] open[i]) < self.sites()
            &&& !self.destroyed[open[i] as int]
            &&& stored.contains(open[i])
        } by {
            stored.lemma_filter_pred(standing, i);
            assert(open.contains(open[i]));
            stored.lemma_filter_contains_rev(standing, open[i]);
            let j = choose|j: int| 0 <= j < stored.len() && stored[j] == open[i];
            assert(stored[j] < self.sites());
        }
    }

    /// The collision check keeps the invariant, destroys at most the checked
    /// colony, kills at most its two occupants and moves nobody.
    pub proof fn lemma_collide(self, site: int)
        requires
            self.wf(),
            0 <= site < self.sites(),
        ensures
            self.collide(site).wf(),
            self.collide(site).follows(self),
            self.collide(site).position == self.position,
            self.collide(site).moves == self.moves,
            self.collide(site).rng == self.rng,
            self.collides(site) ==> self.members[site].len() == 2 && self.members[site][0]
                != self.members[site][1] && !self.destroyed[site],
            forall|s: int|
                0 <= s < self.sites() && s != site ==> {
                    &&& self.collide(site).destroyed[s] == self.destroyed[s]
                    &&& self.collide(site).members[s] == self.members[s]
                    &&& #[trigger] self.collide(site).counts[s] == self.counts[s]
                },
            self.collide(site).destroyed[site] == (self.destroyed[site] || self.collides(site)),
            forall|a: int|
                0 <= a < self.ants() ==> #[trigger] self.collide(site).alive[a] == (self.alive[a]
                    && !(self.collides(site) && self.position[a] == site)),
    {
        let after = self.collide(site);
        if self.collides(site) {
            let pair = self.members[site];
            assert(self.counts[site] == pair.len());
            assert(!self.destroyed[site]);
            let x = pair[0] as int;
            let y = pair[1] as int;
            assert(pair.no_duplicates());
            assert(x != y);
            assert(self.alive[x] && self.position[x] == site);
            assert(self.alive[y] && self.position[y] == site);
            let razed = self.destroy_site(site);
            let first = razed.kill(x);
            assert(after == first.kill(y));
            // the counters
            lemma_count_update(self.alive, x, false);
            lemma_count_positive(self.alive, x);
            lemma_count_update(first.alive, y, false);
            lemma_count_positive(first.alive, y);
            assert(first.under_budget() == self.under_budget().update(x, false));
            lemma_count_update(self.under_budget(), x, false);
            if self.moves[x] < self.cap {
                lemma_count_positive(self.under_budget(), x);
            }
            assert(after.under_budget() == first.under_budget().update(y, false));
            lemma_count_update(first.under_budget(), y, false);
            if self.moves[y] < self.cap {
                lemma_count_positive(first.under_budget(), y);
            }
            // the occupants of the other colonies are other ants
            assert forall|a: int| 0 <= a < self.ants() && self.alive[a] && self.position[a]
                == site implies a == x || a == y by {
                assert(pair.contains(a as usize));
                let j = choose|j: int| 0 <= j < pair.len() && pair[j] == a;
                assert(j == 0 || j == 1);
            }
            assert forall|s: int, i: int|
                0 <= s < after.sites() && 0 <= i < after.members[s].len() implies {
                let a = #[trigger] after.members[s][i];
                &&& a < after.ants()
                &&& after.alive[a as int]
                &&& after.position[a as int] == s
            } by {
                let a = after.members[s][i];
                assert(s != site);
                assert(a == self.members[s][i]);
                assert(self.position[a as int] == s);
            }
            assert forall|s: int| 0 <= s < after.sites() implies
                (#[trigger] after.members[s]).no_duplicates() by {
                if s != site {
                    assert(self.members[s].no_duplicates());
                }
            }
            assert forall|a: int| 0 <= a < after.ants() && #[trigger] after.alive[a] implies {
                &&& after.position[a] < after.sites()
                &&& after.members[after.position[a] as int].contains(a as usize)
            } by {
                assert(self.alive[a]);
                assert(self.position[a] != site);
                assert(self.members[self.position[a] as int].contains(a as usize));
            }
            assert(after.counts_match()) by {
                assert forall|s: int| 0 <= s < after.sites() implies after.counts[s]
                    == after.members[s].len() by {
                    if s != site {
                        assert(self.counts[s] == self.members[s].len());
                    }
                }
            }
            assert(after.destroyed_empty()) by {
                assert forall|s: int| 0 <= s < after.sites() && #[trigger] after.destroyed[s] implies
                    after.members[s].len() == 0 by {
                    if s != site {
                        assert(self.destroyed[s]);
                    }
                }
            }
        } else {
            assert forall|a: int| 0 <= a < self.ants() implies #[trigger] after.alive[a] == (
            self.alive[a] && !(self.collides(site) && self.position[a] == site)) by {}
        }
    }

    /// The turn of one ant keeps the invariant, destroys and kills nothing,
    /// and touches the position and the move counter of that ant alone.
    pub proof fn lemma_step(self, ant: int)
        requires
            self.wf(),
            0 <= ant < self.ants(),
            self.moves[ant] < u32::MAX,
        ensures
            self.step(ant).wf(),
            self.step(ant).follows(self),
            self.step(ant).destroyed == self.destroyed,
            self.step(ant).alive == self.alive,
            self.step(ant).alive_count == self.alive_count,
            self.moves_on(ant) ==> {
                &&& self.destination(ant) < self.sites()
                &&& !self.destroyed[self.destination(ant) as int]
                &&& self.graph.adjacency[self.position[ant] as int].contains(self.destination(ant))
                &&& self.step(ant).position == self.position.update(ant, self.destination(ant))
                &&& self.step(ant).moves == self.moves.update(ant, (self.moves[ant] + 1) as u32)
            },
            !self.moves_on(ant) ==> self.step(ant) == self,
    {
        if self.moves_on(ant) {
            self.lemma_living_place(ant);
            let from = self.position[ant] as int;
            self.lemma_valid_moves(from);
            let choices = self.valid_moves(from);
            let to = choices[picked(self.rng, choices.len())];
            assert(to == self.destination(ant));
            let seeded = SimView { rng: state_after(self.rng, choices.len()), ..self };
            assert(seeded.wf()) by {
                assert(seeded.under_budget() == self.under_budget());
            }
            seeded.lemma_relocate_wf(ant, from, to as int);
        }
    }
}

impl SimView {
    /// The movement pass over the ants `0..upto` keeps the invariant,
    /// destroys and kills nothing, leaves the later ants where they are and
    /// records only colonies of the graph.
    pub proof fn lemma_movement(self, upto: nat)
        requires
            self.wf(),
            upto <= self.ants(),
            self.can_tick(),
        ensures
            self.movement(upto).0.wf(),
            self.movement(upto).0.follows(self),
            self.movement(upto).0.destroyed == self.destroyed,
            self.movement(upto).0.alive == self.alive,
            self.movement(upto).0.alive_count == self.alive_count,
            forall|a: int|
                upto <= a < self.ants() ==> {
                    &&& #[trigger] self.movement(upto).0.moves[a] == self.moves[a]
                    &&& self.movement(upto).0.position[a] == self.position[a]
                },
            forall|a: int|
                0 <= a < self.ants() ==> self.moves[a] <= #[trigger] self.movement(upto).0.moves[a]
                    <= self.moves[a] + 1,
            forall|a: int|
                0 <= a < self.ants() && #[trigger] self.movement(upto).0.position[a]
                    != self.position[a] ==> self.movement(upto).0.moves[a] == self.moves[a] + 1,
            forall|i: int|
                0 <= i < self.movement(upto).1.len() ==> (#[trigger] self.movement(upto).1[i])
                    < self.sites(),
        decreases upto,
    {
        if upto > 0 {
            let ant = upto - 1;
            self.lemma_movement(ant as nat);
            let before = self.movement(ant as nat);
            assert(before.0.moves[ant] == self.moves[ant]);
            before.0.lemma_step(ant);
            let after = self.movement(upto);
            assert(after.0 == before.0.step(ant));
            assert(after.1 == before.0.recorded(ant, before.1));
            assert forall|a: int| upto <= a < self.ants() implies {
                &&& #[trigger] after.0.moves[a] == self.moves[a]
                &&& after.0.position[a] == self.position[a]
            } by {
                assert(before.0.moves[a] == self.moves[a]);
            }
            assert forall|a: int| 0 <= a < self.ants() implies self.moves[a]
                <= #[trigger] after.0.moves[a] <= self.moves[a] + 1 by {
                assert(self.moves[a] <= before.0.moves[a] <= self.moves[a] + 1);
            }
            assert forall|a: int|
                0 <= a < self.ants() && #[trigger] after.0.position[a]
                    != self.position[a] implies after.0.moves[a] == self.moves[a] + 1 by {
                if a != ant {
                    assert(before.0.position[a] != self.position[a]);
                }
            }
            assert forall|i: int| 0 <= i < after.1.len() implies (#[trigger] after.1[i])
                < self.sites() by {
                if i < before.1.len() {
                    assert(after.1[i] == before.1[i]);
                }
            }
        }
    }

    /// The collision checks of a list of colonies keep the invariant, revive
    /// and rebuild nothing, and move nobody.
    pub proof fn lemma_resolve(self, sites: Seq<usize>)
        requires
            self.wf(),
            forall|i: int| 0 <= i < sites.len() ==> (#[trigger] sites[i]) < self.sites(),
        ensures
            self.resolve(sites).wf(),
            self.resolve(sites).follows(self),
            self.resolve(sites).position == self.position,
            self.resolve(sites).moves == self.moves,
            self.resolve(sites).rng == self.rng,
        decreases sites.len(),
    {
        if sites.len() > 0 {
            let first = self.collide(sites[0] as int);
            self.lemma_collide(sites[0] as int);
            let rest = sites.drop_first();
            assert forall|i: int| 0 <= i < rest.len() implies
                (#[trigger] rest[i]) < first.sites() by {
                assert(rest[i] == sites[i + 1]);
            }
            first.lemma_resolve(rest);
            self.lemma_follows_chain(first, first.resolve(rest));
        }
    }

    /// Following is transitive.
    pub proof fn lemma_follows_chain(self, second: SimView, third: SimView)
        requires
            second.follows(self),
            third.follows(second),
        ensures
            third.follows(self),
    {
        assert forall|s: int| 0 <= s < self.sites() && #[trigger] self.destroyed[s] implies
            third.destroyed[s] by {
            assert(second.destroyed[s]);
        }
        assert forall|a: int| 0 <= a < self.ants() && !(#[trigger] self.alive[a]) implies
            !third.alive[a] by {
            assert(!second.alive[a]);
        }
    }

    /// One tick keeps the invariant, and every ant completes at most one
    /// move in it.
    pub proof fn lemma_tick(self)
        requires
            self.wf(),
            self.can_tick(),
        ensures
            self.tick().wf(),
            self.tick().follows(self),
            forall|a: int|
                0 <= a < self.ants() ==> self.moves[a] <= #[trigger] self.tick().moves[a]
                    <= self.moves[a] + 1,
    {
        self.lemma_movement(self.ants());
        let moved = self.movement(self.ants());
        moved.0.lemma_resolve(moved.1);
        self.lemma_follows_chain(moved.0, self.tick());
    }

    /// A run under a ceiling keeps the invariant and stops at the ceiling at
    /// the latest, and before it only where no tick is due.
    pub proof fn lemma_run(self, ceiling: nat)
        requires
            self.wf(),
            self.can_run(ceiling),
        ensures
            self.run(ceiling).0.wf(),
            self.run(ceiling).0.follows(self),
            self.run(ceiling).1 <= ceiling,
            self.run(ceiling).1 < ceiling ==> !self.run(ceiling).0.should_continue(),
        decreases ceiling,
    {
        if ceiling > 0 && self.should_continue() {
            self.lemma_tick_room(ceiling);
            let next = self.tick();
            next.lemma_run((ceiling - 1) as nat);
            self.lemma_follows_chain(next, next.run((ceiling - 1) as nat).0);
        }
    }

    /// A state with room for `ticks` ticks has room for one, and the tick
    /// leaves room for the others.
    pub proof fn lemma_tick_room(self, ticks: nat)
        requires
            self.wf(),
            self.can_run(ticks),
            ticks > 0,
        ensures
            self.can_tick(),
            self.tick().wf(),
            self.tick().follows(self),
            self.tick().can_run((ticks - 1) as nat),
    {
        assert(self.can_tick()) by {
            assert forall|a: int| 0 <= a < self.moves.len() implies (#[trigger] self.moves[a]) + 1
                <= u32::MAX by {}
        }
        self.lemma_tick();
        let next = self.tick();
        assert forall|a: int| 0 <= a < next.moves.len() implies (#[trigger] next.moves[a]) + (ticks
            - 1) <= u32::MAX by {
            assert(self.moves[a] + ticks <= u32::MAX);
        }
    }
}

impl SimView {
    /// There are at most as many ants under budget as living ants, and at
    /// most as many living ants as ants.
    pub proof fn lemma_counters_ordered(self)
        requires
            self.wf(),
        ensures
            self.active_count <= self.alive_count <= self.ants(),
    {
        lemma_count_bound(self.alive);
        lemma_count_le(self.under_budget(), self.alive);
    }

    /// Any number of ticks keeps the invariant and undoes nothing.
    pub proof fn lemma_after_ticks(self, ticks: nat)
        requires
            self.wf(),
            self.can_run(ticks),
        ensures
            self.after_ticks(ticks).wf(),
            self.after_ticks(ticks).follows(self),
            self.after_ticks(ticks).can_run(0),
            forall|more: nat|
                self.can_run(ticks + more) ==> #[trigger] self.after_ticks(ticks).can_run(more),
        decreases ticks,
    {
        if ticks > 0 {
            let earlier = self.after_ticks((ticks - 1) as nat);
            assert(self.can_run((ticks - 1) as nat));
            self.lemma_after_ticks((ticks - 1) as nat);
            assert(earlier.can_run(1)) by {
                assert(self.can_run((ticks - 1) as nat + 1));
            }
            earlier.lemma_tick();
            self.lemma_follows_chain(earlier, earlier.tick());
            let last = earlier.tick();
            assert forall|more: nat| self.can_run(ticks + more) implies #[trigger] last.can_run(
                more,
            ) by {
                assert forall|a: int| 0 <= a < last.moves.len() implies (#[trigger] last.moves[a])
                    + more <= u32::MAX by {
                    assert(self.can_run((ticks - 1) as nat + (more + 1)));
                    assert(earlier.can_run(more + 1));
                    assert(earlier.moves[a] + (more + 1) <= u32::MAX);
                }
            }
            assert(last.can_run(0)) by {
                assert(self.can_run(ticks + 0));
            }
        } else {
            assert forall|more: nat| self.can_run(ticks + more) implies #[trigger] self.after_ticks(
                ticks,
            ).can_run(more) by {
                assert(ticks + more == more);
            }
        }
    }

    /// A dead end stays a dead end in every state that follows.
    pub proof fn lemma_dead_end_lasts(self, later: SimView, site: int)
        requires
            self.shaped(),
            later.follows(self),
            0 <= site < self.sites(),
            self.dead_end(site),
        ensures
            later.dead_end(site),
    {
        let stored = self.graph.adjacency[site];
        let then = |t: usize| !self.destroyed[t as int];
        let now = |t: usize| !later.destroyed[t as int];
        if stored.filter(now).len() > 0 {
            let t = stored.filter(now)[0];
            stored.lemma_filter_pred(now, 0);
            assert(stored.filter(now).contains(t));
            stored.lemma_filter_contains_rev(now, t);
            let j = choose|j: int| 0 <= j < stored.len() && stored[j] == t;
            assert(stored[j] < self.sites());
            assert(!self.destroyed[t as int]);
            stored.lemma_filter_contains(then, j);
        }
    }

    /// In the movement pass an ant that is dead or at a dead end keeps its
    /// position and its move count.
    pub proof fn lemma_movement_stays(self, upto: nat, ant: int)
        requires
            self.wf(),
            upto <= self.ants(),
            self.can_tick(),
            0 <= ant < self.ants(),
            !self.moves_on(ant),
        ensures
            self.movement(upto).0.position[ant] == self.position[ant],
            self.movement(upto).0.moves[ant] == self.moves[ant],
        decreases upto,
    {
        if upto > 0 {
            let turn = upto - 1;
            self.lemma_movement(turn as nat);
            self.lemma_movement_stays(turn as nat, ant);
            let before = self.movement(turn as nat).0;
            assert(before.moves[turn] == self.moves[turn]);
            before.lemma_step(turn);
            if turn == ant {
                assert(before.valid_moves(before.position[ant] as int) == self.valid_moves(
                    self.position[ant] as int,
                ));
                assert(!before.moves_on(ant));
            }
        }
    }

    /// After the collision checks an ant that was alive before them is alive
    /// exactly if its colony still stands.
    pub proof fn lemma_resolve_fate(self, sites: Seq<usize>, ant: int)
        requires
            self.wf(),
            forall|i: int| 0 <= i < sites.len() ==> (#[trigger] sites[i]) < self.sites(),
            0 <= ant < self.ants(),
            self.alive[ant],
        ensures
            self.resolve(sites).alive[ant]
                == !self.resolve(sites).destroyed[self.position[ant] as int],
        decreases sites.len(),
    {
        self.lemma_living_place(ant);
        if sites.len() > 0 {
            let first = self.collide(sites[0] as int);
            self.lemma_collide(sites[0] as int);
            let rest = sites.drop_first();
            assert forall|i: int| 0 <= i < rest.len() implies
                (#[trigger] rest[i]) < first.sites() by {
                assert(rest[i] == sites[i + 1]);
            }
            first.lemma_resolve(rest);
            if first.alive[ant] {
                first.lemma_resolve_fate(rest, ant);
            } else {
                assert(first.destroyed[self.position[ant] as int]);
            }
        }
    }

    /// The collision checks leave a colony alone that does not hold exactly
    /// two ants.
    pub proof fn lemma_resolve_spares(self, sites: Seq<usize>, site: int)
        requires
            self.wf(),
            forall|i: int| 0 <= i < sites.len() ==> (#[trigger] sites[i]) < self.sites(),
            0 <= site < self.sites(),
            self.counts[site] != 2,
        ensures
            self.resolve(sites).destroyed[site] == self.destroyed[site],
            self.resolve(sites).counts[site] == self.counts[site],
            self.resolve(sites).members[site] == self.members[site],
        decreases sites.len(),
    {
        if sites.len() > 0 {
            let first = self.collide(sites[0] as int);
            self.lemma_collide(sites[0] as int);
            let rest = sites.drop_first();
            assert forall|i: int| 0 <= i < rest.len() implies
                (#[trigger] rest[i]) < first.sites() by {
                assert(rest[i] == sites[i + 1]);
            }
            assert(first.counts[site] == self.counts[site]);
            first.lemma_resolve_spares(rest, site);
        }
    }

    /// One tick leaves an ant at a dead end where it is with the move count
    /// it has; it is alive afterwards exactly if its colony still stands.
    pub proof fn lemma_dead_end_tick(self, ant: int)
        requires
            self.wf(),
            self.can_tick(),
            0 <= ant < self.ants(),
            self.alive[ant],
            self.dead_end(self.position[ant] as int),
        ensures
            self.tick().position[ant] == self.position[ant],
            self.tick().moves[ant] == self.moves[ant],
            self.tick().dead_end(self.position[ant] as int),
            self.tick().alive[ant] == !self.tick().destroyed[self.position[ant] as int],
    {
        self.lemma_living_place(ant);
        self.lemma_movement(self.ants());
        self.lemma_movement_stays(self.ants(), ant);
        let moved = self.movement(self.ants());
        moved.0.lemma_resolve(moved.1);
        moved.0.lemma_resolve_fate(moved.1, ant);
        self.lemma_tick();
        self.lemma_dead_end_lasts(self.tick(), self.position[ant] as int);
    }

    /// Any number of ticks leaves an ant at a dead end where it is with the
    /// move count it has; it is alive afterwards exactly if its colony still
    /// stands.
    pub proof fn lemma_dead_end_ticks(self, ant: int, ticks: nat)
        requires
            self.wf(),
            self.can_run(ticks),
            0 <= ant < self.ants(),
            self.alive[ant],
            self.position[ant] < self.sites(),
            self.dead_end(self.position[ant] as int),
        ensures
            self.after_ticks(ticks).position[ant] == self.position[ant],
            self.after_ticks(ticks).moves[ant] == self.moves[ant],
            self.after_ticks(ticks).dead_end(self.position[ant] as int),
            self.after_ticks(ticks).alive[ant]
                == !self.after_ticks(ticks).destroyed[self.position[ant] as int],
        decreases ticks,
    {
        self.lemma_living_place(ant);
        if ticks > 0 {
            let earlier = self.after_ticks((ticks - 1) as nat);
            assert(self.can_run((ticks - 1) as nat));
            self.lemma_after_ticks((ticks - 1) as nat);
            self.lemma_dead_end_ticks(ant, (ticks - 1) as nat);
            assert(earlier.can_tick()) by {
                assert(self.can_run((ticks - 1) as nat + 1));
            }
            earlier.lemma_tick();
            if earlier.alive[ant] {
                earlier.lemma_dead_end_tick(ant);
            } else {
                earlier.lemma_movement(earlier.ants());
                earlier.lemma_movement_stays(earlier.ants(), ant);
                let moved = earlier.movement(earlier.ants());
                moved.0.lemma_resolve(moved.1);
                earlier.lemma_dead_end_lasts(earlier.tick(), self.position[ant] as int);
            }
        }
    }
}

/// Flags that imply other flags, entry by entry, count no more than they.
pub proof fn lemma_count_le(fewer: Seq<bool>, more: Seq<bool>)
    requires
        fewer.len() == more.len(),
        forall|i: int| 0 <= i < fewer.len() && fewer[i] ==> more[i],
    ensures
        count_true(fewer) <= count_true(more),
    decreases fewer.len(),
{
    if fewer.len() > 0 {
        lemma_count_le(fewer.drop_last(), more.drop_last());
    }
}

/// The occupants of a colony are exactly the ants placed on it, each once.
pub proof fn lemma_occupants(placement: Seq<usize>, site: int)
    requires
        placement.len() <= usize::MAX,
    ensures
        occupants(placement, site).len() <= placement.len(),
        occupants(placement, site).no_duplicates(),
        forall|i: int|
            0 <= i < occupants(placement, site).len() ==> {
                &&& (#[trigger] occupants(placement, site)[i]) < placement.len()
                &&& placement[occupants(placement, site)[i] as int] == site
            },
        forall|a: int|
            0 <= a < placement.len() && placement[a] == site ==> occupants(
                placement,
                site,
            ).contains(a as usize),
    decreases placement.len(),
{
    let here = occupants(placement, site);
    if placement.len() > 0 {
        let shorter = placement.drop_last();
        let before = occupants(shorter, site);
        lemma_occupants(shorter, site);
        let newest = placement.len() - 1;
        assert forall|i: int| 0 <= i < here.len() implies {
            &&& (#[trigger] here[i]) < placement.len()
            &&& placement[here[i] as int] == site
        } by {
            if i < before.len() {
                assert(here[i] == before[i]);
                assert(shorter[before[i] as int] == site);
            }
        }
        assert forall|a: int|
            0 <= a < placement.len() && placement[a] == site implies here.contains(
            a as usize,
        ) by {
            if a < newest {
                assert(shorter[a] == site);
                assert(before.contains(a as usize));
                let j = choose|j: int| 0 <= j < before.len() && before[j] == a;
                assert(here[j] == a);
            } else {
                assert(here[here.len() - 1] == a);
            }
        }
        assert forall|i: int, j: int|
            0 <= i < here.len() && 0 <= j < here.len() && i != j implies here[i] != here[j] by {
            if i < before.len() && j < before.len() {
                assert(before[i] != before[j]);
            } else if i < before.len() {
                assert(before[i] < shorter.len());
            } else if j < before.len() {
                assert(before[j] < shorter.len());
            }
        }
    }
}

/// The state at the start of a run satisfies the invariant.
pub proof fn lemma_initial_wf(graph: GraphView, placement: Seq<usize>, cap: u32, rng: u64)
    requires
        graph.wf(),
        graph.sites() <= usize::MAX,
        placement.len() <= usize::MAX,
        forall|a: int| 0 <= a < placement.len() ==> (#[trigger] placement[a]) < graph.sites(),
    ensures
        SimView::initial(graph, placement, cap, rng).wf(),
{
    let start = SimView::initial(graph, placement, cap, rng);
    assert forall|s: int| 0 <= s < start.sites() implies
        start.counts[s] == start.members[s].len() by {
        lemma_occupants(placement, s);
    }
    assert forall|s: int, i: int|
        0 <= s < start.sites() && 0 <= i < start.members[s].len() implies {
        let a = #[trigger] start.members[s][i];
        &&& a < start.ants()
        &&& start.alive[a as int]
        &&& start.position[a as int] == s
    } by {
        lemma_occupants(placement, s);
    }
    assert forall|s: int| 0 <= s < start.sites() implies
        (#[trigger] start.members[s]).no_duplicates() by {
        lemma_occupants(placement, s);
    }
    assert forall|a: int| 0 <= a < start.ants() && #[trigger] start.alive[a] implies {
        &&& start.position[a] < start.sites()
        &&& start.members[start.position[a] as int].contains(a as usize)
    } by {
        lemma_occupants(placement, placement[a] as int);
    }
    lemma_count_all(start.alive);
    if cap > 0 {
        lemma_count_all(start.under_budget());
    } else {
        lemma_count_none(start.under_budget());
    }
}

/// The set of the `usize` values below `n` has `min(n, usize::MAX + 1)`
/// elements; here only that it is finite and no larger than `n`.
pub proof fn lemma_below_set(n: nat)
    ensures
        Set::new(|x: usize| x < n).finite(),
        Set::new(|x: usize| x < n).len() <= n,
    decreases n,
{
    let s = Set::new(|x: usize| x < n);
    if n == 0 {
        assert(s == Set::<usize>::empty());
    } else {
        let smaller = Set::new(|x: usize| x < (n - 1) as nat);
        lemma_below_set((n - 1) as nat);
        if n - 1 <= usize::MAX {
            assert(s == smaller.insert((n - 1) as usize));
        } else {
            assert(s == smaller);
        }
    }
}

} // verus!
