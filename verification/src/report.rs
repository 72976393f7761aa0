//! The remaining world as text: one line per colony that still stands.

use crate::graph::rows;
use crate::model::SimView;
use crate::sim::AntSimulation;
use vstd::prelude::*;

verus! {

/// What stands before the name of every neighbour on a line.
pub open spec fn edge_label() -> Seq<char> {
    seq![' ', 'n', 'o', 'r', 't', 'h', '=']
}

impl SimView {
    /// The text of the edges to `targets`: the label and the name of the
    /// target for each, in order.
    pub open spec fn edges_text(self, targets: Seq<usize>) -> Seq<char>
        decreases targets.len(),
    {
        if targets.len() == 0 {
            Seq::empty()
        } else {
            self.edges_text(targets.drop_last()) + edge_label() + self.graph.names[targets.last() as int]
        }
    }

    /// The line of `site`: its name and its edges to colonies that stand.
    pub open spec fn world_line(self, site: int) -> Seq<char> {
        self.graph.names[site] + self.edges_text(self.valid_moves(site))
    }

    /// The lines of the colonies `0..upto` that stand, in ascending order.
    pub open spec fn world(self, upto: nat) -> Seq<Seq<char>>
        decreases upto,
    {
        if upto == 0 {
            Seq::empty()
        } else {
            let before = self.world((upto - 1) as nat);
            if self.destroyed[upto - 1] {
                before
            } else {
                before.push(self.world_line(upto - 1))
            }
        }
    }

    /// The remaining world: the lines of all colonies that stand.
    pub open spec fn remaining_world(self) -> Seq<Seq<char>> {
        self.world(self.sites())
    }
}

/// Appends `piece` to `out`.
fn append(out: &mut Vec<char>, piece: &Vec<char>)
    ensures
        final(out)@ == old(out)@ + piece@,
{
    let mut i: usize = 0;
    while i < piece.len()
        invariant
            i <= piece@.len(),
            out@ == old(out)@ + piece@.take(i as int),
        decreases piece@.len() - i,
    {
        out.push(piece[i]);
        i += 1;
        assert(out@ == old(out)@ + piece@.take(i as int));
    }
    assert(piece@.take(piece@.len() as int) == piece@);
}

/// Appends the edge label to `out`.
fn append_label(out: &mut Vec<char>)
    ensures
        final(out)@ == old(out)@ + edge_label(),
{
    out.push(' ');
    out.push('n');
    out.push('o');
    out.push('r');
    out.push('t');
    out.push('h');
    out.push('=');
    assert(out@ == old(out)@ + edge_label());
}

impl AntSimulation {
    /// The remaining world: for each colony that stands, in ascending order,
    /// a line with its name and, for each of its edges to a colony that
    /// stands, the edge label and the name of that colony.
    pub fn remaining_world(&self) -> (lines: Vec<Vec<char>>)
        requires
            self.wf(),
        ensures
            rows(lines@) == self@.remaining_world(),
    {
        let mut lines: Vec<Vec<char>> = Vec::new();
        let mut buffer: Vec<usize> = Vec::new();
        let sites = self.total_colonies();
        let mut colony: usize = 0;
        proof {
            self.lemma_wf();
        }
        while colony < sites
            invariant
                self.wf(),
                self@.wf(),
                colony <= sites,
                sites == self@.sites(),
                rows(lines@) == self@.world(colony as nat),
            decreases sites - colony,
        {
            if !self.is_destroyed(colony) {
                let graph = self.graph();
                let mut line: Vec<char> = Vec::new();
                append(&mut line, graph.name(colony));
                self.get_valid_moves(colony, &mut buffer);
                let ghost open = self@.valid_moves(colony as int);
                proof {
                    self@.lemma_valid_moves(colony as int);
                    assert(open.take(0) == Seq::<usize>::empty());
                    assert(line@ + Seq::<char>::empty() == line@);
                }
                let mut i: usize = 0;
                while i < buffer.len()
                    invariant
                        self.wf(),
                        graph.wf(),
                        graph@ == self@.graph,
                        self@.wf(),
                        colony < sites,
                        sites == self@.sites(),
                        i <= buffer@.len(),
                        buffer@ == open,
                        forall|k: int| 0 <= k < open.len() ==> (#[trigger] open[k]) < sites,
                        line@ == self@.graph.names[colony as int] + self@.edges_text(
                            open.take(i as int),
                        ),
                    decreases buffer@.len() - i,
                {
                    let ghost before = line@;
                    proof {
                        assert(open.take(i + 1).drop_last() == open.take(i as int));
                        assert(open.take(i + 1).last() == open[i as int]);
                    }
                    append_label(&mut line);
                    append(&mut line, graph.name(buffer[i]));
                    i += 1;
                    proof {
                        let name = self@.graph.names[colony as int];
                        let done = self@.edges_text(open.take(i - 1));
                        let next = self@.graph.names[open[i - 1] as int];
                        assert(line@ == ((name + done) + edge_label()) + next);
                        assert(((name + done) + edge_label()) + next == name + ((done + edge_label())
                            + next));
                    }
                }
                proof {
                    assert(open.take(buffer@.len() as int) == open);
                }
                let ghost before = rows(lines@);
                lines.push(line);
                proof {
                    assert(rows(lines@) == before.push(line@));
                }
            }
            colony += 1;
        }
        lines
    }
}

} // verus!
