//! The colony graph: an immutable directed adjacency structure in a
//! compressed layout, one flat array of edge targets and a range per colony.

use crate::text::{entries, parse_map, LineView, MapLine};
use vstd::prelude::*;

verus! {

/// What a colony graph is: for every colony its display name and the ordered
/// list of the colonies that its outgoing edges lead to.
pub struct GraphView {
    pub names: Seq<Seq<char>>,
    pub adjacency: Seq<Seq<usize>>,
}

impl GraphView {
    /// The number of colonies.
    pub open spec fn sites(self) -> nat {
        self.adjacency.len()
    }

    /// Every colony has a name and every edge leads to a colony of the graph.
    pub open spec fn wf(self) -> bool {
        &&& self.names.len() == self.adjacency.len()
        &&& targets_in_range(self.adjacency, self.adjacency.len())
    }
}

/// Every entry of every list is an index below `limit`.
pub open spec fn targets_in_range(adjacency: Seq<Seq<usize>>, limit: nat) -> bool {
    forall|s: int, i: int|
        0 <= s < adjacency.len() && 0 <= i < adjacency[s].len() ==> (#[trigger] adjacency[s][i])
            < limit
}

/// The view of a vector of vectors: the sequence of the views of its rows.
pub open spec fn rows<T>(v: Seq<Vec<T>>) -> Seq<Seq<T>> {
    Seq::new(v.len(), |i: int| v[i]@)
}

/// Is `at` the first place of `names` that holds `name`.
pub open spec fn is_first(names: Seq<Seq<char>>, name: Seq<char>, at: int) -> bool {
    &&& 0 <= at < names.len()
    &&& names[at] == name
    &&& forall|j: int| 0 <= j < at ==> names[j] != name
}

/// The number of the colony called `name`: the first place of `names` that
/// holds it, if any does.
pub open spec fn site_of(names: Seq<Seq<char>>, name: Seq<char>) -> Option<int> {
    if names.contains(name) {
        Some(choose|at: int| is_first(names, name, at))
    } else {
        None
    }
}

/// The names of the colonies of a map, in the order in which they first
/// appear at the head of a line.
pub open spec fn site_names(lines: Seq<LineView>) -> Seq<Seq<char>>
    decreases lines.len(),
{
    if lines.len() == 0 {
        Seq::empty()
    } else {
        let before = site_names(lines.drop_last());
        if before.contains(lines.last().name) {
            before
        } else {
            before.push(lines.last().name)
        }
    }
}

/// The colonies that `targets` name, in order; names of no colony are
/// dropped.
pub open spec fn resolved(targets: Seq<Seq<char>>, names: Seq<Seq<char>>) -> Seq<usize>
    decreases targets.len(),
{
    if targets.len() == 0 {
        Seq::empty()
    } else {
        let before = resolved(targets.drop_last(), names);
        match site_of(names, targets.last()) {
            Some(site) => before.push(site as usize),
            None => before,
        }
    }
}

/// The edge targets of the colony called `name`: those of every line that
/// starts with this name, in the order of the lines.
pub open spec fn edges_of(lines: Seq<LineView>, names: Seq<Seq<char>>, name: Seq<char>) -> Seq<usize>
    decreases lines.len(),
{
    if lines.len() == 0 {
        Seq::empty()
    } else {
        let before = edges_of(lines.drop_last(), names, name);
        if lines.last().name == name {
            before + resolved(lines.last().targets, names)
        } else {
            before
        }
    }
}

/// The graph that a map describes.
pub open spec fn graph_of_map(lines: Seq<LineView>) -> GraphView {
    let names = site_names(lines);
    GraphView { names, adjacency: Seq::new(names.len(), |s: int| edges_of(lines, names, names[s])) }
}

/// The first place that holds a name is the number of its colony.
pub proof fn lemma_site_of(names: Seq<Seq<char>>, name: Seq<char>, at: int)
    requires
        is_first(names, name, at),
    ensures
        site_of(names, name) == Some(at),
{
    assert(names.contains(name));
    let chosen = choose|c: int| is_first(names, name, c);
    assert(is_first(names, name, chosen));
    if chosen < at {
        assert(names[chosen] != name);
    } else if at < chosen {
        assert(names[at] != name);
    }
}

/// The colony names of a map are distinct, and the head of every line is
/// among them.
pub proof fn lemma_site_names(lines: Seq<LineView>)
    ensures
        site_names(lines).no_duplicates(),
        site_names(lines).len() <= lines.len(),
        forall|i: int| 0 <= i < lines.len() ==>
            site_names(lines).contains(#[trigger] lines[i].name),
    decreases lines.len(),
{
    if lines.len() > 0 {
        let shorter = lines.drop_last();
        lemma_site_names(shorter);
        let before = site_names(shorter);
        let all = site_names(lines);
        assert forall|i: int| 0 <= i < lines.len() implies
            all.contains(#[trigger] lines[i].name) by {
            if i < shorter.len() {
                assert(shorter[i].name == lines[i].name);
                assert(before.contains(shorter[i].name));
                let j = choose|j: int| 0 <= j < before.len() && before[j] == lines[i].name;
                assert(all[j] == lines[i].name);
            } else if before.contains(lines.last().name) {
            } else {
                assert(all[all.len() - 1] == lines[i].name);
            }
        }
        if !before.contains(lines.last().name) {
            assert forall|i: int, j: int|
                0 <= i < all.len() && 0 <= j < all.len() && i != j implies all[i] != all[j] by {
                if i == before.len() {
                    assert(before.contains(before[j]));
                } else if j == before.len() {
                    assert(before.contains(before[i]));
                }
            }
        }
    }
}

/// Resolved edge targets are numbers of colonies.
pub proof fn lemma_resolved(targets: Seq<Seq<char>>, names: Seq<Seq<char>>)
    requires
        names.len() <= usize::MAX,
    ensures
        forall|i: int|
            0 <= i < resolved(targets, names).len() ==> (#[trigger] resolved(targets, names)[i])
                < names.len(),
    decreases targets.len(),
{
    if targets.len() > 0 {
        lemma_resolved(targets.drop_last(), names);
        let before = resolved(targets.drop_last(), names);
        let all = resolved(targets, names);
        if names.contains(targets.last()) {
            let j = choose|j: int| 0 <= j < names.len() && names[j] == targets.last();
            lemma_first_exists(names, targets.last(), j);
        }
        assert forall|i: int| 0 <= i < all.len() implies (#[trigger] all[i]) < names.len() by {
            if i < before.len() {
                assert(all[i] == before[i]);
            }
        }
    }
}

/// A name that `names` holds has a first place there.
pub proof fn lemma_first_exists(names: Seq<Seq<char>>, name: Seq<char>, at: int)
    requires
        0 <= at < names.len(),
        names[at] == name,
    ensures
        exists|first: int| is_first(names, name, first),
    decreases at,
{
    if exists|j: int| 0 <= j < at && names[j] == name {
        let j = choose|j: int| 0 <= j < at && names[j] == name;
        lemma_first_exists(names, name, j);
    } else {
        assert(is_first(names, name, at));
    }
}

/// A directed graph over colonies `0..n`, stored as a flat array of edge
/// targets with an offset and an edge count per colony.
pub struct ColonyGraph {
    names: Vec<Vec<char>>,
    targets: Vec<usize>,
    offsets: Vec<usize>,
    degrees: Vec<usize>,
}

impl View for ColonyGraph {
    type V = GraphView;

    closed spec fn view(&self) -> GraphView {
        GraphView {
            names: rows(self.names@),
            adjacency: Seq::new(
                self.offsets@.len(),
                |s: int|
                    self.targets@.subrange(
                        self.offsets@[s] as int,
                        self.offsets@[s] + self.degrees@[s],
                    ),
            ),
        }
    }
}

impl ColonyGraph {
    /// The layout is consistent: every colony's range lies inside the flat
    /// array, and the graph it stands for is well formed.
    pub closed spec fn wf(&self) -> bool {
        &&& self.names@.len() == self.offsets@.len()
        &&& self.degrees@.len() == self.offsets@.len()
        &&& forall|s: int|
            0 <= s < self.offsets@.len() ==> (#[trigger] self.offsets@[s]) + self.degrees@[s]
                <= self.targets@.len()
        &&& self@.wf()
    }

    /// A well-formed layout stands for a well-formed graph.
    pub proof fn lemma_wf_view(&self)
        requires
            self.wf(),
        ensures
            self@.wf(),
    {
    }

    /// Builds the compressed layout from one edge list per colony.
    pub fn from_adjacency(names: Vec<Vec<char>>, adjacency: &Vec<Vec<usize>>) -> (graph: Self)
        requires
            names@.len() == adjacency@.len(),
            targets_in_range(rows(adjacency@), adjacency@.len() as nat),
        ensures
            graph.wf(),
            graph@.names == rows(names@),
            graph@.adjacency == rows(adjacency@),
    {
        let n = adjacency.len();
        let mut targets: Vec<usize> = Vec::new();
        let mut offsets: Vec<usize> = Vec::new();
        let mut degrees: Vec<usize> = Vec::new();
        let mut s: usize = 0;
        while s < n
            invariant
                n == adjacency@.len(),
                s <= n,
                offsets@.len() == s,
                degrees@.len() == s,
                forall|t: int|
                    0 <= t < s ==> (#[trigger] offsets@[t]) + degrees@[t] <= targets@.len(),
                forall|t: int|
                    0 <= t < s ==> targets@.subrange(
                        (#[trigger] offsets@[t]) as int,
                        offsets@[t] + degrees@[t],
                    ) == adjacency@[t]@,
            decreases n - s,
        {
            let row = &adjacency[s];
            let start = targets.len();
            let ghost before = targets@;
            let mut i: usize = 0;
            while i < row.len()
                invariant
                    i <= row@.len(),
                    start == before.len(),
                    targets@ == before + row@.subrange(0, i as int),
                decreases row@.len() - i,
            {
                targets.push(row[i]);
                i += 1;
                assert(targets@ == before + row@.subrange(0, i as int));
            }
            assert(row@.subrange(0, i as int) == row@);
            offsets.push(start);
            degrees.push(row.len());
            assert forall|t: int| 0 <= t < s + 1 implies targets@.subrange(
                (#[trigger] offsets@[t]) as int,
                offsets@[t] + degrees@[t],
            ) == adjacency@[t]@ by {
                if t < s {
                    assert(targets@.subrange(offsets@[t] as int, offsets@[t] + degrees@[t])
                        == before.subrange(offsets@[t] as int, offsets@[t] + degrees@[t]));
                } else {
                    assert(targets@.subrange(start as int, start + row@.len()) == row@);
                }
            }
            s += 1;
        }
        let graph = ColonyGraph { names, targets, offsets, degrees };
        assert(graph@.adjacency == rows(adjacency@));
        graph
    }

    /// Builds the graph that a map describes: colonies are numbered in the
    /// order in which their names first appear at the head of a line, and
    /// an edge to a name that heads no line is dropped.
    pub fn from_map(lines: &Vec<MapLine>) -> (graph: Self)
        ensures
            graph.wf(),
            graph@ == graph_of_map(entries(lines@)),
    {
        let ghost all = entries(lines@);
        // first pass: the names
        let mut names: Vec<Vec<char>> = Vec::new();
        let mut i: usize = 0;
        proof {
            assert(all.take(0) == Seq::<LineView>::empty());
        }
        while i < lines.len()
            invariant
                i <= lines@.len(),
                all == entries(lines@),
                rows(names@) == site_names(all.take(i as int)),
            decreases lines@.len() - i,
        {
            let ghost before = rows(names@);
            proof {
                assert(all.take(i + 1).drop_last() == all.take(i as int));
                assert(all.take(i + 1).last().name == lines@[i as int].name@);
            }
            if find_name(&names, &lines[i].name).is_none() {
                let name = copy_name(&lines[i].name);
                names.push(name);
                proof {
                    assert(rows(names@) == before.push(name@));
                }
            }
            i += 1;
        }
        proof {
            assert(all.take(lines@.len() as int) == all);
            lemma_site_names(all);
        }
        // second pass: the edges
        let sites = names.len();
        let ghost known = rows(names@);
        let mut adjacency: Vec<Vec<usize>> = Vec::new();
        let mut s: usize = 0;
        while s < sites
            invariant
                s <= sites,
                adjacency@.len() == s,
                forall|t: int| 0 <= t < s ==> (#[trigger] adjacency@[t])@ == Seq::<usize>::empty(),
            decreases sites - s,
        {
            adjacency.push(Vec::new());
            s += 1;
        }
        let mut i: usize = 0;
        while i < lines.len()
            invariant
                i <= lines@.len(),
                all == entries(lines@),
                known == rows(names@),
                known == site_names(all),
                known.no_duplicates(),
                sites == known.len(),
                adjacency@.len() == sites,
                forall|k: int| 0 <= k < all.len() ==> known.contains(#[trigger] all[k].name),
                forall|t: int|
                    0 <= t < sites ==> (#[trigger] adjacency@[t])@ == edges_of(
                        all.take(i as int),
                        known,
                        known[t],
                    ),
            decreases lines@.len() - i,
        {
            let line = &lines[i];
            let ghost so_far = all.take(i as int);
            let ghost longer = all.take(i + 1);
            let ghost wanted = rows(line.targets@);
            proof {
                assert(longer.drop_last() == so_far);
                assert(longer.last() == all[i as int]);
                assert(all[i as int] == line@);
                assert(known.contains(all[i as int].name));
                assert(wanted.take(0) == Seq::<Seq<char>>::empty());
            }
            // the head of every line is among the names
            let colony = match find_name(&names, &line.name) {
                Some(colony) => colony,
                None => sites,
            };
            assert(colony < sites && known[colony as int] == line.name@);
            let ghost base = adjacency@[colony as int]@;
            let mut j: usize = 0;
            while j < line.targets.len()
                invariant
                    j <= line.targets@.len(),
                    wanted == rows(line.targets@),
                    known == rows(names@),
                    sites == known.len(),
                    colony < sites,
                    adjacency@.len() == sites,
                    adjacency@[colony as int]@ == base + resolved(wanted.take(j as int), known),
                    forall|t: int|
                        0 <= t < sites && t != colony ==> (#[trigger] adjacency@[t])@ == edges_of(
                            so_far,
                            known,
                            known[t],
                        ),
                decreases line.targets@.len() - j,
            {
                let ghost done = resolved(wanted.take(j as int), known);
                proof {
                    assert(wanted.take(j + 1).drop_last() == wanted.take(j as int));
                    assert(wanted.take(j + 1).last() == line.targets@[j as int]@);
                }
                match find_name(&names, &line.targets[j]) {
                    Some(target) => {
                        proof {
                            lemma_site_of(known, line.targets@[j as int]@, target as int);
                        }
                        adjacency[colony].push(target);
                        proof {
                            assert(adjacency@[colony as int]@ == base + done.push(target));
                        }
                    },
                    None => {},
                }
                j += 1;
            }
            i += 1;
            proof {
                assert(wanted.take(line.targets@.len() as int) == wanted);
                assert forall|t: int| 0 <= t < sites implies (#[trigger] adjacency@[t])@
                    == edges_of(longer, known, known[t]) by {
                    if t != colony {
                        assert(known[t] != known[colony as int]);
                    }
                }
            }
        }
        proof {
            assert(all.take(lines@.len() as int) == all);
            assert forall|t: int, k: int|
                0 <= t < rows(adjacency@).len() && 0 <= k < rows(adjacency@)[t].len() implies (
            #[trigger] rows(adjacency@)[t][k]) < sites by {
                lemma_edges_of(all, known, known[t]);
            }
        }
        let graph = Self::from_adjacency(names, &adjacency);
        proof {
            assert(graph@.adjacency == graph_of_map(all).adjacency);
        }
        graph
    }

    /// Reads a map and builds the graph that it describes.
    pub fn parse(text: &[char]) -> (graph: Self)
        ensures
            graph.wf(),
            graph@ == graph_of_map(crate::text::map_of(text@)),
    {
        let lines = parse_map(text);
        Self::from_map(&lines)
    }

    /// The number of colonies.
    pub fn site_count(&self) -> (n: usize)
        requires
            self.wf(),
        ensures
            n == self@.sites(),
    {
        self.offsets.len()
    }

    /// The number of outgoing edges that `site` was built with.
    pub fn degree(&self, site: usize) -> (d: usize)
        requires
            self.wf(),
            site < self@.sites(),
        ensures
            d == self@.adjacency[site as int].len(),
    {
        self.degrees[site]
    }

    /// The target of the `i`-th outgoing edge of `site`, destroyed or not.
    pub fn neighbor(&self, site: usize, i: usize) -> (target: usize)
        requires
            self.wf(),
            site < self@.sites(),
            i < self@.adjacency[site as int].len(),
        ensures
            target == self@.adjacency[site as int][i as int],
            target < self@.sites(),
    {
        assert(self.offsets@[site as int] + self.degrees@[site as int] <= self.targets.len());
        let target = self.targets[self.offsets[site] + i];
        assert(target == self@.adjacency[site as int][i as int]);
        target
    }

    /// The stored edge targets of `site`, in order, destroyed or not.
    pub fn neighbors(&self, site: usize) -> (targets: &[usize])
        requires
            self.wf(),
            site < self@.sites(),
        ensures
            targets@ == self@.adjacency[site as int],
    {
        assert(self.offsets@[site as int] + self.degrees@[site as int] <= self.targets.len());
        let start = self.offsets[site];
        let end = start + self.degrees[site];
        let all = self.targets.as_slice();
        &all[start..end]
    }

    /// The display name of `site`.
    pub fn name(&self, site: usize) -> (name: &Vec<char>)
        requires
            self.wf(),
            site < self@.sites(),
        ensures
            name@ == self@.names[site as int],
    {
        &self.names[site]
    }
}

/// The edge targets of a colony are numbers of colonies.
pub proof fn lemma_edges_of(lines: Seq<LineView>, names: Seq<Seq<char>>, name: Seq<char>)
    requires
        names.len() <= usize::MAX,
    ensures
        forall|i: int|
            0 <= i < edges_of(lines, names, name).len() ==> (#[trigger] edges_of(
                lines,
                names,
                name,
            )[i]) < names.len(),
    decreases lines.len(),
{
    if lines.len() > 0 {
        lemma_edges_of(lines.drop_last(), names, name);
        lemma_resolved(lines.last().targets, names);
        let before = edges_of(lines.drop_last(), names, name);
        let added = resolved(lines.last().targets, names);
        let all = edges_of(lines, names, name);
        assert forall|i: int| 0 <= i < all.len() implies (#[trigger] all[i]) < names.len() by {
            if i < before.len() {
                assert(all[i] == before[i]);
            } else {
                assert(all[i] == added[i - before.len()]);
            }
        }
    }
}

/// Do `a` and `b` hold the same characters.
fn same_name(a: &Vec<char>, b: &Vec<char>) -> (same: bool)
    ensures
        same == (a@ == b@),
{
    if a.len() != b.len() {
        return false;
    }
    let mut i: usize = 0;
    while i < a.len()
        invariant
            i <= a@.len(),
            a@.len() == b@.len(),
            forall|k: int| 0 <= k < i ==> a@[k] == b@[k],
        decreases a@.len() - i,
    {
        if a[i] != b[i] {
            return false;
        }
        i += 1;
    }
    assert(a@ =~= b@);
    true
}

/// A copy of `name`.
fn copy_name(name: &Vec<char>) -> (copy: Vec<char>)
    ensures
        copy@ == name@,
{
    let mut copy: Vec<char> = Vec::new();
    let mut i: usize = 0;
    while i < name.len()
        invariant
            i <= name@.len(),
            copy@ == name@.take(i as int),
        decreases name@.len() - i,
    {
        copy.push(name[i]);
        i += 1;
        assert(copy@ == name@.take(i as int));
    }
    assert(name@.take(name@.len() as int) == name@);
    copy
}

/// The first place of `names` that holds `name`.
fn find_name(names: &Vec<Vec<char>>, name: &Vec<char>) -> (found: Option<usize>)
    ensures
        match found {
            Some(at) => is_first(rows(names@), name@, at as int),
            None => !rows(names@).contains(name@),
        },
{
    let mut at: usize = 0;
    while at < names.len()
        invariant
            at <= names@.len(),
            forall|j: int| 0 <= j < at ==> rows(names@)[j] != name@,
        decreases names@.len() - at,
    {
        if same_name(&names[at], name) {
            return Some(at);
        }
        at += 1;
    }
    None
}

} // verus!
