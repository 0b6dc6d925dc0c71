//! Reports of levels: a report is safe where its levels rise or fall
//! throughout, by one to three at each step; with dampening, where that
//! holds once a single level is taken out.

use vstd::prelude::*;
use crate::pattern::regex_pieces;
use crate::pattern::split_at_matches;
use crate::pattern::texts;
use crate::text::bytes_of;
use crate::text::parse_u64;
use crate::text::string_lines;
use crate::text::text_bytes;
use crate::text::text_lines;
use crate::text::unsigned_value;

verus! {

pub const MAX_LEVEL_DIFF: u64 = 3;

pub struct Report {
    pub levels: Vec<u64>,
}

#[derive(Debug, Clone, Copy, PartialEq, Eq, Structural)]
pub enum LevelOrdering {
    AllIncrementing,
    AllDecrementing,
    NotOrdered,
}

/// Each level is greater than the one before.
pub open spec fn increasing(levels: Seq<u64>) -> bool {
    forall|i: int| 0 < i < levels.len() ==> levels[i - 1] < #[trigger] levels[i]
}

/// Each level is less than the one before.
pub open spec fn decreasing(levels: Seq<u64>) -> bool {
    forall|i: int| 0 < i < levels.len() ==> levels[i - 1] > #[trigger] levels[i]
}

/// How far two levels are apart.
pub open spec fn gap(a: u64, b: u64) -> int {
    if a < b {
        b - a
    } else {
        a - b
    }
}

/// Each level is between one and three away from the one before.
pub open spec fn gaps_valid(levels: Seq<u64>) -> bool {
    forall|i: int| 0 < i < levels.len() ==> 1 <= gap(levels[i - 1], #[trigger] levels[i]) <= 3
}

/// The levels rise or fall throughout, by one to three at each step.
pub open spec fn safe(levels: Seq<u64>) -> bool {
    (increasing(levels) || decreasing(levels)) && gaps_valid(levels)
}

/// The levels are safe once one of them is taken out.
pub open spec fn safe_without_one(levels: Seq<u64>) -> bool {
    exists|skip: int| 0 <= skip < levels.len() && safe(#[trigger] levels.remove(skip))
}

/// The order of the levels. One level alone counts as rising.
pub open spec fn ordering_of(levels: Seq<u64>) -> LevelOrdering {
    if increasing(levels) {
        LevelOrdering::AllIncrementing
    } else if decreasing(levels) {
        LevelOrdering::AllDecrementing
    } else {
        LevelOrdering::NotOrdered
    }
}

pub fn get_ordering(levels: &Vec<u64>) -> (ordering: LevelOrdering)
    requires
        levels.len() >= 1,
    ensures
        ordering == ordering_of(levels@),
{
    if levels.len() == 1 {
        LevelOrdering::AllIncrementing
    } else {
        let first_level = levels[0];
        let second_level = levels[1];
        let rising = second_level > first_level;
        let falling = first_level > second_level;
        if !rising && !falling {
            assert(!(levels@[0] < levels@[1]) && !(levels@[0] > levels@[1]));
            return LevelOrdering::NotOrdered;
        }
        let mut i: usize = 1;
        while i < levels.len()
            invariant
                1 <= i <= levels.len(),
                levels.len() >= 2,
                rising == (levels[0] < levels[1]),
                falling == (levels[0] > levels[1]),
                rising != falling,
                rising ==> forall|j: int| 0 < j < i ==> levels[j - 1] < #[trigger] levels[j],
                falling ==> forall|j: int| 0 < j < i ==> levels[j - 1] > #[trigger] levels[j],
            decreases levels.len() - i,
        {
            if rising && !(levels[i] > levels[i - 1]) {
                assert(!(levels@[i - 1] < levels@[i as int]));
                assert(!(levels@[0] > levels@[1]));
                return LevelOrdering::NotOrdered;
            }
            if falling && !(levels[i] < levels[i - 1]) {
                assert(!(levels@[i - 1] > levels@[i as int]));
                assert(!(levels@[0] < levels@[1]));
                return LevelOrdering::NotOrdered;
            }
            i += 1;
        }
        if rising {
            LevelOrdering::AllIncrementing
        } else {
            assert(!(levels@[0] < levels@[1]));
            LevelOrdering::AllDecrementing
        }
    }
}

pub fn gapping_valid(levels: &Vec<u64>) -> (valid: bool)
    requires
        levels.len() >= 1,
    ensures
        valid == gaps_valid(levels@),
{
    let mut result = true;
    let mut i: usize = 1;
    while i < levels.len()
        invariant
            1 <= i <= levels.len(),
            result == (forall|j: int|
                0 < j < i ==> 1 <= gap(levels[j - 1], #[trigger] levels[j]) <= 3),
        decreases levels.len() - i,
    {
        let abs_diff = if levels[i] > levels[i - 1] {
            levels[i] - levels[i - 1]
        } else {
            levels[i - 1] - levels[i]
        };
        if abs_diff > MAX_LEVEL_DIFF || abs_diff < 1 {
            assert(!(1 <= gap(levels@[i - 1], levels@[i as int]) <= 3));
            result = false;
        }
        i += 1;
    }
    result
}

/// Whether `levels` are safe; no level and one level are.
pub fn levels_safe(levels: &Vec<u64>) -> (is_safe: bool)
    ensures
        is_safe == safe(levels@),
{
    if levels.len() == 0 {
        return true;
    }
    match get_ordering(levels) {
        LevelOrdering::NotOrdered => false,
        _ => gapping_valid(levels),
    }
}

/// `levels` without the one at `skip`.
pub fn without(levels: &Vec<u64>, skip: usize) -> (rest: Vec<u64>)
    requires
        skip < levels.len(),
    ensures
        rest@ == levels@.remove(skip as int),
{
    let mut rest: Vec<u64> = Vec::new();
    let mut i: usize = 0;
    while i < levels.len()
        invariant
            i <= levels.len(),
            skip < levels.len(),
            rest.len() == (if i <= skip {
                i as int
            } else {
                i - 1
            }),
            forall|j: int| 0 <= j < rest.len() && j < skip ==> rest[j] == levels[j],
            forall|j: int| 0 <= j < rest.len() && j >= skip ==> rest[j] == levels[j + 1],
        decreases levels.len() - i,
    {
        if i != skip {
            rest.push(levels[i]);
        }
        i += 1;
    }
    assert(rest@ =~= levels@.remove(skip as int));
    rest
}

/// Taking one end off safe levels leaves them safe.
pub proof fn lemma_safe_without_first(levels: Seq<u64>)
    requires
        levels.len() >= 1,
        safe(levels),
    ensures
        safe(levels.remove(0)),
{
    let rest = levels.remove(0);
    assert forall|i: int| 0 < i < rest.len() implies 1 <= gap(rest[i - 1], #[trigger] rest[i])
        <= 3 by {
        assert(rest[i] == levels[i + 1]);
        assert(rest[i - 1] == levels[i]);
    }
    if increasing(levels) {
        assert forall|i: int| 0 < i < rest.len() implies rest[i - 1] < #[trigger] rest[i] by {
            assert(rest[i] == levels[i + 1]);
            assert(rest[i - 1] == levels[i]);
        }
    } else {
        assert forall|i: int| 0 < i < rest.len() implies rest[i - 1] > #[trigger] rest[i] by {
            assert(rest[i] == levels[i + 1]);
            assert(rest[i - 1] == levels[i]);
        }
    }
}

/// The pattern at whose matches a line is cut into levels.
pub open spec fn gap_pattern() -> Seq<char> {
    r"\s+"@
}

/// The numbers that the pieces of a line write; `None` where one of them
/// writes none.
pub open spec fn levels_of(pieces: Seq<Seq<char>>) -> Option<Seq<u64>>
    decreases pieces.len(),
{
    if pieces.len() == 0 {
        Some(Seq::empty())
    } else {
        match (levels_of(pieces.drop_last()), unsigned_value(bytes_of(pieces.last()))) {
            (Some(before), Some(v)) if v <= u64::MAX => Some(before.push(v as u64)),
            _ => None,
        }
    }
}

impl Report {
    /// The report whose levels `pieces` write; `None` where one of them is
    /// no number.
    pub fn from_pieces(pieces: &Vec<String>) -> (report: Option<Report>)
        ensures
            match report {
                Some(read) => levels_of(texts(pieces@)) == Some(read.levels@),
                None => levels_of(texts(pieces@)).is_none(),
            },
    {
        let mut levels: Vec<u64> = Vec::new();
        let mut ok = true;
        let mut i: usize = 0;
        assert(texts(pieces@).take(0) =~= Seq::<Seq<char>>::empty());
        while i < pieces.len()
            invariant
                i <= pieces.len(),
                ok ==> levels_of(texts(pieces@).take(i as int)) == Some(levels@),
                !ok ==> levels_of(texts(pieces@).take(i as int)).is_none(),
            decreases pieces.len() - i,
        {
            assert(texts(pieces@).take(i + 1).drop_last() =~= texts(pieces@).take(i as int));
            assert(texts(pieces@).take(i + 1).last() == pieces[i as int]@);
            match parse_u64(text_bytes(&pieces[i])) {
                Some(v) => {
                    if ok {
                        levels.push(v);
                    }
                },
                None => {
                    ok = false;
                },
            }
            i += 1;
        }
        assert(texts(pieces@).take(i as int) =~= texts(pieces@));
        if ok {
            Some(Report { levels })
        } else {
            None
        }
    }

    /// The report written on a line: numbers with white space between them.
    pub fn from(levels_input: &str) -> (report: Option<Report>)
        ensures
            match report {
                Some(read) => levels_of(regex_pieces(gap_pattern(), levels_input@)) == Some(
                    read.levels@,
                ),
                None => levels_of(regex_pieces(gap_pattern(), levels_input@)).is_none(),
            },
    {
        let pieces = split_at_matches(r"\s+", levels_input);
        Report::from_pieces(&pieces)
    }

    pub fn is_safe(&self) -> (is_safe: bool)
        ensures
            is_safe == safe(self.levels@),
    {
        levels_safe(&self.levels)
    }

    /// Whether the report is safe as it is or once one level is taken out.
    pub fn is_safe_with_dampening(&self) -> (is_safe: bool)
        ensures
            is_safe == (safe(self.levels@) || safe_without_one(self.levels@)),
    {
        if self.levels.len() == 0 {
            assert(!safe_without_one(self.levels@));
            return true;
        }
        proof {
            if safe(self.levels@) {
                lemma_safe_without_first(self.levels@);
            }
        }
        let mut skip: usize = 0;
        while skip < self.levels.len()
            invariant
                skip <= self.levels.len(),
                forall|k: int| 0 <= k < skip ==> !safe(#[trigger] self.levels@.remove(k)),
            decreases self.levels.len() - skip,
        {
            let rest = without(&self.levels, skip);
            if levels_safe(&rest) {
                return true;
            }
            skip += 1;
        }
        false
    }
}

/// How many of `reports` are safe, with or without dampening.
pub open spec fn safe_count(reports: Seq<Seq<u64>>, dampened: bool) -> nat
    decreases reports.len(),
{
    if reports.len() == 0 {
        0
    } else {
        let last = reports.last();
        safe_count(reports.drop_last(), dampened) + (if safe(last) || (dampened
            && safe_without_one(last)) {
            1nat
        } else {
            0nat
        })
    }
}

/// The reports written on `lines`, one to a line.
pub open spec fn reports_in(lines: Seq<Seq<char>>) -> Option<Seq<Seq<u64>>>
    decreases lines.len(),
{
    if lines.len() == 0 {
        Some(Seq::empty())
    } else {
        match (
            reports_in(lines.drop_last()),
            levels_of(regex_pieces(gap_pattern(), lines.last())),
        ) {
            (Some(before), Some(levels)) => Some(before.push(levels)),
            _ => None,
        }
    }
}

/// No more reports are safe than there are.
pub proof fn lemma_safe_count_bound(reports: Seq<Seq<u64>>, dampened: bool)
    ensures
        safe_count(reports, dampened) <= reports.len(),
    decreases reports.len(),
{
    if reports.len() > 0 {
        lemma_safe_count_bound(reports.drop_last(), dampened);
    }
}

/// Counts the safe reports among those written on `lines`; `None` where a
/// line writes no report.
pub fn count_reports(lines: &Vec<String>, dampened: bool) -> (count: Option<u64>)
    ensures
        match count {
            Some(n) => reports_in(texts(lines@)).is_some() && n == safe_count(
                reports_in(texts(lines@)).unwrap(),
                dampened,
            ),
            None => reports_in(texts(lines@)).is_none(),
        },
{
    let mut safe_reports: u64 = 0;
    let mut ok = true;
    let mut i: usize = 0;
    assert(texts(lines@).take(0) =~= Seq::<Seq<char>>::empty());
    while i < lines.len()
        invariant
            i <= lines.len(),
            ok ==> reports_in(texts(lines@).take(i as int)).is_some() && safe_reports
                == safe_count(reports_in(texts(lines@).take(i as int)).unwrap(), dampened),
            !ok ==> reports_in(texts(lines@).take(i as int)).is_none(),
        decreases lines.len() - i,
    {
        assert(texts(lines@).take(i + 1).drop_last() =~= texts(lines@).take(i as int));
        assert(texts(lines@).take(i + 1).last() == lines[i as int]@);
        proof {
            if ok {
                let before = reports_in(texts(lines@).take(i as int)).unwrap();
                lemma_safe_count_bound(before, dampened);
                lemma_reports_len(texts(lines@).take(i as int));
            }
        }
        match Report::from(lines[i].as_str()) {
            Some(report) => {
                if ok {
                    let counted = if dampened {
                        report.is_safe_with_dampening()
                    } else {
                        report.is_safe()
                    };
                    proof {
                        let all = reports_in(texts(lines@).take(i + 1)).unwrap();
                        assert(all.drop_last() =~= reports_in(
                            texts(lines@).take(i as int),
                        ).unwrap());
                    }
                    if counted {
                        safe_reports += 1;
                    }
                }
            },
            None => {
                ok = false;
            },
        }
        i += 1;
    }
    assert(texts(lines@).take(i as int) =~= texts(lines@));
    if ok {
        Some(safe_reports)
    } else {
        None
    }
}

/// There is one report to each line.
pub proof fn lemma_reports_len(lines: Seq<Seq<char>>)
    requires
        reports_in(lines).is_some(),
    ensures
        reports_in(lines).unwrap().len() == lines.len(),
    decreases lines.len(),
{
    if lines.len() > 0 {
        lemma_reports_len(lines.drop_last());
    }
}

/// How many of the reports written in `input` are safe.
pub fn count_safe_reports_strict(input: &String) -> (count: Option<u64>)
    ensures
        exists|lines: Seq<Seq<char>>| #[trigger]
            text_lines(input@, lines) && match count {
                Some(n) => reports_in(lines).is_some() && n == safe_count(
                    reports_in(lines).unwrap(),
                    false,
                ),
                None => reports_in(lines).is_none(),
            },
{
    let found = string_lines(input.as_str());
    assert(text_lines(input@, texts(found@)));
    count_reports(&found, false)
}

/// How many of the reports written in `input` are safe once a level may be
/// taken out of each.
pub fn count_safe_reports_dampened(input: &String) -> (count: Option<u64>)
    ensures
        exists|lines: Seq<Seq<char>>| #[trigger]
            text_lines(input@, lines) && match count {
                Some(n) => reports_in(lines).is_some() && n == safe_count(
                    reports_in(lines).unwrap(),
                    true,
                ),
                None => reports_in(lines).is_none(),
            },
{
    let found = string_lines(input.as_str());
    assert(text_lines(input@, texts(found@)));
    count_reports(&found, true)
}


/// Whether an edge leads up or down.
#[derive(Debug, PartialEq, Eq, Clone, Copy, Structural)]
pub enum EdgeKind {
    Ascending,
    Descending,
}

/// A step from one level to a later one: `cost` is 1 where the step leaves
/// a level out, else 0.
#[derive(Debug, PartialEq, Eq, Clone, Copy, Structural)]
pub struct Edge {
    pub cost: usize,
    pub dest_node: usize,
    pub kind: EdgeKind,
}

/// A level, or the root that stands before the first level, with the steps
/// that lead on from it.
pub struct Node {
    pub value: Option<u64>,
    pub edges: Vec<Edge>,
}

/// The levels of a report as the nodes of a graph: node 0 is the root, node
/// `i + 1` the level `i`. A step leads from a level to the next or to the one
/// after, where the two are one to three apart.
pub struct LevelsGraph {
    pub nodes: Vec<Node>,
}

/// The value of each node.
pub open spec fn node_values(nodes: Seq<Node>) -> Seq<Option<u64>> {
    Seq::new(nodes.len(), |i: int| nodes[i].value)
}

/// The edges of each node.
pub open spec fn node_edges(nodes: Seq<Node>) -> Seq<Seq<Edge>> {
    Seq::new(nodes.len(), |i: int| nodes[i].edges@)
}

/// The edges that lead from a node of value `from` to the new node `dest`
/// of value `level`, `cost` being what such a step costs.
pub open spec fn edges_to(from: Option<u64>, level: u64, dest: usize, cost: usize) -> Seq<Edge> {
    match from {
        Some(prev) => if prev < level && level - prev <= MAX_LEVEL_DIFF {
            seq![Edge { cost, dest_node: dest, kind: EdgeKind::Ascending }]
        } else if prev > level && prev - level <= MAX_LEVEL_DIFF {
            seq![Edge { cost, dest_node: dest, kind: EdgeKind::Descending }]
        } else {
            Seq::empty()
        },
        None => seq![
            Edge { cost, dest_node: dest, kind: EdgeKind::Ascending },
            Edge { cost, dest_node: dest, kind: EdgeKind::Descending },
        ],
    }
}

/// The edges of node `i` once a node of value `level` has been added behind
/// the nodes of `values`: the two nodes before the new one get edges to it,
/// and the step from the earlier of the two costs 1.
pub open spec fn edges_after_adding(
    values: Seq<Option<u64>>,
    edges: Seq<Seq<Edge>>,
    level: u64,
    i: int,
) -> Seq<Edge> {
    let n = values.len() as int;
    if n >= 2 && i == n - 2 {
        edges[i] + edges_to(values[i], level, n as usize, 1)
    } else if i == n - 1 {
        edges[i] + edges_to(values[i], level, n as usize, 0)
    } else {
        edges[i]
    }
}

impl LevelsGraph {
    /// Every edge leads to a later node.
    pub open spec fn forward(&self) -> bool {
        forall|i: int, e: int|
            0 <= i < self.nodes.len() && 0 <= e < self.nodes[i].edges.len() ==> i < (
            #[trigger] self.nodes[i].edges[e]).dest_node < self.nodes.len()
    }

    /// The graph of no levels: the root alone.
    pub fn new() -> (graph: LevelsGraph)
        ensures
            graph.nodes.len() == 1,
            graph.nodes[0].value.is_none(),
            graph.nodes[0].edges.len() == 0,
            graph.forward(),
    {
        let mut nodes: Vec<Node> = Vec::new();
        nodes.push(Node { value: None, edges: Vec::new() });
        LevelsGraph { nodes }
    }

    /// Adds `level` as the last node and the edges that lead to it.
    pub fn add_level(&mut self, level: u64)
        requires
            old(self).nodes.len() >= 1,
            old(self).forward(),
        ensures
            final(self).forward(),
            final(self).nodes.len() == old(self).nodes.len() + 1,
            final(self).nodes[old(self).nodes.len() as int].value == Some(level),
            final(self).nodes[old(self).nodes.len() as int].edges.len() == 0,
            forall|i: int|
                0 <= i < old(self).nodes.len() ==> {
                    &&& (#[trigger] final(self).nodes[i]).value == old(self).nodes[i].value
                    &&& final(self).nodes[i].edges@ == edges_after_adding(
                        node_values(old(self).nodes@),
                        node_edges(old(self).nodes@),
                        level,
                        i,
                    )
                },
    {
        let n = self.nodes.len();
        let ghost values = node_values(self.nodes@);
        let ghost edges = node_edges(self.nodes@);
        if n >= 2 {
            let from = self.nodes[n - 2].value;
            self.link(n - 2, from, level, n, 1);
        }
        let from = self.nodes[n - 1].value;
        self.link(n - 1, from, level, n, 0);
        self.nodes.push(Node { value: Some(level), edges: Vec::new() });
        proof {
            assert forall|i: int, e: int|
                0 <= i < self.nodes.len() && 0 <= e < self.nodes[i].edges.len() implies i < (
            #[trigger] self.nodes[i].edges[e]).dest_node < self.nodes.len() by {
                if i < n {
                    let before = old(self).nodes[i].edges@;
                    if e < before.len() {
                        assert(self.nodes[i].edges[e] == before[e]);
                        assert(i < old(self).nodes[i].edges[e].dest_node < n);
                    }
                }
            }
        }
    }

    /// Adds to node `at` the edges that lead from a node of value `from` to
    /// the node `dest` that will hold `level`.
    fn link(&mut self, at: usize, from: Option<u64>, level: u64, dest: usize, cost: usize)
        requires
            at < old(self).nodes.len(),
            from == old(self).nodes[at as int].value,
        ensures
            final(self).nodes.len() == old(self).nodes.len(),
            forall|i: int|
                0 <= i < old(self).nodes.len() ==> (#[trigger] final(self).nodes[i]).value == old(self).nodes[i].value,
            forall|i: int|
                0 <= i < old(self).nodes.len() && i != at ==> (#[trigger] final(self).nodes[i]).edges@ == old(self).nodes[i].edges@,
            final(self).nodes[at as int].edges@ == old(self).nodes[at as int].edges@ + edges_to(
                from,
                level,
                dest,
                cost,
            ),
    {
        let ghost before = self.nodes[at as int].edges@;
        match from {
            Some(prev_val) => {
                if prev_val < level && level - prev_val <= MAX_LEVEL_DIFF {
                    self.nodes[at].edges.push(
                        Edge { cost, dest_node: dest, kind: EdgeKind::Ascending },
                    );
                } else if prev_val > level && prev_val - level <= MAX_LEVEL_DIFF {
                    self.nodes[at].edges.push(
                        Edge { cost, dest_node: dest, kind: EdgeKind::Descending },
                    );
                }
            },
            None => {
                self.nodes[at].edges.push(Edge { cost, dest_node: dest, kind: EdgeKind::Ascending });
                self.nodes[at].edges.push(
                    Edge { cost, dest_node: dest, kind: EdgeKind::Descending },
                );
            },
        }
        assert(self.nodes[at as int].edges@ =~= before + edges_to(from, level, dest, cost));
    }
}


/// An edge of the kind `kind` that costs no more than `budget`.
pub open spec fn affordable(kind: EdgeKind, budget: usize) -> spec_fn(Edge) -> bool {
    |e: Edge| e.kind == kind && e.cost <= budget
}

/// Each of `paths` with `node` before it.
pub open spec fn led_by(node: usize, paths: Seq<Seq<usize>>) -> Seq<Seq<usize>> {
    Seq::new(paths.len(), |i: int| seq![node] + paths[i])
}

/// The paths from `node` that begin with one of the first `count` of
/// `steps`.
pub open spec fn paths_through(
    edges: Seq<Seq<Edge>>,
    node: usize,
    steps: Seq<Edge>,
    count: nat,
    kind: EdgeKind,
    budget: usize,
) -> Seq<Seq<usize>>
    decreases edges.len() - node, 0nat, count,
{
    if count == 0 || count > steps.len() {
        Seq::empty()
    } else {
        let step = steps[count - 1];
        paths_through(edges, node, steps, (count - 1) as nat, kind, budget) + (if node
            < step.dest_node < edges.len() && step.cost <= budget {
            led_by(node, paths_from(edges, step.dest_node, kind, (budget - step.cost) as usize))
        } else {
            Seq::empty()
        })
    }
}

/// The paths from `node` along edges of the kind `kind` that cost `budget`
/// at most together, each followed until no such edge leads on.
pub open spec fn paths_from(edges: Seq<Seq<Edge>>, node: usize, kind: EdgeKind, budget: usize) -> Seq<
    Seq<usize>,
>
    decreases edges.len() - node, 1nat, 0nat,
{
    if node >= edges.len() {
        seq![seq![node]]
    } else {
        let steps = edges[node as int].filter(affordable(kind, budget));
        if steps.len() == 0 {
            seq![seq![node]]
        } else {
            paths_through(edges, node, steps, steps.len(), kind, budget)
        }
    }
}

/// The nodes of each of `paths`.
pub open spec fn path_nodes(paths: Seq<Vec<usize>>) -> Seq<Seq<usize>> {
    Seq::new(paths.len(), |i: int| paths[i]@)
}

/// `path` with `node` before it.
fn led(node: usize, path: &Vec<usize>) -> (longer: Vec<usize>)
    ensures
        longer@ == seq![node] + path@,
{
    let mut longer: Vec<usize> = Vec::new();
    longer.push(node);
    let mut k: usize = 0;
    while k < path.len()
        invariant
            k <= path.len(),
            longer@ == seq![node] + path@.take(k as int),
        decreases path.len() - k,
    {
        longer.push(path[k]);
        assert(longer@ =~= seq![node] + path@.take(k + 1));
        k += 1;
    }
    assert(path@.take(k as int) =~= path@);
    longer
}

impl LevelsGraph {
    /// The edges of `node` of the kind `kind` that cost `budget` at most.
    fn safe_edges(&self, node: usize, kind: EdgeKind, budget: usize) -> (steps: Vec<Edge>)
        requires
            node < self.nodes.len(),
        ensures
            steps@ == self.nodes[node as int].edges@.filter(affordable(kind, budget)),
    {
        let all = &self.nodes[node].edges;
        let ghost keep = affordable(kind, budget);
        let mut steps: Vec<Edge> = Vec::new();
        let mut i: usize = 0;
        assert(all@.take(0) =~= Seq::<Edge>::empty());
        while i < all.len()
            invariant
                i <= all.len(),
                keep == affordable(kind, budget),
                steps@ == all@.take(i as int).filter(keep),
            decreases all.len() - i,
        {
            proof {
                assert(all@.take(i + 1) =~= all@.take(i as int).push(all@[i as int]));
                all@.take(i as int).lemma_filter_push(all@[i as int], keep);
            }
            let e = all[i];
            let same_kind = match (e.kind, kind) {
                (EdgeKind::Ascending, EdgeKind::Ascending) => true,
                (EdgeKind::Descending, EdgeKind::Descending) => true,
                _ => false,
            };
            if same_kind && e.cost <= budget {
                steps.push(e);
            }
            i += 1;
        }
        assert(all@.take(i as int) =~= all@);
        steps
    }

    pub fn _get_paths(&self, node: usize, kind: EdgeKind, budget: usize) -> (paths: Vec<Vec<usize>>)
        requires
            self.forward(),
            node < self.nodes.len(),
        ensures
            path_nodes(paths@) == paths_from(node_edges(self.nodes@), node, kind, budget),
        decreases self.nodes.len() - node,
    {
        let ghost edges = node_edges(self.nodes@);
        let steps = self.safe_edges(node, kind, budget);
        let mut result: Vec<Vec<usize>> = Vec::new();
        if steps.len() == 0 {
            let mut alone: Vec<usize> = Vec::new();
            alone.push(node);
            result.push(alone);
            assert(path_nodes(result@) =~~= seq![seq![node]]);
            return result;
        }
        let mut i: usize = 0;
        assert(path_nodes(result@) =~~= Seq::<Seq<usize>>::empty());
        while i < steps.len()
            invariant
                i <= steps.len(),
                self.forward(),
                node < self.nodes.len(),
                edges == node_edges(self.nodes@),
                steps@ == edges[node as int].filter(affordable(kind, budget)),
                path_nodes(result@) == paths_through(edges, node, steps@, i as nat, kind, budget),
            decreases steps.len() - i,
        {
            let step = steps[i];
            proof {
                let all = self.nodes[node as int].edges@;
                all.lemma_filter_pred(affordable(kind, budget), i as int);
                all.lemma_filter_contains_rev(affordable(kind, budget), step);
                let at = choose|at: int| 0 <= at < all.len() && all[at] == step;
                assert(node < self.nodes[node as int].edges[at].dest_node < self.nodes.len());
            }
            let onward = self._get_paths(step.dest_node, kind, budget - step.cost);
            let ghost before = path_nodes(result@);
            let mut j: usize = 0;
            while j < onward.len()
                invariant
                    j <= onward.len(),
                    path_nodes(result@) == before + led_by(node, path_nodes(onward@)).take(j as int),
                decreases onward.len() - j,
            {
                let path = led(node, &onward[j]);
                let ghost so_far = path_nodes(result@);
                result.push(path);
                assert(path_nodes(result@) =~~= so_far.push(seq![node] + onward[j as int]@));
                assert(path_nodes(result@) =~~= before + led_by(node, path_nodes(onward@)).take(
                    j + 1,
                ));
                j += 1;
            }
            assert(led_by(node, path_nodes(onward@)).take(j as int) =~~= led_by(
                node,
                path_nodes(onward@),
            ));
            i += 1;
        }
        result
    }

    /// The paths from the root that rise throughout, then those that fall
    /// throughout, each leaving out one level at most.
    pub fn get_all_paths(&self) -> (paths: Vec<Vec<usize>>)
        requires
            self.forward(),
            self.nodes.len() >= 1,
        ensures
            path_nodes(paths@) == paths_from(
                node_edges(self.nodes@),
                0,
                EdgeKind::Ascending,
                1,
            ) + paths_from(node_edges(self.nodes@), 0, EdgeKind::Descending, 1),
    {
        let mut result = self._get_paths(0, EdgeKind::Ascending, 1);
        let falling = self._get_paths(0, EdgeKind::Descending, 1);
        let ghost rising = path_nodes(result@);
        let mut i: usize = 0;
        while i < falling.len()
            invariant
                i <= falling.len(),
                path_nodes(result@) == rising + path_nodes(falling@).take(i as int),
            decreases falling.len() - i,
        {
            let mut path: Vec<usize> = Vec::new();
            let mut k: usize = 0;
            while k < falling[i].len()
                invariant
                    i < falling.len(),
                    k <= falling[i as int].len(),
                    path@ == falling[i as int]@.take(k as int),
                decreases falling[i as int].len() - k,
            {
                path.push(falling[i][k]);
                assert(path@ =~= falling[i as int]@.take(k + 1));
                k += 1;
            }
            assert(falling[i as int]@.take(k as int) =~= falling[i as int]@);
            let ghost so_far = path_nodes(result@);
            result.push(path);
            assert(path_nodes(result@) =~~= so_far.push(falling[i as int]@));
            assert(path_nodes(result@) =~~= rising + path_nodes(falling@).take(i + 1));
            i += 1;
        }
        assert(path_nodes(falling@).take(i as int) =~~= path_nodes(falling@));
        result
    }

    /// Whether a path from the root takes in all levels but one at most.
    pub fn is_safe(&self) -> (is_safe: bool)
        requires
            self.forward(),
            self.nodes.len() >= 2,
        ensures
            is_safe == exists|i: int|
                0 <= i < self.all_paths().len() && (#[trigger] self.all_paths()[i]).len()
                    >= self.nodes.len() - 1,
    {
        let all_paths = self.get_all_paths();
        let mut i: usize = 0;
        while i < all_paths.len()
            invariant
                i <= all_paths.len(),
                self.nodes.len() >= 2,
                path_nodes(all_paths@) == self.all_paths(),
                forall|k: int| 0 <= k < i ==> (#[trigger] self.all_paths()[k]).len() < self.nodes.len() - 1,
            decreases all_paths.len() - i,
        {
            assert(self.all_paths()[i as int] == all_paths[i as int]@);
            if all_paths[i].len() > self.nodes.len() - 2 {
                return true;
            }
            i += 1;
        }
        false
    }

    /// The paths from the root: those that rise throughout, then those that
    /// fall throughout.
    pub open spec fn all_paths(&self) -> Seq<Seq<usize>> {
        paths_from(node_edges(self.nodes@), 0, EdgeKind::Ascending, 1) + paths_from(
            node_edges(self.nodes@),
            0,
            EdgeKind::Descending,
            1,
        )
    }
}

/// The values of the nodes of the graph of the first `count` levels: none
/// for the root, then the levels.
pub open spec fn values_upto(levels: Seq<u64>, count: nat) -> Seq<Option<u64>> {
    Seq::new(
        count + 1,
        |i: int|
            if i == 0 {
                None
            } else {
                Some(levels[i - 1])
            },
    )
}

/// The edges of the nodes of the graph of the first `count` levels.
pub open spec fn edges_upto(levels: Seq<u64>, count: nat) -> Seq<Seq<Edge>>
    decreases count,
{
    if count == 0 || count > levels.len() {
        seq![Seq::empty()]
    } else {
        let before = edges_upto(levels, (count - 1) as nat);
        let values = values_upto(levels, (count - 1) as nat);
        Seq::new(
            count + 1,
            |i: int|
                if i < count {
                    edges_after_adding(values, before, levels[count - 1], i)
                } else {
                    Seq::empty()
                },
        )
    }
}

/// A path from the root of the graph with the edges `edges` takes in all
/// nodes but one at most.
pub open spec fn safe_path_in(edges: Seq<Seq<Edge>>) -> bool {
    let paths = paths_from(edges, 0, EdgeKind::Ascending, 1) + paths_from(
        edges,
        0,
        EdgeKind::Descending,
        1,
    );
    exists|i: int| 0 <= i < paths.len() && (#[trigger] paths[i]).len() >= edges.len() - 1
}

impl Report {
    /// The graph of the levels of the report.
    pub fn build_graph(&self) -> (graph: LevelsGraph)
        ensures
            graph.forward(),
            graph.nodes.len() == self.levels.len() + 1,
            node_values(graph.nodes@) == values_upto(self.levels@, self.levels@.len()),
            node_edges(graph.nodes@) == edges_upto(self.levels@, self.levels@.len()),
    {
        let mut graph = LevelsGraph::new();
        let mut i: usize = 0;
        assert(node_values(graph.nodes@) =~= values_upto(self.levels@, 0));
        assert(node_edges(graph.nodes@) =~= edges_upto(self.levels@, 0)) by {
            assert(node_edges(graph.nodes@)[0] =~= Seq::<Edge>::empty());
        }
        while i < self.levels.len()
            invariant
                i <= self.levels.len(),
                graph.forward(),
                graph.nodes.len() == i + 1,
                node_values(graph.nodes@) == values_upto(self.levels@, i as nat),
                node_edges(graph.nodes@) == edges_upto(self.levels@, i as nat),
            decreases self.levels.len() - i,
        {
            let ghost before = graph;
            graph.add_level(self.levels[i]);
            proof {
                assert forall|k: int| 0 <= k < i + 2 implies node_values(graph.nodes@)[k]
                    == values_upto(self.levels@, (i + 1) as nat)[k] by {
                    if k < i + 1 {
                        assert(graph.nodes[k].value == before.nodes[k].value);
                        assert(node_values(before.nodes@)[k] == before.nodes[k].value);
                    }
                }
                assert(node_values(graph.nodes@) =~= values_upto(self.levels@, (i + 1) as nat));
                assert forall|k: int| 0 <= k < i + 2 implies node_edges(graph.nodes@)[k]
                    == edges_upto(self.levels@, (i + 1) as nat)[k] by {
                    if k < i + 1 {
                        assert(graph.nodes[k].edges@ == edges_after_adding(
                            node_values(before.nodes@),
                            node_edges(before.nodes@),
                            self.levels[i as int],
                            k,
                        ));
                    }
                }
                assert(node_edges(graph.nodes@) =~= edges_upto(self.levels@, (i + 1) as nat));
            }
            i += 1;
        }
        graph
    }

    /// Whether a path through the graph of the levels takes in all levels
    /// but one at most.
    pub fn is_safe_by_graph(&self) -> (is_safe: bool)
        requires
            self.levels.len() >= 1,
        ensures
            is_safe == safe_path_in(edges_upto(self.levels@, self.levels@.len())),
    {
        let graph = self.build_graph();
        let is_safe = graph.is_safe();
        proof {
            assert(graph.all_paths() == paths_from(
                edges_upto(self.levels@, self.levels@.len()),
                0,
                EdgeKind::Ascending,
                1,
            ) + paths_from(
                edges_upto(self.levels@, self.levels@.len()),
                0,
                EdgeKind::Descending,
                1,
            ));
            assert(edges_upto(self.levels@, self.levels@.len()).len() == graph.nodes.len());
        }
        is_safe
    }
}

} // verus!
