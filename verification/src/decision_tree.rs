//! The decision tree: at every node the station to guess, and one child per answer
//! the player can receive (shares a line or not, and the hop distance).

use crate::render::{indent, node_line, push_decimal, indentation};
use crate::texts;
use std::collections::HashSet;
use vstd::prelude::*;

verus! {

/// A station of the network, numbered by its position in the station list.
/// Distances and sets refer to other stations by that number.
#[derive(Debug)]
pub struct Station {
    pub name: String,
    /// Hop distance to every station, indexed by station number (`u32::MAX`: unreachable).
    pub dist_to_stations: Vec<u32>,
    /// The stations that share at least one line with this one (itself included).
    pub cur_line_stations: HashSet<usize>,
    /// The stations that share no line with this one.
    pub other_line_stations: HashSet<usize>,
}

/// The answer the player gets after a wrong guess: whether the hidden station shares a
/// line with the guessed one, and the hop distance between the two.
#[derive(Debug, Clone, Copy, PartialEq, Eq, Hash, Structural)]
pub enum EdgeType {
    SameLine(u32),
    OtherLine(u32),
}

/// Whether the hidden station shares at least one line with the guessed one.
#[derive(Debug, Clone, Copy, PartialEq, Eq, Structural)]
pub enum LineRelation {
    SharesAtLeastOneLine,
    SharesNoLines,
}

impl LineRelation {
    /// The answer made of this relation and `distance`.
    pub open spec fn spec_edge(self, distance: u32) -> EdgeType {
        match self {
            LineRelation::SharesAtLeastOneLine => EdgeType::SameLine(distance),
            LineRelation::SharesNoLines => EdgeType::OtherLine(distance),
        }
    }

    /// The relation picked at position `index` of the two-item menu, in the order
    /// (shares a line, shares none).
    pub fn from_index(index: usize) -> (relation: Option<LineRelation>)
        ensures
            relation == (if index == 0 {
                Some(LineRelation::SharesAtLeastOneLine)
            } else if index == 1 {
                Some(LineRelation::SharesNoLines)
            } else {
                None::<LineRelation>
            }),
    {
        if index == 0 {
            Some(LineRelation::SharesAtLeastOneLine)
        } else if index == 1 {
            Some(LineRelation::SharesNoLines)
        } else {
            None
        }
    }

    /// The answer made of this relation and a distance.
    pub fn edge(self, distance: u32) -> (edge: EdgeType)
        ensures
            edge == self.spec_edge(distance),
    {
        match self {
            LineRelation::SharesAtLeastOneLine => EdgeType::SameLine(distance),
            LineRelation::SharesNoLines => EdgeType::OtherLine(distance),
        }
    }
}

/// Station `v` is a candidate (in `valid`) and lies in the category `category`.
pub open spec fn in_category(valid: Set<usize>, category: Set<usize>, v: usize) -> bool {
    valid.contains(v) && category.contains(v)
}

/// `groups` lists, by strictly increasing distance, the candidates of `category` that lie
/// at each distance, every list in increasing station order and none empty.
pub open spec fn is_distance_grouping(
    valid: Set<usize>,
    category: Set<usize>,
    dist: Seq<u32>,
    groups: Seq<(u32, Seq<usize>)>,
) -> bool {
    &&& forall|i: int, j: int| 0 <= i < j < groups.len() ==> #[trigger] groups[i].0 < #[trigger] groups[j].0
    &&& forall|k: int| 0 <= k < groups.len() ==> #[trigger] groups[k].1.len() > 0
    &&& forall|k: int, a: int, b: int|
        0 <= k < groups.len() && 0 <= a < b < groups[k].1.len() ==> #[trigger] groups[k].1[a]
            < #[trigger] groups[k].1[b]
    &&& forall|k: int, v: usize|
        0 <= k < groups.len() ==> (#[trigger] groups[k].1.contains(v) <==> (in_category(valid, category, v)
            && v < dist.len() && dist[v as int] == groups[k].0))
    &&& forall|v: usize|
        #[trigger] in_category(valid, category, v) ==> v < dist.len() && exists|k: int|
            0 <= k < groups.len() && #[trigger] groups[k].0 == dist[v as int]
}

/// The groups of a grouping, each list taken by its view.
pub open spec fn group_views(groups: Seq<(u32, Vec<usize>)>) -> Seq<(u32, Seq<usize>)> {
    groups.map_values(|group: (u32, Vec<usize>)| (group.0, group.1@))
}

/// Groups the candidates of `category_stations` by their distance in `dist_to_stations`.
pub fn map_distances_to_stations(
    valid_stations: &HashSet<usize>,
    category_stations: &HashSet<usize>,
    dist_to_stations: &Vec<u32>,
) -> (dist_to_names: Vec<(u32, Vec<usize>)>)
    requires
        forall|v: usize| #[trigger] in_category(valid_stations@, category_stations@, v) ==> v < dist_to_stations.len(),
    ensures
        is_distance_grouping(valid_stations@, category_stations@, dist_to_stations@, group_views(dist_to_names@)),
{
    let ghost valid = valid_stations@;
    let ghost cat = category_stations@;
    let ghost dist = dist_to_stations@;
    let n = dist_to_stations.len();
    // The distinct distances, in increasing order.
    let mut distances: Vec<u32> = Vec::new();
    let mut v: usize = 0;
    while v < n
        invariant
            valid == valid_stations@,
            cat == category_stations@,
            dist == dist_to_stations@,
            n == dist.len(),
            v <= n,
            forall|i: int, j: int| 0 <= i < j < distances.len() ==> #[trigger] distances@[i] < #[trigger] distances@[j],
            forall|x: u32|
                #[trigger] distances@.contains(x) <==> exists|u: usize|
                    u < v && #[trigger] in_category(valid, cat, u) && dist[u as int] == x,
        decreases n - v,
    {
        if valid_stations.contains(&v) && category_stations.contains(&v) {
            let x = dist_to_stations[v];
            let mut p: usize = 0;
            while p < distances.len() && distances[p] < x
                invariant
                    p <= distances.len(),
                    forall|i: int| 0 <= i < p ==> #[trigger] distances@[i] < x,
                decreases distances.len() - p,
            {
                p += 1;
            }
            let ghost before = distances@;
            assert(in_category(valid, cat, v));
            if p == distances.len() || distances[p] != x {
                distances.insert(p, x);
                proof {
                    assert(distances@ == before.insert(p as int, x));
                    assert forall|i: int, j: int| 0 <= i < j < distances.len() implies #[trigger] distances@[i]
                        < #[trigger] distances@[j] by {
                        if p < before.len() {
                            assert(x < before[p as int]);
                        }
                    }
                    assert forall|y: u32|
                        #[trigger] distances@.contains(y) <==> exists|u: usize|
                            u < v + 1 && #[trigger] in_category(valid, cat, u) && dist[u as int] == y by {
                        if distances@.contains(y) && y != x {
                            let i = choose|i: int| 0 <= i < distances.len() && distances@[i] == y;
                            if i < p {
                                assert(before[i] == y);
                            } else {
                                assert(before[i - 1] == y);
                            }
                            assert(before.contains(y));
                        }
                        if y == x {
                            assert(distances@[p as int] == x);
                        }
                        if before.contains(y) {
                            let i = choose|i: int| 0 <= i < before.len() && before[i] == y;
                            if i < p {
                                assert(distances@[i] == y);
                            } else {
                                assert(distances@[i + 1] == y);
                            }
                        }
                    }
                }
            } else {
                proof {
                    assert forall|y: u32|
                        #[trigger] distances@.contains(y) <==> exists|u: usize|
                            u < v + 1 && #[trigger] in_category(valid, cat, u) && dist[u as int] == y by {
                        if y == x {
                            assert(distances@[p as int] == x);
                        }
                    }
                }
            }
        }
        v += 1;
    }
    // One group per distance.
    let mut dist_to_names: Vec<(u32, Vec<usize>)> = Vec::new();
    let mut k: usize = 0;
    while k < distances.len()
        invariant
            valid == valid_stations@,
            cat == category_stations@,
            dist == dist_to_stations@,
            n == dist.len(),
            k <= distances.len(),
            dist_to_names.len() == k,
            forall|i: int, j: int| 0 <= i < j < distances.len() ==> #[trigger] distances@[i] < #[trigger] distances@[j],
            forall|x: u32|
                #[trigger] distances@.contains(x) <==> exists|u: usize|
                    u < n && #[trigger] in_category(valid, cat, u) && dist[u as int] == x,
            forall|i: int| 0 <= i < k ==> #[trigger] dist_to_names@[i].0 == distances@[i],
            forall|i: int| 0 <= i < k ==> #[trigger] dist_to_names@[i].1@.len() > 0,
            forall|i: int, a: int, b: int|
                0 <= i < k && 0 <= a < b < dist_to_names@[i].1@.len() ==> #[trigger] dist_to_names@[i].1@[a]
                    < #[trigger] dist_to_names@[i].1@[b],
            forall|i: int, u: usize|
                0 <= i < k ==> (#[trigger] dist_to_names@[i].1@.contains(u) <==> (in_category(valid, cat, u)
                    && u < n && dist[u as int] == dist_to_names@[i].0)),
        decreases distances.len() - k,
    {
        let x = distances[k];
        let mut names: Vec<usize> = Vec::new();
        let mut u: usize = 0;
        while u < n
            invariant
                valid == valid_stations@,
                cat == category_stations@,
                dist == dist_to_stations@,
                n == dist.len(),
                u <= n,
                forall|a: int| 0 <= a < names.len() ==> #[trigger] names@[a] < u,
                forall|a: int, b: int| 0 <= a < b < names.len() ==> #[trigger] names@[a] < #[trigger] names@[b],
                forall|w: usize|
                    #[trigger] names@.contains(w) <==> (w < u && in_category(valid, cat, w) && dist[w as int] == x),
            decreases n - u,
        {
            if valid_stations.contains(&u) && category_stations.contains(&u) && dist_to_stations[u] == x {
                let ghost prev = names@;
                names.push(u);
                proof {
                    assert(names@ == prev.push(u));
                    assert forall|w: usize|
                        #[trigger] names@.contains(w) <==> (w < u + 1 && in_category(valid, cat, w) && dist[w as int]
                            == x) by {
                        if w == u {
                            assert(names@[names.len() - 1] == u);
                            assert(in_category(valid, cat, w));
                        }
                        if names@.contains(w) && w != u {
                            let a = choose|a: int| 0 <= a < names.len() && names@[a] == w;
                            assert(a < names.len() - 1);
                            assert(prev[a] == w);
                            assert(prev.contains(w));
                        }
                        if w < u && in_category(valid, cat, w) && dist[w as int] == x {
                            assert(prev.contains(w));
                            let a = choose|a: int| 0 <= a < prev.len() && prev[a] == w;
                            assert(names@[a] == w);
                        }
                    }
                }
            }
            u += 1;
        }
        proof {
            assert(distances@.contains(x));
            let w = choose|w: usize| w < n && #[trigger] in_category(valid, cat, w) && dist[w as int] == x;
            assert(names@.contains(w));
        }
        let ghost before = dist_to_names@;
        let ghost group = names@;
        dist_to_names.push((x, names));
        proof {
            assert(dist_to_names@ == before.push((x, names)));
            assert forall|i: int| 0 <= i < k implies #[trigger] dist_to_names@[i] == before[i] by {}
            assert(dist_to_names@[k as int].1@ == group);
            assert(group.len() > 0);
            assert forall|i: int| 0 <= i < k + 1 implies #[trigger] dist_to_names@[i].1@.len() > 0 by {
                if i < k {
                    assert(before[i].1@.len() > 0);
                }
            }
            assert forall|i: int, a: int, b: int|
                0 <= i < k + 1 && 0 <= a < b < dist_to_names@[i].1@.len() implies #[trigger] dist_to_names@[i].1@[a]
                    < #[trigger] dist_to_names@[i].1@[b] by {
                if i < k {
                    assert(before[i].1@[a] < before[i].1@[b]);
                } else {
                    assert(group[a] < group[b]);
                }
            }
            assert forall|i: int, u: usize|
                0 <= i < k + 1 implies (#[trigger] dist_to_names@[i].1@.contains(u) <==> (in_category(valid, cat, u)
                    && u < n && dist[u as int] == dist_to_names@[i].0)) by {
                if i < k {
                    assert(before[i].1@.contains(u) <==> (in_category(valid, cat, u) && u < n && dist[u as int]
                        == before[i].0));
                } else {
                    assert(group.contains(u) <==> (u < n && in_category(valid, cat, u) && dist[u as int] == x));
                }
            }
        }
        k += 1;
    }
    proof {
        let views = group_views(dist_to_names@);
        assert forall|i: int| 0 <= i < views.len() implies #[trigger] views[i] == (dist_to_names@[i].0, dist_to_names@[i].1@) by {}
        assert forall|w: usize| #[trigger] in_category(valid, cat, w) implies w < dist.len() && exists|i: int|
            0 <= i < views.len() && #[trigger] views[i].0 == dist[w as int] by {
            assert(distances@.contains(dist[w as int]));
            let i = choose|i: int| 0 <= i < distances.len() && distances@[i] == dist[w as int];
            assert(views[i].0 == dist[w as int]);
        }
        assert forall|w: usize| #[trigger] in_category(valid, cat, w) implies w < dist.len() && exists|i: int|
            0 <= i < dist_to_names.len() && #[trigger] dist_to_names@[i].0 == dist[w as int] by {
            assert(distances@.contains(dist[w as int]));
            let i = choose|i: int| 0 <= i < distances.len() && distances@[i] == dist[w as int];
            assert(dist_to_names@[i].0 == dist[w as int]);
        }
    }
    dist_to_names
}

/// What the score of a guess depends on: for each of the two categories of answer (shares a
/// line, shares none), how many candidates lie at each distance, by increasing distance; and
/// the number of candidates.
pub struct EntropyInput {
    pub same_line_counts: Vec<usize>,
    pub other_line_counts: Vec<usize>,
    pub num_stations: usize,
}

/// `counts` are the sizes of the distance groups of the candidates in `category`.
pub open spec fn is_distance_counts(valid: Set<usize>, category: Set<usize>, dist: Seq<u32>, counts: Seq<usize>) -> bool {
    exists|groups: Seq<(u32, Seq<usize>)>|
        #[trigger] is_distance_grouping(valid, category, dist, groups) && counts.len() == groups.len() && forall|k: int|
            0 <= k < counts.len() ==> counts[k] == groups[k].1.len()
}

/// `input` is what scoring station `p` among the candidates `valid` is based on.
pub open spec fn describes(input: EntropyInput, stations: Seq<Station>, valid: Set<usize>, p: usize) -> bool {
    &&& input.num_stations == valid.len()
    &&& is_distance_counts(
        valid,
        stations[p as int].cur_line_stations@,
        stations[p as int].dist_to_stations@,
        input.same_line_counts@,
    )
    &&& is_distance_counts(
        valid,
        stations[p as int].other_line_stations@,
        stations[p as int].dist_to_stations@,
        input.other_line_counts@,
    )
}

/// `r` is a value that `score` may return for station `p` among the candidates `valid`.
pub open spec fn is_score_of<F: Fn(&EntropyInput) -> u32>(
    score: F,
    stations: Seq<Station>,
    valid: Set<usize>,
    p: usize,
    r: u32,
) -> bool {
    exists|input: EntropyInput| describes(input, stations, valid, p) && #[trigger] call_ensures(score, (&input,), r)
}

/// Every candidate station knows its distance to every candidate of its two categories.
pub open spec fn candidates_have_distances(stations: Seq<Station>, valid: Set<usize>) -> bool {
    &&& forall|p: usize, v: usize|
        valid.contains(p) && p < stations.len() && valid.contains(v)
            && #[trigger] stations[p as int].cur_line_stations@.contains(v) ==> v
            < stations[p as int].dist_to_stations@.len()
    &&& forall|p: usize, v: usize|
        valid.contains(p) && p < stations.len() && valid.contains(v)
            && #[trigger] stations[p as int].other_line_stations@.contains(v) ==> v
            < stations[p as int].dist_to_stations@.len()
}

/// The stations and candidates are consistent: every candidate station knows its distance
/// to every candidate of its two categories, and those candidates are stations.
/// (A candidate that no candidate station lists in a category is left alone: it is only
/// counted.)
pub open spec fn network_ok(stations: Seq<Station>, valid: Set<usize>) -> bool {
    &&& candidates_have_distances(stations, valid)
    &&& forall|p: usize, v: usize|
        valid.contains(p) && p < stations.len() && valid.contains(v)
            && #[trigger] stations[p as int].cur_line_stations@.contains(v) ==> v < stations.len()
    &&& forall|p: usize, v: usize|
        valid.contains(p) && p < stations.len() && valid.contains(v)
            && #[trigger] stations[p as int].other_line_stations@.contains(v) ==> v < stations.len()
}

/// `sel` is the first candidate with the greatest score, the candidates being scored `scores`.
pub open spec fn is_best_pick<F: Fn(&EntropyInput) -> u32>(
    score: F,
    stations: Seq<Station>,
    valid: Set<usize>,
    scores: Seq<u32>,
    sel: usize,
) -> bool {
    &&& scores.len() == stations.len()
    &&& forall|p: usize|
        p < stations.len() && valid.contains(p) ==> #[trigger] is_score_of(score, stations, valid, p, scores[p as int])
    &&& sel < stations.len()
    &&& valid.contains(sel)
    &&& forall|p: usize| p < stations.len() && valid.contains(p) ==> #[trigger] scores[p as int] <= scores[sel as int]
    &&& forall|p: usize| p < sel && valid.contains(p) ==> #[trigger] scores[p as int] < scores[sel as int]
}

/// The scores may be asked of any input.
pub open spec fn score_callable<F: Fn(&EntropyInput) -> u32>(score: F) -> bool {
    forall|input: &EntropyInput| #[trigger] call_requires(score, (input,))
}

/// The number of candidates of `category` at each distance, by increasing distance.
pub fn category_counts(
    valid_stations: &HashSet<usize>,
    category_stations: &HashSet<usize>,
    dist_to_stations: &Vec<u32>,
) -> (counts: Vec<usize>)
    requires
        forall|v: usize| #[trigger] in_category(valid_stations@, category_stations@, v) ==> v < dist_to_stations.len(),
    ensures
        is_distance_counts(valid_stations@, category_stations@, dist_to_stations@, counts@),
{
    let groups = map_distances_to_stations(valid_stations, category_stations, dist_to_stations);
    let mut counts: Vec<usize> = Vec::new();
    let mut k: usize = 0;
    while k < groups.len()
        invariant
            k <= groups.len(),
            counts.len() == k,
            forall|i: int| 0 <= i < k ==> counts@[i] == groups@[i].1@.len(),
        decreases groups.len() - k,
    {
        counts.push(groups[k].1.len());
        k += 1;
    }
    assert(is_distance_grouping(valid_stations@, category_stations@, dist_to_stations@, group_views(groups@)));
    counts
}

/// The score inputs of station `p` among the candidates `valid_stations`.
fn entropy_input(stations: &Vec<Station>, valid_stations: &HashSet<usize>, p: usize) -> (input: EntropyInput)
    requires
        candidates_have_distances(stations@, valid_stations@),
        p < stations.len(),
        valid_stations@.contains(p),
    ensures
        describes(input, stations@, valid_stations@, p),
{
    let station = &stations[p];
    proof {
        assert forall|v: usize| #[trigger] in_category(valid_stations@, station.cur_line_stations@, v) implies v
            < station.dist_to_stations.len() by {
            assert(stations@[p as int].cur_line_stations@.contains(v));
        }
        assert forall|v: usize| #[trigger] in_category(valid_stations@, station.other_line_stations@, v) implies v
            < station.dist_to_stations.len() by {
            assert(stations@[p as int].other_line_stations@.contains(v));
        }
    }
    let same_line_counts = category_counts(valid_stations, &station.cur_line_stations, &station.dist_to_stations);
    let other_line_counts = category_counts(valid_stations, &station.other_line_stations, &station.dist_to_stations);
    EntropyInput { same_line_counts, other_line_counts, num_stations: valid_stations.len() }
}

/// The candidate to guess next: the first candidate, in station order, whose score is the
/// greatest; with that score. `None` when there is no candidate.
pub fn one_step_entropy<F: Fn(&EntropyInput) -> u32>(
    stations: &Vec<Station>,
    valid_stations: &HashSet<usize>,
    score: &F,
) -> (lowest_station: Option<(usize, u32)>)
    requires
        candidates_have_distances(stations@, valid_stations@),
        score_callable(*score),
    ensures
        match lowest_station {
            None => forall|p: usize| p < stations.len() ==> !#[trigger] valid_stations@.contains(p),
            Some((sel, best)) => exists|scores: Seq<u32>|
                #[trigger] is_best_pick(*score, stations@, valid_stations@, scores, sel) && scores[sel as int] == best,
        },
{
    let ghost valid = valid_stations@;
    let mut lowest_station: Option<(usize, u32)> = None;
    let ghost mut scores: Seq<u32> = Seq::empty();
    let mut p: usize = 0;
    while p < stations.len()
        invariant
            valid == valid_stations@,
            candidates_have_distances(stations@, valid),
            score_callable(*score),
            p <= stations.len(),
            scores.len() == p,
            forall|q: usize| q < p && valid.contains(q) ==> #[trigger] is_score_of(*score, stations@, valid, q, scores[q as int]),
            match lowest_station {
                None => forall|q: usize| q < p ==> !#[trigger] valid.contains(q),
                Some((sel, best)) => {
                    &&& sel < p
                    &&& valid.contains(sel)
                    &&& scores[sel as int] == best
                    &&& forall|q: usize| q < p && valid.contains(q) ==> #[trigger] scores[q as int] <= best
                    &&& forall|q: usize| q < sel && valid.contains(q) ==> #[trigger] scores[q as int] < best
                },
            },
        decreases stations.len() - p,
    {
        if valid_stations.contains(&p) {
            let input = entropy_input(stations, valid_stations, p);
            let entropy = score(&input);
            proof {
                assert(is_score_of(*score, stations@, valid, p, entropy));
                scores = scores.push(entropy);
            }
            match lowest_station {
                None => {
                    lowest_station = Some((p, entropy));
                },
                Some((_, lowest_entropy)) => {
                    if entropy > lowest_entropy {
                        lowest_station = Some((p, entropy));
                    }
                },
            }
        } else {
            proof {
                scores = scores.push(0);
            }
        }
        proof {
            assert forall|q: usize| q < p + 1 && valid.contains(q) implies #[trigger] is_score_of(
                *score,
                stations@,
                valid,
                q,
                scores[q as int],
            ) by {
                if q < p {
                    assert(is_score_of(*score, stations@, valid, q, scores.drop_last()[q as int]));
                }
            }
        }
        p += 1;
    }
    proof {
        if let Some((sel, best)) = lowest_station {
            assert(is_best_pick(*score, stations@, valid, scores, sel));
        }
    }
    lowest_station
}

/// A node of the decision tree: the station to guess (by number, and its name) and, for
/// each answer that leaves candidates, the subtree for those candidates, in answer order.
#[derive(Debug)]
pub struct DecisionTreeNode {
    station: usize,
    name: String,
    children: Vec<(EdgeType, DecisionTreeNode)>,
}

/// The answers are in answer order (see [`edge_precedes`]), so each occurs at most once.
pub open spec fn children_ordered(children: Seq<(EdgeType, DecisionTreeNode)>) -> bool {
    forall|i: int, j: int|
        0 <= i < j < children.len() ==> edge_precedes(#[trigger] children[i].0, #[trigger] children[j].0)
}

impl DecisionTreeNode {
    /// The number of the station this node guesses.
    pub closed spec fn spec_station(self) -> usize {
        self.station
    }

    /// The name of the station this node guesses.
    pub closed spec fn spec_name(self) -> Seq<char> {
        self.name@
    }

    /// The answers that lead further, each with its subtree.
    pub closed spec fn spec_children(self) -> Seq<(EdgeType, DecisionTreeNode)> {
        self.children@
    }

    /// A node keeps its answers in answer order.
    #[verifier::type_invariant]
    spec fn answers_in_order(self) -> bool {
        children_ordered(self.children@)
    }

    /// The number of the station to guess.
    pub fn station(&self) -> (station: usize)
        ensures
            station == self.spec_station(),
    {
        self.station
    }

    /// The name of the station to guess.
    pub fn name(&self) -> (name: &String)
        ensures
            name@ == self.spec_name(),
    {
        &self.name
    }

    /// The answers that lead further, each with its subtree, in answer order.
    pub fn children(&self) -> (children: &Vec<(EdgeType, DecisionTreeNode)>)
        ensures
            children@ == self.spec_children(),
            children_ordered(children@),
    {
        proof {
            use_type_invariant(self);
        }
        &self.children
    }
}

/// The distance carried by an answer.
pub open spec fn edge_distance(edge: EdgeType) -> u32 {
    match edge {
        EdgeType::SameLine(d) => d,
        EdgeType::OtherLine(d) => d,
    }
}

/// The category of station `sel` that an answer speaks of.
pub open spec fn edge_category(stations: Seq<Station>, sel: usize, edge: EdgeType) -> Set<usize> {
    match edge {
        EdgeType::SameLine(_) => stations[sel as int].cur_line_stations@,
        EdgeType::OtherLine(_) => stations[sel as int].other_line_stations@,
    }
}

/// The candidates that remain when `sel` was guessed, was wrong, and the answer was `edge`.
pub open spec fn child_candidates(stations: Seq<Station>, valid: Set<usize>, sel: usize, edge: EdgeType) -> Set<usize> {
    Set::new(
        |v: usize|
            v != sel && in_category(valid, edge_category(stations, sel, edge), v) && v
                < stations[sel as int].dist_to_stations@.len() && stations[sel as int].dist_to_stations@[v as int]
                == edge_distance(edge),
    )
}

/// The answer `edge` to the guess `sel` leaves at least one candidate.
pub open spec fn leaves_candidates(stations: Seq<Station>, valid: Set<usize>, sel: usize, edge: EdgeType) -> bool {
    exists|v: usize| #[trigger] child_candidates(stations, valid, sel, edge).contains(v)
}

/// The order of answers in a node: every same-line answer before every other-line answer,
/// and by increasing distance within each.
pub open spec fn edge_precedes(a: EdgeType, b: EdgeType) -> bool {
    match (a, b) {
        (EdgeType::SameLine(x), EdgeType::SameLine(y)) => x < y,
        (EdgeType::SameLine(_), EdgeType::OtherLine(_)) => true,
        (EdgeType::OtherLine(_), EdgeType::SameLine(_)) => false,
        (EdgeType::OtherLine(x), EdgeType::OtherLine(y)) => x < y,
    }
}

/// The children of a node that guesses `sel` among `valid`, in answer order: each answer
/// leaves at least one candidate, and its subtree is the tree for those candidates.
pub open spec fn children_sound<F: Fn(&EntropyInput) -> u32>(
    children: Seq<(EdgeType, DecisionTreeNode)>,
    stations: Seq<Station>,
    valid: Set<usize>,
    sel: usize,
    score: F,
) -> bool
    decreases children,
{
    &&& forall|i: int, j: int|
        0 <= i < j < children.len() ==> edge_precedes(#[trigger] children[i].0, #[trigger] children[j].0)
    &&& forall|i: int|
        0 <= i < children.len() ==> #[trigger] leaves_candidates(stations, valid, sel, children[i].0)
    &&& forall|i: int|
        0 <= i < children.len() ==> is_tree_for(
            #[trigger] children[i].1,
            stations,
            child_candidates(stations, valid, sel, children[i].0),
            score,
        )
}

/// Every answer that leaves a candidate has a child.
pub open spec fn children_complete(
    children: Seq<(EdgeType, DecisionTreeNode)>,
    stations: Seq<Station>,
    valid: Set<usize>,
    sel: usize,
) -> bool {
    forall|edge: EdgeType, v: usize|
        #[trigger] child_candidates(stations, valid, sel, edge).contains(v) ==> exists|i: int|
            0 <= i < children.len() && #[trigger] children[i].0 == edge
}

/// `node` is a decision tree for the candidates `valid`: it guesses the best-scored
/// candidate, and has exactly one child per answer that leaves candidates, each the tree
/// for the candidates that answer leaves.
pub open spec fn is_tree_for<F: Fn(&EntropyInput) -> u32>(
    node: DecisionTreeNode,
    stations: Seq<Station>,
    valid: Set<usize>,
    score: F,
) -> bool
    decreases node,
{
    &&& exists|scores: Seq<u32>| #[trigger] is_best_pick(score, stations, valid, scores, node.spec_station())
    &&& node.spec_name() == stations[node.spec_station() as int].name@
    &&& children_complete(node.spec_children(), stations, valid, node.spec_station())
    &&& children_sound(node.spec_children(), stations, valid, node.spec_station(), score)
}

/// How many of the station numbers below `n` are candidates.
pub open spec fn live_count(valid: Set<usize>, n: nat) -> nat
    decreases n,
{
    if n == 0 {
        0
    } else {
        live_count(valid, (n - 1) as nat) + if valid.contains((n - 1) as usize) {
            1nat
        } else {
            0nat
        }
    }
}

proof fn lemma_live_count_shrinks(sub: Set<usize>, sup: Set<usize>, x: usize, n: nat)
    requires
        n <= usize::MAX + 1,
        forall|v: usize| #[trigger] sub.contains(v) ==> sup.contains(v),
        sup.contains(x),
        !sub.contains(x),
        x < n,
    ensures
        live_count(sub, n) < live_count(sup, n),
    decreases n,
{
    if x < n - 1 {
        lemma_live_count_shrinks(sub, sup, x, (n - 1) as nat);
    } else {
        lemma_live_count_monotone(sub, sup, (n - 1) as nat);
    }
}

proof fn lemma_live_count_monotone(sub: Set<usize>, sup: Set<usize>, n: nat)
    requires
        n <= usize::MAX + 1,
        forall|v: usize| #[trigger] sub.contains(v) ==> sup.contains(v),
    ensures
        live_count(sub, n) <= live_count(sup, n),
    decreases n,
{
    if n > 0 {
        lemma_live_count_monotone(sub, sup, (n - 1) as nat);
    }
}

/// Builds the subtree of every distance group of one category of the guess `sel`, and
/// appends those that exist to `children`, by increasing distance.
fn generate_category_children<F: Fn(&EntropyInput) -> u32>(
    stations: &Vec<Station>,
    valid_stations: &HashSet<usize>,
    selected_station: usize,
    children: &mut Vec<(EdgeType, DecisionTreeNode)>,
    dist_to_name: Vec<(u32, Vec<usize>)>,
    relation: LineRelation,
    score: &F,
)
    requires
        network_ok(stations@, valid_stations@),
        score_callable(*score),
        selected_station < stations.len(),
        valid_stations@.contains(selected_station),
        is_distance_grouping(
            valid_stations@,
            edge_category(stations@, selected_station, relation.spec_edge(0)),
            stations@[selected_station as int].dist_to_stations@,
            group_views(dist_to_name@),
        ),
    ensures
        final(children)@.len() >= old(children)@.len(),
        final(children)@.subrange(0, old(children)@.len() as int) == old(children)@,
        forall|i: int|
            old(children)@.len() <= i < final(children)@.len() ==> #[trigger] final(children)@[i].0 == relation.spec_edge(
                edge_distance(final(children)@[i].0),
            ),
        children_sound(
            final(children)@.subrange(old(children)@.len() as int, final(children)@.len() as int),
            stations@,
            valid_stations@,
            selected_station,
            *score,
        ),
        forall|d: u32, v: usize|
            #[trigger] child_candidates(stations@, valid_stations@, selected_station, relation.spec_edge(d)).contains(v)
                ==> exists|i: int|
                old(children)@.len() <= i < final(children)@.len() && #[trigger] final(children)@[i].0
                    == relation.spec_edge(d),
    decreases live_count(valid_stations@, stations.len() as nat), 0nat,
{
    let ghost old_children: Seq<(EdgeType, DecisionTreeNode)> = Seq::empty();
    let mut added: Vec<(EdgeType, DecisionTreeNode)> = Vec::new();
    let ghost valid = valid_stations@;
    let ghost sel = selected_station;
    let ghost category = edge_category(stations@, sel, relation.spec_edge(0));
    let ghost dist = stations@[sel as int].dist_to_stations@;
    let mut k: usize = 0;
    while k < dist_to_name.len()
        invariant
            valid == valid_stations@,
            sel == selected_station,
            category == edge_category(stations@, sel, relation.spec_edge(0)),
            dist == stations@[sel as int].dist_to_stations@,
            network_ok(stations@, valid),
            score_callable(*score),
            sel < stations.len(),
            valid.contains(sel),
            is_distance_grouping(valid, category, dist, group_views(dist_to_name@)),
            old_children.len() == 0,
            k <= dist_to_name.len(),
            added@.len() >= old_children.len(),
            added@.subrange(0, old_children.len() as int) == old_children,
            forall|i: int|
                old_children.len() <= i < added@.len() ==> #[trigger] added@[i].0 == relation.spec_edge(
                    edge_distance(added@[i].0),
                ),
            forall|i: int, j: int|
                old_children.len() <= i < added@.len() && k <= j < dist_to_name.len() ==> edge_distance(
                    #[trigger] added@[i].0,
                ) < #[trigger] dist_to_name@[j].0,
            children_sound(added@, stations@, valid, sel, *score),
            forall|j: int, v: usize|
                0 <= j < k && #[trigger] child_candidates(stations@, valid, sel, relation.spec_edge(dist_to_name@[j].0)).contains(v)
                    ==> exists|i: int|
                    old_children.len() <= i < added@.len() && #[trigger] added@[i].0 == relation.spec_edge(
                        dist_to_name@[j].0,
                    ),
        decreases dist_to_name.len() - k,
    {
        let d = dist_to_name[k].0;
        let names = &dist_to_name[k].1;
        let mut next_valid: HashSet<usize> = HashSet::new();
        let mut j: usize = 0;
        while j < names.len()
            invariant
                sel == selected_station,
                j <= names.len(),
                forall|v: usize| #[trigger] next_valid@.contains(v) <==> (names@.subrange(0, j as int).contains(v) && v != sel),
            decreases names.len() - j,
        {
            let ghost prev = next_valid@;
            if names[j] != selected_station {
                next_valid.insert(names[j]);
            }
            proof {
                if names@[j as int] != sel {
                    assert(next_valid@ == prev.insert(names@[j as int]));
                } else {
                    assert(next_valid@ == prev);
                }
                assert forall|v: usize| #[trigger] next_valid@.contains(v) <==> (names@.subrange(0, j + 1).contains(v)
                    && v != sel) by {
                    if names@.subrange(0, j + 1).contains(v) {
                        let a = choose|a: int| 0 <= a < j + 1 && #[trigger] names@.subrange(0, j + 1)[a] == v;
                        if a < j {
                            assert(names@.subrange(0, j as int)[a] == v);
                        }
                    }
                    if names@.subrange(0, j as int).contains(v) {
                        let a = choose|a: int| 0 <= a < j && #[trigger] names@.subrange(0, j as int)[a] == v;
                        assert(names@.subrange(0, j + 1)[a] == v);
                    }
                    if v == names@[j as int] {
                        assert(names@.subrange(0, j + 1)[j as int] == v);
                    }
                }
            }
            j += 1;
        }
        let ghost edge = relation.spec_edge(d);
        proof {
            assert(names@.subrange(0, names@.len() as int) == names@);
            assert(edge_category(stations@, sel, edge) == category);
            assert(next_valid@ =~= child_candidates(stations@, valid, sel, edge)) by {
                assert forall|v: usize| next_valid@.contains(v) <==> child_candidates(stations@, valid, sel, edge).contains(v) by {
                    if next_valid@.contains(v) {
                        assert(group_views(dist_to_name@)[k as int].1.contains(v));
                    }
                    if child_candidates(stations@, valid, sel, edge).contains(v) {
                        assert(group_views(dist_to_name@)[k as int].1.contains(v));
                    }
                }
            }
            assert forall|v: usize| #[trigger] next_valid@.contains(v) implies valid.contains(v) by {
                assert(group_views(dist_to_name@)[k as int].1.contains(v));
            }
            assert(network_ok(stations@, next_valid@));
            lemma_live_count_shrinks(next_valid@, valid, sel, stations.len() as nat);
        }
        let child = build(stations, &next_valid, score);
        let ghost before = added@;
        match child {
            Some(node) => {
                added.push((relation.edge(d), node));
            },
            None => {},
        }
        proof {
            assert(added@.subrange(0, old_children.len() as int) == old_children) by {
                assert(before.subrange(0, old_children.len() as int) == old_children);
            }
            assert forall|i: int| 0 <= i < before.len() implies #[trigger] added@[i] == before[i] by {}
            if added@.len() > before.len() {
                let last = added@[before.len() as int];
                assert(last.0 == edge);
                assert(leaves_candidates(stations@, valid, sel, edge)) by {
                    assert(child_candidates(stations@, valid, sel, edge).contains(last.1.station));
                }
                assert forall|i: int, j: int|
                    0 <= i < j < added@.len() implies edge_precedes(#[trigger] added@[i].0, #[trigger] added@[j].0) by {
                    if j == before.len() && i >= old_children.len() {
                        assert(edge_distance(before[i].0) < dist_to_name@[k as int].0);
                    }
                    if j == before.len() && i < old_children.len() {
                        assert(old_children[i].0 is SameLine);
                    }
                    if j < before.len() {
                        assert(edge_precedes(before[i].0, before[j].0));
                    }
                }
                assert forall|i: int| 0 <= i < added@.len() implies #[trigger] leaves_candidates(
                    stations@,
                    valid,
                    sel,
                    added@[i].0,
                ) by {
                    if i < before.len() {
                        assert(leaves_candidates(stations@, valid, sel, before[i].0));
                    }
                }
                assert forall|i: int| 0 <= i < added@.len() implies is_tree_for(
                    #[trigger] added@[i].1,
                    stations@,
                    child_candidates(stations@, valid, sel, added@[i].0),
                    *score,
                ) by {
                    if i < before.len() {
                        assert(is_tree_for(before[i].1, stations@, child_candidates(stations@, valid, sel, before[i].0), *score));
                    }
                }
            } else {
                assert(added@ == before);
                assert forall|v: usize| !child_candidates(stations@, valid, sel, edge).contains(v) by {
                    if child_candidates(stations@, valid, sel, edge).contains(v) {
                        assert(valid.contains(v));
                    }
                }
            }
            assert forall|jj: int, v: usize|
                0 <= jj < k + 1 && #[trigger] child_candidates(stations@, valid, sel, relation.spec_edge(dist_to_name@[jj].0)).contains(v)
                implies exists|i: int|
                    old_children.len() <= i < added@.len() && #[trigger] added@[i].0 == relation.spec_edge(
                        dist_to_name@[jj].0,
                    ) by {
                if jj < k {
                    let i = choose|i: int|
                        old_children.len() <= i < before.len() && #[trigger] before[i].0 == relation.spec_edge(
                            dist_to_name@[jj].0,
                        );
                    assert(added@[i] == before[i]);
                } else {
                    assert(added@[before.len() as int].0 == edge);
                }
            }
        }
        proof {
            assert forall|j: int| k < j < dist_to_name.len() implies dist_to_name@[k as int].0 < #[trigger] dist_to_name@[j].0 by {
                assert(group_views(dist_to_name@)[k as int].0 < group_views(dist_to_name@)[j].0);
            }
        }
        k += 1;
    }
    proof {
        assert forall|d: u32, v: usize|
            #[trigger] child_candidates(stations@, valid, sel, relation.spec_edge(d)).contains(v)
            implies exists|i: int|
                old_children.len() <= i < added@.len() && #[trigger] added@[i].0 == relation.spec_edge(d) by {
            assert(edge_category(stations@, sel, relation.spec_edge(d)) == category);
            assert(in_category(valid, category, v));
            let j = choose|j: int| 0 <= j < dist_to_name@.len() && #[trigger] dist_to_name@[j].0 == dist[v as int];
            assert(child_candidates(stations@, valid, sel, relation.spec_edge(dist_to_name@[j].0)).contains(v));
        }
    }
    let ghost old_all = children@;
    let ghost appended = added@;
    proof {
        assert(appended.subrange(0, 0) =~= old_children);
    }
    children.append(&mut added);
    proof {
        assert(children@ == old_all + appended);
        assert(children@.subrange(0, old_all.len() as int) =~= old_all);
        assert(children@.subrange(old_all.len() as int, children@.len() as int) =~= appended);
        assert forall|i: int|
            old_all.len() <= i < children@.len() implies #[trigger] children@[i].0 == relation.spec_edge(
                edge_distance(children@[i].0),
            ) by {
            assert(children@[i] == appended[i - old_all.len()]);
        }
        assert forall|d: u32, v: usize|
            #[trigger] child_candidates(stations@, valid, sel, relation.spec_edge(d)).contains(v) implies exists|i: int|
                old_all.len() <= i < children@.len() && #[trigger] children@[i].0 == relation.spec_edge(d) by {
            let j = choose|j: int| 0 <= j < appended.len() && #[trigger] appended[j].0 == relation.spec_edge(d);
            assert(children@[old_all.len() + j] == appended[j]);
        }
    }
}

/// The decision tree for the candidates `valid_stations`, `None` when there is none.
fn build<F: Fn(&EntropyInput) -> u32>(stations: &Vec<Station>, valid_stations: &HashSet<usize>, score: &F) -> (node:
    Option<DecisionTreeNode>)
    requires
        network_ok(stations@, valid_stations@),
        score_callable(*score),
    ensures
        match node {
            None => forall|p: usize| p < stations.len() ==> !#[trigger] valid_stations@.contains(p),
            Some(node) => is_tree_for(node, stations@, valid_stations@, *score),
        },
    decreases live_count(valid_stations@, stations.len() as nat), 1nat,
{
    let selected = match one_step_entropy(stations, valid_stations, score) {
        None => {
            return None;
        },
        Some((selected, _)) => selected,
    };
    let station = &stations[selected];
    let mut children: Vec<(EdgeType, DecisionTreeNode)> = Vec::new();
    proof {
        assert forall|v: usize| #[trigger] in_category(valid_stations@, station.cur_line_stations@, v) implies v
            < station.dist_to_stations.len() by {
            assert(stations@[selected as int].cur_line_stations@.contains(v));
        }
        assert forall|v: usize| #[trigger] in_category(valid_stations@, station.other_line_stations@, v) implies v
            < station.dist_to_stations.len() by {
            assert(stations@[selected as int].other_line_stations@.contains(v));
        }
    }
    let same_line = map_distances_to_stations(valid_stations, &station.cur_line_stations, &station.dist_to_stations);
    generate_category_children(
        stations,
        valid_stations,
        selected,
        &mut children,
        same_line,
        LineRelation::SharesAtLeastOneLine,
        score,
    );
    let other_line = map_distances_to_stations(valid_stations, &station.other_line_stations, &station.dist_to_stations);
    let ghost same_children = children@;
    generate_category_children(
        stations,
        valid_stations,
        selected,
        &mut children,
        other_line,
        LineRelation::SharesNoLines,
        score,
    );
    proof {
        let all = children@;
        let n1 = same_children.len() as int;
        assert(same_children.subrange(0, 0) =~= Seq::<(EdgeType, DecisionTreeNode)>::empty());
        assert(same_children.subrange(0, n1) =~= same_children);
        let other = all.subrange(n1, all.len() as int);
        assert(children_sound(same_children, stations@, valid_stations@, selected, *score));
        assert(children_sound(other, stations@, valid_stations@, selected, *score));
        assert forall|i: int| 0 <= i < n1 implies #[trigger] all[i] == same_children[i] by {
            assert(all.subrange(0, n1)[i] == same_children[i]);
        }
        assert forall|i: int| n1 <= i < all.len() implies #[trigger] all[i] == other[i - n1] by {}
        assert forall|i: int| 0 <= i < n1 implies #[trigger] all[i].0 is SameLine by {
            assert(same_children[i].0 == LineRelation::SharesAtLeastOneLine.spec_edge(edge_distance(same_children[i].0)));
        }
        assert forall|i: int| n1 <= i < all.len() implies #[trigger] all[i].0 is OtherLine by {
            assert(all[i].0 == LineRelation::SharesNoLines.spec_edge(edge_distance(all[i].0)));
        }
        assert forall|i: int, j: int|
            0 <= i < j < all.len() implies edge_precedes(#[trigger] all[i].0, #[trigger] all[j].0) by {
            if j < n1 {
                assert(edge_precedes(same_children[i].0, same_children[j].0));
            } else if i >= n1 {
                assert(edge_precedes(other[i - n1].0, other[j - n1].0));
            }
        }
        assert forall|i: int| 0 <= i < all.len() implies #[trigger] leaves_candidates(
            stations@,
            valid_stations@,
            selected,
            all[i].0,
        ) by {
            if i < n1 {
                assert(leaves_candidates(stations@, valid_stations@, selected, same_children[i].0));
            } else {
                assert(leaves_candidates(stations@, valid_stations@, selected, other[i - n1].0));
            }
        }
        assert forall|i: int| 0 <= i < all.len() implies is_tree_for(
            #[trigger] all[i].1,
            stations@,
            child_candidates(stations@, valid_stations@, selected, all[i].0),
            *score,
        ) by {
            if i < n1 {
                assert(is_tree_for(
                    same_children[i].1,
                    stations@,
                    child_candidates(stations@, valid_stations@, selected, same_children[i].0),
                    *score,
                ));
            } else {
                assert(is_tree_for(
                    other[i - n1].1,
                    stations@,
                    child_candidates(stations@, valid_stations@, selected, other[i - n1].0),
                    *score,
                ));
            }
        }
        assert(children_sound(all, stations@, valid_stations@, selected, *score));
        assert(children_ordered(all));
    }
    let node = DecisionTreeNode { station: selected, name: station.name.clone(), children };
    proof {
        assert forall|edge: EdgeType, v: usize|
            #[trigger] child_candidates(stations@, valid_stations@, selected, edge).contains(v) implies exists|i: int|
                0 <= i < node.children@.len() && #[trigger] node.children@[i].0 == edge by {
            match edge {
                EdgeType::SameLine(d) => {
                    assert(child_candidates(stations@, valid_stations@, selected, LineRelation::SharesAtLeastOneLine.spec_edge(d)).contains(v));
                    let i = choose|i: int| 0 <= i < same_children.len() && #[trigger] same_children[i].0
                        == LineRelation::SharesAtLeastOneLine.spec_edge(d);
                    assert(node.children@.subrange(0, same_children.len() as int)[i] == same_children[i]);
                    assert(node.children@[i] == same_children[i]);
                },
                EdgeType::OtherLine(d) => {
                    assert(child_candidates(stations@, valid_stations@, selected, LineRelation::SharesNoLines.spec_edge(d)).contains(v));
                    let i = choose|i: int| same_children.len() <= i < node.children@.len() && #[trigger] node.children@[i].0
                        == LineRelation::SharesNoLines.spec_edge(d);
                },
            }
        }
    }
    Some(node)
}

impl DecisionTreeNode {
    /// The decision tree for the candidates `valid_stations`, or `None` when no station
    /// is a candidate. `score` rates a guess from its [`EntropyInput`]; at every node the
    /// first candidate with the greatest score is guessed.
    pub fn new<F: Fn(&EntropyInput) -> u32>(
        stations: Vec<Station>,
        valid_stations: &HashSet<usize>,
        score: &F,
    ) -> (node: Option<DecisionTreeNode>)
        requires
            network_ok(stations@, valid_stations@),
            score_callable(*score),
        ensures
            match node {
                None => forall|p: usize| p < stations.len() ==> !#[trigger] valid_stations@.contains(p),
                Some(node) => is_tree_for(node, stations@, valid_stations@, *score),
            },
    {
        build(&stations, valid_stations, score)
    }

    /// Whether no answer leads further: the node's station is the only candidate left.
    pub fn is_leaf(&self) -> (leaf: bool)
        ensures
            leaf == (self.spec_children().len() == 0),
    {
        self.children.len() == 0
    }

    /// The subtree for the answer `edge`, if that answer leaves candidates.
    pub fn get_child(&self, edge: EdgeType) -> (child: Option<&DecisionTreeNode>)
        ensures
            match child {
                Some(child) => exists|i: int|
                    0 <= i < self.spec_children().len() && #[trigger] self.spec_children()[i].0 == edge
                        && self.spec_children()[i].1 == *child,
                None => forall|i: int|
                    0 <= i < self.spec_children().len() ==> #[trigger] self.spec_children()[i].0 != edge,
            },
    {
        let mut i: usize = 0;
        while i < self.children.len()
            invariant
                i <= self.children@.len(),
                forall|j: int| 0 <= j < i ==> #[trigger] self.children@[j].0 != edge,
            decreases self.children.len() - i,
        {
            if self.children[i].0 == edge {
                return Some(&self.children[i].1);
            }
            i += 1;
        }
        None
    }
}

/// The height of a tree: the most answers on a path from `node` to a leaf.
pub open spec fn height(node: DecisionTreeNode) -> nat
    decreases node,
{
    children_height(node.spec_children())
}

/// One more than the greatest height among `children`; 0 when there are none.
pub open spec fn children_height(children: Seq<(EdgeType, DecisionTreeNode)>) -> nat
    decreases children,
{
    if children.len() == 0 {
        0
    } else {
        let rest = children_height(children.drop_last());
        let last = height(children.last().1) + 1;
        if rest < last {
            last
        } else {
            rest
        }
    }
}

/// A distance the player may report after a wrong guess: a station other than the hidden
/// one is at least one hop away from it.
pub fn is_valid_distance(distance: u32) -> (valid: bool)
    ensures
        valid == (distance >= 1),
{
    distance >= 1
}

/// One step of a game played along the tree.
pub enum WalkStep<'a> {
    /// The guess was right.
    Found,
    /// The subtree to continue with.
    Next(&'a DecisionTreeNode),
    /// No subtree for the answer given: the answer cannot come from any candidate.
    NoMatchingBranch,
}

impl DecisionTreeNode {
    /// Where a game goes after guessing this node's station and hearing `feedback`:
    /// `None` when the guess was right, else the relation and the distance reported.
    pub fn walk_step(&self, feedback: Option<(LineRelation, u32)>) -> (step: WalkStep)
        ensures
            match feedback {
                None => step is Found,
                Some((relation, distance)) => match step {
                    WalkStep::Next(child) => exists|i: int|
                        0 <= i < self.spec_children().len() && #[trigger] self.spec_children()[i].0
                            == relation.spec_edge(distance) && self.spec_children()[i].1 == *child,
                    WalkStep::NoMatchingBranch => forall|i: int|
                        0 <= i < self.spec_children().len() ==> #[trigger] self.spec_children()[i].0 != relation.spec_edge(
                            distance,
                        ),
                    WalkStep::Found => false,
                },
            },
    {
        match feedback {
            None => WalkStep::Found,
            Some((relation, distance)) => match self.get_child(relation.edge(distance)) {
                Some(child) => WalkStep::Next(child),
                None => WalkStep::NoMatchingBranch,
            },
        }
    }
}

/// The decision tree of a whole game.
#[derive(Debug)]
pub struct DecisionTree {
    root: DecisionTreeNode,
}

impl View for DecisionTree {
    type V = DecisionTreeNode;

    /// The root node.
    closed spec fn view(&self) -> DecisionTreeNode {
        self.root
    }
}

impl DecisionTree {
    /// A tree is never taller than the number of station numbers.
    #[verifier::type_invariant]
    spec fn height_fits(self) -> bool {
        height(self.root) < usize::MAX
    }

    /// The decision tree for the candidates `valid_stations`, of which at least one must be
    /// a station.
    pub fn new<F: Fn(&EntropyInput) -> u32>(
        stations: Vec<Station>,
        valid_stations: &HashSet<usize>,
        score: &F,
    ) -> (tree: DecisionTree)
        requires
            network_ok(stations@, valid_stations@),
            score_callable(*score),
            exists|p: usize| p < stations.len() && #[trigger] valid_stations@.contains(p),
        ensures
            is_tree_for(tree@, stations@, valid_stations@, *score),
    {
        let ghost p = choose|p: usize| p < stations.len() && #[trigger] valid_stations@.contains(p);
        match build(&stations, valid_stations, score) {
            Some(root) => {
                proof {
                    lemma_height_below_live_count(root, stations@, valid_stations@, *score);
                    lemma_live_count_bounded(valid_stations@, stations.len() as nat);
                }
                DecisionTree { root }
            },
            None => {
                proof {
                    assert(p < stations.len());
                }
                unreached()
            },
        }
    }

    /// The printout of the tree, as its lines: the root's name, then each child's subtree,
    /// indented by one `"| "` per level, its line naming the answer that leads to it.
    pub fn print(&self) -> (lines: Vec<String>)
        ensures
            texts(lines@) == render(self@, 0, None),
    {
        proof {
            use_type_invariant(self);
        }
        let mut lines: Vec<String> = Vec::new();
        self.root.print_recursive(0, None, &mut lines);
        proof {
            assert(texts(lines@) =~= Seq::<Seq<char>>::empty() + render(self@, 0, None));
        }
        lines
    }

    /// The root of the tree: the first station to guess.
    pub fn root(&self) -> (root: &DecisionTreeNode)
        ensures
            *root == self@,
    {
        &self.root
    }
}

proof fn lemma_live_count_bounded(valid: Set<usize>, n: nat)
    ensures
        live_count(valid, n) <= n,
    decreases n,
{
    if n > 0 {
        lemma_live_count_bounded(valid, (n - 1) as nat);
    }
}

/// A game along a tree for some candidates takes fewer answers than there are candidates:
/// the tree is less tall than their number.
pub proof fn lemma_height_below_live_count<F: Fn(&EntropyInput) -> u32>(
    node: DecisionTreeNode,
    stations: Seq<Station>,
    valid: Set<usize>,
    score: F,
)
    requires
        is_tree_for(node, stations, valid, score),
        network_ok(stations, valid),
        stations.len() <= usize::MAX,
    ensures
        height(node) < live_count(valid, stations.len()),
    decreases node,
{
    let sel = node.station;
    let scores = choose|scores: Seq<u32>| #[trigger] is_best_pick(score, stations, valid, scores, sel);
    lemma_children_height_below(node.children@, stations, valid, sel, score, node.children@.len() as int);
    assert(node.children@.subrange(0, node.children@.len() as int) == node.children@);
    if node.children@.len() == 0 {
        lemma_live_count_shrinks(Set::empty(), valid, sel, stations.len());
    }
}

proof fn lemma_children_height_below<F: Fn(&EntropyInput) -> u32>(
    children: Seq<(EdgeType, DecisionTreeNode)>,
    stations: Seq<Station>,
    valid: Set<usize>,
    sel: usize,
    score: F,
    k: int,
)
    requires
        children_sound(children, stations, valid, sel, score),
        network_ok(stations, valid),
        stations.len() <= usize::MAX,
        valid.contains(sel),
        sel < stations.len(),
        0 <= k <= children.len(),
    ensures
        children_height(children.subrange(0, k)) < live_count(valid, stations.len()),
    decreases children, k,
{
    let prefix = children.subrange(0, k);
    if k > 0 {
        lemma_children_height_below(children, stations, valid, sel, score, k - 1);
        assert(prefix.drop_last() == children.subrange(0, k - 1));
        let child_valid = child_candidates(stations, valid, sel, children[k - 1].0);
        assert(is_tree_for(children[k - 1].1, stations, child_valid, score));
        assert forall|v: usize| #[trigger] child_valid.contains(v) implies valid.contains(v) by {}
        assert(network_ok(stations, child_valid));
        lemma_height_below_live_count(children[k - 1].1, stations, child_valid, score);
        lemma_live_count_shrinks(child_valid, valid, sel, stations.len());
    } else {
        lemma_live_count_shrinks(Set::empty(), valid, sel, stations.len());
    }
}

/// The answer the player receives on guessing `guess` when the hidden station is `hidden`:
/// whether they share a line, and their hop distance.
pub open spec fn answer(guess: Station, hidden: usize) -> EdgeType {
    let d = guess.dist_to_stations@[hidden as int];
    if guess.cur_line_stations@.contains(hidden) {
        EdgeType::SameLine(d)
    } else {
        EdgeType::OtherLine(d)
    }
}

/// Every candidate can answer about `hidden`: `hidden` lies in exactly one of its two
/// categories (shares a line with it, or shares none).
pub open spec fn answers_known(stations: Seq<Station>, valid: Set<usize>, hidden: usize) -> bool {
    forall|p: usize|
        #[trigger] valid.contains(p) ==> stations[p as int].cur_line_stations@.contains(hidden)
            != stations[p as int].other_line_stations@.contains(hidden)
}

/// After a wrong guess, the answer that the hidden station gives leads to the one child
/// whose candidates hold the hidden station; no other child holds it.
pub proof fn lemma_answer_leads_to_hidden<F: Fn(&EntropyInput) -> u32>(
    node: DecisionTreeNode,
    stations: Seq<Station>,
    valid: Set<usize>,
    score: F,
    hidden: usize,
)
    requires
        is_tree_for(node, stations, valid, score),
        network_ok(stations, valid),
        valid.contains(hidden),
        hidden != node.spec_station(),
        answers_known(stations, valid, hidden),
    ensures
        exists|i: int|
            0 <= i < node.spec_children().len() && #[trigger] node.spec_children()[i].0 == answer(
                stations[node.spec_station() as int],
                hidden,
            ) && child_candidates(stations, valid, node.spec_station(), node.spec_children()[i].0).contains(hidden),
        forall|i: int|
            0 <= i < node.spec_children().len() && #[trigger] child_candidates(
                stations,
                valid,
                node.spec_station(),
                node.spec_children()[i].0,
            ).contains(hidden) ==> node.spec_children()[i].0 == answer(stations[node.spec_station() as int], hidden),
{
    let sel = node.station;
    let scores = choose|scores: Seq<u32>| #[trigger] is_best_pick(score, stations, valid, scores, sel);
    assert(valid.contains(sel));
    let e = answer(stations[sel as int], hidden);
    assert(stations[sel as int].cur_line_stations@.contains(hidden) || stations[sel as int].other_line_stations@.contains(hidden));
    assert(child_candidates(stations, valid, sel, e).contains(hidden));
}

/// Every node of the subtree `node` guesses a station of `candidates`.
pub open spec fn guesses_within(node: DecisionTreeNode, candidates: Set<usize>) -> bool
    decreases node,
{
    &&& candidates.contains(node.spec_station())
    &&& children_guess_within(node.spec_children(), candidates)
}

/// Every node of the subtrees `children` guesses a station of `candidates`.
pub open spec fn children_guess_within(children: Seq<(EdgeType, DecisionTreeNode)>, candidates: Set<usize>) -> bool
    decreases children,
{
    forall|i: int| 0 <= i < children.len() ==> guesses_within(#[trigger] children[i].1, candidates)
}

/// A tree for some candidates only ever guesses those candidates, and below the answer
/// `edge` to a guess only the candidates that answer leaves: never the guessed station
/// again, and only stations of the answer's category at the answer's distance.
pub proof fn lemma_guesses_stay_within_answers<F: Fn(&EntropyInput) -> u32>(
    node: DecisionTreeNode,
    stations: Seq<Station>,
    valid: Set<usize>,
    score: F,
)
    requires
        is_tree_for(node, stations, valid, score),
    ensures
        guesses_within(node, valid),
        forall|i: int|
            0 <= i < node.spec_children().len() ==> guesses_within(
                #[trigger] node.spec_children()[i].1,
                child_candidates(stations, valid, node.spec_station(), node.spec_children()[i].0),
            ),
    decreases node,
{
    let sel = node.station;
    let scores = choose|scores: Seq<u32>| #[trigger] is_best_pick(score, stations, valid, scores, sel);
    assert forall|i: int| 0 <= i < node.children@.len() implies guesses_within(
        #[trigger] node.children@[i].1,
        child_candidates(stations, valid, sel, node.children@[i].0),
    ) && guesses_within(node.children@[i].1, valid) by {
        let child_valid = child_candidates(stations, valid, sel, node.children@[i].0);
        assert(is_tree_for(node.children@[i].1, stations, child_valid, score));
        lemma_guesses_stay_within_answers(node.children@[i].1, stations, child_valid, score);
        lemma_guesses_within_larger(node.children@[i].1, child_valid, valid);
    }
}

proof fn lemma_guesses_within_larger(node: DecisionTreeNode, small: Set<usize>, large: Set<usize>)
    requires
        guesses_within(node, small),
        forall|v: usize| #[trigger] small.contains(v) ==> large.contains(v),
    ensures
        guesses_within(node, large),
    decreases node,
{
    assert forall|i: int| 0 <= i < node.children@.len() implies guesses_within(#[trigger] node.children@[i].1, large) by {
        lemma_guesses_within_larger(node.children@[i].1, small, large);
    }
}

/// The guess at a node depends only on the data of the candidate stations: two station
/// lists that agree on every candidate give the same best picks.
pub proof fn lemma_choice_ignores_other_stations<F: Fn(&EntropyInput) -> u32>(
    score: F,
    stations: Seq<Station>,
    other: Seq<Station>,
    valid: Set<usize>,
    scores: Seq<u32>,
    sel: usize,
)
    requires
        stations.len() == other.len(),
        forall|p: usize| p < stations.len() && #[trigger] valid.contains(p) ==> stations[p as int] == other[p as int],
    ensures
        is_best_pick(score, stations, valid, scores, sel) <==> is_best_pick(score, other, valid, scores, sel),
{
    assert forall|p: usize, r: u32|
        #![trigger is_score_of(score, stations, valid, p, r)]
        #![trigger is_score_of(score, other, valid, p, r)]
        p < stations.len() && valid.contains(p) implies is_score_of(score, stations, valid, p, r) == is_score_of(
            score,
            other,
            valid,
            p,
            r,
        ) by {
        assert(stations[p as int] == other[p as int]);
        assert forall|input: EntropyInput| describes(input, stations, valid, p) == #[trigger] describes(
            input,
            other,
            valid,
            p,
        ) by {}
    }
}

/// `other` with the candidates `other_valid` is `stations` with the candidates `valid`
/// renumbered by `ren`, the order of the candidates kept: for instance with the stations
/// that are no candidates taken out. Every candidate station keeps its name, its categories
/// and its distances to the candidates, under their new numbers.
pub open spec fn renumbered(
    stations: Seq<Station>,
    valid: Set<usize>,
    other: Seq<Station>,
    other_valid: Set<usize>,
    ren: spec_fn(usize) -> usize,
) -> bool {
    &&& forall|a: usize, b: usize|
        valid.contains(a) && valid.contains(b) && a < b ==> #[trigger] ren(a) < #[trigger] ren(b)
    &&& other_valid == valid.map(ren)
    &&& forall|p: usize| #[trigger] valid.contains(p) ==> (p < stations.len() <==> ren(p) < other.len())
    &&& forall|p: usize|
        #[trigger] valid.contains(p) && p < stations.len() ==> other[ren(p) as int].name@ == stations[p as int].name@
    &&& forall|p: usize, v: usize|
        #![trigger valid.contains(p), valid.contains(v)]
        valid.contains(p) && p < stations.len() && valid.contains(v) ==> {
            let old_station = stations[p as int];
            let new_station = other[ren(p) as int];
            &&& new_station.cur_line_stations@.contains(ren(v)) == old_station.cur_line_stations@.contains(v)
            &&& new_station.other_line_stations@.contains(ren(v)) == old_station.other_line_stations@.contains(v)
            &&& (ren(v) < new_station.dist_to_stations@.len()) == (v < old_station.dist_to_stations@.len())
            &&& v < old_station.dist_to_stations@.len() ==> new_station.dist_to_stations@[ren(v) as int]
                == old_station.dist_to_stations@[v as int]
        }
}

proof fn lemma_grouping_renumbered(
    valid: Set<usize>,
    category: Set<usize>,
    dist: Seq<u32>,
    other_valid: Set<usize>,
    other_category: Set<usize>,
    other_dist: Seq<u32>,
    ren: spec_fn(usize) -> usize,
    groups: Seq<(u32, Seq<usize>)>,
)
    requires
        is_distance_grouping(valid, category, dist, groups),
        forall|a: usize, b: usize|
            valid.contains(a) && valid.contains(b) && a < b ==> #[trigger] ren(a) < #[trigger] ren(b),
        other_valid == valid.map(ren),
        forall|v: usize|
            #[trigger] valid.contains(v) ==> {
                &&& other_category.contains(ren(v)) == category.contains(v)
                &&& (ren(v) < other_dist.len()) == (v < dist.len())
                &&& v < dist.len() ==> other_dist[ren(v) as int] == dist[v as int]
            },
    ensures
        is_distance_grouping(
            other_valid,
            other_category,
            other_dist,
            groups.map_values(|group: (u32, Seq<usize>)| (group.0, group.1.map_values(ren))),
        ),
{
    let moved = groups.map_values(|group: (u32, Seq<usize>)| (group.0, group.1.map_values(ren)));
    assert forall|k: int| 0 <= k < moved.len() implies #[trigger] moved[k] == (groups[k].0, groups[k].1.map_values(ren)) by {}
    assert forall|k: int, v: usize| 0 <= k < groups.len() && #[trigger] groups[k].1.contains(v) implies valid.contains(v) by {}
    assert forall|k: int, a: int, b: int|
        0 <= k < moved.len() && 0 <= a < b < moved[k].1.len() implies #[trigger] moved[k].1[a] < #[trigger] moved[k].1[b] by {
        assert(groups[k].1.contains(groups[k].1[a]));
        assert(groups[k].1.contains(groups[k].1[b]));
        assert(groups[k].1[a] < groups[k].1[b]);
    }
    assert forall|k: int, x: usize|
        0 <= k < moved.len() implies (#[trigger] moved[k].1.contains(x) <==> (in_category(other_valid, other_category, x)
            && x < other_dist.len() && other_dist[x as int] == moved[k].0)) by {
        if moved[k].1.contains(x) {
            let a = choose|a: int| 0 <= a < moved[k].1.len() && moved[k].1[a] == x;
            let y = groups[k].1[a];
            assert(groups[k].1.contains(y));
            assert(valid.contains(y));
            assert(other_valid.contains(x));
        }
        if in_category(other_valid, other_category, x) && x < other_dist.len() && other_dist[x as int] == moved[k].0 {
            let y = choose|y: usize| valid.contains(y) && x == ren(y);
            assert(valid.contains(y));
            assert(groups[k].1.contains(y));
            let a = choose|a: int| 0 <= a < groups[k].1.len() && groups[k].1[a] == y;
            assert(moved[k].1[a] == x);
        }
    }
    assert forall|x: usize| #[trigger] in_category(other_valid, other_category, x) implies x < other_dist.len() && exists|k: int|
        0 <= k < moved.len() && #[trigger] moved[k].0 == other_dist[x as int] by {
        let y = choose|y: usize| valid.contains(y) && x == ren(y);
        assert(valid.contains(y));
        assert(in_category(valid, category, y));
        let k = choose|k: int| 0 <= k < groups.len() && #[trigger] groups[k].0 == dist[y as int];
        assert(moved[k].0 == other_dist[x as int]);
    }
    assert forall|k: int| 0 <= k < moved.len() implies #[trigger] moved[k].1.len() > 0 by {
        assert(groups[k].1.len() > 0);
    }
    assert forall|i: int, j: int| 0 <= i < j < moved.len() implies #[trigger] moved[i].0 < #[trigger] moved[j].0 by {
        assert(groups[i].0 < groups[j].0);
    }
}

/// Some candidate is a station after a renumbering exactly when some was before, so the
/// guess is `None` in both cases or in neither.
pub proof fn lemma_candidate_stations_survive_renumbering(
    stations: Seq<Station>,
    valid: Set<usize>,
    other: Seq<Station>,
    other_valid: Set<usize>,
    ren: spec_fn(usize) -> usize,
)
    requires
        renumbered(stations, valid, other, other_valid, ren),
    ensures
        (exists|p: usize| p < stations.len() && #[trigger] valid.contains(p)) <==> (exists|q: usize|
            q < other.len() && #[trigger] other_valid.contains(q)),
{
    if exists|p: usize| p < stations.len() && #[trigger] valid.contains(p) {
        let p = choose|p: usize| p < stations.len() && #[trigger] valid.contains(p);
        assert(other_valid.contains(ren(p)));
    }
    if exists|q: usize| q < other.len() && #[trigger] other_valid.contains(q) {
        let q = choose|q: usize| q < other.len() && #[trigger] other_valid.contains(q);
        let p = choose|p: usize| valid.contains(p) && q == ren(p);
        assert(valid.contains(p));
    }
}

/// Taking out the stations that are no candidates, or renumbering the stations in any way
/// that keeps the order of the candidates, never changes the guess: the same candidate
/// (under its new number, with its name) is picked, with the same score.
pub proof fn lemma_choice_survives_renumbering<F: Fn(&EntropyInput) -> u32>(
    score: F,
    stations: Seq<Station>,
    valid: Set<usize>,
    other: Seq<Station>,
    other_valid: Set<usize>,
    ren: spec_fn(usize) -> usize,
    scores: Seq<u32>,
    sel: usize,
)
    requires
        renumbered(stations, valid, other, other_valid, ren),
        valid.finite(),
        is_best_pick(score, stations, valid, scores, sel),
    ensures
        exists|other_scores: Seq<u32>|
            #[trigger] is_best_pick(score, other, other_valid, other_scores, ren(sel)) && other_scores[ren(sel) as int]
                == scores[sel as int],
        other[ren(sel) as int].name@ == stations[sel as int].name@,
{
    assert(vstd::relations::injective_on(ren, valid)) by {
        assert forall|x1: usize, x2: usize|
            valid.contains(x1) && valid.contains(x2) && #[trigger] ren(x1) == #[trigger] ren(x2) implies x1 == x2 by {
            if x1 < x2 {
                assert(ren(x1) < ren(x2));
            } else if x2 < x1 {
                assert(ren(x2) < ren(x1));
            }
        }
    }
    vstd::set_lib::lemma_map_size(valid, other_valid, ren);
    let other_scores = Seq::new(
        other.len(),
        |q: int|
            if exists|p: usize| valid.contains(p) && p < stations.len() && ren(p) as int == q {
                scores[(choose|p: usize| valid.contains(p) && p < stations.len() && ren(p) as int == q) as int]
            } else {
                0
            },
    );
    assert forall|p: usize| p < stations.len() && #[trigger] valid.contains(p) implies other_scores[ren(p) as int]
        == scores[p as int] by {
        assert(ren(p) < other.len());
        let q = ren(p) as int;
        assert(valid.contains(p) && p < stations.len() && ren(p) as int == q);
        let p2 = choose|p2: usize| valid.contains(p2) && p2 < stations.len() && ren(p2) as int == q;
        assert(ren(p2) == ren(p));
    }
    assert forall|p: usize| p < stations.len() && #[trigger] valid.contains(p) implies is_score_of(
        score,
        other,
        other_valid,
        ren(p),
        scores[p as int],
    ) by {
        assert(is_score_of(score, stations, valid, p, scores[p as int]));
        let input = choose|input: EntropyInput|
            describes(input, stations, valid, p) && #[trigger] call_ensures(score, (&input,), scores[p as int]);
        lemma_describes_renumbered(input, stations, valid, other, other_valid, ren, p);
    }
    assert(valid.contains(sel));
    assert forall|q: usize| q < other.len() && #[trigger] other_valid.contains(q) implies is_score_of(
        score,
        other,
        other_valid,
        q,
        other_scores[q as int],
    ) && other_scores[q as int] <= other_scores[ren(sel) as int] && (q < ren(sel) ==> other_scores[q as int]
        < other_scores[ren(sel) as int]) by {
        let p = choose|p: usize| valid.contains(p) && q == ren(p);
        assert(valid.contains(p));
        assert(p < stations.len());
        assert(is_score_of(score, other, other_valid, ren(p), scores[p as int]));
        if q < ren(sel) {
            if p >= sel {
                if p > sel {
                    assert(ren(sel) < ren(p));
                }
            }
        }
    }
    assert(is_best_pick(score, other, other_valid, other_scores, ren(sel)));
}

proof fn lemma_describes_renumbered(
    input: EntropyInput,
    stations: Seq<Station>,
    valid: Set<usize>,
    other: Seq<Station>,
    other_valid: Set<usize>,
    ren: spec_fn(usize) -> usize,
    p: usize,
)
    requires
        renumbered(stations, valid, other, other_valid, ren),
        valid.finite(),
        other_valid.len() == valid.len(),
        valid.contains(p),
        p < stations.len(),
        describes(input, stations, valid, p),
    ensures
        describes(input, other, other_valid, ren(p)),
{
    let old_station = stations[p as int];
    let new_station = other[ren(p) as int];
    assert forall|v: usize| #[trigger] valid.contains(v) implies {
        &&& new_station.cur_line_stations@.contains(ren(v)) == old_station.cur_line_stations@.contains(v)
        &&& new_station.other_line_stations@.contains(ren(v)) == old_station.other_line_stations@.contains(v)
        &&& (ren(v) < new_station.dist_to_stations@.len()) == (v < old_station.dist_to_stations@.len())
        &&& v < old_station.dist_to_stations@.len() ==> new_station.dist_to_stations@[ren(v) as int]
            == old_station.dist_to_stations@[v as int]
    } by {}
    let same = choose|groups: Seq<(u32, Seq<usize>)>|
        #[trigger] is_distance_grouping(valid, old_station.cur_line_stations@, old_station.dist_to_stations@, groups)
            && input.same_line_counts@.len() == groups.len() && forall|k: int|
            0 <= k < input.same_line_counts@.len() ==> input.same_line_counts@[k] == groups[k].1.len();
    lemma_grouping_renumbered(
        valid,
        old_station.cur_line_stations@,
        old_station.dist_to_stations@,
        other_valid,
        new_station.cur_line_stations@,
        new_station.dist_to_stations@,
        ren,
        same,
    );
    let same_moved = same.map_values(|group: (u32, Seq<usize>)| (group.0, group.1.map_values(ren)));
    assert(is_distance_grouping(other_valid, new_station.cur_line_stations@, new_station.dist_to_stations@, same_moved));
    let others = choose|groups: Seq<(u32, Seq<usize>)>|
        #[trigger] is_distance_grouping(valid, old_station.other_line_stations@, old_station.dist_to_stations@, groups)
            && input.other_line_counts@.len() == groups.len() && forall|k: int|
            0 <= k < input.other_line_counts@.len() ==> input.other_line_counts@[k] == groups[k].1.len();
    lemma_grouping_renumbered(
        valid,
        old_station.other_line_stations@,
        old_station.dist_to_stations@,
        other_valid,
        new_station.other_line_stations@,
        new_station.dist_to_stations@,
        ren,
        others,
    );
    let others_moved = others.map_values(|group: (u32, Seq<usize>)| (group.0, group.1.map_values(ren)));
    assert(is_distance_grouping(other_valid, new_station.other_line_stations@, new_station.dist_to_stations@, others_moved));
}

/// Following, from the root, the answers that the hidden station gives reaches a node
/// that guesses the hidden station.
pub open spec fn walk_finds(node: DecisionTreeNode, stations: Seq<Station>, hidden: usize) -> bool
    decreases node,
{
    ||| node.spec_station() == hidden
    ||| exists|i: int|
        0 <= i < node.spec_children().len() && #[trigger] node.spec_children()[i].0 == answer(stations[node.spec_station() as int], hidden)
            && walk_finds(node.spec_children()[i].1, stations, hidden)
}

/// Whatever the hidden station among the candidates, the walk through the tree by its
/// answers ends at a node that guesses it.
pub proof fn lemma_walk_finds_hidden<F: Fn(&EntropyInput) -> u32>(
    node: DecisionTreeNode,
    stations: Seq<Station>,
    valid: Set<usize>,
    score: F,
    hidden: usize,
)
    requires
        is_tree_for(node, stations, valid, score),
        network_ok(stations, valid),
        valid.contains(hidden),
        answers_known(stations, valid, hidden),
    ensures
        walk_finds(node, stations, hidden),
    decreases node,
{
    if node.station != hidden {
        lemma_answer_leads_to_hidden(node, stations, valid, score, hidden);
        let sel = node.station;
        let i = choose|i: int|
            0 <= i < node.children@.len() && #[trigger] node.children@[i].0 == answer(stations[sel as int], hidden)
                && child_candidates(stations, valid, sel, node.children@[i].0).contains(hidden);
        let child_valid = child_candidates(stations, valid, sel, node.children@[i].0);
        assert(is_tree_for(node.children@[i].1, stations, child_valid, score));
        assert forall|v: usize| #[trigger] child_valid.contains(v) implies valid.contains(v) by {}
        assert(network_ok(stations, child_valid));
        lemma_walk_finds_hidden(node.children@[i].1, stations, child_valid, score, hidden);
    }
}

/// The drawing of the subtree `node`: its own line, then the drawings of its children in
/// answer order (every same-line answer before every other-line one, each kind by
/// increasing distance; a node keeps its children in that order), one level deeper.
pub open spec fn render(node: DecisionTreeNode, depth: nat, incoming: Option<EdgeType>) -> Seq<Seq<char>>
    decreases node,
{
    seq![node_line(node.spec_name(), depth, incoming)] + render_children(node.spec_children(), depth + 1)
}

/// The drawings of `children`, one after the other.
pub open spec fn render_children(children: Seq<(EdgeType, DecisionTreeNode)>, depth: nat) -> Seq<Seq<char>>
    decreases children,
{
    if children.len() == 0 {
        Seq::empty()
    } else {
        render_children(children.drop_last(), depth) + render(children.last().1, depth, Some(children.last().0))
    }
}

impl DecisionTreeNode {
    /// The line of this node at `depth`, reached by the answer `incoming`.
    pub fn line(&self, depth: usize, incoming: Option<EdgeType>) -> (line: String)
        ensures
            line@ == node_line(self.spec_name(), depth as nat, incoming),
    {
        let mut line = indentation(depth);
        match incoming {
            None => {
                line.append(self.name.as_str());
            },
            Some(EdgeType::SameLine(d)) => {
                line.append("└─ SameLine(");
                push_decimal(&mut line, d);
                line.append(") -> ");
                line.append(self.name.as_str());
            },
            Some(EdgeType::OtherLine(d)) => {
                line.append("└─ OtherLine(");
                push_decimal(&mut line, d);
                line.append(") -> ");
                line.append(self.name.as_str());
            },
        }
        proof {
            assert(line@ =~= node_line(self.name@, depth as nat, incoming));
        }
        line
    }

    /// Appends the drawing of this subtree, at `depth` and reached by `incoming`, to `lines`.
    pub fn print_recursive(&self, depth: usize, incoming: Option<EdgeType>, lines: &mut Vec<String>)
        requires
            depth + height(*self) <= usize::MAX,
        ensures
            texts(final(lines)@) == texts(old(lines)@) + render(*self, depth as nat, incoming),
            children_ordered(self.spec_children()),
        decreases self,
    {
        proof {
            use_type_invariant(self);
        }
        let line = self.line(depth, incoming);
        let ghost start = lines@;
        lines.push(line);
        proof {
            assert(texts(lines@) =~= texts(start) + seq![node_line(self.name@, depth as nat, incoming)]);
        }
        let mut i: usize = 0;
        while i < self.children.len()
            invariant
                depth + height(*self) <= usize::MAX,
                i <= self.children@.len(),
                texts(lines@) == texts(start) + seq![node_line(self.name@, depth as nat, incoming)]
                    + render_children(self.children@.subrange(0, i as int), (depth + 1) as nat),
            decreases self.children.len() - i,
        {
            let ghost before = lines@;
            proof {
                lemma_child_height(self.children@, i as int);
            }
            self.children[i].1.print_recursive(depth + 1, Some(self.children[i].0), lines);
            proof {
                let prefix = self.children@.subrange(0, i + 1);
                assert(prefix.drop_last() =~= self.children@.subrange(0, i as int));
                assert(prefix.last() == self.children@[i as int]);
            }
            i += 1;
        }
        proof {
            assert(self.children@.subrange(0, self.children@.len() as int) =~= self.children@);
        }
    }
}

/// Every child is less tall than its parent.
proof fn lemma_child_height(children: Seq<(EdgeType, DecisionTreeNode)>, i: int)
    requires
        0 <= i < children.len(),
    ensures
        height(children[i].1) + 1 <= children_height(children),
    decreases children.len(),
{
    if i < children.len() - 1 {
        lemma_child_height(children.drop_last(), i);
        assert(children.drop_last()[i] == children[i]);
    }
}

} // verus!
