//! The station network of a city, read from its station records: station numbering,
//! lines shared, neighbours, hop distances.

use crate::decision_tree::{Station, network_ok, answers_known};
use crate::texts;
use crate::graph::{get_dist_matrix, has_edge, is_distance_row, well_formed_graph};
use std::collections::HashSet;
use vstd::prelude::*;

verus! {

/// A neighbour as a station record lists it: by name, or by a record with a name.
#[derive(Debug)]
pub enum AdjacentStation {
    Name(String),
    Details(AdjacentStationDetails),
}

/// A neighbour given as a record.
#[derive(Debug)]
pub struct AdjacentStationDetails {
    pub name: String,
}

/// One station record of a city: the station's name, the lines that stop there, and the
/// neighbouring stations.
#[derive(Debug)]
pub struct StationInfo {
    pub name: String,
    pub lines: Vec<String>,
    pub adjacent: Vec<AdjacentStation>,
}

/// The name of a neighbour.
pub open spec fn adjacent_text(adjacent: AdjacentStation) -> Seq<char> {
    match adjacent {
        AdjacentStation::Name(name) => name@,
        AdjacentStation::Details(details) => details.name@,
    }
}

impl AdjacentStation {
    /// The neighbour's name.
    pub fn into_name(self) -> (name: String)
        ensures
            name@ == adjacent_text(self),
    {
        match self {
            AdjacentStation::Name(name) => name,
            AdjacentStation::Details(details) => details.name,
        }
    }

    /// The neighbour's name, borrowed.
    pub fn name(&self) -> (name: &String)
        ensures
            name@ == adjacent_text(*self),
    {
        match self {
            AdjacentStation::Name(name) => name,
            AdjacentStation::Details(details) => &details.name,
        }
    }
}

/// The names of the records, in record order.
pub open spec fn info_names(infos: Seq<StationInfo>) -> Seq<Seq<char>> {
    infos.map_values(|info: StationInfo| info.name@)
}

/// `seen`, with `x` added at the end unless already there.
pub open spec fn add_new(seen: Seq<Seq<char>>, x: Seq<char>) -> Seq<Seq<char>> {
    if seen.contains(x) {
        seen
    } else {
        seen.push(x)
    }
}

/// The distinct texts of `s`, in order of first appearance.
pub open spec fn first_occurrences(s: Seq<Seq<char>>) -> Seq<Seq<char>>
    decreases s.len(),
{
    if s.len() == 0 {
        Seq::empty()
    } else {
        add_new(first_occurrences(s.drop_last()), s.last())
    }
}

/// The stations of a city, numbered in order of first appearance of their names.
pub open spec fn station_names(infos: Seq<StationInfo>) -> Seq<Seq<char>> {
    first_occurrences(info_names(infos))
}

/// Some record of the station named `name` lists the line `line`.
pub open spec fn has_line(infos: Seq<StationInfo>, name: Seq<char>, line: Seq<char>) -> bool {
    exists|i: int, j: int|
        0 <= i < infos.len() && 0 <= j < infos[i].lines@.len() && #[trigger] infos[i].name@ == name
            && #[trigger] infos[i].lines@[j]@ == line
}

/// The stations named `a` and `b` share at least one line.
pub open spec fn shares_line(infos: Seq<StationInfo>, a: Seq<char>, b: Seq<char>) -> bool {
    exists|line: Seq<char>| #[trigger] has_line(infos, a, line) && has_line(infos, b, line)
}

/// Some record of the station named `a` lists `b` as a neighbour.
pub open spec fn lists_neighbour(infos: Seq<StationInfo>, a: Seq<char>, b: Seq<char>) -> bool {
    exists|i: int, j: int|
        0 <= i < infos.len() && 0 <= j < infos[i].adjacent@.len() && #[trigger] infos[i].name@ == a
            && #[trigger] adjacent_text(infos[i].adjacent@[j]) == b
}

/// A city's network, its stations numbered `0..stations.len()`.
pub struct Network {
    pub stations: Vec<Station>,
    /// Every station number: all stations are candidates at the start of a game.
    pub valid_stations: HashSet<usize>,
    /// The neighbours of each station, by number.
    pub neighbours: Vec<Vec<usize>>,
}

/// The position of the text `name` in `names`; `None` when it is not there.
fn find_name(names: &Vec<String>, name: &String) -> (found: Option<usize>)
    ensures
        match found {
            Some(i) => i < names.len() && names@[i as int]@ == name@,
            None => !texts(names@).contains(name@),
        },
{
    let mut i: usize = 0;
    while i < names.len()
        invariant
            i <= names.len(),
            forall|j: int| 0 <= j < i ==> names@[j]@ != name@,
        decreases names.len() - i,
    {
        if names[i].eq(name) {
            return Some(i);
        }
        i += 1;
    }
    proof {
        if texts(names@).contains(name@) {
            let j = choose|j: int| 0 <= j < names.len() && texts(names@)[j] == name@;
            assert(names@[j]@ == name@);
        }
    }
    None
}

proof fn lemma_first_occurrences(s: Seq<Seq<char>>)
    ensures
        first_occurrences(s).no_duplicates(),
        first_occurrences(s).len() <= s.len(),
        forall|x: Seq<char>| #[trigger] first_occurrences(s).contains(x) <==> s.contains(x),
    decreases s.len(),
{
    if s.len() > 0 {
        lemma_first_occurrences(s.drop_last());
        let r = first_occurrences(s.drop_last());
        assert forall|x: Seq<char>| #[trigger] first_occurrences(s).contains(x) <==> s.contains(x) by {
            if s.contains(x) && x != s.last() {
                let i = choose|i: int| 0 <= i < s.len() && s[i] == x;
                assert(s.drop_last()[i] == x);
            }
            if s.drop_last().contains(x) {
                let i = choose|i: int| 0 <= i < s.len() - 1 && s.drop_last()[i] == x;
                assert(s[i] == x);
            }
            if !r.contains(s.last()) {
                assert(r.push(s.last())[r.len() as int] == s.last());
                if r.push(s.last()).contains(x) && x != s.last() {
                    let i = choose|i: int| 0 <= i < r.len() + 1 && r.push(s.last())[i] == x;
                    assert(r[i] == x);
                }
                if r.contains(x) {
                    let i = choose|i: int| 0 <= i < r.len() && r[i] == x;
                    assert(r.push(s.last())[i] == x);
                }
            }
        }
        if !r.contains(s.last()) {
            assert forall|i: int, j: int| 0 <= i < j < r.len() + 1 implies r.push(s.last())[i] != r.push(s.last())[j] by {
                if j == r.len() {
                    assert(r[i] == r.push(s.last())[i]);
                }
            }
        }
    }
}

/// The station names, each once, in order of first appearance.
fn collect_station_names(infos: &Vec<StationInfo>) -> (names: Vec<String>)
    ensures
        texts(names@) == station_names(infos@),
{
    let mut names: Vec<String> = Vec::new();
    let mut i: usize = 0;
    while i < infos.len()
        invariant
            i <= infos.len(),
            texts(names@) == first_occurrences(info_names(infos@).subrange(0, i as int)),
        decreases infos.len() - i,
    {
        let ghost before = names@;
        let ghost prefix = info_names(infos@).subrange(0, i + 1);
        proof {
            assert(prefix.drop_last() =~= info_names(infos@).subrange(0, i as int));
            assert(prefix.last() == infos@[i as int].name@);
        }
        match find_name(&names, &infos[i].name) {
            Some(_) => {
                proof {
                    let j = choose|j: int| 0 <= j < names.len() && names@[j]@ == infos@[i as int].name@;
                    assert(texts(names@)[j] == infos@[i as int].name@);
                }
            },
            None => {
                names.push(infos[i].name.clone());
                proof {
                    assert(texts(names@) =~= texts(before).push(infos@[i as int].name@));
                }
            },
        }
        i += 1;
    }
    proof {
        assert(info_names(infos@).subrange(0, infos.len() as int) =~= info_names(infos@));
    }
    names
}

/// The lines of the station named `name`, over all its records (repeats possible).
fn station_lines(infos: &Vec<StationInfo>, name: &String) -> (lines: Vec<String>)
    ensures
        forall|x: Seq<char>| #[trigger] texts(lines@).contains(x) <==> has_line(infos@, name@, x),
{
    let mut lines: Vec<String> = Vec::new();
    let mut i: usize = 0;
    while i < infos.len()
        invariant
            i <= infos.len(),
            forall|x: Seq<char>|
                #[trigger] texts(lines@).contains(x) <==> exists|a: int, b: int|
                    0 <= a < i && 0 <= b < infos@[a].lines@.len() && #[trigger] infos@[a].name@ == name@
                        && #[trigger] infos@[a].lines@[b]@ == x,
        decreases infos.len() - i,
    {
        if infos[i].name.eq(name) {
            let mut j: usize = 0;
            while j < infos[i].lines.len()
                invariant
                    i < infos.len(),
                    infos@[i as int].name@ == name@,
                    j <= infos@[i as int].lines@.len(),
                    forall|x: Seq<char>|
                        #[trigger] texts(lines@).contains(x) <==> (exists|a: int, b: int|
                            0 <= a < i && 0 <= b < infos@[a].lines@.len() && #[trigger] infos@[a].name@ == name@
                                && #[trigger] infos@[a].lines@[b]@ == x) || (exists|b: int|
                            0 <= b < j && #[trigger] infos@[i as int].lines@[b]@ == x),
                decreases infos@[i as int].lines@.len() - j,
            {
                let ghost before = lines@;
                lines.push(infos[i].lines[j].clone());
                proof {
                    assert(texts(lines@) =~= texts(before).push(infos@[i as int].lines@[j as int]@));
                    assert forall|x: Seq<char>|
                        #[trigger] texts(lines@).contains(x) <==> (exists|a: int, b: int|
                            0 <= a < i && 0 <= b < infos@[a].lines@.len() && #[trigger] infos@[a].name@ == name@
                                && #[trigger] infos@[a].lines@[b]@ == x) || (exists|b: int|
                            0 <= b < j + 1 && #[trigger] infos@[i as int].lines@[b]@ == x) by {
                        if x == infos@[i as int].lines@[j as int]@ {
                            assert(texts(lines@)[before.len() as int] == x);
                        }
                        if texts(before).contains(x) {
                            let c = choose|c: int| 0 <= c < before.len() && texts(before)[c] == x;
                            assert(texts(lines@)[c] == x);
                        }
                        if texts(lines@).contains(x) && x != infos@[i as int].lines@[j as int]@ {
                            let c = choose|c: int| 0 <= c < lines@.len() && texts(lines@)[c] == x;
                            assert(texts(before)[c] == x);
                        }
                    }
                }
                j += 1;
            }
            proof {
                assert forall|x: Seq<char>|
                    #[trigger] texts(lines@).contains(x) <==> exists|a: int, b: int|
                        0 <= a < i + 1 && 0 <= b < infos@[a].lines@.len() && #[trigger] infos@[a].name@ == name@
                            && #[trigger] infos@[a].lines@[b]@ == x by {
                    if exists|a: int, b: int|
                        0 <= a < i + 1 && 0 <= b < infos@[a].lines@.len() && #[trigger] infos@[a].name@ == name@
                            && #[trigger] infos@[a].lines@[b]@ == x {
                        let (a, b) = choose|a: int, b: int|
                            0 <= a < i + 1 && 0 <= b < infos@[a].lines@.len() && #[trigger] infos@[a].name@ == name@
                                && #[trigger] infos@[a].lines@[b]@ == x;
                        if a == i {
                            assert(infos@[i as int].lines@[b]@ == x);
                        }
                    }
                }
            }
        }
        i += 1;
    }
    lines
}

/// Whether two line lists have a line in common.
fn have_common_line(a: &Vec<String>, b: &Vec<String>) -> (common: bool)
    ensures
        common == exists|x: Seq<char>| #[trigger] texts(a@).contains(x) && texts(b@).contains(x),
{
    let mut i: usize = 0;
    while i < a.len()
        invariant
            i <= a.len(),
            forall|p: int, q: int| 0 <= p < i && 0 <= q < b.len() ==> #[trigger] a@[p]@ != #[trigger] b@[q]@,
        decreases a.len() - i,
    {
        let mut j: usize = 0;
        while j < b.len()
            invariant
                i < a.len(),
                j <= b.len(),
                forall|p: int, q: int| 0 <= p < i && 0 <= q < b.len() ==> #[trigger] a@[p]@ != #[trigger] b@[q]@,
                forall|q: int| 0 <= q < j ==> a@[i as int]@ != #[trigger] b@[q]@,
            decreases b.len() - j,
        {
            if a[i].eq(&b[j]) {
                proof {
                    assert(texts(a@)[i as int] == a@[i as int]@);
                    assert(texts(b@)[j as int] == b@[j as int]@);
                    assert(texts(a@).contains(a@[i as int]@));
                    assert(texts(b@).contains(a@[i as int]@));
                }
                return true;
            }
            j += 1;
        }
        i += 1;
    }
    proof {
        assert forall|x: Seq<char>| !(#[trigger] texts(a@).contains(x) && texts(b@).contains(x)) by {
            if texts(a@).contains(x) && texts(b@).contains(x) {
                let p = choose|p: int| 0 <= p < a.len() && texts(a@)[p] == x;
                let q = choose|q: int| 0 <= q < b.len() && texts(b@)[q] == x;
                assert(a@[p]@ == b@[q]@);
            }
        }
    }
    false
}

/// The numbers of the stations that the records of the station named `name` list as
/// neighbours (repeats possible); names that are no station's are left out.
fn station_neighbours(infos: &Vec<StationInfo>, names: &Vec<String>, name: &String) -> (adjacent: Vec<usize>)
    requires
        texts(names@).no_duplicates(),
    ensures
        forall|j: int| 0 <= j < adjacent.len() ==> #[trigger] adjacent@[j] < names.len(),
        forall|v: usize|
            v < names.len() ==> (#[trigger] adjacent@.contains(v) <==> lists_neighbour(infos@, name@, names@[v as int]@)),
{
    let mut adjacent: Vec<usize> = Vec::new();
    let mut i: usize = 0;
    while i < infos.len()
        invariant
            texts(names@).no_duplicates(),
            i <= infos.len(),
            forall|j: int| 0 <= j < adjacent.len() ==> #[trigger] adjacent@[j] < names.len(),
            forall|v: usize|
                v < names.len() ==> (#[trigger] adjacent@.contains(v) <==> exists|a: int, b: int|
                    0 <= a < i && 0 <= b < infos@[a].adjacent@.len() && #[trigger] infos@[a].name@ == name@
                        && #[trigger] adjacent_text(infos@[a].adjacent@[b]) == names@[v as int]@),
        decreases infos.len() - i,
    {
        if infos[i].name.eq(name) {
            let mut j: usize = 0;
            while j < infos[i].adjacent.len()
                invariant
                    texts(names@).no_duplicates(),
                    i < infos.len(),
                    infos@[i as int].name@ == name@,
                    j <= infos@[i as int].adjacent@.len(),
                    forall|j: int| 0 <= j < adjacent.len() ==> #[trigger] adjacent@[j] < names.len(),
                    forall|v: usize|
                        v < names.len() ==> (#[trigger] adjacent@.contains(v) <==> (exists|a: int, b: int|
                            0 <= a < i && 0 <= b < infos@[a].adjacent@.len() && #[trigger] infos@[a].name@ == name@
                                && #[trigger] adjacent_text(infos@[a].adjacent@[b]) == names@[v as int]@) || (exists|
                            b: int,
                        |
                            0 <= b < j && #[trigger] adjacent_text(infos@[i as int].adjacent@[b])
                                == names@[v as int]@)),
                decreases infos@[i as int].adjacent@.len() - j,
            {
                let ghost before = adjacent@;
                let ghost text = adjacent_text(infos@[i as int].adjacent@[j as int]);
                match find_name(names, infos[i].adjacent[j].name()) {
                    Some(w) => {
                        adjacent.push(w);
                        proof {
                            assert(adjacent@ == before.push(w));
                            assert forall|v: usize|
                                v < names.len() implies (#[trigger] adjacent@.contains(v) <==> (exists|a: int, b: int|
                                    0 <= a < i && 0 <= b < infos@[a].adjacent@.len() && #[trigger] infos@[a].name@
                                        == name@ && #[trigger] adjacent_text(infos@[a].adjacent@[b])
                                        == names@[v as int]@) || (exists|b: int|
                                    0 <= b < j + 1 && #[trigger] adjacent_text(infos@[i as int].adjacent@[b])
                                        == names@[v as int]@)) by {
                                if v == w {
                                    assert(adjacent@[before.len() as int] == w);
                                    assert(adjacent_text(infos@[i as int].adjacent@[j as int]) == names@[v as int]@);
                                } else {
                                    if adjacent@.contains(v) {
                                        let c = choose|c: int| 0 <= c < adjacent.len() && adjacent@[c] == v;
                                        assert(before[c] == v);
                                    }
                                    if before.contains(v) {
                                        let c = choose|c: int| 0 <= c < before.len() && before[c] == v;
                                        assert(adjacent@[c] == v);
                                    }
                                    if adjacent_text(infos@[i as int].adjacent@[j as int]) == names@[v as int]@ {
                                        assert(texts(names@)[v as int] == texts(names@)[w as int]);
                                    }
                                }
                            }
                        }
                    },
                    None => {
                        proof {
                            assert forall|v: usize|
                                v < names.len() implies adjacent_text(infos@[i as int].adjacent@[j as int])
                                != names@[v as int]@ by {
                                assert(texts(names@)[v as int] == names@[v as int]@);
                            }
                        }
                    },
                }
                j += 1;
            }
        }
        i += 1;
    }
    adjacent
}

/// The network of a city from its station records: stations numbered in order of first
/// appearance of their names; each station's neighbours (the stations that some record of
/// it lists); the hop distances between stations; and, for each station, the stations that
/// share a line with it and those that share none.
pub fn build_network(infos: &Vec<StationInfo>) -> (network: Network)
    requires
        infos.len() < u32::MAX,
    ensures
        network.stations.len() == station_names(infos@).len(),
        network.neighbours.len() == station_names(infos@).len(),
        forall|s: int|
            0 <= s < network.stations.len() ==> #[trigger] network.stations@[s].name@ == station_names(infos@)[s],
        well_formed_graph(network.neighbours@),
        forall|u: int, v: int|
            0 <= u < network.neighbours.len() && 0 <= v < network.neighbours.len() ==> (#[trigger] has_edge(
                network.neighbours@,
                u,
                v,
            ) <==> lists_neighbour(infos@, station_names(infos@)[u], station_names(infos@)[v])),
        forall|s: int|
            0 <= s < network.stations.len() ==> is_distance_row(
                network.neighbours@,
                s,
                #[trigger] network.stations@[s].dist_to_stations@,
            ),
        forall|s: int, t: usize|
            0 <= s < network.stations.len() ==> (#[trigger] network.stations@[s].cur_line_stations@.contains(t) <==> (t
                < network.stations.len() && shares_line(infos@, station_names(infos@)[s], station_names(infos@)[t as int]))),
        forall|s: int, t: usize|
            0 <= s < network.stations.len() ==> (#[trigger] network.stations@[s].other_line_stations@.contains(t) <==> (t
                < network.stations.len() && !shares_line(
                infos@,
                station_names(infos@)[s],
                station_names(infos@)[t as int],
            ))),
        forall|t: usize| #[trigger] network.valid_stations@.contains(t) <==> t < network.stations.len(),
        network_ok(network.stations@, network.valid_stations@),
        forall|hidden: usize|
            hidden < network.stations.len() ==> #[trigger] answers_known(
                network.stations@,
                network.valid_stations@,
                hidden,
            ),
{
    let names = collect_station_names(infos);
    let ghost all = station_names(infos@);
    proof {
        lemma_first_occurrences(info_names(infos@));
        assert(texts(names@).no_duplicates());
    }
    let k = names.len();
    let mut neighbours: Vec<Vec<usize>> = Vec::new();
    let mut all_lines: Vec<Vec<String>> = Vec::new();
    let mut ids: Vec<usize> = Vec::new();
    let mut u: usize = 0;
    while u < k
        invariant
            k == names.len(),
            texts(names@) == all,
            all.no_duplicates(),
            u <= k,
            neighbours.len() == u,
            all_lines.len() == u,
            ids.len() == u,
            forall|a: int| 0 <= a < u ==> #[trigger] ids@[a] == a,
            forall|a: int, j: int| 0 <= a < u && 0 <= j < neighbours@[a]@.len() ==> #[trigger] neighbours@[a]@[j] < k,
            forall|a: int, v: usize|
                0 <= a < u && v < k ==> (#[trigger] neighbours@[a]@.contains(v) <==> lists_neighbour(
                    infos@,
                    all[a],
                    all[v as int],
                )),
            forall|a: int, x: Seq<char>|
                0 <= a < u ==> (#[trigger] texts(all_lines@[a]@).contains(x) <==> has_line(infos@, all[a], x)),
        decreases k - u,
    {
        proof {
            assert(texts(names@)[u as int] == names@[u as int]@);
        }
        let adjacent = station_neighbours(infos, &names, &names[u]);
        neighbours.push(adjacent);
        all_lines.push(station_lines(infos, &names[u]));
        ids.push(u);
        proof {
            assert forall|v: usize| v < k implies names@[v as int]@ == all[v as int] by {
                assert(texts(names@)[v as int] == names@[v as int]@);
            }
        }
        u += 1;
    }
    proof {
        assert forall|a: int, j: int|
            0 <= a < neighbours.len() && 0 <= j < neighbours@[a]@.len() implies (#[trigger] neighbours@[a]@[j])
            < neighbours.len() by {}
        assert(well_formed_graph(neighbours@));
    }
    let mut matrix = get_dist_matrix(&neighbours, &ids);
    let ghost full_matrix = matrix@;
    let mut stations: Vec<Station> = Vec::new();
    let mut valid_stations: HashSet<usize> = HashSet::new();
    let mut s: usize = 0;
    while s < k
        invariant
            k == names.len(),
            texts(names@) == all,
            all.no_duplicates(),
            s <= k,
            neighbours.len() == k,
            all_lines.len() == k,
            ids.len() == k,
            forall|a: int| 0 <= a < k ==> #[trigger] ids@[a] == a,
            full_matrix.len() == k,
            forall|i: int| 0 <= i < k ==> is_distance_row(neighbours@, ids@[i] as int, #[trigger] full_matrix[i]@),
            matrix@ == full_matrix.subrange(s as int, k as int),
            forall|a: int, x: Seq<char>|
                0 <= a < k ==> (#[trigger] texts(all_lines@[a]@).contains(x) <==> has_line(infos@, all[a], x)),
            stations.len() == s,
            forall|a: int| 0 <= a < s ==> #[trigger] stations@[a].name@ == all[a],
            forall|a: int| 0 <= a < s ==> #[trigger] stations@[a].dist_to_stations@ == full_matrix[a]@,
            forall|a: int, t: usize|
                0 <= a < s ==> (#[trigger] stations@[a].cur_line_stations@.contains(t) <==> (t < k && shares_line(
                    infos@,
                    all[a],
                    all[t as int],
                ))),
            forall|a: int, t: usize|
                0 <= a < s ==> (#[trigger] stations@[a].other_line_stations@.contains(t) <==> (t < k && !shares_line(
                    infos@,
                    all[a],
                    all[t as int],
                ))),
            forall|t: usize| #[trigger] valid_stations@.contains(t) <==> t < s,
        decreases k - s,
    {
        let mut cur_line_stations: HashSet<usize> = HashSet::new();
        let mut other_line_stations: HashSet<usize> = HashSet::new();
        let mut t: usize = 0;
        while t < k
            invariant
                k == names.len(),
                all_lines.len() == k,
                s < k,
                t <= k,
                forall|a: int, x: Seq<char>|
                    0 <= a < k ==> (#[trigger] texts(all_lines@[a]@).contains(x) <==> has_line(infos@, all[a], x)),
                forall|w: usize|
                    #[trigger] cur_line_stations@.contains(w) <==> (w < t && shares_line(infos@, all[s as int], all[w as int])),
                forall|w: usize|
                    #[trigger] other_line_stations@.contains(w) <==> (w < t && !shares_line(
                        infos@,
                        all[s as int],
                        all[w as int],
                    )),
            decreases k - t,
        {
            let common = have_common_line(&all_lines[s], &all_lines[t]);
            proof {
                if common {
                    let x = choose|x: Seq<char>| #[trigger] texts(all_lines@[s as int]@).contains(x)
                        && texts(all_lines@[t as int]@).contains(x);
                    assert(has_line(infos@, all[s as int], x));
                }
                if shares_line(infos@, all[s as int], all[t as int]) {
                    let x = choose|x: Seq<char>| #[trigger] has_line(infos@, all[s as int], x) && has_line(
                        infos@,
                        all[t as int],
                        x,
                    );
                    assert(texts(all_lines@[s as int]@).contains(x));
                }
            }
            if common {
                cur_line_stations.insert(t);
            } else {
                other_line_stations.insert(t);
            }
            t += 1;
        }
        let row = matrix.remove(0);
        proof {
            assert(row@ == full_matrix[s as int]@);
            assert(matrix@ =~= full_matrix.subrange(s + 1, k as int));
            assert(texts(names@)[s as int] == names@[s as int]@);
        }
        stations.push(
            Station {
                name: names[s].clone(),
                dist_to_stations: row,
                cur_line_stations,
                other_line_stations,
            },
        );
        valid_stations.insert(s);
        s += 1;
    }
    proof {
        assert forall|uu: int, v: int|
            0 <= uu < neighbours.len() && 0 <= v < neighbours.len() implies (#[trigger] has_edge(neighbours@, uu, v)
            <==> lists_neighbour(infos@, all[uu], all[v])) by {
            if has_edge(neighbours@, uu, v) {
                let j = choose|j: int| 0 <= j < neighbours@[uu]@.len() && #[trigger] neighbours@[uu]@[j] as int == v;
                assert(neighbours@[uu]@.contains(v as usize));
            }
            if lists_neighbour(infos@, all[uu], all[v]) {
                assert(neighbours@[uu]@.contains(v as usize));
                let j = choose|j: int| 0 <= j < neighbours@[uu]@.len() && neighbours@[uu]@[j] == v as usize;
                assert(neighbours@[uu]@[j] as int == v);
            }
        }
        assert forall|a: int| 0 <= a < k implies is_distance_row(
            neighbours@,
            a,
            #[trigger] stations@[a].dist_to_stations@,
        ) by {
            assert(is_distance_row(neighbours@, ids@[a] as int, full_matrix[a]@));
        }
    }
    Network { stations, valid_stations, neighbours }
}

} // verus!
