//! Which city configurations a game can be played on, and which data version to load.

use crate::texts;
use vstd::prelude::*;

verus! {

/// The cities whose configurations are not offered for play.
pub open spec fn is_excluded_city(id: Seq<char>) -> bool {
    id == "melbourne"@ || id == "newyork"@ || id == "london-tube"@
}

fn excluded(id: &String) -> (excluded: bool)
    ensures
        excluded == is_excluded_city(id@),
{
    let melbourne = String::from_str("melbourne");
    let newyork = String::from_str("newyork");
    let london_tube = String::from_str("london-tube");
    id.eq(&melbourne) || id.eq(&newyork) || id.eq(&london_tube)
}

/// The cities offered, out of the listed `city_ids` (in the listed order), are exactly those
/// other than "melbourne", "newyork" and "london-tube": every other listed id is offered, in
/// its order, and none of those three ever is.
pub proof fn lemma_offered_cities(city_ids: Seq<Seq<char>>, offered: Seq<Seq<char>>)
    requires
        offered == city_ids.filter(|id: Seq<char>| !is_excluded_city(id)),
    ensures
        offered == city_ids.filter(
            |id: Seq<char>| id != "melbourne"@ && id != "newyork"@ && id != "london-tube"@,
        ),
        forall|x: Seq<char>|
            #[trigger] offered.contains(x) <==> (city_ids.contains(x) && x != "melbourne"@ && x != "newyork"@ && x
                != "london-tube"@),
{
    broadcast use vstd::seq_lib::group_filter_ensures;

    let keep = |id: Seq<char>| !is_excluded_city(id);
    let listed = |id: Seq<char>| id != "melbourne"@ && id != "newyork"@ && id != "london-tube"@;
    assert(keep =~= listed);
    assert forall|x: Seq<char>|
        #[trigger] offered.contains(x) <==> (city_ids.contains(x) && x != "melbourne"@ && x != "newyork"@ && x
            != "london-tube"@) by {
        if offered.contains(x) {
            city_ids.lemma_filter_contains_rev(keep, x);
            let i = choose|i: int| 0 <= i < offered.len() && offered[i] == x;
            assert(keep(offered[i]));
        }
        if city_ids.contains(x) && listed(x) {
            let i = choose|i: int| 0 <= i < city_ids.len() && city_ids[i] == x;
            assert(keep(city_ids[i]));
            assert(offered.contains(city_ids[i]));
        }
    }
}

/// The cities offered for play: the listed ones, in their order, but "melbourne",
/// "newyork" and "london-tube".
pub fn available_cities(city_ids: &Vec<String>) -> (available: Vec<String>)
    ensures
        texts(available@) == texts(city_ids@).filter(|id: Seq<char>| !is_excluded_city(id)),
        texts(available@) == texts(city_ids@).filter(
            |id: Seq<char>| id != "melbourne"@ && id != "newyork"@ && id != "london-tube"@,
        ),
{
    let ghost keep = |id: Seq<char>| !is_excluded_city(id);
    let mut available: Vec<String> = Vec::new();
    let mut i: usize = 0;
    while i < city_ids.len()
        invariant
            i <= city_ids.len(),
            keep == (|id: Seq<char>| !is_excluded_city(id)),
            texts(available@) == texts(city_ids@).take(i as int).filter(keep),
        decreases city_ids.len() - i,
    {
        let ghost before = available@;
        proof {
            reveal_with_fuel(Seq::<_>::filter, 1);
            assert(texts(city_ids@).take(i + 1).drop_last() =~= texts(city_ids@).take(i as int));
            assert(texts(city_ids@).take(i + 1).last() == city_ids@[i as int]@);
        }
        if !excluded(&city_ids[i]) {
            available.push(city_ids[i].clone());
            proof {
                assert(texts(available@) =~= texts(before).push(city_ids@[i as int]@));
            }
        }
        i += 1;
    }
    proof {
        assert(texts(city_ids@).take(city_ids.len() as int) =~= texts(city_ids@));
        lemma_offered_cities(texts(city_ids@), texts(available@));
    }
    available
}

/// The data version to load for `city`: the one listed for it, 1 when none is.
pub fn latest_version(versions: &Vec<(String, u32)>, city: &String) -> (version: u32)
    ensures
        (exists|i: int|
            0 <= i < versions.len() && #[trigger] versions@[i].0@ == city@ && version == versions@[i].1 && forall|j: int|
                0 <= j < i ==> #[trigger] versions@[j].0@ != city@) || (version == 1 && forall|i: int|
            0 <= i < versions.len() ==> #[trigger] versions@[i].0@ != city@),
{
    let mut i: usize = 0;
    while i < versions.len()
        invariant
            i <= versions.len(),
            forall|j: int| 0 <= j < i ==> #[trigger] versions@[j].0@ != city@,
        decreases versions.len() - i,
    {
        if versions[i].0.eq(city) {
            return versions[i].1;
        }
        i += 1;
    }
    1
}

} // verus!
