use vstd::prelude::*;

use vstd::multiset::Multiset;
use vstd::seq_lib::group_to_multiset_ensures;
use vstd::seq_lib::lemma_multiset_commutative;
use vstd::pervasive::VecAdditionalExecFns;

use crate::clues::{copy_clue_vec, Clue, ClueVal, Clues};
use crate::randomness::shuffle;

verus! {

/// How many restarts each arrangement search is allowed before the
/// catalog is declared unusable.
pub const RETRY_BUDGET: usize = 1000;

/// How many cross-team arrangements are specially constructed so that
/// the first teams never stand at the same location at the same step.
pub const CONSTRUCTED_ARRANGEMENTS: usize = 4;

/// The catalog's shape is unusable for arrangement generation: the
/// retry budget ran out, which happens when there are too few distinct
/// locations or one location holds most of the clues.
#[derive(Debug, Clone, Copy, PartialEq, Eq, Structural)]
pub struct ArrangementGenerationError;

/// The clue values of a clue list.
pub open spec fn views_of(s: Seq<Clue>) -> Seq<ClueVal> {
    s.map_values(|c: Clue| c@)
}

/// No two consecutive clues share a location.
pub open spec fn no_adjacent_repeats(s: Seq<ClueVal>) -> bool {
    forall|i: int| 0 <= i && i + 1 < s.len() ==> (#[trigger] s[i]).location != s[i + 1].location
}

/// At every step, no two of the given arrangements stand at the same
/// location.
pub open spec fn distinct_locations_at_each_position(arrs: Seq<Seq<ClueVal>>) -> bool {
    forall|a: int, b: int, p: int|
        #![trigger arrs[a][p], arrs[b][p]]
        0 <= a < b < arrs.len() && 0 <= p < arrs[a].len() && 0 <= p < arrs[b].len()
            ==> arrs[a][p].location != arrs[b][p].location
}

/// The clues of one location, keyed by it.
pub struct LocationGroup {
    pub location: String,
    pub pool: Vec<Clue>,
}

/// Every clue in the pool carries the group's location.
pub open spec fn group_wf(g: LocationGroup) -> bool {
    forall|i: int| 0 <= i < g.pool@.len() ==> (#[trigger] g.pool@[i])@.location == g.location@
}

/// Homogeneous pools under pairwise distinct locations.
pub open spec fn groups_wf(gs: Seq<LocationGroup>) -> bool {
    &&& forall|i: int| 0 <= i < gs.len() ==> group_wf(#[trigger] gs[i])
    &&& forall|i: int, j: int|
        #![trigger gs[i].location, gs[j].location]
        0 <= i < j < gs.len() ==> gs[i].location@ != gs[j].location@
}

/// The clues a group holds, as a multiset of values.
pub open spec fn group_multiset(g: LocationGroup) -> Multiset<ClueVal> {
    views_of(g.pool@).to_multiset()
}

/// All clues the groups hold together.
pub open spec fn groups_multiset(gs: Seq<LocationGroup>) -> Multiset<ClueVal>
    decreases gs.len(),
{
    if gs.len() == 0 {
        Multiset::empty()
    } else {
        group_multiset(gs[0]).add(groups_multiset(gs.drop_first()))
    }
}

/// How many clues the groups hold together.
pub open spec fn groups_total_len(gs: Seq<LocationGroup>) -> nat
    decreases gs.len(),
{
    if gs.len() == 0 {
        0
    } else {
        gs[0].pool@.len() + groups_total_len(gs.drop_first())
    }
}

/// Replacing one group by the same group with one more clue adds
/// exactly that clue to the whole.
pub proof fn lemma_groups_multiset_update_insert(
    gs: Seq<LocationGroup>,
    j: int,
    g2: LocationGroup,
    x: ClueVal,
)
    requires
        0 <= j < gs.len(),
        group_multiset(g2) == group_multiset(gs[j]).insert(x),
        g2.pool@.len() == gs[j].pool@.len() + 1,
    ensures
        groups_multiset(gs.update(j, g2)) == groups_multiset(gs).insert(x),
        groups_total_len(gs.update(j, g2)) == groups_total_len(gs) + 1,
    decreases gs.len(),
{
    broadcast use vstd::multiset::group_multiset_axioms;

    let upd = gs.update(j, g2);
    if j == 0 {
        assert(upd.drop_first() =~= gs.drop_first());
        assert(upd[0] == g2);
        assert(groups_multiset(upd) =~= groups_multiset(gs).insert(x));
    } else {
        assert(upd.drop_first() =~= gs.drop_first().update(j - 1, g2));
        assert(gs.drop_first()[j - 1] == gs[j]);
        lemma_groups_multiset_update_insert(gs.drop_first(), j - 1, g2, x);
        assert(upd[0] == gs[0]);
        assert(groups_multiset(upd) =~= groups_multiset(gs).insert(x));
    }
}

/// Replacing one group by the same group with one clue removed takes
/// exactly that clue from the whole.
pub proof fn lemma_groups_multiset_update_remove(
    gs: Seq<LocationGroup>,
    j: int,
    g2: LocationGroup,
    x: ClueVal,
)
    requires
        0 <= j < gs.len(),
        group_multiset(gs[j]) == group_multiset(g2).insert(x),
        gs[j].pool@.len() == g2.pool@.len() + 1,
    ensures
        groups_multiset(gs) == groups_multiset(gs.update(j, g2)).insert(x),
        groups_total_len(gs) == groups_total_len(gs.update(j, g2)) + 1,
    decreases gs.len(),
{
    broadcast use vstd::multiset::group_multiset_axioms;

    let upd = gs.update(j, g2);
    if j == 0 {
        assert(upd.drop_first() =~= gs.drop_first());
        assert(upd[0] == g2);
        assert(groups_multiset(gs) =~= groups_multiset(upd).insert(x));
    } else {
        assert(upd.drop_first() =~= gs.drop_first().update(j - 1, g2));
        assert(gs.drop_first()[j - 1] == gs[j]);
        lemma_groups_multiset_update_remove(gs.drop_first(), j - 1, g2, x);
        assert(upd[0] == gs[0]);
        assert(groups_multiset(gs) =~= groups_multiset(upd).insert(x));
    }
}

/// Appending a group adds exactly its contribution to the whole.
pub proof fn lemma_groups_multiset_push(gs: Seq<LocationGroup>, g: LocationGroup)
    ensures
        groups_multiset(gs.push(g)) == groups_multiset(gs).add(group_multiset(g)),
        groups_total_len(gs.push(g)) == groups_total_len(gs) + g.pool@.len(),
    decreases gs.len(),
{
    broadcast use vstd::multiset::group_multiset_axioms;

    let p = gs.push(g);
    assert(groups_multiset(p) == group_multiset(p[0]).add(groups_multiset(p.drop_first())));
    assert(groups_total_len(p) == p[0].pool@.len() + groups_total_len(p.drop_first()));
    if gs.len() == 0 {
        assert(p.drop_first() =~= Seq::<LocationGroup>::empty());
        assert(p[0] == g);
        assert(groups_multiset(p.drop_first()) == Multiset::<ClueVal>::empty());
        assert(groups_multiset(gs) == Multiset::<ClueVal>::empty());
        assert(groups_total_len(p.drop_first()) == 0);
        assert(groups_total_len(gs) == 0);
        assert(groups_multiset(p) =~= groups_multiset(gs).add(group_multiset(g)));
    } else {
        assert(p.drop_first() =~= gs.drop_first().push(g));
        lemma_groups_multiset_push(gs.drop_first(), g);
        assert(p[0] == gs[0]);
        assert(groups_multiset(gs) == group_multiset(gs[0]).add(groups_multiset(gs.drop_first())));
        assert(groups_total_len(gs) == gs[0].pool@.len() + groups_total_len(gs.drop_first()));
        assert(groups_multiset(p) =~= groups_multiset(gs).add(group_multiset(g)));
    }
}

/// Groups with no clues left contribute nothing.
pub proof fn lemma_groups_multiset_empty(gs: Seq<LocationGroup>)
    requires
        groups_total_len(gs) == 0,
    ensures
        groups_multiset(gs) == Multiset::<ClueVal>::empty(),
    decreases gs.len(),
{
    broadcast use group_to_multiset_ensures;
    broadcast use vstd::multiset::group_multiset_axioms;

    if gs.len() > 0 {
        assert(gs[0].pool@.len() == 0);
        assert(views_of(gs[0].pool@).len() == 0);
        assert(views_of(gs[0].pool@).to_multiset().len() == 0);
        lemma_groups_multiset_empty(gs.drop_first());
        assert(groups_multiset(gs) =~= Multiset::<ClueVal>::empty());
    }
}

/// The whole depends on each group's location and clue values alone.
pub proof fn lemma_groups_multiset_congruence(gs1: Seq<LocationGroup>, gs2: Seq<LocationGroup>)
    requires
        gs1.len() == gs2.len(),
        forall|i: int|
            0 <= i < gs1.len() ==> views_of((#[trigger] gs1[i]).pool@) == views_of(
                gs2[i].pool@,
            ),
    ensures
        groups_multiset(gs1) == groups_multiset(gs2),
        groups_total_len(gs1) == groups_total_len(gs2),
    decreases gs1.len(),
{
    if gs1.len() > 0 {
        assert(forall|i: int|
            0 <= i < gs1.drop_first().len() ==> (#[trigger] gs1.drop_first()[i]) == gs1[i + 1]
                && gs2.drop_first()[i] == gs2[i + 1]);
        lemma_groups_multiset_congruence(gs1.drop_first(), gs2.drop_first());
        assert(views_of(gs1[0].pool@).len() == views_of(gs2[0].pool@).len());
    }
}

/// Find the group keyed by `location`, if one exists.
fn find_group(groups: &Vec<LocationGroup>, location: &String) -> (r: Option<usize>)
    ensures
        match r {
            Option::Some(j) => 0 <= j < groups@.len() && groups@[j as int].location@ == location@,
            Option::None => forall|j: int|
                0 <= j < groups@.len() ==> (#[trigger] groups@[j]).location@ != location@,
        },
{
    let mut j: usize = 0;
    while j < groups.len()
        invariant
            j <= groups@.len(),
            forall|k: int| 0 <= k < j ==> (#[trigger] groups@[k]).location@ != location@,
        decreases groups@.len() - j,
    {
        if groups[j].location == *location {
            return Some(j);
        }
        j += 1;
    }
    None
}

/// Group the catalog's clues by their locations.
fn group_by_location(clues: &Clues) -> (groups: Vec<LocationGroup>)
    ensures
        groups_wf(groups@),
        groups_multiset(groups@) == clues@.to_multiset(),
        groups_total_len(groups@) == clues@.len(),
{
    broadcast use group_to_multiset_ensures;
    broadcast use vstd::multiset::group_multiset_axioms;

    let mut groups: Vec<LocationGroup> = Vec::new();
    let mut i: usize = 0;
    proof {
        assert(views_of(clues.0@.take(0)) =~= Seq::<ClueVal>::empty());
        assert(groups_multiset(groups@) =~= views_of(clues.0@.take(0)).to_multiset());
    }
    while i < clues.0.len()
        invariant
            i <= clues.0@.len(),
            groups_wf(groups@),
            groups_multiset(groups@) == views_of(clues.0@.take(i as int)).to_multiset(),
            groups_total_len(groups@) == i,
        decreases clues.0@.len() - i,
    {
        let ghost pre = groups@;
        let clue = clues.0[i].duplicate();
        let ghost cv = clue@;
        match find_group(&groups, &clue.location) {
            Option::Some(j) => {
                let mut g = LocationGroup { location: String::new(), pool: Vec::new() };
                groups.set_and_swap(j, &mut g);
                let ghost gpre = g;
                g.pool.push(clue);
                proof {
                    broadcast use group_to_multiset_ensures;
                    broadcast use vstd::multiset::group_multiset_axioms;

                    assert(g.pool@ == gpre.pool@.push(clue));
                    assert forall|k: int| 0 <= k < g.pool@.len() implies views_of(g.pool@)[k]
                        == views_of(gpre.pool@).push(cv)[k] by {
                        if k < gpre.pool@.len() {
                            assert(g.pool@[k] == gpre.pool@[k]);
                        } else {
                            assert(g.pool@[k] == clue);
                        }
                    }
                    assert(views_of(g.pool@) =~= views_of(gpre.pool@).push(cv));
                    assert(group_multiset(g) == group_multiset(gpre).insert(cv));
                }
                let ghost gnew = g;
                groups.set_and_swap(j, &mut g);
                proof {
                    assert(groups@ =~= pre.update(j as int, gnew));
                    assert(group_multiset(gnew) == group_multiset(pre[j as int]).insert(cv));
                    lemma_groups_multiset_update_insert(pre, j as int, gnew, cv);
                    assert(groups_multiset(groups@) == groups_multiset(pre).insert(cv));
                    assert(group_wf(gnew));
                }
            },
            Option::None => {
                let location = clue.location.clone();
                let mut pool: Vec<Clue> = Vec::new();
                pool.push(clue);
                let g = LocationGroup { location, pool };
                proof {
                    broadcast use group_to_multiset_ensures;
                    broadcast use vstd::multiset::group_multiset_axioms;

                    assert(views_of(g.pool@) =~= Seq::<ClueVal>::empty().push(cv));
                    assert(Seq::<ClueVal>::empty().to_multiset() =~= Multiset::<ClueVal>::empty());
                    assert(Seq::<ClueVal>::empty().push(cv).to_multiset() == Seq::<
                        ClueVal,
                    >::empty().to_multiset().insert(cv));
                    assert(group_multiset(g) =~= Multiset::<ClueVal>::empty().insert(cv));
                    assert(group_wf(g));
                }
                let ghost gg = g;
                groups.push(g);
                proof {
                    broadcast use vstd::multiset::group_multiset_axioms;

                    lemma_groups_multiset_push(pre, gg);
                    assert(groups@ =~= pre.push(gg));
                    assert(groups_multiset(groups@) == groups_multiset(pre).add(group_multiset(gg)));
                    assert(groups_multiset(groups@) =~= groups_multiset(pre).insert(cv));
                }
            },
        }
        proof {
            broadcast use group_to_multiset_ensures;
            broadcast use vstd::multiset::group_multiset_axioms;

            assert(clues.0@.take(i + 1) =~= clues.0@.take(i as int).push(clues.0@[i as int]));
            assert(views_of(clues.0@.take(i + 1)) =~= views_of(clues.0@.take(i as int)).push(
                clues.0@[i as int]@,
            ));
            assert(cv == clues.0@[i as int]@);
            assert(views_of(clues.0@.take(i as int)).push(cv).to_multiset() == views_of(
                clues.0@.take(i as int),
            ).to_multiset().insert(cv));
            assert(views_of(clues.0@.take(i + 1)).to_multiset() == views_of(
                clues.0@.take(i as int),
            ).to_multiset().insert(cv));
        }
        i += 1;
    }
    proof {
        assert(clues.0@.take(clues.0@.len() as int) =~= clues.0@);
        assert(views_of(clues.0@) =~= clues@);
    }
    groups
}

/// A deep copy of the groups, location by location, clue by clue.
fn clone_groups(groups: &Vec<LocationGroup>) -> (r: Vec<LocationGroup>)
    ensures
        r@.len() == groups@.len(),
        forall|i: int|
            0 <= i < r@.len() ==> (#[trigger] r@[i]).location@ == groups@[i].location@
                && views_of(r@[i].pool@) == views_of(groups@[i].pool@),
{
    let mut r: Vec<LocationGroup> = Vec::new();
    let mut i: usize = 0;
    while i < groups.len()
        invariant
            i <= groups@.len(),
            r@.len() == i,
            forall|k: int|
                0 <= k < i ==> (#[trigger] r@[k]).location@ == groups@[k].location@ && views_of(
                    r@[k].pool@,
                ) == views_of(groups@[k].pool@),
        decreases groups@.len() - i,
    {
        let g = LocationGroup {
            location: groups[i].location.clone(),
            pool: copy_clue_vec(&groups[i].pool),
        };
        proof {
            assert(views_of(g.pool@) =~= views_of(groups@[i as int].pool@));
        }
        r.push(g);
        i += 1;
    }
    r
}

/// The groups' locations, in group order.
fn group_keys(groups: &Vec<LocationGroup>) -> (r: Vec<String>)
    ensures
        r@.len() == groups@.len(),
        forall|i: int| 0 <= i < r@.len() ==> (#[trigger] r@[i])@ == groups@[i].location@,
{
    let mut r: Vec<String> = Vec::new();
    let mut i: usize = 0;
    while i < groups.len()
        invariant
            i <= groups@.len(),
            r@.len() == i,
            forall|k: int| 0 <= k < i ==> (#[trigger] r@[k])@ == groups@[k].location@,
        decreases groups@.len() - i,
    {
        r.push(groups[i].location.clone());
        i += 1;
    }
    r
}

/// The location is the key of some group.
pub open spec fn location_is_covered(l: String, gs: Seq<LocationGroup>) -> bool {
    exists|j: int| 0 <= j < gs.len() && l@ == (#[trigger] gs[j]).location@
}

/// Every listed location is the key of some group.
pub open spec fn locations_covered(locs: Seq<String>, gs: Seq<LocationGroup>) -> bool {
    forall|k: int| 0 <= k < locs.len() ==> location_is_covered(#[trigger] locs[k], gs)
}

/// A multiset-preserving reordering keeps every location covered.
pub proof fn lemma_locations_covered_reorder(
    locs1: Seq<String>,
    locs2: Seq<String>,
    gs: Seq<LocationGroup>,
)
    requires
        locs1.to_multiset() == locs2.to_multiset(),
        locations_covered(locs1, gs),
    ensures
        locations_covered(locs2, gs),
{
    broadcast use group_to_multiset_ensures;

    assert forall|k: int| 0 <= k < locs2.len() implies location_is_covered(
        #[trigger] locs2[k],
        gs,
    ) by {
        assert(locs2.contains(locs2[k]));
        assert(locs2.to_multiset().count(locs2[k]) > 0);
        assert(locs1.contains(locs2[k]));
        let m = choose|m: int| 0 <= m < locs1.len() && locs1[m] == locs2[k];
        assert(location_is_covered(locs1[m], gs));
        let j = choose|j: int| 0 <= j < gs.len() && locs1[m]@ == (#[trigger] gs[j]).location@;
        assert(locs2[k]@ == gs[j].location@);
    }
}

/// One pass-by-pass greedy search for a full ordering with no location
/// repeated back to back: pools are drained location by location in a
/// fresh shuffled order each pass, a clue only being placed when its
/// location differs from the last one placed. A pass that places
/// nothing means the remaining pool is dominated by the last location,
/// and the whole attempt is abandoned.
fn attempt_base_arrangement(
    groups: &Vec<LocationGroup>,
    n_clues: usize,
    rng: &mut rand::rngs::ThreadRng,
) -> (r: Option<Vec<Clue>>)
    requires
        groups_wf(groups@),
        groups_total_len(groups@) == n_clues,
    ensures
        r is Some ==> {
            &&& r->Some_0@.len() == n_clues
            &&& views_of(r->Some_0@).to_multiset() == groups_multiset(groups@)
            &&& no_adjacent_repeats(views_of(r->Some_0@))
        },
{
    let ghost total = groups_multiset(groups@);
    let mut pools = clone_groups(groups);
    proof {
        lemma_groups_multiset_congruence(pools@, groups@);
        assert forall|i: int| 0 <= i < pools@.len() implies group_wf(#[trigger] pools@[i]) by {
            assert(group_wf(groups@[i]));
            assert(views_of(pools@[i].pool@) == views_of(groups@[i].pool@));
            assert(views_of(pools@[i].pool@).len() == views_of(groups@[i].pool@).len());
            assert(pools@[i].pool@.len() == groups@[i].pool@.len());
            assert forall|k: int| 0 <= k < pools@[i].pool@.len() implies
                (#[trigger] pools@[i].pool@[k])@.location == pools@[i].location@ by {
                assert(views_of(pools@[i].pool@)[k] == pools@[i].pool@[k]@);
                assert(views_of(groups@[i].pool@)[k] == groups@[i].pool@[k]@);
                assert(groups@[i].pool@[k]@.location == groups@[i].location@);
            }
        }
        assert(groups_wf(pools@));
    }
    let mut locations = group_keys(&pools);
    let mut arrangement: Vec<Clue> = Vec::new();
    proof {
        broadcast use group_to_multiset_ensures;
        broadcast use vstd::multiset::group_multiset_axioms;

        assert(views_of(arrangement@) =~= Seq::<ClueVal>::empty());
        assert(views_of(arrangement@).to_multiset() =~= Multiset::<ClueVal>::empty());
        assert(views_of(arrangement@).to_multiset().add(groups_multiset(pools@)) =~= total);
        assert forall|k: int| 0 <= k < locations@.len() implies location_is_covered(
            #[trigger] locations@[k],
            pools@,
        ) by {
            assert(locations@[k]@ == pools@[k].location@);
        }
    }
    while arrangement.len() < n_clues
        invariant
            groups_wf(pools@),
            locations_covered(locations@, pools@),
            views_of(arrangement@).to_multiset().add(groups_multiset(pools@)) == total,
            arrangement@.len() + groups_total_len(pools@) == n_clues,
            no_adjacent_repeats(views_of(arrangement@)),
            total == groups_multiset(groups@),
        decreases n_clues - arrangement.len(),
    {
        let before = arrangement.len();
        let ghost locs_pre = locations@;
        shuffle(&mut locations, rng);
        proof {
            lemma_locations_covered_reorder(locs_pre, locations@, pools@);
        }
        let mut li: usize = 0;
        while li < locations.len()
            invariant
                groups_wf(pools@),
                locations_covered(locations@, pools@),
                views_of(arrangement@).to_multiset().add(groups_multiset(pools@)) == total,
                arrangement@.len() + groups_total_len(pools@) == n_clues,
                no_adjacent_repeats(views_of(arrangement@)),
                li <= locations@.len(),
                before <= arrangement@.len(),
            decreases locations@.len() - li,
        {
            let ghost pre = pools@;
            match find_group(&pools, &locations[li]) {
                Option::None => {
                    proof {
                        assert(location_is_covered(locations@[li as int], pools@));
                        let j = choose|j: int|
                            0 <= j < pools@.len() && locations@[li as int]@ == (#[trigger] pools@[
                                j
                            ]).location@;
                        assert(false);
                    }
                },
                Option::Some(j) => {
                    let mut g = LocationGroup { location: String::new(), pool: Vec::new() };
                    pools.set_and_swap(j, &mut g);
                    let n_placed = arrangement.len();
                    let take = g.pool.len() > 0 && (n_placed == 0 || !(
                    arrangement[n_placed - 1].location == g.location));
                    let ghost arr_pre = arrangement@;
                    let ghost took: Option<Clue> = Option::None;
                    if take {
                        match g.pool.pop() {
                            Option::Some(c) => {
                                proof {
                                    assert(group_wf(pre[j as int]));
                                    assert(c@.location == g.location@);
                                }
                                arrangement.push(c);
                                proof {
                                    broadcast use group_to_multiset_ensures;
                                    broadcast use vstd::multiset::group_multiset_axioms;

                                    assert(views_of(arrangement@) =~= views_of(arr_pre).push(c@));
                                    assert(no_adjacent_repeats(views_of(arrangement@))) by {
                                        let va = views_of(arr_pre);
                                        let vn = views_of(arrangement@);
                                        assert forall|x: int| 0 <= x && x + 1 < vn.len() implies (
                                        #[trigger] vn[x]).location != vn[x + 1].location by {
                                            if x + 1 < va.len() {
                                                assert(vn[x] == va[x] && vn[x + 1] == va[x + 1]);
                                            } else {
                                                assert(x == va.len() - 1);
                                                assert(vn[x] == va[x] && vn[x + 1] == c@);
                                                assert(va[x].location == arr_pre[x]@.location);
                                            }
                                        }
                                    }
                                }
                            },
                            Option::None => {
                                proof {
                                    assert(false);
                                }
                            },
                        }
                    }
                    let ghost gnew = g;
                    pools.set_and_swap(j, &mut g);
                    proof {
                        broadcast use group_to_multiset_ensures;
                        broadcast use vstd::multiset::group_multiset_axioms;

                        assert(pools@ =~= pre.update(j as int, gnew));
                        if take {
                            let c = arrangement@.last();
                            assert(pre[j as int].pool@ == gnew.pool@.push(c));
                            assert forall|k: int| 0 <= k < pre[j as int].pool@.len() implies
                                views_of(pre[j as int].pool@)[k] == views_of(gnew.pool@).push(
                                c@,
                            )[k] by {
                                if k < gnew.pool@.len() {
                                    assert(pre[j as int].pool@[k] == gnew.pool@[k]);
                                } else {
                                    assert(pre[j as int].pool@[k] == c);
                                }
                            }
                            assert(views_of(pre[j as int].pool@) =~= views_of(gnew.pool@).push(
                                c@,
                            ));
                            assert(group_multiset(pre[j as int]) == group_multiset(gnew).insert(
                                c@,
                            ));
                            lemma_groups_multiset_update_remove(pre, j as int, gnew, c@);
                            assert(groups_multiset(pre) == groups_multiset(pools@).insert(c@));
                            assert(views_of(arrangement@) =~= views_of(arr_pre).push(c@));
                            assert(views_of(arrangement@).to_multiset() == views_of(
                                arr_pre,
                            ).to_multiset().insert(c@));
                            assert(views_of(arrangement@).to_multiset().add(
                                groups_multiset(pools@),
                            ) =~= views_of(arr_pre).to_multiset().add(groups_multiset(pre)));
                            assert(group_wf(gnew)) by {
                                assert(group_wf(pre[j as int]));
                                assert(gnew.location@ == pre[j as int].location@);
                                assert forall|k: int| 0 <= k < gnew.pool@.len() implies (
                                #[trigger] gnew.pool@[k])@.location == gnew.location@ by {
                                    assert(gnew.pool@[k] == pre[j as int].pool@[k]);
                                }
                            }
                            assert(groups_wf(pools@));
                        } else {
                            assert(gnew == pre[j as int]);
                            assert(pools@ =~= pre);
                        }
                        assert(locations_covered(locations@, pools@)) by {
                            assert forall|k: int| 0 <= k < locations@.len() implies
                                location_is_covered(#[trigger] locations@[k], pools@) by {
                                assert(location_is_covered(locations@[k], pre));
                                let jj = choose|jj: int|
                                    0 <= jj < pre.len() && locations@[k]@ == (#[trigger] pre[
                                        jj
                                    ]).location@;
                                assert(pools@[jj].location@ == pre[jj].location@);
                                assert(locations@[k]@ == pools@[jj].location@);
                            }
                        }
                    }
                },
            }
            li += 1;
        }
        if arrangement.len() == before {
            // A full pass placed nothing: every remaining clue would
            // repeat the last location. Abandon this attempt.
            return None;
        }
    }
    proof {
        broadcast use vstd::multiset::group_multiset_axioms;

        assert(groups_total_len(pools@) == 0);
        lemma_groups_multiset_empty(pools@);
        assert(views_of(arrangement@).to_multiset() =~= total);
    }
    Some(arrangement)
}

/// Build one full ordering of the catalog in which no location repeats
/// back to back, retrying a bounded number of times; a catalog that
/// cannot be so ordered within the budget is rejected.
fn create_arrangement(
    groups: &Vec<LocationGroup>,
    n_clues: usize,
    rng: &mut rand::rngs::ThreadRng,
) -> (r: Result<Vec<Clue>, ArrangementGenerationError>)
    requires
        groups_wf(groups@),
        groups_total_len(groups@) == n_clues,
    ensures
        r is Ok ==> {
            &&& r->Ok_0@.len() == n_clues
            &&& views_of(r->Ok_0@).to_multiset() == groups_multiset(groups@)
            &&& no_adjacent_repeats(views_of(r->Ok_0@))
        },
{
    let mut n_attempts: usize = 0;
    loop
        invariant
            n_attempts < RETRY_BUDGET,
            groups_wf(groups@),
            groups_total_len(groups@) == n_clues,
        decreases RETRY_BUDGET - n_attempts,
    {
        match attempt_base_arrangement(groups, n_clues, rng) {
            Option::Some(arrangement) => {
                return Ok(arrangement);
            },
            Option::None => {
                n_attempts += 1;
                if n_attempts == RETRY_BUDGET {
                    return Err(ArrangementGenerationError);
                }
            },
        }
    }
}

/// The views of the used-location list.
pub open spec fn used_views(used: Seq<String>) -> Seq<Seq<char>> {
    used.map_values(|s: String| s@)
}

/// The previous location of an arrangement under construction: the
/// location of its last clue, if it has one.
pub open spec fn spec_prev_location(arr: Seq<Clue>) -> Option<Seq<char>> {
    if arr.len() == 0 {
        None
    } else {
        Some(arr[arr.len() - 1]@.location)
    }
}

/// The first queued clue whose location is neither already used at
/// this step nor the same as the previous location, in queue order.
pub open spec fn spec_pick_index(
    q: Seq<ClueVal>,
    used: Seq<Seq<char>>,
    prev: Option<Seq<char>>,
) -> Option<int>
    decreases q.len(),
{
    if q.len() == 0 {
        None
    } else if !used.contains(q[0].location) && Some(q[0].location) != prev {
        Some(0int)
    } else {
        match spec_pick_index(q.drop_first(), used, prev) {
            Some(i) => Some(i + 1),
            None => None,
        }
    }
}

pub proof fn lemma_spec_pick_index(q: Seq<ClueVal>, used: Seq<Seq<char>>, prev: Option<Seq<char>>)
    ensures
        match spec_pick_index(q, used, prev) {
            Some(i) => {
                &&& 0 <= i < q.len()
                &&& !used.contains(q[i].location)
                &&& Some(q[i].location) != prev
                &&& forall|k: int|
                    0 <= k < i ==> used.contains((#[trigger] q[k]).location) || Some(
                        q[k].location,
                    ) == prev
            },
            None => forall|k: int|
                0 <= k < q.len() ==> used.contains((#[trigger] q[k]).location) || Some(
                    q[k].location,
                ) == prev,
        },
    decreases q.len(),
{
    if q.len() > 0 && (used.contains(q[0].location) || Some(q[0].location) == prev) {
        let rest = q.drop_first();
        lemma_spec_pick_index(rest, used, prev);
        match spec_pick_index(rest, used, prev) {
            Option::Some(i) => {
                assert(q[i + 1] == rest[i]);
                assert forall|k: int|
                    0 <= k < i + 1 implies used.contains((#[trigger] q[k]).location) || Some(
                        q[k].location,
                    ) == prev by {
                    if k > 0 {
                        assert(rest[k - 1] == q[k]);
                    }
                }
            },
            Option::None => {
                assert forall|k: int|
                    0 <= k < q.len() implies used.contains((#[trigger] q[k]).location) || Some(
                        q[k].location,
                    ) == prev by {
                    if k > 0 {
                        assert(rest[k - 1] == q[k]);
                    }
                }
            },
        }
    }
}

/// Whether this location was already used at the current step.
fn location_used(used: &Vec<String>, location: &String) -> (r: bool)
    ensures
        r == used_views(used@).contains(location@),
{
    let mut i: usize = 0;
    while i < used.len()
        invariant
            i <= used@.len(),
            forall|k: int| 0 <= k < i ==> (#[trigger] used@[k])@ != location@,
        decreases used@.len() - i,
    {
        if used[i] == *location {
            proof {
                assert(used_views(used@)[i as int] == location@);
            }
            return true;
        }
        i += 1;
    }
    proof {
        if used_views(used@).contains(location@) {
            let k = choose|k: int|
                0 <= k < used_views(used@).len() && used_views(used@)[k] == location@;
            assert(used@[k]@ == location@);
        }
    }
    false
}

/// Scan the queue for the first clue that can be placed at this step.
fn find_pick(queue: &Vec<Clue>, used: &Vec<String>, arr: &Vec<Clue>) -> (r: Option<usize>)
    ensures
        ({
            let spec = spec_pick_index(
                views_of(queue@),
                used_views(used@),
                spec_prev_location(arr@),
            );
            match r {
                Option::Some(m) => Some(m as int) == spec,
                Option::None => spec is None,
            }
        }),
{
    let ghost q = views_of(queue@);
    let ghost u = used_views(used@);
    let ghost prev = spec_prev_location(arr@);
    proof {
        lemma_spec_pick_index(q, u, prev);
    }
    let mut m: usize = 0;
    while m < queue.len()
        invariant
            q == views_of(queue@),
            u == used_views(used@),
            prev == spec_prev_location(arr@),
            m <= q.len(),
            q.len() == queue@.len(),
            forall|k: int|
                0 <= k < m ==> u.contains((#[trigger] q[k]).location) || Some(q[k].location)
                    == prev,
        decreases q.len() - m,
    {
        let fresh = !location_used(used, &queue[m].location);
        let not_prev = if arr.len() == 0 {
            true
        } else {
            !(arr[arr.len() - 1].location == queue[m].location)
        };
        if fresh && not_prev {
            proof {
                assert(q[m as int] == queue@[m as int]@);
                assert(!u.contains(q[m as int].location));
                assert(Some(q[m as int].location) != prev);
                lemma_spec_pick_index(q, u, prev);
                match spec_pick_index(q, u, prev) {
                    Option::Some(i) => {
                        assert(!(i < m) && !(i > m));
                    },
                    Option::None => {
                        assert(false);
                    },
                }
            }
            return Some(m);
        }
        proof {
            assert(q[m as int] == queue@[m as int]@);
        }
        m += 1;
    }
    proof {
        lemma_spec_pick_index(q, u, prev);
        if spec_pick_index(q, u, prev) is Some {
            let i = spec_pick_index(q, u, prev)->Some_0;
            assert(u.contains(q[i].location) || Some(q[i].location) == prev);
            assert(false);
        }
    }
    None
}

/// Rotating the chosen clue out of the queue keeps every other queued
/// clue, in its old relative order.
pub proof fn lemma_rotation_multiset(q: Seq<Clue>, m: int)
    requires
        0 <= m < q.len(),
    ensures
        views_of(q.subrange(m + 1, q.len() as int) + q.subrange(0, m)).to_multiset().insert(
            q[m]@,
        ) == views_of(q).to_multiset(),
{
    broadcast use group_to_multiset_ensures;
    broadcast use vstd::multiset::group_multiset_axioms;

    let a = q.subrange(0, m);
    let b = q.subrange(m + 1, q.len() as int);
    let va = views_of(a);
    let vb = views_of(b);
    let vm = q[m]@;
    assert(views_of(q) =~= va + (seq![vm] + vb));
    lemma_multiset_commutative(va, seq![vm] + vb);
    lemma_multiset_commutative(seq![vm], vb);
    assert(seq![vm] =~= Seq::<ClueVal>::empty().push(vm));
    assert(Seq::<ClueVal>::empty().push(vm).to_multiset() == Seq::<
        ClueVal,
    >::empty().to_multiset().insert(vm));
    assert(Seq::<ClueVal>::empty().to_multiset() =~= Multiset::<ClueVal>::empty());
    assert(views_of(b + a) =~= vb + va);
    lemma_multiset_commutative(vb, va);
    assert(views_of(q.subrange(m + 1, q.len() as int) + q.subrange(0, m)).to_multiset().insert(
        vm,
    ) =~= views_of(q).to_multiset());
}

/// Take the first placeable clue out of the queue and append it to the
/// arrangement, marking its location used; clues scanned over on the
/// way keep their relative order at the back of the queue. With no
/// placeable clue everything is left unchanged.
fn pick_next(queue: &mut Vec<Clue>, arr: &mut Vec<Clue>, used: &mut Vec<String>) -> (ok: bool)
    ensures
        ({
            let q0 = old(queue)@;
            let spec = spec_pick_index(
                views_of(q0),
                used_views(old(used)@),
                spec_prev_location(old(arr)@),
            );
            &&& ok <==> spec is Some
            &&& if ok {
                let m = spec->Some_0;
                &&& final(queue)@ == q0.subrange(m + 1, q0.len() as int) + q0.subrange(0, m)
                &&& final(arr)@ == old(arr)@.push(q0[m])
                &&& used_views(final(used)@) == used_views(old(used)@).push(q0[m]@.location)
                &&& !used_views(old(used)@).contains(q0[m]@.location)
                &&& Some(q0[m]@.location) != spec_prev_location(old(arr)@)
            } else {
                &&& final(queue)@ == q0
                &&& final(arr)@ == old(arr)@
                &&& final(used)@ == old(used)@
            }
        }),
{
    let ghost q0 = queue@;
    let m = match find_pick(queue, used, arr) {
        Option::Some(m) => m,
        Option::None => {
            return false;
        },
    };
    proof {
        lemma_spec_pick_index(
            views_of(q0),
            used_views(used@),
            spec_prev_location(arr@),
        );
        assert(views_of(q0)[m as int] == q0[m as int]@);
    }
    let mut t: usize = 0;
    proof {
        assert(queue@ =~= q0.subrange(0, q0.len() as int) + q0.subrange(0, 0));
    }
    while t < m
        invariant
            t <= m,
            m < q0.len(),
            queue@.len() == q0.len(),
            queue@ == q0.subrange(t as int, q0.len() as int) + q0.subrange(0, t as int),
        decreases m - t,
    {
        let x = queue.remove(0);
        proof {
            assert(x == q0[t as int]);
        }
        queue.push(x);
        proof {
            assert(queue@ =~= q0.subrange(t + 1, q0.len() as int) + q0.subrange(0, t + 1));
        }
        t += 1;
    }
    let chosen = queue.remove(0);
    proof {
        assert(chosen == q0[m as int]);
        assert(queue@ =~= q0.subrange(m + 1, q0.len() as int) + q0.subrange(0, m as int));
    }
    let location = chosen.location.clone();
    arr.push(chosen);
    used.push(location);
    proof {
        assert(used_views(used@) =~= used_views(old(used)@).push(q0[m as int]@.location));
    }
    true
}

/// The views of a list of arrangements.
pub open spec fn clues_views(s: Seq<Clues>) -> Seq<Seq<ClueVal>> {
    s.map_values(|c: Clues| c@)
}

/// Reordering a clue list reorders its views: the view multiset only
/// depends on the value multiset.
pub proof fn lemma_views_multiset_reorder(s1: Seq<Clue>, s2: Seq<Clue>)
    requires
        s1.to_multiset() == s2.to_multiset(),
    ensures
        views_of(s1).to_multiset() == views_of(s2).to_multiset(),
    decreases s1.len(),
{
    broadcast use group_to_multiset_ensures;
    broadcast use vstd::multiset::group_multiset_axioms;

    assert(s1.len() == s1.to_multiset().len());
    assert(s2.len() == s2.to_multiset().len());
    if s1.len() == 0 {
        assert(views_of(s1) =~= views_of(s2));
    } else {
        let x = s1[s1.len() - 1];
        assert(s1.contains(x));
        assert(s1.to_multiset().count(x) > 0);
        assert(s2.contains(x));
        let j = choose|j: int| 0 <= j < s2.len() && s2[j] == x;
        let s1r = s1.remove(s1.len() - 1);
        let s2r = s2.remove(j);
        assert(s1r.to_multiset() == s1.to_multiset().remove(x));
        assert(s2r.to_multiset() == s2.to_multiset().remove(x));
        lemma_views_multiset_reorder(s1r, s2r);
        assert(views_of(s1) =~= views_of(s1r).push(x@));
        assert(views_of(s1r).push(x@).to_multiset() == views_of(s1r).to_multiset().insert(x@));
        assert(views_of(s2r) =~= views_of(s2).remove(j));
        assert(views_of(s2).remove(j).to_multiset() == views_of(s2).to_multiset().remove(
            views_of(s2)[j],
        ));
        assert(views_of(s2)[j] == x@);
        assert(views_of(s2).contains(views_of(s2)[j]));
        assert(views_of(s2).to_multiset().count(x@) > 0);
        assert(views_of(s1).to_multiset() =~= views_of(s2).to_multiset());
    }
}

/// One successful pick advances an arrangement by one clue: the clue
/// moves from the queue to the arrangement, the no-repeat rule is kept,
/// and together they still hold the same clues.
pub proof fn lemma_advance(
    arr_pre: Seq<Clue>,
    arr_post: Seq<Clue>,
    q_pre: Seq<Clue>,
    q_post: Seq<Clue>,
    m: int,
    bms: Multiset<ClueVal>,
)
    requires
        0 <= m < q_pre.len(),
        arr_post == arr_pre.push(q_pre[m]),
        q_post == q_pre.subrange(m + 1, q_pre.len() as int) + q_pre.subrange(0, m),
        views_of(arr_pre).to_multiset().add(views_of(q_pre).to_multiset()) == bms,
        no_adjacent_repeats(views_of(arr_pre)),
        Some(q_pre[m]@.location) != spec_prev_location(arr_pre),
    ensures
        views_of(arr_post).to_multiset().add(views_of(q_post).to_multiset()) == bms,
        no_adjacent_repeats(views_of(arr_post)),
        views_of(arr_post) == views_of(arr_pre).push(q_pre[m]@),
        arr_post.len() == arr_pre.len() + 1,
        q_post.len() == q_pre.len() - 1,
{
    broadcast use group_to_multiset_ensures;
    broadcast use vstd::multiset::group_multiset_axioms;

    let x = q_pre[m]@;
    assert(views_of(arr_post) =~= views_of(arr_pre).push(x));
    assert(views_of(arr_pre).push(x).to_multiset() == views_of(arr_pre).to_multiset().insert(x));
    lemma_rotation_multiset(q_pre, m);
    assert(views_of(arr_post).to_multiset().add(views_of(q_post).to_multiset()) =~= bms);
    let va = views_of(arr_pre);
    let vn = views_of(arr_post);
    assert forall|i: int| 0 <= i && i + 1 < vn.len() implies (#[trigger] vn[i]).location != vn[
        i + 1
    ].location by {
        if i + 1 < va.len() {
            assert(vn[i] == va[i] && vn[i + 1] == va[i + 1]);
        } else {
            assert(i == va.len() - 1);
            assert(vn[i] == va[i] && vn[i + 1] == x);
            assert(spec_prev_location(arr_pre) == Some(arr_pre[i]@.location));
            assert(va[i] == arr_pre[i]@);
        }
    }
}

/// One attempt at deriving three more arrangements from the base, so
/// that at each step all four stand at pairwise different locations
/// while each still never repeats its own previous location. The base
/// itself is arrangement 0 and is consumed in its given order; the
/// others draw from independently shuffled queues, always taking the
/// first queued clue that is allowed at the step. When some queue has
/// no allowed clue the whole attempt is abandoned.
fn attempt_variants(base: &Vec<Clue>, rng: &mut rand::rngs::ThreadRng) -> (r: Option<Vec<Clues>>)
    requires
        no_adjacent_repeats(views_of(base@)),
    ensures
        r is Some ==> {
            let arrs = clues_views(r->Some_0@);
            &&& arrs.len() == CONSTRUCTED_ARRANGEMENTS
            &&& arrs[0] == views_of(base@)
            &&& forall|i: int|
                0 <= i < arrs.len() ==> (#[trigger] arrs[i]).to_multiset() == views_of(
                    base@,
                ).to_multiset()
            &&& forall|i: int| 0 <= i < arrs.len() ==> no_adjacent_repeats(#[trigger] arrs[i])
            &&& forall|i: int| 0 <= i < arrs.len() ==> (#[trigger] arrs[i]).len() == base@.len()
            &&& distinct_locations_at_each_position(arrs)
        },
{
    broadcast use group_to_multiset_ensures;
    broadcast use vstd::multiset::group_multiset_axioms;

    let ghost vbase = views_of(base@);
    let ghost bms = views_of(base@).to_multiset();
    let n = base.len();

    let mut q0 = copy_clue_vec(base);
    let mut q1 = copy_clue_vec(base);
    let mut q2 = copy_clue_vec(base);
    let mut q3 = copy_clue_vec(base);
    proof {
        assert(views_of(q0@) =~= vbase);
        assert(views_of(q1@) =~= vbase);
        assert(views_of(q2@) =~= vbase);
        assert(views_of(q3@) =~= vbase);
    }
    let ghost q1_pre_shuffle = q1@;
    let ghost q2_pre_shuffle = q2@;
    let ghost q3_pre_shuffle = q3@;
    shuffle(&mut q1, rng);
    shuffle(&mut q2, rng);
    shuffle(&mut q3, rng);
    proof {
        lemma_views_multiset_reorder(q1_pre_shuffle, q1@);
        lemma_views_multiset_reorder(q2_pre_shuffle, q2@);
        lemma_views_multiset_reorder(q3_pre_shuffle, q3@);
        assert(q1@.len() == q1@.to_multiset().len() == q1_pre_shuffle.to_multiset().len());
        assert(q2@.len() == q2@.to_multiset().len() == q2_pre_shuffle.to_multiset().len());
        assert(q3@.len() == q3@.to_multiset().len() == q3_pre_shuffle.to_multiset().len());
        assert(views_of(q1@).len() == q1@.len());
    }

    let mut a0: Vec<Clue> = Vec::new();
    let mut a1: Vec<Clue> = Vec::new();
    let mut a2: Vec<Clue> = Vec::new();
    let mut a3: Vec<Clue> = Vec::new();
    proof {
        assert(views_of(a0@) =~= Seq::<ClueVal>::empty());
        assert(views_of(a0@).to_multiset() =~= Multiset::<ClueVal>::empty());
        assert(views_of(a0@) =~= vbase.take(0));
        assert(views_of(q0@) =~= vbase.skip(0));
        assert(views_of(a0@).to_multiset().add(views_of(q1@).to_multiset()) =~= bms);
    }

    let mut pos: usize = 0;
    while pos < n
        invariant
            n == base@.len(),
            vbase == views_of(base@),
            bms == vbase.to_multiset(),
            no_adjacent_repeats(vbase),
            pos <= n,
            a0@.len() == pos && a1@.len() == pos && a2@.len() == pos && a3@.len() == pos,
            q0@.len() == n - pos && q1@.len() == n - pos && q2@.len() == n - pos && q3@.len() == n
                - pos,
            views_of(a0@) == vbase.take(pos as int),
            views_of(q0@) == vbase.skip(pos as int),
            views_of(a1@).to_multiset().add(views_of(q1@).to_multiset()) == bms,
            views_of(a2@).to_multiset().add(views_of(q2@).to_multiset()) == bms,
            views_of(a3@).to_multiset().add(views_of(q3@).to_multiset()) == bms,
            no_adjacent_repeats(views_of(a1@)),
            no_adjacent_repeats(views_of(a2@)),
            no_adjacent_repeats(views_of(a3@)),
            forall|p: int|
                0 <= p < pos ==> (#[trigger] views_of(a0@)[p]).location != views_of(a1@)[p].location,
            forall|p: int|
                0 <= p < pos ==> (#[trigger] views_of(a0@)[p]).location != views_of(a2@)[p].location,
            forall|p: int|
                0 <= p < pos ==> (#[trigger] views_of(a0@)[p]).location != views_of(a3@)[p].location,
            forall|p: int|
                0 <= p < pos ==> (#[trigger] views_of(a1@)[p]).location != views_of(a2@)[p].location,
            forall|p: int|
                0 <= p < pos ==> (#[trigger] views_of(a1@)[p]).location != views_of(a3@)[p].location,
            forall|p: int|
                0 <= p < pos ==> (#[trigger] views_of(a2@)[p]).location != views_of(a3@)[p].location,
        decreases n - pos,
    {
        broadcast use group_to_multiset_ensures;
        broadcast use vstd::multiset::group_multiset_axioms;

        let ghost a0_pre = a0@;
        let ghost q0_pre = q0@;
        // Arrangement 0 takes its next clue exactly as the base lays
        // it out, and claims that location for this step.
        let c = q0.remove(0);
        proof {
            assert(c == q0_pre[0]);
            assert(c@ == views_of(q0_pre)[0]);
            assert(c@ == vbase[pos as int]);
        }
        let loc0 = c.location.clone();
        a0.push(c);
        let mut used: Vec<String> = Vec::new();
        used.push(loc0);
        proof {
            assert(views_of(a0@) =~= vbase.take(pos + 1));
            assert(q0@.len() == q0_pre.len() - 1);
            assert forall|k: int| 0 <= k < q0@.len() implies views_of(q0@)[k] == vbase.skip(
                pos + 1,
            )[k] by {
                assert(q0@[k] == q0_pre[k + 1]);
                assert(views_of(q0_pre)[k + 1] == q0_pre[k + 1]@);
                assert(views_of(q0_pre)[k + 1] == vbase.skip(pos as int)[k + 1]);
                assert(vbase.skip(pos as int)[k + 1] == vbase[pos + 1 + k]);
                assert(vbase.skip(pos + 1)[k] == vbase[pos + 1 + k]);
            }
            assert(views_of(q0@) =~= vbase.skip(pos + 1));
            assert(used_views(used@) =~= Seq::<Seq<char>>::empty().push(vbase[pos as int].location));
            assert(used_views(used@)[0] == vbase[pos as int].location);
            assert(used_views(used@).len() == 1);
        }

        // Each later arrangement takes its first queued clue whose
        // location is free this step and differs from its own last.
        let ghost a1_pre = a1@;
        let ghost q1_pre = q1@;
        let ghost used1_pre = used_views(used@);
        let ok1 = pick_next(&mut q1, &mut a1, &mut used);
        if !ok1 {
            return None;
        }
        let ghost m1 = spec_pick_index(
            views_of(q1_pre),
            used1_pre,
            spec_prev_location(a1_pre),
        )->Some_0;
        proof {
            lemma_spec_pick_index(views_of(q1_pre), used1_pre, spec_prev_location(a1_pre));
            assert(views_of(q1_pre)[m1] == q1_pre[m1]@);
            lemma_advance(a1_pre, a1@, q1_pre, q1@, m1, bms);
        }
        let ghost l1 = q1_pre[m1]@.location;

        let ghost a2_pre = a2@;
        let ghost q2_pre = q2@;
        let ghost used2_pre = used_views(used@);
        let ok2 = pick_next(&mut q2, &mut a2, &mut used);
        if !ok2 {
            return None;
        }
        let ghost m2 = spec_pick_index(
            views_of(q2_pre),
            used2_pre,
            spec_prev_location(a2_pre),
        )->Some_0;
        proof {
            lemma_spec_pick_index(views_of(q2_pre), used2_pre, spec_prev_location(a2_pre));
            assert(views_of(q2_pre)[m2] == q2_pre[m2]@);
            lemma_advance(a2_pre, a2@, q2_pre, q2@, m2, bms);
        }
        let ghost l2 = q2_pre[m2]@.location;

        let ghost a3_pre = a3@;
        let ghost q3_pre = q3@;
        let ghost used3_pre = used_views(used@);
        let ok3 = pick_next(&mut q3, &mut a3, &mut used);
        if !ok3 {
            return None;
        }
        let ghost m3 = spec_pick_index(
            views_of(q3_pre),
            used3_pre,
            spec_prev_location(a3_pre),
        )->Some_0;
        proof {
            lemma_spec_pick_index(views_of(q3_pre), used3_pre, spec_prev_location(a3_pre));
            assert(views_of(q3_pre)[m3] == q3_pre[m3]@);
            lemma_advance(a3_pre, a3@, q3_pre, q3@, m3, bms);
        }
        let ghost l3 = q3_pre[m3]@.location;

        proof {
            let l0 = vbase[pos as int].location;
            // the used list grows by each chosen location in turn, so
            // the four locations of this step are pairwise distinct
            assert(used1_pre[0] == l0);
            assert(used2_pre =~= used1_pre.push(l1));
            assert(used3_pre =~= used2_pre.push(l2));
            assert(!used1_pre.contains(l1));
            assert(!used2_pre.contains(l2));
            assert(!used3_pre.contains(l3));
            assert(l1 != l0) by {
                assert(used1_pre[0] == l0);
            }
            assert(used2_pre[0] == l0 && used2_pre[1] == l1);
            assert(l2 != l0 && l2 != l1);
            assert(used3_pre[0] == l0 && used3_pre[1] == l1 && used3_pre[2] == l2);
            assert(l3 != l0 && l3 != l1 && l3 != l2);

            assert(views_of(a0@)[pos as int].location == l0);
            assert(views_of(a1@) == views_of(a1_pre).push(q1_pre[m1]@));
            assert(views_of(a1@)[pos as int].location == l1);
            assert(views_of(a2@)[pos as int].location == l2);
            assert(views_of(a3@)[pos as int].location == l3);
            assert(forall|p: int|
                0 <= p < pos ==> (#[trigger] views_of(a1@)[p]) == views_of(a1_pre)[p]);
            assert(forall|p: int|
                0 <= p < pos ==> (#[trigger] views_of(a2@)[p]) == views_of(a2_pre)[p]);
            assert(forall|p: int|
                0 <= p < pos ==> (#[trigger] views_of(a3@)[p]) == views_of(a3_pre)[p]);
            assert(forall|p: int|
                0 <= p < pos ==> (#[trigger] views_of(a0@)[p]) == views_of(a0_pre)[p]);
        }
        pos += 1;
    }
    proof {
        assert(views_of(a0@) =~= vbase);
        assert(views_of(a0@).to_multiset() == bms);
        assert(views_of(q1@) =~= Seq::<ClueVal>::empty());
        assert(views_of(q1@).to_multiset() =~= Multiset::<ClueVal>::empty());
        assert(views_of(q2@).to_multiset() =~= Multiset::<ClueVal>::empty());
        assert(views_of(q3@).to_multiset() =~= Multiset::<ClueVal>::empty());
        assert(views_of(a1@).to_multiset() =~= bms);
        assert(views_of(a2@).to_multiset() =~= bms);
        assert(views_of(a3@).to_multiset() =~= bms);
    }
    let mut inner: Vec<Clues> = Vec::new();
    let ghost va0 = views_of(a0@);
    let ghost va1 = views_of(a1@);
    let ghost va2 = views_of(a2@);
    let ghost va3 = views_of(a3@);
    inner.push(Clues(a0));
    inner.push(Clues(a1));
    inner.push(Clues(a2));
    inner.push(Clues(a3));
    proof {
        let arrs = clues_views(inner@);
        assert(arrs.len() == 4);
        assert(arrs[0] == va0 && arrs[1] == va1 && arrs[2] == va2 && arrs[3] == va3);
        assert(distinct_locations_at_each_position(arrs)) by {
            assert forall|a: int, b: int, p: int|
                #![trigger arrs[a][p], arrs[b][p]]
                0 <= a < b < arrs.len() && 0 <= p < arrs[a].len() && 0 <= p < arrs[b].len()
                    implies arrs[a][p].location != arrs[b][p].location by {
                assert(va0.len() == base@.len());
            }
        }
    }
    Some(inner)
}

/// The first few clue orderings for a hunt: arrangement 0 is a base
/// ordering that never repeats a location back to back, and the later
/// ones additionally avoid standing at another team's location at any
/// step.
pub struct Arrangements {
    inner: Vec<Clues>,
}

impl View for Arrangements {
    type V = Seq<Seq<ClueVal>>;

    closed spec fn view(&self) -> Seq<Seq<ClueVal>> {
        clues_views(self.inner@)
    }
}

impl Arrangements {
    /// Every constructed arrangement holds exactly the clues of the
    /// first one.
    pub open spec fn wf(self) -> bool {
        forall|i: int|
            0 <= i < self@.len() ==> (#[trigger] self@[i]).to_multiset() == self@[0].to_multiset()
    }

    /// Build the cross-team arrangements for a catalog. Each holds the
    /// whole catalog exactly once, none repeats a location back to
    /// back, and no two put a team at the same location at the same
    /// step. Fails only when the retry budget runs out, which marks
    /// the catalog itself as unusable.
    pub fn new(clues: Clues, rng: &mut rand::rngs::ThreadRng) -> (r: Result<
        Arrangements,
        ArrangementGenerationError,
    >)
        ensures
            r is Ok ==> {
                let arrs = r->Ok_0@;
                &&& r->Ok_0.wf()
                &&& arrs.len() == CONSTRUCTED_ARRANGEMENTS
                &&& forall|i: int|
                    0 <= i < arrs.len() ==> (#[trigger] arrs[i]).to_multiset()
                        == clues@.to_multiset()
                &&& forall|i: int|
                    0 <= i < arrs.len() ==> (#[trigger] arrs[i]).len() == clues@.len()
                &&& forall|i: int| 0 <= i < arrs.len() ==> no_adjacent_repeats(#[trigger] arrs[i])
                &&& distinct_locations_at_each_position(arrs)
            },
    {
        broadcast use group_to_multiset_ensures;

        let n_clues = clues.0.len();
        let groups = group_by_location(&clues);
        let base = match create_arrangement(&groups, n_clues, rng) {
            Result::Ok(base) => base,
            Result::Err(e) => {
                return Err(e);
            },
        };
        proof {
            assert(views_of(base@).to_multiset() == clues@.to_multiset());
            assert(views_of(base@).to_multiset().len() == views_of(base@).len());
            assert(clues@.to_multiset().len() == clues@.len());
        }
        let mut n_attempts: usize = 0;
        loop
            invariant
                n_attempts < RETRY_BUDGET,
                no_adjacent_repeats(views_of(base@)),
                views_of(base@).to_multiset() == clues@.to_multiset(),
                views_of(base@).len() == clues@.len(),
            decreases RETRY_BUDGET - n_attempts,
        {
            match attempt_variants(&base, rng) {
                Option::Some(inner) => {
                    let r = Arrangements { inner };
                    proof {
                        assert(r@ == clues_views(inner@));
                    }
                    return Ok(r);
                },
                Option::None => {
                    n_attempts += 1;
                    if n_attempts == RETRY_BUDGET {
                        return Err(ArrangementGenerationError);
                    }
                },
            }
        }
    }

    /// Hand the arrangements over to a pull-based generator that
    /// yields them in order and then endless fresh shuffles of the
    /// first one.
    pub fn iterator(self) -> (g: CluesGenerator)
        requires
            self@.len() > 0,
            self.wf(),
        ensures
            g.wf(),
            g.spec_queued() == self@,
            g.spec_catalog() == self@[0].to_multiset(),
            g.spec_yielded() == 0,
    {
        let base = self.inner[0].duplicate();
        CluesGenerator { queued: self.inner, base, yielded: 0 }
    }
}

/// A pull-based, conceptually endless source of arrangements: first
/// the constructed ones, in order, then a fresh random shuffle of the
/// base arrangement on every further pull.
pub struct CluesGenerator {
    queued: Vec<Clues>,
    base: Clues,
    yielded: usize,
}

impl CluesGenerator {
    /// The constructed arrangements this generator started from.
    pub closed spec fn spec_queued(self) -> Seq<Seq<ClueVal>> {
        clues_views(self.queued@)
    }

    /// The catalog every yielded arrangement holds.
    pub closed spec fn spec_catalog(self) -> Multiset<ClueVal> {
        self.base@.to_multiset()
    }

    /// How many arrangements have been pulled so far.
    pub closed spec fn spec_yielded(self) -> int {
        self.yielded as int
    }

    /// Every queued arrangement and the shuffling base hold the same
    /// clues.
    pub closed spec fn wf(self) -> bool {
        forall|i: int|
            0 <= i < self.spec_queued().len() ==> (#[trigger] self.spec_queued()[i]).to_multiset()
                == self.spec_catalog()
    }

    /// Pull the next arrangement. Each one holds exactly the catalog's
    /// clues; the first pulls yield the constructed arrangements in
    /// order, all later ones a fresh shuffle of the base.
    pub fn next(&mut self, rng: &mut rand::rngs::ThreadRng) -> (c: Clues)
        requires
            old(self).wf(),
        ensures
            final(self).wf(),
            final(self).spec_queued() == old(self).spec_queued(),
            final(self).spec_catalog() == old(self).spec_catalog(),
            c@.to_multiset() == old(self).spec_catalog(),
            old(self).spec_yielded() < old(self).spec_queued().len() ==> {
                &&& c@ == old(self).spec_queued()[old(self).spec_yielded()]
                &&& final(self).spec_yielded() == old(self).spec_yielded() + 1
            },
            old(self).spec_yielded() >= old(self).spec_queued().len()
                ==> final(self).spec_yielded() == old(self).spec_yielded(),
    {
        if self.yielded < self.queued.len() {
            let c = self.queued[self.yielded].duplicate();
            self.yielded = self.yielded + 1;
            proof {
                assert(c@ == self.spec_queued()[self.yielded - 1]);
            }
            c
        } else {
            let ghost base_pre = self.base.0@;
            shuffle(&mut self.base.0, rng);
            proof {
                lemma_views_multiset_reorder(base_pre, self.base.0@);
                assert(views_of(base_pre) =~= old(self).base@);
                assert(views_of(self.base.0@) =~= self.base@);
            }
            self.base.duplicate()
        }
    }
}

} // verus!
