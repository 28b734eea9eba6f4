//! What holds of every sorting of games and every plan of moves.
use vstd::prelude::*;
use vstd::multiset::Multiset;
use crate::model::{Game, Rom, Romfile};
use crate::path::{extension, file_name, is_plain_name, join, law_join_file_name, with_extension};
use crate::sort_roms::{
    game_moves, moves_upto, by_regions, by_unwanted, first_in_region, games_outcome, group_outcome, groups_outcome,
    in_regions, is_unwanted, lemma_first_in_region, members_of, preferred_pick, strictly_sorted,
    without, sort_directories_spec, new_path, unwanted_keywords_spec, keyword_if, UnwantedFlags, join_with, unwanted_pattern,
};
use crate::text::{contains, lemma_lex_irreflexive, occurs_at};

verus! {

broadcast use vstd::seq_lib::group_to_multiset_ensures, vstd::multiset::group_multiset_axioms;

/// Splitting by unwantedness loses and adds no game.
proof fn lemma_by_unwanted_multiset(gs: Seq<Game>, u: Option<Seq<char>>)
    ensures
        by_unwanted(gs, u, true).to_multiset().add(by_unwanted(gs, u, false).to_multiset())
            =~= gs.to_multiset(),
    decreases gs.len(),
{
    if gs.len() > 0 {
        lemma_by_unwanted_multiset(gs.drop_last(), u);
        assert(gs =~= gs.drop_last().push(gs.last()));
        vstd::seq_lib::to_multiset_build(gs.drop_last(), gs.last());
        vstd::seq_lib::to_multiset_build(by_unwanted(gs.drop_last(), u, true), gs.last());
        vstd::seq_lib::to_multiset_build(by_unwanted(gs.drop_last(), u, false), gs.last());
    }
}

/// Splitting by regions loses and adds no game.
proof fn lemma_by_regions_multiset(gs: Seq<Game>, regions: Seq<Seq<char>>)
    ensures
        by_regions(gs, regions, true).to_multiset().add(by_regions(gs, regions, false).to_multiset())
            =~= gs.to_multiset(),
    decreases gs.len(),
{
    if gs.len() > 0 {
        lemma_by_regions_multiset(gs.drop_last(), regions);
        assert(gs =~= gs.drop_last().push(gs.last()));
        vstd::seq_lib::to_multiset_build(gs.drop_last(), gs.last());
        vstd::seq_lib::to_multiset_build(by_regions(gs.drop_last(), regions, true), gs.last());
        vstd::seq_lib::to_multiset_build(by_regions(gs.drop_last(), regions, false), gs.last());
    }
}

/// The games of `by_unwanted` have the unwantedness asked for and come from `gs`.
proof fn lemma_by_unwanted_elems(gs: Seq<Game>, u: Option<Seq<char>>, want: bool)
    ensures
        forall|k: int|
            0 <= k < by_unwanted(gs, u, want).len() ==> is_unwanted(u, #[trigger] by_unwanted(gs, u, want)[k])
                == want && gs.contains(by_unwanted(gs, u, want)[k]),
    decreases gs.len(),
{
    if gs.len() > 0 {
        lemma_by_unwanted_elems(gs.drop_last(), u, want);
        let prev = by_unwanted(gs.drop_last(), u, want);
        assert forall|k: int| 0 <= k < prev.len() implies gs.contains(#[trigger] prev[k]) by {
            let j = choose|j: int| 0 <= j < gs.drop_last().len() && gs.drop_last()[j] == prev[k];
            assert(gs[j] == prev[k]);
        }
        assert(gs[gs.len() - 1] == gs.last());
    }
}

/// The games of `by_regions` have the region membership asked for and come from `gs`.
proof fn lemma_by_regions_elems(gs: Seq<Game>, regions: Seq<Seq<char>>, inside: bool)
    ensures
        forall|k: int|
            0 <= k < by_regions(gs, regions, inside).len() ==> in_regions(
                #[trigger] by_regions(gs, regions, inside)[k],
                regions,
            ) == inside && gs.contains(by_regions(gs, regions, inside)[k]),
    decreases gs.len(),
{
    if gs.len() > 0 {
        lemma_by_regions_elems(gs.drop_last(), regions, inside);
        let prev = by_regions(gs.drop_last(), regions, inside);
        assert forall|k: int| 0 <= k < prev.len() implies gs.contains(#[trigger] prev[k]) by {
            let j = choose|j: int| 0 <= j < gs.drop_last().len() && gs.drop_last()[j] == prev[k];
            assert(gs[j] == prev[k]);
        }
        assert(gs[gs.len() - 1] == gs.last());
    }
}

/// The preferred pick is a valid index of a game in one of the ordered regions.
proof fn lemma_pick_in_region(gs: Seq<Game>, ordered: Seq<Seq<char>>)
    ensures
        preferred_pick(gs, ordered) matches Some(i) ==> 0 <= i < gs.len() && in_regions(gs[i], ordered),
    decreases ordered.len(),
{
    if ordered.len() > 0 {
        lemma_first_in_region(gs, ordered[0]);
        lemma_pick_in_region(gs, ordered.drop_first());
        if let Some(i) = first_in_region(gs, ordered[0]) {
            assert(contains(gs[i].regions@, ordered[0]));
        } else if let Some(i) = preferred_pick(gs, ordered.drop_first()) {
            let k = choose|k: int| 0 <= k < ordered.drop_first().len() && contains(gs[i].regions@, #[trigger] ordered.drop_first()[k]);
            assert(ordered.drop_first()[k] == ordered[k + 1]);
        }
    }
}

/// The game of a group that 1G1R keeps is in the first of the ordered regions
/// that any of the group's games is in, and is the first of them in it; where
/// none is in any of the ordered regions, no game is kept.
pub proof fn law_pick_is_most_preferred(gs: Seq<Game>, ordered: Seq<Seq<char>>)
    ensures
        preferred_pick(gs, ordered) matches Some(i) ==> exists|k: int|
            0 <= k < ordered.len() && {
                &&& 0 <= i < gs.len()
                &&& contains(gs[i].regions@, #[trigger] ordered[k])
                &&& forall|j: int| 0 <= j < i ==> !contains(gs[j].regions@, ordered[k])
                &&& forall|k2: int, j: int|
                    0 <= k2 < k && 0 <= j < gs.len() ==> !contains(gs[j].regions@, ordered[k2])
            },
        preferred_pick(gs, ordered) is None ==> forall|k: int, j: int|
            0 <= k < ordered.len() && 0 <= j < gs.len() ==> !contains(gs[j].regions@, ordered[k]),
    decreases ordered.len(),
{
    if ordered.len() > 0 {
        lemma_first_in_region(gs, ordered[0]);
        law_pick_is_most_preferred(gs, ordered.drop_first());
        let rest = ordered.drop_first();
        assert forall|k: int| 0 <= k < rest.len() implies rest[k] == ordered[k + 1] by {}
        match first_in_region(gs, ordered[0]) {
            Some(i) => {
                assert(0 <= 0 < ordered.len() && contains(gs[i].regions@, ordered[0]));
            },
            None => {
                if let Some(i) = preferred_pick(gs, rest) {
                    let k = choose|k: int|
                        0 <= k < rest.len() && {
                            &&& 0 <= i < gs.len()
                            &&& contains(gs[i].regions@, #[trigger] rest[k])
                            &&& forall|j: int| 0 <= j < i ==> !contains(gs[j].regions@, rest[k])
                            &&& forall|k2: int, j: int|
                                0 <= k2 < k && 0 <= j < gs.len() ==> !contains(gs[j].regions@, rest[k2])
                        };
                    assert(contains(gs[i].regions@, ordered[k + 1]));
                    assert forall|k2: int, j: int|
                        0 <= k2 < k + 1 && 0 <= j < gs.len() implies !contains(gs[j].regions@, ordered[k2]) by {
                        if k2 > 0 {
                            assert(ordered[k2] == rest[k2 - 1]);
                        }
                    }
                } else {
                    assert forall|k: int, j: int|
                        0 <= k < ordered.len() && 0 <= j < gs.len() implies !contains(gs[j].regions@, ordered[k]) by {
                        if k > 0 {
                            assert(ordered[k] == rest[k - 1]);
                        }
                    }
                }
            },
        }
    }
}

/// Sorting a group loses and adds no game.
proof fn lemma_group_multiset(
    members: Seq<Game>,
    ordered: Seq<Seq<char>>,
    regions: Seq<Seq<char>>,
    u: Option<Seq<char>>,
)
    ensures
        ({
            let o = group_outcome(members, ordered, regions, u);
            (o.0 + o.1 + o.2).to_multiset() =~= members.to_multiset()
        }),
{
    let kept = by_unwanted(members, u, false);
    lemma_by_unwanted_multiset(members, u);
    lemma_pick_in_region(kept, ordered);
    let o = group_outcome(members, ordered, regions, u);
    let rest = match preferred_pick(kept, ordered) {
        Some(i) => without(kept, i),
        None => kept,
    };
    lemma_by_regions_multiset(rest, regions);
    vstd::seq_lib::lemma_multiset_commutative(by_unwanted(members, u, true), by_regions(rest, regions, false));
    match preferred_pick(kept, ordered) {
        Some(i) => {
            assert(rest =~= kept.remove(i));
            vstd::seq_lib::to_multiset_remove(kept, i);
            assert(kept.contains(kept[i]));
            assert(o.1 =~= Seq::<Game>::empty().push(kept[i]));
            vstd::seq_lib::to_multiset_build(Seq::<Game>::empty(), kept[i]);
            assert(kept.to_multiset() =~= rest.to_multiset().insert(kept[i]));
        },
        None => {
            assert(o.1 =~= Seq::<Game>::empty());
        },
    }
    vstd::seq_lib::lemma_multiset_commutative(o.0, o.1);
    vstd::seq_lib::lemma_multiset_commutative(o.0 + o.1, o.2);
}

/// Sorting the games of a system outside 1G1R mode puts every game into
/// exactly one of the three lists: none is lost and none is added.
pub proof fn law_sort_games_keeps_every_game(gs: Seq<Game>, regions: Seq<Seq<char>>, u: Option<Seq<char>>)
    ensures
        ({
            let o = games_outcome(gs, regions, u);
            (o.0 + o.1 + o.2).to_multiset() == gs.to_multiset()
        }),
{
    let o = games_outcome(gs, regions, u);
    let kept = by_unwanted(gs, u, false);
    lemma_by_unwanted_multiset(gs, u);
    lemma_by_regions_multiset(kept, regions);
    vstd::seq_lib::lemma_multiset_commutative(o.0, o.1);
    vstd::seq_lib::lemma_multiset_commutative(o.0 + o.1, o.2);
    if regions.len() > 0 {
        vstd::seq_lib::lemma_multiset_commutative(by_unwanted(gs, u, true), by_regions(kept, regions, false));
    }
    assert((o.0 + o.1 + o.2).to_multiset() =~= gs.to_multiset());
}

/// All the members of all groups, group after group.
pub open spec fn all_members(groups: Seq<(Game, Vec<Game>)>) -> Seq<Game>
    decreases groups.len(),
{
    if groups.len() == 0 {
        Seq::empty()
    } else {
        all_members(groups.drop_last()) + members_of(groups.last())
    }
}

/// Sorting the games of a system in 1G1R mode puts every member of every group
/// into exactly one of the three lists: none is lost and none is added.
pub proof fn law_sort_grouped_games_keeps_every_game(
    groups: Seq<(Game, Vec<Game>)>,
    ordered: Seq<Seq<char>>,
    regions: Seq<Seq<char>>,
    u: Option<Seq<char>>,
)
    ensures
        ({
            let o = groups_outcome(groups, ordered, regions, u);
            (o.0 + o.1 + o.2).to_multiset() == all_members(groups).to_multiset()
        }),
    decreases groups.len(),
{
    let o = groups_outcome(groups, ordered, regions, u);
    if groups.len() == 0 {
        assert(o.0 + o.1 + o.2 =~= Seq::<Game>::empty());
        assert(all_members(groups) =~= Seq::<Game>::empty());
    } else {
        law_sort_grouped_games_keeps_every_game(groups.drop_last(), ordered, regions, u);
        let a = groups_outcome(groups.drop_last(), ordered, regions, u);
        let b = group_outcome(members_of(groups.last()), ordered, regions, u);
        lemma_group_multiset(members_of(groups.last()), ordered, regions, u);
        vstd::seq_lib::lemma_multiset_commutative(a.0 + a.1, a.2);
        vstd::seq_lib::lemma_multiset_commutative(a.0, a.1);
        vstd::seq_lib::lemma_multiset_commutative(b.0 + b.1, b.2);
        vstd::seq_lib::lemma_multiset_commutative(b.0, b.1);
        vstd::seq_lib::lemma_multiset_commutative(o.0 + o.1, o.2);
        vstd::seq_lib::lemma_multiset_commutative(o.0, o.1);
        vstd::seq_lib::lemma_multiset_commutative(a.0, b.0);
        vstd::seq_lib::lemma_multiset_commutative(a.1, b.1);
        vstd::seq_lib::lemma_multiset_commutative(a.2, b.2);
        vstd::seq_lib::lemma_multiset_commutative(all_members(groups.drop_last()), members_of(groups.last()));
        assert((o.0 + o.1 + o.2).to_multiset() =~= all_members(groups).to_multiset());
    }
}

/// What sorting a group keeps is wanted: the games for all regions are in one of
/// `regions`, the 1G1R pick is in one of `ordered`, and at most one game is picked.
proof fn lemma_group_sound(
    members: Seq<Game>,
    ordered: Seq<Seq<char>>,
    regions: Seq<Seq<char>>,
    u: Option<Seq<char>>,
)
    ensures
        ({
            let o = group_outcome(members, ordered, regions, u);
            &&& forall|k: int| 0 <= k < o.0.len() ==> !is_unwanted(u, #[trigger] o.0[k]) && in_regions(o.0[k], regions)
            &&& forall|k: int| 0 <= k < o.1.len() ==> !is_unwanted(u, #[trigger] o.1[k]) && in_regions(o.1[k], ordered)
            &&& o.1.len() <= 1
        }),
{
    let kept = by_unwanted(members, u, false);
    lemma_by_unwanted_elems(members, u, false);
    lemma_pick_in_region(kept, ordered);
    let o = group_outcome(members, ordered, regions, u);
    let rest = match preferred_pick(kept, ordered) {
        Some(i) => without(kept, i),
        None => kept,
    };
    lemma_by_regions_elems(rest, regions, true);
    assert forall|j: int| 0 <= j < rest.len() implies !is_unwanted(u, #[trigger] rest[j]) by {
        match preferred_pick(kept, ordered) {
            Some(i) => {
                if j < i {
                    assert(rest[j] == kept[j]);
                } else {
                    assert(rest[j] == kept[j + 1]);
                }
            },
            None => {},
        }
    }
    assert forall|k: int| 0 <= k < o.0.len() implies !is_unwanted(u, #[trigger] o.0[k]) && in_regions(o.0[k], regions) by {
        let j = choose|j: int| 0 <= j < rest.len() && rest[j] == o.0[k];
        assert(!is_unwanted(u, rest[j]));
    }
}

/// Sorting the games of a system outside 1G1R mode keeps no unwanted game for
/// all regions, keeps there only games of the wanted regions where any are
/// given, and picks no 1G1R games.
pub proof fn law_sort_games_sound(gs: Seq<Game>, regions: Seq<Seq<char>>, u: Option<Seq<char>>)
    ensures
        ({
            let o = games_outcome(gs, regions, u);
            &&& forall|k: int| 0 <= k < o.0.len() ==> !is_unwanted(u, #[trigger] o.0[k])
            &&& regions.len() > 0 ==> forall|k: int| 0 <= k < o.0.len() ==> in_regions(#[trigger] o.0[k], regions)
            &&& o.1.len() == 0
        }),
{
    let kept = by_unwanted(gs, u, false);
    lemma_by_unwanted_elems(gs, u, false);
    lemma_by_regions_elems(kept, regions, true);
    let o = games_outcome(gs, regions, u);
    if regions.len() > 0 {
        assert forall|k: int| 0 <= k < o.0.len() implies !is_unwanted(u, #[trigger] o.0[k]) by {
            let j = choose|j: int| 0 <= j < kept.len() && kept[j] == o.0[k];
            assert(!is_unwanted(u, kept[j]));
        }
    }
}

/// Sorting the games of a system in 1G1R mode keeps no unwanted game, keeps for
/// all regions only games of `regions`, picks only games of the 1G1R regions,
/// and picks at most one game per group.
pub proof fn law_sort_grouped_games_sound(
    groups: Seq<(Game, Vec<Game>)>,
    ordered: Seq<Seq<char>>,
    regions: Seq<Seq<char>>,
    u: Option<Seq<char>>,
)
    ensures
        ({
            let o = groups_outcome(groups, ordered, regions, u);
            &&& forall|k: int| 0 <= k < o.0.len() ==> !is_unwanted(u, #[trigger] o.0[k]) && in_regions(o.0[k], regions)
            &&& forall|k: int| 0 <= k < o.1.len() ==> !is_unwanted(u, #[trigger] o.1[k]) && in_regions(o.1[k], ordered)
            &&& o.1.len() <= groups.len()
        }),
    decreases groups.len(),
{
    if groups.len() > 0 {
        law_sort_grouped_games_sound(groups.drop_last(), ordered, regions, u);
        lemma_group_sound(members_of(groups.last()), ordered, regions, u);
        let a = groups_outcome(groups.drop_last(), ordered, regions, u);
        let b = group_outcome(members_of(groups.last()), ordered, regions, u);
        let o = groups_outcome(groups, ordered, regions, u);
        assert forall|k: int| 0 <= k < o.0.len() implies !is_unwanted(u, #[trigger] o.0[k]) && in_regions(o.0[k], regions) by {
            if k < a.0.len() {
                assert(o.0[k] == a.0[k]);
            } else {
                assert(o.0[k] == b.0[k - a.0.len()]);
            }
        }
        assert forall|k: int| 0 <= k < o.1.len() implies !is_unwanted(u, #[trigger] o.1[k]) && in_regions(o.1[k], ordered) by {
            if k < a.1.len() {
                assert(o.1[k] == a.1[k]);
            } else {
                assert(o.1[k] == b.1[k - a.1.len()]);
            }
        }
    }
}

/// Two moves of a list sorted strictly by new path never write to the same path.
pub proof fn law_sorted_moves_have_distinct_targets(out: Seq<(Romfile, Seq<char>)>)
    requires
        strictly_sorted(out),
    ensures
        forall|i: int, j: int| 0 <= i < out.len() && 0 <= j < out.len() && i != j ==> (#[trigger] out[i]).1 != (#[trigger] out[j]).1,
{
    assert forall|i: int, j: int| 0 <= i < out.len() && 0 <= j < out.len() && i != j implies (#[trigger] out[i]).1 != (#[trigger] out[j]).1 by {
        lemma_lex_irreflexive(out[i].1);
        if i < j {
            assert(crate::text::lex_lt(out[i].1, out[j].1));
        } else {
            assert(crate::text::lex_lt(out[j].1, out[i].1));
        }
    }
}

/// Every move planned for one game takes a ROM file of that game somewhere
/// other than where it is.
proof fn lemma_game_moves_change(game: Game, rrs: Seq<(crate::model::Rom, Romfile)>, count: int, dir: Seq<char>)
    ensures
        forall|k: int| 0 <= k < game_moves(game, rrs, count, dir).len() ==> {
            let m = #[trigger] game_moves(game, rrs, count, dir)[k];
            &&& m.0.path@ != m.1
            &&& exists|j: int| 0 <= j < rrs.len() && rrs[j].1 == m.0
        },
    decreases rrs.len(),
{
    if rrs.len() > 0 {
        lemma_game_moves_change(game, rrs.drop_last(), count, dir);
        let prev = game_moves(game, rrs.drop_last(), count, dir);
        assert forall|k: int| 0 <= k < prev.len() implies exists|j: int| 0 <= j < rrs.len() && rrs[j].1 == (#[trigger] prev[k]).0 by {
            let j = choose|j: int| 0 <= j < rrs.drop_last().len() && rrs.drop_last()[j].1 == prev[k].0;
            assert(rrs[j] == rrs.drop_last()[j]);
        }
        assert(rrs[rrs.len() - 1] == rrs.last());
    }
}

/// Every planned move takes a ROM file of the paired lists somewhere other
/// than where it is.
pub proof fn law_planned_moves_change_paths(
    games: Seq<Game>,
    lists: Seq<Vec<(crate::model::Rom, Romfile)>>,
    n: int,
    dir: Seq<char>,
)
    requires
        0 <= n <= games.len(),
        n <= lists.len(),
    ensures
        forall|k: int| 0 <= k < moves_upto(games, lists, n, dir).len() ==> {
            let m = #[trigger] moves_upto(games, lists, n, dir)[k];
            &&& m.0.path@ != m.1
            &&& exists|i: int, j: int| 0 <= i < n && 0 <= j < lists[i]@.len() && lists[i]@[j].1 == m.0
        },
    decreases n,
{
    if n > 0 {
        law_planned_moves_change_paths(games, lists, n - 1, dir);
        let a = moves_upto(games, lists, n - 1, dir);
        let b = game_moves(games[n - 1], lists[n - 1]@, lists[n - 1]@.len() as int, dir);
        lemma_game_moves_change(games[n - 1], lists[n - 1]@, lists[n - 1]@.len() as int, dir);
        let all = moves_upto(games, lists, n, dir);
        assert forall|k: int| 0 <= k < all.len() implies {
            let m = #[trigger] all[k];
            &&& m.0.path@ != m.1
            &&& exists|i: int, j: int| 0 <= i < n && 0 <= j < lists[i]@.len() && lists[i]@[j].1 == m.0
        } by {
            if k < a.len() {
                assert(all[k] == a[k]);
            } else {
                assert(all[k] == b[k - a.len()]);
                let rs = lists[n - 1]@;
                let j = choose|j: int| 0 <= j < rs.len() && (#[trigger] rs[j]).1 == b[k - a.len()].0;
                assert(lists[n - 1]@[j].1 == all[k].0);
            }
        }
    }
}

/// A game of `gs` whose unwantedness is `want` is among `by_unwanted(gs, u, want)`.
proof fn lemma_by_unwanted_complete(gs: Seq<Game>, u: Option<Seq<char>>, want: bool, g: Game)
    requires
        gs.contains(g),
        is_unwanted(u, g) == want,
    ensures
        by_unwanted(gs, u, want).contains(g),
    decreases gs.len(),
{
    let i = choose|i: int| 0 <= i < gs.len() && gs[i] == g;
    if i == gs.len() - 1 {
        let r = by_unwanted(gs, u, want);
        assert(r[r.len() - 1] == g);
    } else {
        assert(gs.drop_last()[i] == g);
        lemma_by_unwanted_complete(gs.drop_last(), u, want, g);
        let prev = by_unwanted(gs.drop_last(), u, want);
        let j = choose|j: int| 0 <= j < prev.len() && prev[j] == g;
        let r = by_unwanted(gs, u, want);
        assert(r[j] == g);
    }
}

/// A game of `gs` whose membership in `regions` is `inside` is among `by_regions(gs, regions, inside)`.
proof fn lemma_by_regions_complete(gs: Seq<Game>, regions: Seq<Seq<char>>, inside: bool, g: Game)
    requires
        gs.contains(g),
        in_regions(g, regions) == inside,
    ensures
        by_regions(gs, regions, inside).contains(g),
    decreases gs.len(),
{
    let i = choose|i: int| 0 <= i < gs.len() && gs[i] == g;
    if i == gs.len() - 1 {
        let r = by_regions(gs, regions, inside);
        assert(r[r.len() - 1] == g);
    } else {
        assert(gs.drop_last()[i] == g);
        lemma_by_regions_complete(gs.drop_last(), regions, inside, g);
        let prev = by_regions(gs.drop_last(), regions, inside);
        let j = choose|j: int| 0 <= j < prev.len() && prev[j] == g;
        let r = by_regions(gs, regions, inside);
        assert(r[j] == g);
    }
}

/// Outside 1G1R mode, every game that is not unwanted goes to the all-regions
/// list when no regions are given, and so does every one in any of the given
/// regions.
pub proof fn law_sort_games_complete(gs: Seq<Game>, regions: Seq<Seq<char>>, u: Option<Seq<char>>, g: Game)
    requires
        gs.contains(g),
        !is_unwanted(u, g),
        regions.len() == 0 || in_regions(g, regions),
    ensures
        games_outcome(gs, regions, u).0.contains(g),
{
    lemma_by_unwanted_complete(gs, u, false, g);
    if regions.len() > 0 {
        lemma_by_regions_complete(by_unwanted(gs, u, false), regions, true, g);
    }
}

/// Outside 1G1R mode the trash holds only unwanted games and, where regions
/// are given, games in none of them.
pub proof fn law_sort_games_trash(gs: Seq<Game>, regions: Seq<Seq<char>>, u: Option<Seq<char>>)
    ensures
        ({
            let t = games_outcome(gs, regions, u).2;
            forall|k: int| 0 <= k < t.len() ==> is_unwanted(u, #[trigger] t[k]) || (regions.len() > 0
                && !in_regions(t[k], regions))
        }),
{
    let kept = by_unwanted(gs, u, false);
    let a = by_unwanted(gs, u, true);
    lemma_by_unwanted_elems(gs, u, true);
    lemma_by_regions_elems(kept, regions, false);
    let t = games_outcome(gs, regions, u).2;
    if regions.len() > 0 {
        let b = by_regions(kept, regions, false);
        assert forall|k: int| 0 <= k < t.len() implies is_unwanted(u, #[trigger] t[k]) || (regions.len() > 0
            && !in_regions(t[k], regions)) by {
            if k < a.len() {
                assert(t[k] == a[k]);
            } else {
                assert(t[k] == b[k - a.len()]);
            }
        }
    }
}

/// In 1G1R mode the trash holds only unwanted games and games in none of the
/// wanted regions: a wanted game of a wanted region is never trashed, whether or
/// not it is also in a 1G1R region.
pub proof fn law_sort_grouped_games_trash(
    groups: Seq<(Game, Vec<Game>)>,
    ordered: Seq<Seq<char>>,
    regions: Seq<Seq<char>>,
    u: Option<Seq<char>>,
)
    ensures
        ({
            let t = groups_outcome(groups, ordered, regions, u).2;
            forall|k: int| 0 <= k < t.len() ==> is_unwanted(u, #[trigger] t[k]) || !in_regions(t[k], regions)
        }),
    decreases groups.len(),
{
    if groups.len() > 0 {
        law_sort_grouped_games_trash(groups.drop_last(), ordered, regions, u);
        let members = members_of(groups.last());
        let kept = by_unwanted(members, u, false);
        let rest = match preferred_pick(kept, ordered) {
            Some(i) => without(kept, i),
            None => kept,
        };
        lemma_by_unwanted_elems(members, u, true);
        lemma_by_regions_elems(rest, regions, false);
        let a = groups_outcome(groups.drop_last(), ordered, regions, u).2;
        let b = group_outcome(members, ordered, regions, u).2;
        let bu = by_unwanted(members, u, true);
        let br = by_regions(rest, regions, false);
        let t = groups_outcome(groups, ordered, regions, u).2;
        assert forall|k: int| 0 <= k < t.len() implies is_unwanted(u, #[trigger] t[k]) || !in_regions(t[k], regions) by {
            if k < a.len() {
                assert(t[k] == a[k]);
            } else if k < a.len() + bu.len() {
                assert(t[k] == b[k - a.len()]);
                assert(b[k - a.len()] == bu[k - a.len()]);
            } else {
                assert(t[k] == b[k - a.len()]);
                assert(b[k - a.len()] == br[k - a.len() - bu.len()]);
            }
        }
    }
}

/// In 1G1R mode every member of a group that is wanted and in one of the
/// wanted regions is kept: for all regions or as the 1G1R pick.
pub proof fn law_sort_grouped_games_keeps_wanted(
    groups: Seq<(Game, Vec<Game>)>,
    ordered: Seq<Seq<char>>,
    regions: Seq<Seq<char>>,
    u: Option<Seq<char>>,
    g: Game,
)
    requires
        all_members(groups).contains(g),
        !is_unwanted(u, g),
        in_regions(g, regions),
    ensures
        ({
            let o = groups_outcome(groups, ordered, regions, u);
            o.0.contains(g) || o.1.contains(g)
        }),
{
    let o = groups_outcome(groups, ordered, regions, u);
    law_sort_grouped_games_keeps_every_game(groups, ordered, regions, u);
    law_sort_grouped_games_trash(groups, ordered, regions, u);
    assert(!o.2.contains(g));
    vstd::seq_lib::lemma_multiset_commutative(o.0 + o.1, o.2);
    vstd::seq_lib::lemma_multiset_commutative(o.0, o.1);
    assert(all_members(groups).to_multiset().count(g) > 0);
    assert(o.2.to_multiset().count(g) == 0);
}

/// A ROM file whose extension is none of `7z`, `zip`, `chd` and `cso` is moved
/// to the ROM's own name in the directory.
pub proof fn law_plain_file_keeps_rom_name(game: Game, rom: Rom, romfile: Romfile, count: int, dir: Seq<char>)
    requires
        extension(romfile.path@) matches Some(e) && e != "7z"@ && e != "zip"@ && e != "chd"@ && e != "cso"@,
    ensures
        new_path(game, rom, romfile, count, dir) == join(dir, rom.name@),
{
}

/// Joining onto one directory tells relative names apart.
proof fn lemma_join_injective(dir: Seq<char>, a: Seq<char>, b: Seq<char>)
    requires
        a.len() == 0 || a[0] != '/',
        b.len() == 0 || b[0] != '/',
        a != b,
    ensures
        join(dir, a) != join(dir, b),
{
    let pre = if dir.len() > 0 && dir.last() != '/' { dir + seq!['/'] } else { dir };
    assert(join(dir, a) =~= pre + a);
    assert(join(dir, b) =~= pre + b);
    if join(dir, a) == join(dir, b) {
        assert((pre + a).subrange(pre.len() as int, (pre + a).len() as int) =~= a);
        assert((pre + b).subrange(pre.len() as int, (pre + b).len() as int) =~= b);
    }
}

/// Two ROMs of a game with different relative names, held in files whose
/// extension is none of `7z`, `zip`, `chd` and `cso` (the tracks of a disc
/// image, say), never get the same new path.
pub proof fn law_plain_files_distinct_targets(
    game: Game,
    rom1: Rom,
    romfile1: Romfile,
    rom2: Rom,
    romfile2: Romfile,
    count: int,
    dir: Seq<char>,
)
    requires
        extension(romfile1.path@) matches Some(e) && e != "7z"@ && e != "zip"@ && e != "chd"@ && e != "cso"@,
        extension(romfile2.path@) matches Some(e) && e != "7z"@ && e != "zip"@ && e != "chd"@ && e != "cso"@,
        rom1.name@ != rom2.name@,
        rom1.name@.len() == 0 || rom1.name@[0] != '/',
        rom2.name@.len() == 0 || rom2.name@[0] != '/',
    ensures
        new_path(game, rom1, romfile1, count, dir) != new_path(game, rom2, romfile2, count, dir),
{
    lemma_join_injective(dir, rom1.name@, rom2.name@);
}

/// An archive (`7z` or `zip`) is named after the ROM plus its extension when
/// it holds the game's only ROM, and after the game otherwise.
pub proof fn law_archive_name(game: Game, rom: Rom, romfile: Romfile, count: int, dir: Seq<char>)
    requires
        extension(romfile.path@) matches Some(e) && (e == "7z"@ || e == "zip"@),
    ensures
        ({
            let e = extension(romfile.path@)->0;
            &&& count == 1 ==> new_path(game, rom, romfile, count, dir) == join(dir, rom.name@ + seq!['.'] + e)
            &&& count != 1 ==> new_path(game, rom, romfile, count, dir) == join(dir, game.name@ + seq!['.'] + e)
        }),
{
    reveal_strlit(".");
}

/// A `chd` takes its ROM's name with the `chd` extension when the game has two
/// ROMs, and the game's name plus `.chd` otherwise; a `cso` always takes its
/// ROM's name with the `cso` extension.
pub proof fn law_chd_cso_name(game: Game, rom: Rom, romfile: Romfile, count: int, dir: Seq<char>)
    ensures
        extension(romfile.path@) == Some("chd"@) && count == 2 ==> new_path(game, rom, romfile, count, dir)
            == with_extension(join(dir, rom.name@), "chd"@),
        extension(romfile.path@) == Some("chd"@) && count != 2 ==> new_path(game, rom, romfile, count, dir)
            == join(dir, game.name@ + seq!['.'] + "chd"@),
        extension(romfile.path@) == Some("cso"@) ==> new_path(game, rom, romfile, count, dir)
            == with_extension(join(dir, rom.name@), "cso"@),
{
    reveal_strlit(".");
    reveal_strlit("chd");
    reveal_strlit("cso");
    reveal_strlit("7z");
    reveal_strlit("zip");
    assert("chd"@ != "7z"@ && "chd"@ != "zip"@ && "cso"@ != "7z"@ && "cso"@ != "zip"@ && "cso"@ != "chd"@) by {
        assert("chd"@[0] == 'c' && "7z"@[0] == '7' && "zip"@[0] == 'z' && "cso"@[0] == 'c');
        assert("chd"@[1] == 'h' && "cso"@[1] == 's');
    }
}

proof fn lemma_concat_contains(a: Seq<Seq<char>>, b: Seq<Seq<char>>, x: Seq<char>)
    ensures
        (a + b).contains(x) <==> a.contains(x) || b.contains(x),
{
    if (a + b).contains(x) {
        let i = choose|i: int| 0 <= i < (a + b).len() && (a + b)[i] == x;
        if i >= a.len() {
            assert(b[i - a.len()] == x);
        }
    }
    if a.contains(x) {
        let i = choose|i: int| 0 <= i < a.len() && a[i] == x;
        assert((a + b)[i] == x);
    }
    if b.contains(x) {
        let i = choose|i: int| 0 <= i < b.len() && b[i] == x;
        assert((a + b)[a.len() + i] == x);
    }
}

proof fn lemma_keyword_if_contains(flag: bool, k: Seq<char>, x: Seq<char>)
    ensures
        keyword_if(flag, k).contains(x) <==> flag && x == k,
{
    if flag && x == k {
        assert(keyword_if(flag, k)[0] == x);
    }
}

/// Each flag adds exactly its own keyword: a keyword is among the unwanted
/// keywords if and only if its flag is set.
pub proof fn law_each_flag_its_keyword(f: UnwantedFlags)
    ensures
        unwanted_keywords_spec(f).contains("Beta( [0-9]+)?"@) <==> f.no_beta,
        unwanted_keywords_spec(f).contains("Debug"@) <==> f.no_debug,
        unwanted_keywords_spec(f).contains("Demo"@) <==> f.no_demo,
        unwanted_keywords_spec(f).contains("Program"@) <==> f.no_program,
        unwanted_keywords_spec(f).contains("Proto( [0-9]+)?"@) <==> f.no_proto,
        unwanted_keywords_spec(f).contains("Sample"@) <==> f.no_sample,
        unwanted_keywords_spec(f).contains("Sega Channel"@) <==> f.no_sega_channel,
        unwanted_keywords_spec(f).contains("([A-z ]+)?Virtual Console"@) <==> f.no_virtual_console,
{
    reveal_strlit("Beta( [0-9]+)?");
    reveal_strlit("Debug");
    reveal_strlit("Demo");
    reveal_strlit("Program");
    reveal_strlit("Proto( [0-9]+)?");
    reveal_strlit("Sample");
    reveal_strlit("Sega Channel");
    reveal_strlit("([A-z ]+)?Virtual Console");
    let k0 = "Beta( [0-9]+)?"@;
    let k1 = "Debug"@;
    let k2 = "Demo"@;
    let k3 = "Program"@;
    let k4 = "Proto( [0-9]+)?"@;
    let k5 = "Sample"@;
    let k6 = "Sega Channel"@;
    let k7 = "([A-z ]+)?Virtual Console"@;
    assert(k0[0] == 'B' && k1[0] == 'D' && k2[0] == 'D' && k3[0] == 'P' && k4[0] == 'P' && k5[0] == 'S'
        && k6[0] == 'S' && k7[0] == '(');
    assert(k1[2] == 'b' && k2[2] == 'm' && k3[3] == 'g' && k4[3] == 't' && k5[1] == 'a' && k6[1] == 'e');
    let ks = seq![k0, k1, k2, k3, k4, k5, k6, k7];
    assert forall|i: int, j: int| 0 <= i < 8 && 0 <= j < 8 && i != j implies ks[i] != ks[j] by {
        if ks[i] == ks[j] {
            assert(ks[i][0] == ks[j][0]);
            assert(ks[i][1] == ks[j][1]);
            assert(ks[i][2] == ks[j][2]);
            assert(ks[i][3] == ks[j][3]);
        }
    }
    let flags = seq![f.no_beta, f.no_debug, f.no_demo, f.no_program, f.no_proto, f.no_sample, f.no_sega_channel, f.no_virtual_console];
    let p0 = keyword_if(f.no_beta, k0);
    let p1 = p0 + keyword_if(f.no_debug, k1);
    let p2 = p1 + keyword_if(f.no_demo, k2);
    let p3 = p2 + keyword_if(f.no_program, k3);
    let p4 = p3 + keyword_if(f.no_proto, k4);
    let p5 = p4 + keyword_if(f.no_sample, k5);
    let p6 = p5 + keyword_if(f.no_sega_channel, k6);
    let p7 = p6 + keyword_if(f.no_virtual_console, k7);
    assert(p7 == unwanted_keywords_spec(f));
    assert forall|x: int| 0 <= x < 8 implies (#[trigger] p7.contains(ks[x]) <==> flags[x]) by {
        let y = ks[x];
        lemma_keyword_if_contains(f.no_beta, k0, y);
        lemma_keyword_if_contains(f.no_debug, k1, y);
        lemma_keyword_if_contains(f.no_demo, k2, y);
        lemma_keyword_if_contains(f.no_program, k3, y);
        lemma_keyword_if_contains(f.no_proto, k4, y);
        lemma_keyword_if_contains(f.no_sample, k5, y);
        lemma_keyword_if_contains(f.no_sega_channel, k6, y);
        lemma_keyword_if_contains(f.no_virtual_console, k7, y);
        lemma_concat_contains(p0, keyword_if(f.no_debug, k1), y);
        lemma_concat_contains(p1, keyword_if(f.no_demo, k2), y);
        lemma_concat_contains(p2, keyword_if(f.no_program, k3), y);
        lemma_concat_contains(p3, keyword_if(f.no_proto, k4), y);
        lemma_concat_contains(p4, keyword_if(f.no_sample, k5), y);
        lemma_concat_contains(p5, keyword_if(f.no_sega_channel, k6), y);
        lemma_concat_contains(p6, keyword_if(f.no_virtual_console, k7), y);
        assert(forall|j: int| 0 <= j < 8 && j != x ==> ks[j] != y);
        assert(ks[0] == k0 && ks[1] == k1 && ks[2] == k2 && ks[3] == k3 && ks[4] == k4 && ks[5] == k5 && ks[6] == k6 && ks[7] == k7);
    }
    assert(p7.contains(ks[0]) <==> flags[0]);
    assert(p7.contains(ks[1]) <==> flags[1]);
    assert(p7.contains(ks[2]) <==> flags[2]);
    assert(p7.contains(ks[3]) <==> flags[3]);
    assert(p7.contains(ks[4]) <==> flags[4]);
    assert(p7.contains(ks[5]) <==> flags[5]);
    assert(p7.contains(ks[6]) <==> flags[6]);
    assert(p7.contains(ks[7]) <==> flags[7]);
}

/// What stands in `a` stands in `a + b`.
pub proof fn lemma_contains_left(a: Seq<char>, b: Seq<char>, n: Seq<char>)
    requires
        contains(a, n),
    ensures
        contains(a + b, n),
{
    let i = choose|i: int| occurs_at(a, n, i);
    assert((a + b).subrange(i, i + n.len()) =~= a.subrange(i, i + n.len()));
    assert(occurs_at(a + b, n, i));
}

/// What stands in `b` stands in `a + b`.
pub proof fn lemma_contains_right(a: Seq<char>, b: Seq<char>, n: Seq<char>)
    requires
        contains(b, n),
    ensures
        contains(a + b, n),
{
    let i = choose|i: int| occurs_at(b, n, i);
    assert((a + b).subrange(a.len() + i, a.len() + i + n.len()) =~= b.subrange(i, i + n.len()));
    assert(occurs_at(a + b, n, a.len() + i));
}

/// Every sequence stands in itself.
proof fn lemma_contains_self(n: Seq<char>)
    ensures
        contains(n, n),
{
    assert(n.subrange(0, n.len() as int) =~= n);
    assert(occurs_at(n, n, 0));
}

/// Every item of a joined list stands in the joined text.
proof fn lemma_join_contains(list: Seq<Seq<char>>, sep: Seq<char>, i: int)
    requires
        0 <= i < list.len(),
    ensures
        contains(join_with(list, sep), list[i]),
    decreases list.len(),
{
    if list.len() == 1 {
        lemma_contains_self(list[0]);
    } else if i == list.len() - 1 {
        lemma_contains_self(list.last());
        lemma_contains_right(join_with(list.drop_last(), sep) + sep, list.last(), list[i]);
    } else {
        assert(list.drop_last()[i] == list[i]);
        lemma_join_contains(list.drop_last(), sep, i);
        lemma_contains_left(join_with(list.drop_last(), sep), sep, list[i]);
        lemma_contains_left(join_with(list.drop_last(), sep) + sep, list.last(), list[i]);
    }
}

/// The pattern of unwanted releases holds every one of its keywords, between an
/// opening and a closing parenthesis.
pub proof fn law_pattern_holds_every_keyword(keywords: Seq<Seq<char>>)
    ensures
        forall|i: int| 0 <= i < keywords.len() ==> contains(unwanted_pattern(keywords), #[trigger] keywords[i]),
        unwanted_pattern(keywords).take(2) == seq!['\\', '('],
        unwanted_pattern(keywords).skip(unwanted_pattern(keywords).len() - 2) == seq!['\\', ')'],
{
    reveal_strlit("\\(((");
    reveal_strlit(")(, )?)+\\)");
    let pre = "\\((("@;
    let post = ")(, )?)+\\)"@;
    let j = join_with(keywords, "|"@);
    assert forall|i: int| 0 <= i < keywords.len() implies contains(unwanted_pattern(keywords), #[trigger] keywords[i]) by {
        lemma_join_contains(keywords, "|"@, i);
        lemma_contains_right(pre, j, keywords[i]);
        lemma_contains_left(pre + j, post, keywords[i]);
    }
    let p = unwanted_pattern(keywords);
    assert(p =~= pre + j + post);
    assert(p.take(2) =~= seq!['\\', '(']);
    assert(p.skip(p.len() - 2) =~= seq!['\\', ')']);
}

/// Membership in a list of regions is membership in any one of them: in a
/// single region exactly when its text stands in the game's regions, and in a
/// concatenation when in either part.
pub proof fn law_in_regions_any(g: Game, a: Seq<Seq<char>>, b: Seq<Seq<char>>, r: Seq<char>)
    ensures
        in_regions(g, seq![r]) <==> contains(g.regions@, r),
        in_regions(g, a + b) <==> in_regions(g, a) || in_regions(g, b),
        !in_regions(g, Seq::empty()),
{
    if contains(g.regions@, r) {
        assert(seq![r][0] == r);
    }
    if in_regions(g, a + b) {
        let k = choose|k: int| 0 <= k < (a + b).len() && contains(g.regions@, #[trigger] (a + b)[k]);
        if k < a.len() {
            assert((a + b)[k] == a[k]);
        } else {
            assert((a + b)[k] == b[k - a.len()]);
        }
    }
    if in_regions(g, a) {
        let k = choose|k: int| 0 <= k < a.len() && contains(g.regions@, #[trigger] a[k]);
        assert((a + b)[k] == a[k]);
    }
    if in_regions(g, b) {
        let k = choose|k: int| 0 <= k < b.len() && contains(g.regions@, #[trigger] b[k]);
        assert((a + b)[a.len() + k] == b[k]);
    }
}

/// A group has a candidate for 1G1R: a wanted member in one of the 1G1R regions.
pub open spec fn has_candidate(members: Seq<Game>, ordered: Seq<Seq<char>>, u: Option<Seq<char>>) -> bool {
    exists|j: int| 0 <= j < members.len() && !is_unwanted(u, #[trigger] members[j]) && in_regions(members[j], ordered)
}

/// The number of groups that have a candidate for 1G1R.
pub open spec fn groups_with_candidate(groups: Seq<(Game, Vec<Game>)>, ordered: Seq<Seq<char>>, u: Option<Seq<char>>) -> nat
    decreases groups.len(),
{
    if groups.len() == 0 {
        0
    } else {
        groups_with_candidate(groups.drop_last(), ordered, u) + if has_candidate(members_of(groups.last()), ordered, u) {
            1nat
        } else {
            0nat
        }
    }
}

/// A group yields one 1G1R game exactly when it has a candidate, and none otherwise.
pub proof fn law_group_yields_one_pick_iff_candidate(
    members: Seq<Game>,
    ordered: Seq<Seq<char>>,
    regions: Seq<Seq<char>>,
    u: Option<Seq<char>>,
)
    ensures
        group_outcome(members, ordered, regions, u).1.len() == if has_candidate(members, ordered, u) { 1int } else { 0int },
{
    let kept = by_unwanted(members, u, false);
    lemma_by_unwanted_elems(members, u, false);
    lemma_pick_in_region(kept, ordered);
    law_pick_is_most_preferred(kept, ordered);
    if has_candidate(members, ordered, u) {
        let j = choose|j: int| 0 <= j < members.len() && !is_unwanted(u, #[trigger] members[j]) && in_regions(members[j], ordered);
        let g = members[j];
        lemma_by_unwanted_complete(members, u, false, g);
        let j2 = choose|j2: int| 0 <= j2 < kept.len() && kept[j2] == g;
        let k = choose|k: int| 0 <= k < ordered.len() && contains(g.regions@, #[trigger] ordered[k]);
        assert(contains(kept[j2].regions@, ordered[k]));
        assert(preferred_pick(kept, ordered) is Some);
    } else {
        if let Some(i) = preferred_pick(kept, ordered) {
            let g = kept[i];
            assert(!is_unwanted(u, kept[i]));
            let j = choose|j: int| 0 <= j < members.len() && members[j] == g;
            assert(!is_unwanted(u, members[j]) && in_regions(members[j], ordered));
            assert(false);
        }
    }
}

/// In 1G1R mode the 1G1R list holds one game for each group that has a
/// candidate, and nothing more.
pub proof fn law_sort_grouped_games_pick_count(
    groups: Seq<(Game, Vec<Game>)>,
    ordered: Seq<Seq<char>>,
    regions: Seq<Seq<char>>,
    u: Option<Seq<char>>,
)
    ensures
        groups_outcome(groups, ordered, regions, u).1.len() == groups_with_candidate(groups, ordered, u),
    decreases groups.len(),
{
    if groups.len() > 0 {
        law_sort_grouped_games_pick_count(groups.drop_last(), ordered, regions, u);
        law_group_yields_one_pick_iff_candidate(members_of(groups.last()), ordered, regions, u);
    }
}

/// Every ROM file of a game that is not where it belongs is moved there.
proof fn lemma_game_moves_complete(game: Game, rrs: Seq<(Rom, Romfile)>, count: int, dir: Seq<char>, j: int)
    requires
        0 <= j < rrs.len(),
        rrs[j].1.path@ != new_path(game, rrs[j].0, rrs[j].1, count, dir),
    ensures
        game_moves(game, rrs, count, dir).contains((rrs[j].1, new_path(game, rrs[j].0, rrs[j].1, count, dir))),
    decreases rrs.len(),
{
    let m = (rrs[j].1, new_path(game, rrs[j].0, rrs[j].1, count, dir));
    let r = game_moves(game, rrs, count, dir);
    if j == rrs.len() - 1 {
        assert(r[r.len() - 1] == m);
    } else {
        assert(rrs.drop_last()[j] == rrs[j]);
        lemma_game_moves_complete(game, rrs.drop_last(), count, dir, j);
        let prev = game_moves(game, rrs.drop_last(), count, dir);
        let k = choose|k: int| 0 <= k < prev.len() && prev[k] == m;
        assert(r[k] == m);
    }
}

/// Every ROM file of the paired games that is not where it belongs gets a move
/// to where it belongs.
pub proof fn law_planned_moves_complete(
    games: Seq<Game>,
    lists: Seq<Vec<(Rom, Romfile)>>,
    n: int,
    dir: Seq<char>,
    i: int,
    j: int,
)
    requires
        0 <= i < n <= games.len(),
        n <= lists.len(),
        0 <= j < lists[i]@.len(),
        lists[i]@[j].1.path@ != new_path(games[i], lists[i]@[j].0, lists[i]@[j].1, lists[i]@.len() as int, dir),
    ensures
        moves_upto(games, lists, n, dir).contains(
            (lists[i]@[j].1, new_path(games[i], lists[i]@[j].0, lists[i]@[j].1, lists[i]@.len() as int, dir)),
        ),
    decreases n,
{
    let m = (lists[i]@[j].1, new_path(games[i], lists[i]@[j].0, lists[i]@[j].1, lists[i]@.len() as int, dir));
    let a = moves_upto(games, lists, n - 1, dir);
    let b = game_moves(games[n - 1], lists[n - 1]@, lists[n - 1]@.len() as int, dir);
    let all = moves_upto(games, lists, n, dir);
    if i == n - 1 {
        lemma_game_moves_complete(games[i], lists[i]@, lists[i]@.len() as int, dir, j);
        let k = choose|k: int| 0 <= k < b.len() && b[k] == m;
        assert(all[a.len() + k] == m);
    } else {
        law_planned_moves_complete(games, lists, n - 1, dir, i, j);
        let k = choose|k: int| 0 <= k < a.len() && a[k] == m;
        assert(all[k] == m);
    }
}

/// The 1G1R and trash directories are the entries `1G1R` and `Trash` of the
/// system's directory, which is the entry of the system's name (where that is a
/// plain name) in the ROM directory.
pub proof fn law_sort_directories(rom_dir: Seq<char>, system_name: Seq<char>)
    ensures
        ({
            let d = sort_directories_spec(rom_dir, system_name);
            &&& is_plain_name(system_name) ==> file_name(d.0) == Some(system_name)
            &&& d.1 == join(d.0, "1G1R"@) && file_name(d.1) == Some("1G1R"@)
            &&& d.2 == join(d.0, "Trash"@) && file_name(d.2) == Some("Trash"@)
        }),
{
    reveal_strlit("1G1R");
    reveal_strlit("Trash");
    let d = sort_directories_spec(rom_dir, system_name);
    if is_plain_name(system_name) {
        law_join_file_name(rom_dir, system_name);
    }
    assert("1G1R"@ != seq!['.']) by { assert("1G1R"@.len() == 4); }
    assert("1G1R"@ != seq!['.', '.']) by { assert("1G1R"@.len() == 4); }
    assert("Trash"@ != seq!['.']) by { assert("Trash"@.len() == 5); }
    assert("Trash"@ != seq!['.', '.']) by { assert("Trash"@.len() == 5); }
    law_join_file_name(d.0, "1G1R"@);
    law_join_file_name(d.0, "Trash"@);
}

} // verus!
