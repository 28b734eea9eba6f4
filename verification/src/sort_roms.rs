//! Sorting the games of a system into the wanted regions, the one game per
//! parent/clone group kept in 1G1R mode, and the trash; and planning where
//! each ROM file moves.
use vstd::prelude::*;
use crate::model::{Game, Rom, Romfile};
use crate::pattern::{compile, first_match, regex_compiles, regex_first_match, Matcher};
use crate::path::{extension, extension_of, join, join_path, with_extension, with_extension_of};
use crate::text::{chars_equal, chars_of, contains, lemma_lex_irreflexive, lemma_lex_total, lemma_lex_transitive, lex_less, lex_lt, str_contains};

verus! {

/// Which kinds of releases the user asked to leave out.
#[derive(Clone, Copy, Debug)]
pub struct UnwantedFlags {
    pub no_beta: bool,
    pub no_debug: bool,
    pub no_demo: bool,
    pub no_program: bool,
    pub no_proto: bool,
    pub no_sample: bool,
    pub no_sega_channel: bool,
    pub no_virtual_console: bool,
}

/// Why sorting could not start.
#[derive(Debug)]
pub enum SortError {
    /// The `regex` crate refused the pattern (given here) built from the
    /// unwanted keywords.
    InvalidPattern(String),
}

/// The views of a sequence of strings.
pub open spec fn views(v: Seq<String>) -> Seq<Seq<char>> {
    v.map_values(|s: String| s@)
}

/// `k` where `flag` is set, nothing otherwise.
pub open spec fn keyword_if(flag: bool, k: Seq<char>) -> Seq<Seq<char>> {
    if flag {
        seq![k]
    } else {
        Seq::empty()
    }
}

/// The regular-expression alternatives for the unwanted kinds, in a fixed order.
pub open spec fn unwanted_keywords_spec(f: UnwantedFlags) -> Seq<Seq<char>> {
    keyword_if(f.no_beta, "Beta( [0-9]+)?"@) + keyword_if(f.no_debug, "Debug"@) + keyword_if(
        f.no_demo,
        "Demo"@,
    ) + keyword_if(f.no_program, "Program"@) + keyword_if(f.no_proto, "Proto( [0-9]+)?"@)
        + keyword_if(f.no_sample, "Sample"@) + keyword_if(f.no_sega_channel, "Sega Channel"@)
        + keyword_if(f.no_virtual_console, "([A-z ]+)?Virtual Console"@)
}

fn push_keyword(v: &mut Vec<String>, flag: bool, k: &str)
    ensures
        views(final(v)@) == views(old(v)@) + keyword_if(flag, k@),
{
    let ghost before = views(v@);
    if flag {
        v.push(String::from_str(k));
    }
    assert(views(v@) =~= before + keyword_if(flag, k@));
}

/// The unwanted keywords for `f` (see `unwanted_keywords_spec`).
pub fn unwanted_keywords(f: &UnwantedFlags) -> (r: Vec<String>)
    ensures
        views(r@) == unwanted_keywords_spec(*f),
{
    let mut r: Vec<String> = Vec::new();
    assert(views(r@) =~= Seq::<Seq<char>>::empty());
    push_keyword(&mut r, f.no_beta, "Beta( [0-9]+)?");
    push_keyword(&mut r, f.no_debug, "Debug");
    push_keyword(&mut r, f.no_demo, "Demo");
    push_keyword(&mut r, f.no_program, "Program");
    push_keyword(&mut r, f.no_proto, "Proto( [0-9]+)?");
    push_keyword(&mut r, f.no_sample, "Sample");
    push_keyword(&mut r, f.no_sega_channel, "Sega Channel");
    push_keyword(&mut r, f.no_virtual_console, "([A-z ]+)?Virtual Console");
    assert(views(r@) =~= unwanted_keywords_spec(*f));
    r
}

/// The items of `list` with `sep` between each two.
pub open spec fn join_with(list: Seq<Seq<char>>, sep: Seq<char>) -> Seq<char>
    decreases list.len(),
{
    if list.len() == 0 {
        Seq::empty()
    } else if list.len() == 1 {
        list[0]
    } else {
        join_with(list.drop_last(), sep) + sep + list.last()
    }
}

/// The pattern that matches a parenthesized, comma-separated list of the
/// keywords, such as `(Beta, Proto)`.
pub open spec fn unwanted_pattern(keywords: Seq<Seq<char>>) -> Seq<char> {
    "\\((("@ + join_with(keywords, "|"@) + ")(, )?)+\\)"@
}

/// The pattern for `keywords` (see `unwanted_pattern`).
pub fn unwanted_pattern_of(keywords: &Vec<String>) -> (r: String)
    ensures
        r@ == unwanted_pattern(views(keywords@)),
{
    let ghost list = views(keywords@);
    let mut joined = String::new();
    let mut i: usize = 0;
    while i < keywords.len()
        invariant
            i <= keywords.len(),
            list == views(keywords@),
            joined@ == join_with(list.take(i as int), "|"@),
        decreases keywords.len() - i,
    {
        if i != 0 {
            joined.append("|");
        }
        joined.append(keywords[i].as_str());
        assert(list.take(i + 1).drop_last() =~= list.take(i as int));
        i = i + 1;
    }
    assert(list.take(keywords.len() as int) =~= list);
    let mut r = String::from_str("\\(((");
    r.append(joined.as_str());
    r.append(")(, )?)+\\)");
    r
}

/// The pattern of unwanted releases for `f`, where any kind is unwanted.
pub open spec fn unwanted_filter_spec(f: UnwantedFlags) -> Option<Seq<char>> {
    let k = unwanted_keywords_spec(f);
    if k.len() == 0 {
        None
    } else {
        Some(unwanted_pattern(k))
    }
}

/// The pattern of an optional matcher.
pub open spec fn filter_view(filter: Option<Matcher>) -> Option<Seq<char>> {
    match filter {
        Some(m) => Some(m.pattern()),
        None => None,
    }
}

/// The matcher for the unwanted releases of `f`: none where nothing is
/// unwanted, an error where the `regex` crate refuses the pattern.
pub fn unwanted_filter(f: &UnwantedFlags) -> (r: Result<Option<Matcher>, SortError>)
    ensures
        match unwanted_filter_spec(*f) {
            None => r matches Ok(None),
            Some(p) => if regex_compiles(p) {
                r matches Ok(Some(m)) && m.pattern() == p
            } else {
                r matches Err(SortError::InvalidPattern(t)) && t@ == p
            },
        },
{
    let keywords = unwanted_keywords(f);
    if keywords.len() == 0 {
        return Ok(None);
    }
    let pattern = unwanted_pattern_of(&keywords);
    match compile(pattern.as_str()) {
        Some(m) => Ok(Some(m)),
        None => Err(SortError::InvalidPattern(pattern)),
    }
}

/// A game is unwanted where the filter's pattern matches somewhere in its name.
pub open spec fn is_unwanted(u: Option<Seq<char>>, g: Game) -> bool {
    match u {
        Some(p) => regex_first_match(p, g.name@) is Some,
        None => false,
    }
}

/// Whether `game` is unwanted under `filter`.
pub fn game_is_unwanted(filter: &Option<Matcher>, game: &Game) -> (r: bool)
    ensures
        r == is_unwanted(filter_view(*filter), *game),
{
    match filter {
        Some(m) => first_match(m, game.name.as_str()).is_some(),
        None => false,
    }
}

/// The games of `gs`, in order, whose unwantedness is `want`.
pub open spec fn by_unwanted(gs: Seq<Game>, u: Option<Seq<char>>, want: bool) -> Seq<Game>
    decreases gs.len(),
{
    if gs.len() == 0 {
        Seq::empty()
    } else if is_unwanted(u, gs.last()) == want {
        by_unwanted(gs.drop_last(), u, want).push(gs.last())
    } else {
        by_unwanted(gs.drop_last(), u, want)
    }
}

/// Splits `games` into the unwanted ones and the rest, each in its order.
pub fn trim_unwanted(games: Vec<Game>, filter: &Option<Matcher>) -> (r: (Vec<Game>, Vec<Game>))
    ensures
        r.0@ == by_unwanted(games@, filter_view(*filter), true),
        r.1@ == by_unwanted(games@, filter_view(*filter), false),
{
    let ghost u = filter_view(*filter);
    let ghost all = games@;
    let mut unwanted: Vec<Game> = Vec::new();
    let mut regular: Vec<Game> = Vec::new();
    for g in it: games
        invariant
            it.seq() == all,
            u == filter_view(*filter),
            unwanted@ == by_unwanted(all.take(it.index() as int), u, true),
            regular@ == by_unwanted(all.take(it.index() as int), u, false),
    {
        let ghost k = it.index() as int;
        assert(all.take(k + 1).drop_last() =~= all.take(k));
        assert(all.take(k + 1).last() == g);
        if game_is_unwanted(filter, &g) {
            unwanted.push(g);
        } else {
            regular.push(g);
        }
    }
    assert(all.take(all.len() as int) =~= all);
    (unwanted, regular)
}

/// A game is in one of `regions` where one of them occurs in its regions text.
pub open spec fn in_regions(g: Game, regions: Seq<Seq<char>>) -> bool {
    exists|k: int| 0 <= k < regions.len() && contains(g.regions@, #[trigger] regions[k])
}

/// Whether `game` is in one of `regions`.
pub fn game_in_regions(game: &Game, regions: &Vec<String>) -> (r: bool)
    ensures
        r == in_regions(*game, views(regions@)),
{
    let ghost rs = views(regions@);
    let mut i: usize = 0;
    while i < regions.len()
        invariant
            i <= regions.len(),
            rs == views(regions@),
            forall|k: int| 0 <= k < i ==> !contains(game.regions@, #[trigger] rs[k]),
        decreases regions.len() - i,
    {
        if str_contains(game.regions.as_str(), regions[i].as_str()) {
            assert(contains(game.regions@, rs[i as int]));
            return true;
        }
        i = i + 1;
    }
    false
}

/// The games of `gs`, in order, whose being in `regions` is `inside`.
pub open spec fn by_regions(gs: Seq<Game>, regions: Seq<Seq<char>>, inside: bool) -> Seq<Game>
    decreases gs.len(),
{
    if gs.len() == 0 {
        Seq::empty()
    } else if in_regions(gs.last(), regions) == inside {
        by_regions(gs.drop_last(), regions, inside).push(gs.last())
    } else {
        by_regions(gs.drop_last(), regions, inside)
    }
}

/// Appends the games of `games` that are in `regions` to `inside` and the
/// others to `outside`, keeping their order.
pub fn split_by_regions(
    games: Vec<Game>,
    regions: &Vec<String>,
    inside: &mut Vec<Game>,
    outside: &mut Vec<Game>,
)
    ensures
        final(inside)@ == old(inside)@ + by_regions(games@, views(regions@), true),
        final(outside)@ == old(outside)@ + by_regions(games@, views(regions@), false),
{
    let ghost rs = views(regions@);
    let ghost all = games@;
    let ghost in0 = inside@;
    let ghost out0 = outside@;
    for g in it: games
        invariant
            it.seq() == all,
            rs == views(regions@),
            inside@ == in0 + by_regions(all.take(it.index() as int), rs, true),
            outside@ == out0 + by_regions(all.take(it.index() as int), rs, false),
    {
        let ghost k = it.index() as int;
        assert(all.take(k + 1).drop_last() =~= all.take(k));
        assert(all.take(k + 1).last() == g);
        if game_in_regions(&g, regions) {
            inside.push(g);
        } else {
            outside.push(g);
        }
    }
    assert(all.take(all.len() as int) =~= all);
}

/// The index of the first game of `gs` in region `r`.
pub open spec fn first_in_region(gs: Seq<Game>, r: Seq<char>) -> Option<int>
    decreases gs.len(),
{
    if gs.len() == 0 {
        None
    } else {
        match first_in_region(gs.drop_last(), r) {
            Some(i) => Some(i),
            None => if contains(gs.last().regions@, r) {
                Some(gs.len() - 1)
            } else {
                None
            },
        }
    }
}

/// What `first_in_region` finds in a prefix it also finds in the whole.
proof fn lemma_first_in_region_prefix(gs: Seq<Game>, r: Seq<char>, k: int)
    requires
        0 <= k <= gs.len(),
        first_in_region(gs.take(k), r) is Some,
    ensures
        first_in_region(gs, r) == first_in_region(gs.take(k), r),
    decreases gs.len() - k,
{
    if k == gs.len() {
        assert(gs.take(k) =~= gs);
    } else {
        assert(gs.take(k + 1).drop_last() =~= gs.take(k));
        lemma_first_in_region_prefix(gs, r, k + 1);
    }
}

/// The facts that characterize `first_in_region`.
pub proof fn lemma_first_in_region(gs: Seq<Game>, r: Seq<char>)
    ensures
        first_in_region(gs, r) matches Some(i) ==> 0 <= i < gs.len() && contains(gs[i].regions@, r)
            && (forall|j: int| 0 <= j < i ==> !contains(#[trigger] gs[j].regions@, r)),
        first_in_region(gs, r) is None ==> forall|j: int|
            0 <= j < gs.len() ==> !contains(#[trigger] gs[j].regions@, r),
    decreases gs.len(),
{
    if gs.len() > 0 {
        lemma_first_in_region(gs.drop_last(), r);
        assert(forall|j: int| 0 <= j < gs.len() - 1 ==> gs.drop_last()[j] == gs[j]);
    }
}

/// The index of the first game of `games` in region `region`.
pub fn find_first_in_region(games: &Vec<Game>, region: &str) -> (r: Option<usize>)
    ensures
        r matches Some(i) ==> i < games.len(),
        match r {
            Some(i) => first_in_region(games@, region@) == Some(i as int),
            None => first_in_region(games@, region@) is None,
        },
{
    let mut i: usize = 0;
    while i < games.len()
        invariant
            i <= games.len(),
            first_in_region(games@.take(i as int), region@) is None,
        decreases games.len() - i,
    {
        assert(games@.take(i + 1).drop_last() =~= games@.take(i as int));
        if str_contains(games[i].regions.as_str(), region) {
            assert(first_in_region(games@.take(i + 1), region@) == Some(i as int));
            proof {
                lemma_first_in_region_prefix(games@, region@, i + 1);
            }
            return Some(i);
        }
        i = i + 1;
    }
    assert(games@.take(games.len() as int) =~= games@);
    None
}

/// The game kept in 1G1R mode: the first game in the first of the ordered
/// regions that any game is in.
pub open spec fn preferred_pick(gs: Seq<Game>, ordered: Seq<Seq<char>>) -> Option<int>
    decreases ordered.len(),
{
    if ordered.len() == 0 {
        None
    } else {
        match first_in_region(gs, ordered[0]) {
            Some(i) => Some(i),
            None => preferred_pick(gs, ordered.drop_first()),
        }
    }
}

/// The index of the game kept in 1G1R mode among `games` (see `preferred_pick`).
pub fn pick_preferred(games: &Vec<Game>, ordered: &Vec<String>) -> (r: Option<usize>)
    ensures
        r matches Some(i) ==> i < games.len(),
        match r {
            Some(i) => preferred_pick(games@, views(ordered@)) == Some(i as int),
            None => preferred_pick(games@, views(ordered@)) is None,
        },
{
    let ghost os = views(ordered@);
    let mut k: usize = 0;
    assert(os.skip(0) =~= os);
    while k < ordered.len()
        invariant
            k <= ordered.len(),
            os == views(ordered@),
            preferred_pick(games@, os) == preferred_pick(games@, os.skip(k as int)),
        decreases ordered.len() - k,
    {
        assert(os.skip(k as int)[0] == ordered@[k as int]@);
        assert(os.skip(k as int).drop_first() =~= os.skip(k + 1));
        match find_first_in_region(games, ordered[k].as_str()) {
            Some(i) => {
                return Some(i);
            },
            None => {},
        }
        k = k + 1;
    }
    None
}

/// The sequence without its item at `i`.
pub open spec fn without(gs: Seq<Game>, i: int) -> Seq<Game> {
    gs.take(i) + gs.skip(i + 1)
}

/// The games sorted into the wanted regions, the 1G1R picks and the trash.
pub struct SortedGames {
    pub all_regions: Vec<Game>,
    pub one_region: Vec<Game>,
    pub trash: Vec<Game>,
}

/// The three lists of a sorting, as sequences.
pub open spec fn sorted_view(s: SortedGames) -> (Seq<Game>, Seq<Game>, Seq<Game>) {
    (s.all_regions@, s.one_region@, s.trash@)
}

/// How one parent/clone group sorts in 1G1R mode: the unwanted games go to the
/// trash; of the others the preferred pick goes to the 1G1R list, and the rest
/// go to the wanted regions where they are in one of `regions`, else to the trash.
pub open spec fn group_outcome(
    members: Seq<Game>,
    ordered: Seq<Seq<char>>,
    regions: Seq<Seq<char>>,
    u: Option<Seq<char>>,
) -> (Seq<Game>, Seq<Game>, Seq<Game>) {
    let kept = by_unwanted(members, u, false);
    let (one, rest) = match preferred_pick(kept, ordered) {
        Some(i) => (seq![kept[i]], without(kept, i)),
        None => (Seq::empty(), kept),
    };
    (
        by_regions(rest, regions, true),
        one,
        by_unwanted(members, u, true) + by_regions(rest, regions, false),
    )
}

/// The members of a group: the parent, then its clones.
pub open spec fn members_of(group: (Game, Vec<Game>)) -> Seq<Game> {
    seq![group.0] + group.1@
}

/// The sorting of all groups, one after another.
pub open spec fn groups_outcome(
    groups: Seq<(Game, Vec<Game>)>,
    ordered: Seq<Seq<char>>,
    regions: Seq<Seq<char>>,
    u: Option<Seq<char>>,
) -> (Seq<Game>, Seq<Game>, Seq<Game>)
    decreases groups.len(),
{
    if groups.len() == 0 {
        (Seq::empty(), Seq::empty(), Seq::empty())
    } else {
        let a = groups_outcome(groups.drop_last(), ordered, regions, u);
        let b = group_outcome(members_of(groups.last()), ordered, regions, u);
        (a.0 + b.0, a.1 + b.1, a.2 + b.2)
    }
}

/// Sorts the games of a system group by group, in 1G1R mode (see `groups_outcome`).
pub fn sort_grouped_games(
    groups: Vec<(Game, Vec<Game>)>,
    one_regions: &Vec<String>,
    regions: &Vec<String>,
    filter: &Option<Matcher>,
) -> (r: SortedGames)
    ensures
        sorted_view(r) == groups_outcome(groups@, views(one_regions@), views(regions@), filter_view(*filter)),
{
    let ghost os = views(one_regions@);
    let ghost rs = views(regions@);
    let ghost u = filter_view(*filter);
    let ghost all = groups@;
    let mut sorted = SortedGames { all_regions: Vec::new(), one_region: Vec::new(), trash: Vec::new() };
    for group in it: groups
        invariant
            it.seq() == all,
            os == views(one_regions@),
            rs == views(regions@),
            u == filter_view(*filter),
            sorted_view(sorted) == groups_outcome(all.take(it.index() as int), os, rs, u),
    {
        let ghost k = it.index() as int;
        assert(all.take(k + 1).drop_last() =~= all.take(k));
        assert(all.take(k + 1).last() == group);
        let ghost before = sorted_view(sorted);
        let (parent, mut clones) = group;
        let mut members: Vec<Game> = Vec::new();
        members.push(parent);
        members.append(&mut clones);
        assert(members@ =~= members_of(group));
        let ghost ms = members@;
        let (mut unwanted, mut kept) = trim_unwanted(members, filter);
        let ghost kept0 = kept@;
        let mut one: Vec<Game> = Vec::new();
        match pick_preferred(&kept, one_regions) {
            Some(i) => {
                let g = kept.remove(i);
                one.push(g);
                assert(one@ =~= seq![kept0[i as int]]);
                assert(kept@ =~= without(kept0, i as int));
            },
            None => {},
        }
        let mut inside: Vec<Game> = Vec::new();
        let mut outside: Vec<Game> = Vec::new();
        split_by_regions(kept, regions, &mut inside, &mut outside);
        let ghost b = group_outcome(ms, os, rs, u);
        assert(inside@ =~= b.0);
        assert(one@ =~= b.1);
        sorted.all_regions.append(&mut inside);
        sorted.one_region.append(&mut one);
        sorted.trash.append(&mut unwanted);
        sorted.trash.append(&mut outside);
        assert(sorted.trash@ =~= before.2 + b.2);
    }
    assert(all.take(all.len() as int) =~= all);
    sorted
}

/// How the games of a system sort outside 1G1R mode: the unwanted games go to
/// the trash; where `regions` is given the others go to the wanted regions when
/// they are in one of them and to the trash otherwise, and where it is empty
/// they all go to the wanted regions.
pub open spec fn games_outcome(gs: Seq<Game>, regions: Seq<Seq<char>>, u: Option<Seq<char>>) -> (
    Seq<Game>,
    Seq<Game>,
    Seq<Game>,
) {
    let kept = by_unwanted(gs, u, false);
    if regions.len() > 0 {
        (
            by_regions(kept, regions, true),
            Seq::empty(),
            by_unwanted(gs, u, true) + by_regions(kept, regions, false),
        )
    } else {
        (kept, Seq::empty(), by_unwanted(gs, u, true))
    }
}

/// Sorts the games of a system outside 1G1R mode (see `games_outcome`).
pub fn sort_games(games: Vec<Game>, regions: &Vec<String>, filter: &Option<Matcher>) -> (r:
    SortedGames)
    ensures
        sorted_view(r) == games_outcome(games@, views(regions@), filter_view(*filter)),
{
    let (unwanted, kept) = trim_unwanted(games, filter);
    let mut sorted = SortedGames { all_regions: Vec::new(), one_region: Vec::new(), trash: unwanted };
    if regions.len() > 0 {
        split_by_regions(kept, regions, &mut sorted.all_regions, &mut sorted.trash);
    } else {
        sorted.all_regions = kept;
    }
    sorted
}

/// The three directories a system's games sort into: the system's own directory
/// under `rom_dir`, and in it `1G1R` and `Trash`.
pub open spec fn sort_directories_spec(rom_dir: Seq<char>, system_name: Seq<char>) -> (
    Seq<char>,
    Seq<char>,
    Seq<char>,
) {
    let all = join(rom_dir, system_name);
    (all, join(all, "1G1R"@), join(all, "Trash"@))
}

/// The directories for all regions, for 1G1R and for the trash (see `sort_directories_spec`).
pub fn sort_directories(rom_directory: &str, system_name: &str) -> (r: (String, String, String))
    ensures
        (r.0@, r.1@, r.2@) == sort_directories_spec(rom_directory@, system_name@),
{
    let all = join_path(rom_directory, system_name);
    let one = join_path(all.as_str(), "1G1R");
    let trash = join_path(all.as_str(), "Trash");
    (all, one, trash)
}

/// The ids of the games of a sequence, in order.
pub open spec fn ids_of(gs: Seq<Game>) -> Seq<i64> {
    gs.map_values(|g: Game| g.id)
}

fn push_ids(ids: &mut Vec<i64>, games: &Vec<Game>)
    ensures
        final(ids)@ == old(ids)@ + ids_of(games@),
{
    let ghost start = ids@;
    let mut i: usize = 0;
    while i < games.len()
        invariant
            i <= games.len(),
            ids@ == start + ids_of(games@.take(i as int)),
        decreases games.len() - i,
    {
        ids.push(games[i].id);
        assert(ids_of(games@.take(i + 1)) =~= ids_of(games@.take(i as int)).push(games@[i as int].id));
        i = i + 1;
    }
    assert(games@.take(games.len() as int) =~= games@);
}

/// The ids of the games kept in the wanted regions and then of the 1G1R picks:
/// the games whose missing ROMs are reported.
pub fn missing_game_ids(sorted: &SortedGames) -> (r: Vec<i64>)
    ensures
        r@ == ids_of(sorted.all_regions@) + ids_of(sorted.one_region@),
{
    let mut ids: Vec<i64> = Vec::new();
    assert(ids@ =~= Seq::<i64>::empty());
    push_ids(&mut ids, &sorted.all_regions);
    push_ids(&mut ids, &sorted.one_region);
    assert(ids@ =~= ids_of(sorted.all_regions@) + ids_of(sorted.one_region@));
    ids
}

/// Where a ROM file goes in `dir`, after its extension: an archive (`7z`,
/// `zip`) is named after the ROM when it holds the game's only ROM and after
/// the game otherwise; a `chd` is named after its ROM when the game has two
/// ROMs (the CUE sheet and the CHD) and after the game otherwise; a `cso` is
/// named after its ROM with the ROM's extension replaced; any other file keeps
/// the ROM's name.
pub open spec fn new_path(game: Game, rom: Rom, romfile: Romfile, rom_count: int, dir: Seq<char>) -> Seq<char> {
    let ext = extension(romfile.path@)->0;
    if ext == "7z"@ || ext == "zip"@ {
        join(dir, (if rom_count == 1 { rom.name@ } else { game.name@ }) + "."@ + ext)
    } else if ext == "chd"@ {
        if rom_count == 2 {
            with_extension(join(dir, rom.name@), ext)
        } else {
            join(dir, game.name@ + "."@ + ext)
        }
    } else if ext == "cso"@ {
        with_extension(join(dir, rom.name@), ext)
    } else {
        join(dir, rom.name@)
    }
}

/// `base`, a dot, then `ext`.
fn dotted(base: &str, ext: &str) -> (r: String)
    ensures
        r@ == base@ + "."@ + ext@,
{
    let mut r = String::from_str(base);
    r.append(".");
    r.append(ext);
    r
}

/// Where `romfile` goes in `directory` (see `new_path`). The ROM file's path
/// must have an extension.
pub fn get_new_path(game: &Game, rom: &Rom, romfile: &Romfile, rom_count: usize, directory: &str) -> (r: String)
    requires
        extension(romfile.path@) is Some,
    ensures
        r@ == new_path(*game, *rom, *romfile, rom_count as int, directory@),
{
    let ext = match extension_of(romfile.path.as_str()) {
        Some(e) => e,
        None => {
            assert(false);
            String::new()
        },
    };
    let e = ext.as_str();
    if ext == String::from_str("7z") || ext == String::from_str("zip") {
        let name = if rom_count == 1 { dotted(rom.name.as_str(), e) } else { dotted(game.name.as_str(), e) };
        join_path(directory, name.as_str())
    } else if ext == String::from_str("chd") {
        if rom_count == 2 {
            let p = join_path(directory, rom.name.as_str());
            with_extension_of(p.as_str(), e)
        } else {
            let name = dotted(game.name.as_str(), e);
            join_path(directory, name.as_str())
        }
    } else if ext == String::from_str("cso") {
        let p = join_path(directory, rom.name.as_str());
        with_extension_of(p.as_str(), e)
    } else {
        join_path(directory, rom.name.as_str())
    }
}

/// A planned move of a ROM file, with the new path as characters.
pub open spec fn move_view(m: (Romfile, String)) -> (Romfile, Seq<char>) {
    (m.0, m.1@)
}

/// The views of a sequence of planned moves.
pub open spec fn moves_view(ms: Seq<(Romfile, String)>) -> Seq<(Romfile, Seq<char>)> {
    ms.map_values(|m: (Romfile, String)| move_view(m))
}

/// The moves for the ROM files of one game whose new path differs from the
/// current one, in order; `count` is the number of the game's ROMs.
pub open spec fn game_moves(game: Game, rrs: Seq<(Rom, Romfile)>, count: int, dir: Seq<char>) -> Seq<(Romfile, Seq<char>)>
    decreases rrs.len(),
{
    if rrs.len() == 0 {
        Seq::empty()
    } else {
        let prev = game_moves(game, rrs.drop_last(), count, dir);
        let np = new_path(game, rrs.last().0, rrs.last().1, count, dir);
        if rrs.last().1.path@ != np {
            prev.push((rrs.last().1, np))
        } else {
            prev
        }
    }
}

/// The moves for the first `n` games, each paired with its list of ROMs and
/// ROM files.
pub open spec fn moves_upto(games: Seq<Game>, lists: Seq<Vec<(Rom, Romfile)>>, n: int, dir: Seq<char>) -> Seq<(Romfile, Seq<char>)>
    decreases n,
{
    if n <= 0 {
        Seq::empty()
    } else {
        moves_upto(games, lists, n - 1, dir) + game_moves(games[n - 1], lists[n - 1]@, lists[n - 1]@.len() as int, dir)
    }
}

/// The number of games that have their list of ROMs.
pub open spec fn paired_len(games: Seq<Game>, lists: Seq<Vec<(Rom, Romfile)>>) -> int {
    if games.len() <= lists.len() { games.len() as int } else { lists.len() as int }
}

/// Every ROM file of the paired games has an extension.
pub open spec fn romfiles_have_extensions(games: Seq<Game>, lists: Seq<Vec<(Rom, Romfile)>>) -> bool {
    forall|i: int, j: int| 0 <= i < paired_len(games, lists) && 0 <= j < lists[i]@.len()
        ==> (extension(#[trigger] lists[i]@[j].1.path@) is Some)
}

/// A copy of a ROM file record.
pub fn copy_romfile(r: &Romfile) -> (c: Romfile)
    ensures
        c == *r,
{
    Romfile { id: r.id, path: r.path.clone() }
}

/// The moves for the ROM files of `games`, where `roms_romfiles[i]` lists the
/// ROMs of `games[i]` with the files that hold them; games past the end of the
/// shorter list are left out. Every ROM file must have an extension.
pub fn process_games(games: &Vec<Game>, roms_romfiles: &Vec<Vec<(Rom, Romfile)>>, directory: &str) -> (r: Vec<(Romfile, String)>)
    requires
        romfiles_have_extensions(games@, roms_romfiles@),
    ensures
        moves_view(r@) == moves_upto(games@, roms_romfiles@, paired_len(games@, roms_romfiles@), directory@),
{
    let n: usize = if games.len() <= roms_romfiles.len() { games.len() } else { roms_romfiles.len() };
    let mut moves: Vec<(Romfile, String)> = Vec::new();
    let mut i: usize = 0;
    assert(moves_view(moves@) =~= Seq::<(Romfile, Seq<char>)>::empty());
    while i < n
        invariant
            n == paired_len(games@, roms_romfiles@),
            n <= games.len(),
            n <= roms_romfiles.len(),
            i <= n,
            romfiles_have_extensions(games@, roms_romfiles@),
            moves_view(moves@) == moves_upto(games@, roms_romfiles@, i as int, directory@),
        decreases n - i,
    {
        let game = &games[i];
        let list = &roms_romfiles[i];
        let count: usize = list.len();
        let ghost before = moves_view(moves@);
        let mut j: usize = 0;
        while j < count
            invariant
                i < n,
                n == paired_len(games@, roms_romfiles@),
                n <= games.len(),
                n <= roms_romfiles.len(),
                game == games@[i as int],
                list == roms_romfiles@[i as int],
                count == list.len(),
                j <= count,
                romfiles_have_extensions(games@, roms_romfiles@),
                moves_view(moves@) == before + game_moves(*game, list@.take(j as int), count as int, directory@),
            decreases count - j,
        {
            assert(list@.take(j + 1).drop_last() =~= list@.take(j as int));
            let rom = &list[j].0;
            let romfile = &list[j].1;
            assert(extension(roms_romfiles@[i as int]@[j as int].1.path@) is Some);
            let np = get_new_path(game, rom, romfile, count, directory);
            let ghost prev = moves_view(moves@);
            if !(romfile.path == np) {
                moves.push((copy_romfile(romfile), np));
                assert(moves_view(moves@) =~= prev.push((*romfile, np@)));
            }
            j = j + 1;
        }
        assert(list@.take(count as int) =~= list@);
        i = i + 1;
    }
    moves
}

/// No move of `ms` before index `i` has the new path of `ms[i]`.
pub open spec fn first_of_its_key(ms: Seq<(Romfile, Seq<char>)>, i: int) -> bool {
    forall|j: int| 0 <= j < i ==> ms[j].1 != ms[i].1
}

/// `out[k]` is the first move of `ms` with its new path, for every `k`.
pub open spec fn firsts_of_their_key(ms: Seq<(Romfile, Seq<char>)>, out: Seq<(Romfile, Seq<char>)>) -> bool {
    forall|k: int| 0 <= k < out.len() ==> #[trigger] has_source(ms, out, k)
}

/// `out[k]` is a move of `ms`, the first with its new path.
pub open spec fn has_source(ms: Seq<(Romfile, Seq<char>)>, out: Seq<(Romfile, Seq<char>)>, k: int) -> bool {
    exists|i: int| is_source_of(ms, out, k, i)
}

/// `out[k]` is the move of `ms` at `i`, the first with its new path.
pub open spec fn is_source_of(ms: Seq<(Romfile, Seq<char>)>, out: Seq<(Romfile, Seq<char>)>, k: int, i: int) -> bool {
    0 <= i < ms.len() && ms[i] == out[k] && first_of_its_key(ms, i)
}

/// Every new path of `ms` is the new path of some move of `out`.
pub open spec fn covers_keys(ms: Seq<(Romfile, Seq<char>)>, out: Seq<(Romfile, Seq<char>)>) -> bool {
    forall|i: int| 0 <= i < ms.len() ==> exists|k: int| 0 <= k < out.len() && (#[trigger] out[k]).1 == (#[trigger] ms[i]).1
}

/// The new paths of `out` strictly increase.
pub open spec fn strictly_sorted(out: Seq<(Romfile, Seq<char>)>) -> bool {
    forall|i: int, j: int| 0 <= i < j < out.len() ==> lex_lt((#[trigger] out[i]).1, (#[trigger] out[j]).1)
}

/// Covering the new paths of a prefix of `ms` carries over to one more move,
/// where its new path stands at index `p` of the result, whose items are those
/// of `ov` with at most one new item at `p` (`shift` is where `ov[p]` went).
proof fn lemma_covers_extend(
    ms: Seq<(Romfile, Seq<char>)>,
    idx: int,
    ov: Seq<(Romfile, Seq<char>)>,
    nv: Seq<(Romfile, Seq<char>)>,
    p: int,
    shift: int,
)
    requires
        0 <= idx < ms.len(),
        covers_keys(ms.take(idx), ov),
        0 <= p < nv.len(),
        nv[p].1 == ms[idx].1,
        shift == p || shift == p + 1,
        nv.len() == ov.len() + (shift - p),
        forall|k: int| 0 <= k < p ==> nv[k] == ov[k],
        forall|k: int| p <= k < ov.len() ==> nv[k + (shift - p)] == ov[k],
    ensures
        covers_keys(ms.take(idx + 1), nv),
{
    let t = ms.take(idx + 1);
    assert forall|i: int| 0 <= i < t.len() implies exists|k: int| 0 <= k < nv.len() && (#[trigger] nv[k]).1 == (#[trigger] t[i]).1 by {
        if i < idx {
            assert(t[i] == ms.take(idx)[i]);
            let k = choose|k: int| 0 <= k < ov.len() && (#[trigger] ov[k]).1 == (#[trigger] ms.take(idx)[i]).1;
            if k < p {
                assert(nv[k] == ov[k]);
            } else {
                assert(nv[k + (shift - p)] == ov[k]);
            }
        } else {
            assert(nv[p].1 == t[i].1);
        }
    }
}

/// Where each item of `ov` is the item of `ms` at `src[k]`, the first with its
/// new path, `ov` holds firsts of their key.
proof fn lemma_firsts(ms: Seq<(Romfile, Seq<char>)>, ov: Seq<(Romfile, Seq<char>)>, src: Seq<int>)
    requires
        src.len() == ov.len(),
        forall|k: int| 0 <= k < ov.len() ==> {
            let i = #[trigger] src[k];
            &&& 0 <= i < ms.len()
            &&& ms[i] == ov[k]
            &&& first_of_its_key(ms, i)
        },
    ensures
        firsts_of_their_key(ms, ov),
{
    assert forall|k: int| 0 <= k < ov.len() implies #[trigger] has_source(ms, ov, k) by {
        let i = src[k];
        assert(is_source_of(ms, ov, k, i));
    }
}

/// Sorts the moves by new path and keeps, of the moves that share a new path,
/// the first: the result has one move for each new path of `moves`, the first
/// one with it, in increasing order of new path.
pub fn sort_and_dedup_moves(moves: Vec<(Romfile, String)>) -> (r: Vec<(Romfile, String)>)
    ensures
        strictly_sorted(moves_view(r@)),
        firsts_of_their_key(moves_view(moves@), moves_view(r@)),
        covers_keys(moves_view(moves@), moves_view(r@)),
{
    let ghost ms = moves_view(moves@);
    let ghost all = moves@;
    let mut out: Vec<(Romfile, String)> = Vec::new();
    let mut keys: Vec<Vec<char>> = Vec::new();
    let ghost mut src: Seq<int> = Seq::empty();
    for m in it: moves
        invariant
            it.seq() == all,
            ms == moves_view(all),
            keys.len() == out.len(),
            src.len() == out.len(),
            forall|k: int| 0 <= k < out.len() ==> (#[trigger] keys@[k])@ == out@[k].1@,
            strictly_sorted(moves_view(out@)),
            forall|k: int| 0 <= k < out.len() ==> {
                let i = #[trigger] src[k];
                &&& 0 <= i < it.index()
                &&& i < ms.len()
                &&& ms[i] == moves_view(out@)[k]
                &&& first_of_its_key(ms, i)
            },
            covers_keys(ms.take(it.index() as int), moves_view(out@)),
    {
        let ghost idx = it.index() as int;
        let ghost ov = moves_view(out@);
        assert(all[idx] == m);
        assert(ms[idx] == move_view(m));
        assert(idx < ms.len());
        assert(ms.take(idx + 1).len() == idx + 1);
        let key = chars_of(m.1.as_str());
        let mut p: usize = 0;
        while p < keys.len() && lex_less(&keys[p], &key)
            invariant
                p <= keys.len(),
                keys.len() == out.len(),
                ov == moves_view(out@),
                forall|k: int| 0 <= k < out.len() ==> (#[trigger] keys@[k])@ == out@[k].1@,
                forall|q: int| 0 <= q < p ==> lex_lt((#[trigger] keys@[q])@, key@),
            decreases keys.len() - p,
        {
            p = p + 1;
        }
        let dup = p < keys.len() && chars_equal(&keys[p], &key);
        if dup {
            assert(ov[p as int].1 == ms[idx].1);
            proof {
                lemma_covers_extend(ms, idx, ov, ov, p as int, p as int);
            }
        } else {
            // the new path stands before every key from p on, and equals none
            assert forall|q: int| 0 <= q < keys.len() implies (#[trigger] keys@[q])@ != key@ && (p <= q ==> lex_lt(key@, keys@[q]@)) && (q < p ==> lex_lt(keys@[q]@, key@)) by {
                if q < p {
                    lemma_lex_irreflexive(key@);
                } else {
                    assert(keys@[p as int]@ != key@);
                    assert(!lex_lt(keys@[p as int]@, key@));
                    lemma_lex_total(keys@[p as int]@, key@);
                    if q > p {
                        assert(lex_lt(ov[p as int].1, ov[q].1));
                        lemma_lex_transitive(key@, keys@[p as int]@, keys@[q]@);
                    }
                    lemma_lex_irreflexive(key@);
                }
            }
            // no earlier move has this new path
            assert forall|j: int| 0 <= j < idx implies ms[j].1 != ms[idx].1 by {
                assert(ms.take(idx)[j] == ms[j]);
                if ms[j].1 == ms[idx].1 {
                    let k = choose|k: int| 0 <= k < ov.len() && (#[trigger] ov[k]).1 == (#[trigger] ms.take(idx)[j]).1;
                    assert(keys@[k]@ == key@);
                }
            }
            let ghost old_keys = keys@;
            out.insert(p, m);
            keys.insert(p, key);
            proof {
                src = src.insert(p as int, idx);
            }
            let ghost nv = moves_view(out@);
            assert(nv =~= ov.insert(p as int, ms[idx]));
            assert forall|k: int| 0 <= k < out.len() implies (#[trigger] keys@[k])@ == out@[k].1@ by {
                if k < p {
                } else if k > p {
                    assert(keys@[k] == old_keys[k - 1]);
                }
            }
            assert forall|a: int, b: int| 0 <= a < b < nv.len() implies lex_lt((#[trigger] nv[a]).1, (#[trigger] nv[b]).1) by {
                if b < p {
                    assert(lex_lt(ov[a].1, ov[b].1));
                } else if a < p && b == p {
                    assert(lex_lt(old_keys[a]@, key@));
                } else if a < p && b > p {
                    assert(lex_lt(ov[a].1, ov[b - 1].1));
                } else if a == p {
                    assert(lex_lt(key@, old_keys[b - 1]@));
                } else {
                    assert(lex_lt(ov[a - 1].1, ov[b - 1].1));
                }
            }
            proof {
                lemma_covers_extend(ms, idx, ov, nv, p as int, p as int + 1);
            }
            assert(covers_keys(ms.take(idx + 1), moves_view(out@)));
        }
    }
    assert(ms.take(ms.len() as int) =~= ms);
    proof {
        lemma_firsts(ms, moves_view(out@), src);
    }
    out
}

} // verus!
