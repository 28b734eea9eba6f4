use oxyromon::model::{Game, Rom, Romfile};
use oxyromon::sort_roms::{
    game_in_regions, game_is_unwanted, get_new_path, missing_game_ids, pick_preferred,
    process_games, sort_and_dedup_moves, sort_directories, sort_games, sort_grouped_games,
    trim_unwanted, unwanted_filter, unwanted_keywords, unwanted_pattern_of, SortError,
    UnwantedFlags,
};

fn game(id: i64, name: &str, regions: &str) -> Game {
    Game { id, name: name.to_string(), regions: regions.to_string() }
}

fn names(games: &[Game]) -> Vec<&str> {
    games.iter().map(|g| g.name.as_str()).collect()
}

fn strings(v: &[&str]) -> Vec<String> {
    v.iter().map(|s| s.to_string()).collect()
}

fn no_flags() -> UnwantedFlags {
    UnwantedFlags {
        no_beta: false,
        no_debug: false,
        no_demo: false,
        no_program: false,
        no_proto: false,
        no_sample: false,
        no_sega_channel: false,
        no_virtual_console: false,
    }
}

#[test]
fn keywords_follow_flags_in_order() {
    let mut f = no_flags();
    assert!(unwanted_keywords(&f).is_empty());
    f.no_virtual_console = true;
    f.no_beta = true;
    f.no_demo = true;
    assert_eq!(
        unwanted_keywords(&f),
        strings(&["Beta( [0-9]+)?", "Demo", "([A-z ]+)?Virtual Console"])
    );
}

#[test]
fn pattern_is_the_parenthesized_alternatives() {
    let k = strings(&["Beta( [0-9]+)?", "Demo"]);
    assert_eq!(unwanted_pattern_of(&k), r"\(((Beta( [0-9]+)?|Demo)(, )?)+\)");
    assert_eq!(
        unwanted_pattern_of(&strings(&["Sample"])),
        format!(r"\((({})(, )?)+\)", "Sample")
    );
}

#[test]
fn no_flags_means_no_filter() {
    assert!(matches!(unwanted_filter(&no_flags()), Ok(None)));
}

#[test]
fn filter_matches_tagged_names() {
    let mut f = no_flags();
    f.no_beta = true;
    f.no_proto = true;
    let filter = unwanted_filter(&f).unwrap();
    assert!(filter.is_some());
    assert!(game_is_unwanted(&filter, &game(1, "Game (USA) (Beta)", "USA")));
    assert!(game_is_unwanted(&filter, &game(1, "Game (USA) (Proto 2)", "USA")));
    assert!(game_is_unwanted(&filter, &game(1, "Game (USA) (Beta, Proto)", "USA")));
    assert!(!game_is_unwanted(&filter, &game(1, "Game (USA)", "USA")));
    assert!(!game_is_unwanted(&filter, &game(1, "Betamax (USA)", "USA")));
    assert!(!game_is_unwanted(&None, &game(1, "Game (Beta)", "")));
}

#[test]
fn every_flag_gives_a_valid_filter() {
    let mut f = no_flags();
    f.no_beta = true;
    f.no_debug = true;
    f.no_demo = true;
    f.no_program = true;
    f.no_proto = true;
    f.no_sample = true;
    f.no_sega_channel = true;
    f.no_virtual_console = true;
    let filter = match unwanted_filter(&f) {
        Ok(filter) => filter,
        Err(SortError::InvalidPattern(p)) => panic!("refused pattern {}", p),
    };
    assert!(game_is_unwanted(&filter, &game(1, "Game (Wii Virtual Console, Sample)", "")));
    assert!(game_is_unwanted(&filter, &game(1, "Game (Sega Channel)", "")));
    assert!(!game_is_unwanted(&filter, &game(1, "Game (USA)", "")));
}

#[test]
fn trim_splits_in_order() {
    let mut f = no_flags();
    f.no_demo = true;
    let filter = unwanted_filter(&f).unwrap();
    let games = vec![
        game(1, "A (Demo)", "USA"),
        game(2, "B", "USA"),
        game(3, "C (Demo)", "USA"),
        game(4, "D", "Japan"),
    ];
    let (unwanted, regular) = trim_unwanted(games, &filter);
    assert_eq!(names(&unwanted), vec!["A (Demo)", "C (Demo)"]);
    assert_eq!(names(&regular), vec!["B", "D"]);
}

#[test]
fn regions_are_substrings() {
    let regions = strings(&["Europe", "USA"]);
    assert!(game_in_regions(&game(1, "G", "USA, Europe"), &regions));
    assert!(!game_in_regions(&game(1, "G", "Japan"), &regions));
    assert!(!game_in_regions(&game(1, "G", "USA"), &vec![]));
}

#[test]
fn preferred_pick_follows_region_order() {
    let games = vec![game(1, "A", "Japan"), game(2, "B", "USA"), game(3, "C", "Europe"), game(4, "D", "USA")];
    assert_eq!(pick_preferred(&games, &strings(&["USA", "Europe"])), Some(1));
    assert_eq!(pick_preferred(&games, &strings(&["Europe", "USA"])), Some(2));
    assert_eq!(pick_preferred(&games, &strings(&["Korea", "Japan"])), Some(0));
    assert_eq!(pick_preferred(&games, &strings(&["Korea"])), None);
    assert_eq!(pick_preferred(&games, &vec![]), None);
}

#[test]
fn default_mode_keeps_everything_wanted() {
    let mut f = no_flags();
    f.no_beta = true;
    let filter = unwanted_filter(&f).unwrap();
    let games = vec![game(1, "A", "USA"), game(2, "B (Beta)", "USA"), game(3, "C", "Japan")];
    let sorted = sort_games(games, &vec![], &filter);
    assert_eq!(names(&sorted.all_regions), vec!["A", "C"]);
    assert!(sorted.one_region.is_empty());
    assert_eq!(names(&sorted.trash), vec!["B (Beta)"]);
}

#[test]
fn regions_mode_trashes_other_regions() {
    let mut f = no_flags();
    f.no_beta = true;
    let filter = unwanted_filter(&f).unwrap();
    let games = vec![
        game(1, "A (USA)", "USA"),
        game(2, "B (Japan)", "Japan"),
        game(3, "C (Europe) (Beta)", "Europe"),
        game(4, "D (USA, Europe)", "USA, Europe"),
    ];
    let sorted = sort_games(games, &strings(&["Europe"]), &filter);
    assert_eq!(names(&sorted.all_regions), vec!["D (USA, Europe)"]);
    assert!(sorted.one_region.is_empty());
    assert_eq!(names(&sorted.trash), vec!["C (Europe) (Beta)", "A (USA)", "B (Japan)"]);
}

#[test]
fn one_game_one_rom_per_group() {
    let mut f = no_flags();
    f.no_proto = true;
    let filter = unwanted_filter(&f).unwrap();
    let groups = vec![
        (
            game(1, "Zelda (Japan)", "Japan"),
            vec![
                game(2, "Zelda (USA) (Proto)", "USA"),
                game(3, "Zelda (Europe)", "Europe"),
                game(4, "Zelda (USA)", "USA"),
            ],
        ),
        (game(5, "Mario (Japan)", "Japan"), vec![game(6, "Mario (Korea)", "Korea")]),
        (game(7, "Metroid (Europe)", "Europe"), vec![]),
    ];
    let sorted = sort_grouped_games(groups, &strings(&["USA", "Europe"]), &strings(&["Japan"]), &filter);
    assert_eq!(names(&sorted.one_region), vec!["Zelda (USA)", "Metroid (Europe)"]);
    assert_eq!(names(&sorted.all_regions), vec!["Zelda (Japan)", "Mario (Japan)"]);
    assert_eq!(
        names(&sorted.trash),
        vec!["Zelda (USA) (Proto)", "Zelda (Europe)", "Mario (Korea)"]
    );
    assert_eq!(missing_game_ids(&sorted), vec![1, 5, 4, 7]);
}

#[test]
fn directories_for_a_system() {
    let (all, one, trash) = sort_directories("/roms", "Nintendo - Game Boy");
    assert_eq!(all, "/roms/Nintendo - Game Boy");
    assert_eq!(one, "/roms/Nintendo - Game Boy/1G1R");
    assert_eq!(trash, "/roms/Nintendo - Game Boy/Trash");
}

fn rom(name: &str) -> Rom {
    Rom { id: 0, name: name.to_string(), crc: "abcd1234".to_string() }
}

fn romfile(path: &str) -> Romfile {
    Romfile { id: 0, path: path.to_string() }
}

#[test]
fn new_paths_by_extension() {
    let g = game(1, "Game (USA)", "USA");
    assert_eq!(get_new_path(&g, &rom("Game (USA).gb"), &romfile("/old/x.zip"), 1, "/new"), "/new/Game (USA).gb.zip");
    assert_eq!(get_new_path(&g, &rom("Track 1.bin"), &romfile("/old/x.7z"), 3, "/new"), "/new/Game (USA).7z");
    assert_eq!(get_new_path(&g, &rom("Game (USA).cue"), &romfile("/old/x.chd"), 2, "/new"), "/new/Game (USA).chd");
    assert_eq!(get_new_path(&g, &rom("Track 1.bin"), &romfile("/old/x.chd"), 3, "/new"), "/new/Game (USA).chd");
    assert_eq!(get_new_path(&g, &rom("Game (USA).iso"), &romfile("/old/x.cso"), 1, "/new"), "/new/Game (USA).cso");
    assert_eq!(get_new_path(&g, &rom("Game (USA).nes"), &romfile("/old/x.nes"), 1, "/new"), "/new/Game (USA).nes");
}

#[test]
fn moves_skip_files_already_in_place() {
    let games = vec![game(1, "A", "USA"), game(2, "B", "USA"), game(3, "C", "USA")];
    let lists = vec![
        vec![(rom("A.gb"), romfile("/new/A.gb"))],
        vec![(rom("B.gb"), romfile("/old/B.gb")), (rom("B2.gb"), romfile("/old/b.zip"))],
    ];
    let moves = process_games(&games, &lists, "/new");
    let got: Vec<(&str, &str)> = moves.iter().map(|(r, p)| (r.path.as_str(), p.as_str())).collect();
    assert_eq!(got, vec![("/old/B.gb", "/new/B.gb"), ("/old/b.zip", "/new/B.zip")]);
}

#[test]
fn moves_sorted_and_first_kept() {
    let moves = vec![
        (romfile("/a/3"), "/n/c".to_string()),
        (romfile("/a/1"), "/n/a".to_string()),
        (romfile("/a/2"), "/n/b".to_string()),
        (romfile("/a/4"), "/n/a".to_string()),
        (romfile("/a/5"), "/n/c".to_string()),
    ];
    let out = sort_and_dedup_moves(moves.clone());
    let got: Vec<(&str, &str)> = out.iter().map(|(r, p)| (r.path.as_str(), p.as_str())).collect();
    assert_eq!(got, vec![("/a/1", "/n/a"), ("/a/2", "/n/b"), ("/a/3", "/n/c")]);
    let mut expected = moves;
    expected.sort_by(|a, b| a.1.cmp(&b.1));
    expected.dedup_by(|a, b| a.1 == b.1);
    assert_eq!(out, expected);
    assert!(sort_and_dedup_moves(vec![]).is_empty());
}

fn generated_games(start: i64, n: i64) -> Vec<Game> {
    let tags = ["", " (Beta)", " (Demo)", " (Proto 1)", " (Sample, Demo)"];
    let regions = ["USA", "Europe", "Japan", "USA, Europe", "Korea"];
    (0..n)
        .map(|i| {
            let id = start + i;
            let tag = tags[(id % 5) as usize];
            let region = regions[((id / 5) % 5) as usize];
            game(id, &format!("Game {}{}", id, tag), region)
        })
        .collect()
}

fn sorted_ids(lists: &[&Vec<Game>]) -> Vec<i64> {
    let mut ids: Vec<i64> = lists.iter().flat_map(|l| l.iter().map(|g| g.id)).collect();
    ids.sort();
    ids
}

#[test]
fn sorting_keeps_every_game_once_and_only_wanted_ones() {
    let mut f = no_flags();
    f.no_beta = true;
    f.no_demo = true;
    let filter = unwanted_filter(&f).unwrap();
    let regions = strings(&["Europe"]);
    let games = generated_games(0, 60);
    let sorted = sort_games(games.clone(), &regions, &filter);
    assert_eq!(
        sorted_ids(&[&sorted.all_regions, &sorted.one_region, &sorted.trash]),
        (0..60).collect::<Vec<i64>>()
    );
    for g in &sorted.all_regions {
        assert!(!game_is_unwanted(&filter, g));
        assert!(game_in_regions(g, &regions));
    }
    assert!(sorted.one_region.is_empty());

    let groups: Vec<(Game, Vec<Game>)> = (0..12)
        .map(|k| {
            let mut members = generated_games(k * 5, 5);
            let parent = members.remove(0);
            (parent, members)
        })
        .collect();
    let ordered = strings(&["Japan", "USA"]);
    let sorted = sort_grouped_games(groups, &ordered, &regions, &filter);
    assert_eq!(
        sorted_ids(&[&sorted.all_regions, &sorted.one_region, &sorted.trash]),
        (0..60).collect::<Vec<i64>>()
    );
    assert!(sorted.one_region.len() <= 12);
    for g in &sorted.one_region {
        assert!(!game_is_unwanted(&filter, g));
        assert!(game_in_regions(g, &ordered));
    }
    for g in &sorted.all_regions {
        assert!(!game_is_unwanted(&filter, g));
        assert!(game_in_regions(g, &regions));
    }
}
