use kovaaks_stats::aggregate::reduce;
use kovaaks_stats::facade::build_found_result;
use kovaaks_stats::facade::build_not_found_result;
use kovaaks_stats::facade::not_found_sentinel;
use kovaaks_stats::locator::candidate_stats_dirs;
use kovaaks_stats::locator::home_fallback_path;
use kovaaks_stats::locator::home_steam_roots;
use kovaaks_stats::locator::steam_library_paths;
use kovaaks_stats::numparse::Decimal;
use kovaaks_stats::record::StatsResult;
use kovaaks_stats::scanner::scan;
use kovaaks_stats::scanner::FileEntry;

fn dec(mant: u64) -> Decimal {
    Decimal { neg: false, mant, scale: 0 }
}

fn record(scenario: &str, mant: u64, date: &str) -> StatsResult {
    StatsResult {
        scenario_name: scenario.to_string(),
        score: dec(mant),
        kills: 0,
        hits: 0,
        misses: 0,
        fov_scale: String::new(),
        fov: dec(0),
        resolution: String::new(),
        avg_fps: dec(0),
        sens_cm: None,
        date: date.to_string(),
    }
}

fn entry(name: &str, content: &str) -> FileEntry {
    FileEntry { name: name.to_string(), content: Some(content.to_string()) }
}

#[test]
fn aggregator_keeps_maximum_and_first_of_ties() {
    let records = vec![
        record("Gridshot", 100, "a"),
        record("Sixshot", 90, "b"),
        record("Gridshot", 150, "c"),
        record("Gridshot", 150, "d"),
        record("Sixshot", 40, "e"),
    ];
    let out = reduce(records);
    assert_eq!(out.len(), 2);
    assert_eq!(out[0].scenario_name, "Gridshot");
    assert_eq!(out[0].score, dec(150));
    assert_eq!(out[0].date, "c");
    assert_eq!(out[1].scenario_name, "Sixshot");
    assert_eq!(out[1].score, dec(90));
}

#[test]
fn aggregator_compares_across_scales() {
    let mut a = record("S", 0, "a");
    a.score = Decimal { neg: false, mant: 1205, scale: 1 };
    let mut b = record("S", 0, "b");
    b.score = Decimal { neg: false, mant: 121, scale: 0 };
    let out = reduce(vec![a, b]);
    assert_eq!(out[0].date, "b");

    let mut c = record("S", 0, "c");
    c.score = Decimal { neg: true, mant: 5, scale: 0 };
    let mut d = record("S", 0, "d");
    d.score = Decimal { neg: false, mant: 0, scale: 0 };
    let out2 = reduce(vec![c, d]);
    assert_eq!(out2[0].date, "d");
}

#[test]
fn scan_filters_extension_and_prefix() {
    let files = vec![
        entry("Gridshot - x - 2024.01.01 Stats.csv", "Score: 10\n"),
        entry("Gridshot - x - 2024.01.02 Stats.CSV", "Score: 20\n"),
        entry("Gridshot - x - 2024.01.03 Stats.txt", "Score: 30\n"),
        entry("gridshot - x - 2024.01.04 Stats.csv", "Score: 40\n"),
        entry("Sixshot - x - 2024.01.05 Stats.csv", "Score: 50\n"),
        entry(".csv", "Score: 60\n"),
    ];
    let allow = vec!["Gridshot".to_string()];
    let out = scan(&files, &allow);
    assert_eq!(out.len(), 1);
    assert_eq!(out[0].score, dec(10));
}

#[test]
fn scan_skips_unreadable_and_unparseable() {
    let files = vec![
        FileEntry { name: "Gridshot - x - a Stats.csv".to_string(), content: None },
        entry("badname.csv", "Score: 10\n"),
        entry("Gridshot - x - 2024.01.01 Stats.csv", "Score: 10\n"),
    ];
    let allow = vec!["Gridshot".to_string(), "badname".to_string()];
    let out = scan(&files, &allow);
    assert_eq!(out.len(), 1);
    assert_eq!(out[0].date, "2024.01.01");
}

#[test]
fn best_of_two_sessions_end_to_end() {
    let files = vec![
        entry("Gridshot - x - 2024.01.01 Stats.csv", "Score: 100\n"),
        entry("Gridshot - y - 2024.01.02 Stats.csv", "Score: 150\n"),
    ];
    let allow = vec!["Gridshot".to_string()];
    let r = build_found_result("some/dir".to_string(), files, &allow);
    assert!(r.exists);
    assert_eq!(r.stats_path, "some/dir");
    assert_eq!(r.stats.len(), 1);
    assert_eq!(r.stats[0].scenario_name, "Gridshot");
    assert_eq!(r.stats[0].score, dec(150));
    assert_eq!(r.stats[0].date, "2024.01.02");
}

#[test]
fn allow_list_without_match_gives_empty_stats() {
    let files = vec![
        entry("Gridshot - x - 2024.01.01 Stats.csv", "Score: 100\n"),
        entry("Gridshot - y - 2024.01.02 Stats.csv", "Score: 150\n"),
    ];
    let allow = vec!["Sixshot".to_string()];
    let r = build_found_result("some/dir".to_string(), files, &allow);
    assert!(r.exists);
    assert_eq!(r.stats.len(), 0);
}

#[test]
fn no_candidate_directory_gives_not_found() {
    let r = build_not_found_result(not_found_sentinel());
    assert!(!r.exists);
    assert_eq!(r.stats.len(), 0);
    assert_eq!(r.stats_path, "No stats path found");
}

#[test]
fn manifest_roots_come_first_then_default() {
    let manifest = "\"libraryfolders\"\n{\n\t\"path\"\t\t\"D:/Games\"\n}\n";
    let out = steam_library_paths("C:/Steam", &Some(manifest.to_string()));
    assert_eq!(
        out,
        vec!["D:/Games/steamapps".to_string(), "C:/Steam/steamapps".to_string()]
    );
}

#[test]
fn missing_manifest_gives_only_default() {
    let out = steam_library_paths("C:/Steam", &None);
    assert_eq!(out, vec!["C:/Steam/steamapps".to_string()]);
}

#[test]
fn malformed_manifest_lines_add_nothing() {
    let manifest = "no quotes here\n\"one\" two\n{\n";
    let out = steam_library_paths("root", &Some(manifest.to_string()));
    assert_eq!(out, vec!["root/steamapps".to_string()]);
}

#[test]
fn candidates_map_roots_and_append_extras() {
    let roots = vec!["a/steamapps".to_string(), "b/steamapps".to_string()];
    let extra = vec!["x/stats".to_string()];
    let out = candidate_stats_dirs(&roots, &extra);
    assert_eq!(
        out,
        vec![
            "a/steamapps/common/FPSAimTrainer/FPSAimTrainer/stats".to_string(),
            "b/steamapps/common/FPSAimTrainer/FPSAimTrainer/stats".to_string(),
            "x/stats".to_string(),
        ]
    );
}

#[test]
fn home_roots_and_fallback() {
    let roots = home_steam_roots("/home/u");
    assert_eq!(
        roots,
        vec![
            "/home/u/.local/share/Steam/steamapps".to_string(),
            "/home/u/.steam/steam/steamapps".to_string(),
        ]
    );
    assert_eq!(
        home_fallback_path("/home/u"),
        "/home/u/.steam/steam/steamapps/common/FPSAimTrainer/FPSAimTrainer/stats"
    );
}
