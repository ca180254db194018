use kovaaks_stats::numparse::parse_decimal;
use kovaaks_stats::numparse::Decimal;
use kovaaks_stats::record::parse_record;

fn dec(neg: bool, mant: u64, scale: u32) -> Decimal {
    Decimal { neg, mant, scale }
}

#[test]
fn filename_gives_scenario_and_date() {
    let r = parse_record(
        "Gridshot Ultimate - CHALLENGE - 2024.01.01-12.00.00 Stats.csv",
        "Score: 100\n",
    )
    .unwrap();
    assert_eq!(r.scenario_name, "Gridshot Ultimate");
    assert_eq!(r.date, "2024.01.01-12.00.00");
    assert_eq!(r.score, dec(false, 100, 0));
}

#[test]
fn filename_without_three_segments_is_skipped() {
    assert!(parse_record("notes.csv", "Score: 1\n").is_none());
    assert!(parse_record("Gridshot - 2024 Stats.csv", "Score: 1\n").is_none());
    assert!(parse_record("", "Score: 1\n").is_none());
}

#[test]
fn extra_segments_keep_the_third() {
    let r = parse_record("A - B - C - D Stats.csv", "").unwrap();
    assert_eq!(r.scenario_name, "A");
    assert_eq!(r.date, "C");
}

#[test]
fn missing_suffix_keeps_third_segment_whole() {
    let r = parse_record("A - B - C.csv", "").unwrap();
    assert_eq!(r.date, "C.csv");
}

#[test]
fn fields_default_to_zero_and_empty() {
    let r = parse_record("A - B - C Stats.csv", "").unwrap();
    assert_eq!(r.score, dec(false, 0, 0));
    assert_eq!(r.kills, 0);
    assert_eq!(r.hits, 0);
    assert_eq!(r.misses, 0);
    assert_eq!(r.fov_scale, "");
    assert_eq!(r.fov, dec(false, 0, 0));
    assert_eq!(r.resolution, "");
    assert_eq!(r.avg_fps, dec(false, 0, 0));
    assert_eq!(r.sens_cm, None);
    assert_eq!(r.date, "C");
}

#[test]
fn all_fields_parse() {
    let content = "Score: 1234.5\nKills: 42\nHit Count: 100\nMiss Count: 7\nFOVScale: Overwatch\nFOV: 103\nResolution: 1920x1080\nAvg FPS: 240.25\nSens Scale: cm/360\nHoriz Sens: 30.5\nVert Sens: 30.5\n";
    let r = parse_record("A - B - C Stats.csv", content).unwrap();
    assert_eq!(r.score, dec(false, 12345, 1));
    assert_eq!(r.kills, 42);
    assert_eq!(r.hits, 100);
    assert_eq!(r.misses, 7);
    assert_eq!(r.fov_scale, "Overwatch");
    assert_eq!(r.fov, dec(false, 103, 0));
    assert_eq!(r.resolution, "1920x1080");
    assert_eq!(r.avg_fps, dec(false, 24025, 2));
    assert_eq!(r.sens_cm, Some((dec(false, 305, 1), dec(false, 305, 1))));
}

#[test]
fn sens_pair_absent_unless_cm_per_360() {
    let other = "Sens Scale: cm/rev\nHoriz Sens: 30\nVert Sens: 25\n";
    let r = parse_record("A - B - C Stats.csv", other).unwrap();
    assert_eq!(r.sens_cm, None);

    let exact = "Sens Scale: cm/360\nHoriz Sens: 30\nVert Sens: 25\n";
    let r2 = parse_record("A - B - C Stats.csv", exact).unwrap();
    assert_eq!(r2.sens_cm, Some((dec(false, 30, 0), dec(false, 25, 0))));

    let cased = "Sens Scale: CM/360\nHoriz Sens: 30\nVert Sens: 25\n";
    let r3 = parse_record("A - B - C Stats.csv", cased).unwrap();
    assert_eq!(r3.sens_cm, None);
}

#[test]
fn leading_comma_parses_like_no_comma() {
    let with = parse_record("A - B - C Stats.csv", "Score: ,1234\n").unwrap();
    let without = parse_record("A - B - C Stats.csv", "Score: 1234\n").unwrap();
    assert_eq!(with.score, without.score);
    assert_eq!(with.score, dec(false, 1234, 0));

    let kills_with = parse_record("A - B - C Stats.csv", "Kills: ,,25\n").unwrap();
    assert_eq!(kills_with.kills, 25);
}

#[test]
fn string_fields_keep_leading_commas() {
    let content = "Resolution: ,1920x1080\nFOVScale: ,Overwatch\n";
    let r = parse_record("A - B - C Stats.csv", content).unwrap();
    assert_eq!(r.resolution, ",1920x1080");
    assert_eq!(r.fov_scale, ",Overwatch");
}

#[test]
fn sens_scale_with_leading_comma_gives_no_pair() {
    let content = "Sens Scale: ,cm/360\nHoriz Sens: 30\nVert Sens: 25\n";
    let r = parse_record("A - B - C Stats.csv", content).unwrap();
    assert_eq!(r.sens_cm, None);
}

#[test]
fn unicode_whitespace_is_trimmed() {
    let content = "\u{000C}Score\u{00A0}:\u{2003}42\u{000B}\n";
    let r = parse_record("A - B - C Stats.csv", content).unwrap();
    assert_eq!(r.score, dec(false, 42, 0));
}

#[test]
fn comma_then_space_fails_to_zero() {
    let r = parse_record("A - B - C Stats.csv", "Score: , 42\n").unwrap();
    assert_eq!(r.score, dec(false, 0, 0));
}

#[test]
fn bad_lines_are_ignored_without_harm() {
    let content = "garbage line\nScore: 100\na:b:c\nKills: 5\n\n::\n";
    let r = parse_record("A - B - C Stats.csv", content).unwrap();
    assert_eq!(r.score, dec(false, 100, 0));
    assert_eq!(r.kills, 5);
}

#[test]
fn later_lines_win() {
    let r = parse_record("A - B - C Stats.csv", "Score: 1\nScore: 2\n").unwrap();
    assert_eq!(r.score, dec(false, 2, 0));
}

#[test]
fn keys_and_values_are_trimmed() {
    let r = parse_record("A - B - C Stats.csv", "  Score  :   42  \r\n").unwrap();
    assert_eq!(r.score, dec(false, 42, 0));
}

#[test]
fn unknown_keys_are_ignored() {
    let r = parse_record("A - B - C Stats.csv", "Shots: 9\nScore: 3\n").unwrap();
    assert_eq!(r.score, dec(false, 3, 0));
}

#[test]
fn decimal_grammar_edges() {
    assert_eq!(parse_decimal("150"), dec(false, 150, 0));
    assert_eq!(parse_decimal("-3.25"), dec(true, 325, 2));
    assert_eq!(parse_decimal(".5"), dec(false, 5, 1));
    assert_eq!(parse_decimal("2."), dec(false, 2, 0));
    assert_eq!(parse_decimal("+7"), dec(false, 7, 0));
    assert_eq!(parse_decimal(""), dec(false, 0, 0));
    assert_eq!(parse_decimal("."), dec(false, 0, 0));
    assert_eq!(parse_decimal("1e5"), dec(false, 0, 0));
    assert_eq!(parse_decimal("1.2.3"), dec(false, 0, 0));
    assert_eq!(parse_decimal("12345678901234567890"), dec(false, 0, 0));
}

#[test]
fn integer_out_of_range_falls_to_zero() {
    let r = parse_record("A - B - C Stats.csv", "Kills: 99999999999\n").unwrap();
    assert_eq!(r.kills, 0);
    let r2 = parse_record("A - B - C Stats.csv", "Kills: -5\n").unwrap();
    assert_eq!(r2.kills, -5);
    let r3 = parse_record("A - B - C Stats.csv", "Kills: 2147483647\n").unwrap();
    assert_eq!(r3.kills, 2147483647);
    let r4 = parse_record("A - B - C Stats.csv", "Kills: 2147483648\n").unwrap();
    assert_eq!(r4.kills, 0);
    let r5 = parse_record("A - B - C Stats.csv", "Kills: -2147483648\n").unwrap();
    assert_eq!(r5.kills, -2147483648);
}
