use faucet::config::{CommandSpec, Config, ConfigError, Scorer};
use faucet::data::Data;
use faucet::rank::{decide, rank_candidates, resolve_selection, Outcome};
use faucet::score::{compute_scores, ScoreEntry};

fn candidate(label: &str, display: &str, command: &str) -> (String, CommandSpec) {
    (
        label.to_string(),
        CommandSpec { display: display.to_string(), command: command.to_string() },
    )
}

fn pattern_rule(pattern: &str, label: &str, delta: i32) -> Scorer {
    Scorer::PatternSingle {
        pattern: pattern.to_string(),
        target_label: label.to_string(),
        delta,
    }
}

fn check_rule(command: &str, label: &str, delta: i32) -> Scorer {
    Scorer::CheckCommandSingle {
        check_command: command.to_string(),
        target_label: label.to_string(),
        delta,
    }
}

fn config(commands: Vec<(String, CommandSpec)>, scorers: Vec<Scorer>, min: i32, max: i32) -> Config {
    Config {
        commands,
        scorers,
        auto_select_min_threshold: min,
        auto_select_max_threshold: max,
    }
}

fn scores_of(table: &[ScoreEntry]) -> Vec<(String, i64)> {
    table.iter().map(|e| (e.label.clone(), e.score)).collect()
}

#[test]
fn scenario_url_pattern_auto_selects_browser() {
    let cfg = config(
        vec![candidate("browser", "Open in browser", "firefox \"$TEXT\"")],
        vec![pattern_rule("^https?://", "browser", 50)],
        10,
        100,
    );
    assert!(cfg.validate().is_ok());
    let data = Data::Text("https://example.com".to_string());
    let text = data.get_text_for_matching("");
    assert_eq!(text, "https://example.com");
    let table = compute_scores(&cfg, &text, &vec![false]);
    assert_eq!(scores_of(&table), vec![("browser".to_string(), 50)]);
    let ranked = rank_candidates(&table);
    match decide(ranked, 10, 100) {
        Outcome::AutoSelect(e) => {
            assert_eq!(e.label, "browser");
            assert_eq!(e.score, 50);
        }
        _ => panic!("expected auto-select"),
    }
}

#[test]
fn scenario_two_close_scores_go_interactive() {
    let cfg = config(
        vec![candidate("a", "A", "a-cmd"), candidate("b", "B", "b-cmd")],
        vec![pattern_rule(".*", "a", 60), pattern_rule(".*", "b", 55)],
        10,
        100,
    );
    let table = compute_scores(&cfg, "anything", &vec![false, false]);
    let ranked = rank_candidates(&table);
    match decide(ranked, 10, 100) {
        Outcome::Interactive(list) => {
            let order = scores_of(&list);
            assert_eq!(order, vec![("a".to_string(), 60), ("b".to_string(), 55)]);
        }
        _ => panic!("expected interactive: 60 > 100 + 55 is false"),
    }
}

#[test]
fn scenario_no_match_is_noop() {
    let cfg = config(
        vec![candidate("a", "A", "a-cmd")],
        vec![pattern_rule("^xyz$", "a", 50)],
        10,
        100,
    );
    let table = compute_scores(&cfg, "hello world", &vec![false]);
    let ranked = rank_candidates(&table);
    assert!(matches!(decide(ranked, 10, 100), Outcome::NoOp));
}

#[test]
fn scenario_undefined_label_fails_validation() {
    let cfg = config(
        vec![candidate("real", "Real", "real-cmd")],
        vec![pattern_rule(".*", "ghost", 10)],
        10,
        100,
    );
    match cfg.validate() {
        Err(ConfigError::UndefinedLabels { refs }) => {
            assert_eq!(refs.len(), 1);
            assert_eq!(refs[0].scorer_index, 0);
            assert_eq!(refs[0].label, "ghost");
        }
        _ => panic!("expected undefined-label rejection"),
    }
}

#[test]
fn scenario_failed_check_command_skips_deltas() {
    let cfg = config(
        vec![candidate("a", "A", "a-cmd"), candidate("b", "B", "b-cmd")],
        vec![check_rule("exit 1", "a", 60), pattern_rule(".*", "b", 20)],
        10,
        100,
    );
    // the check command exited non-zero, so its delta is never applied;
    // the pattern rule is still evaluated
    let table = compute_scores(&cfg, "text", &vec![false, false]);
    assert_eq!(
        scores_of(&table),
        vec![("a".to_string(), 0), ("b".to_string(), 20)]
    );
}

#[test]
fn successful_check_command_applies_deltas() {
    let cfg = config(
        vec![candidate("a", "A", "a-cmd")],
        vec![check_rule("exit 0", "a", 60)],
        10,
        100,
    );
    let table = compute_scores(&cfg, "text", &vec![true]);
    assert_eq!(scores_of(&table), vec![("a".to_string(), 60)]);
}

#[test]
fn deltas_for_one_label_sum_over_rules() {
    let cfg = config(
        vec![candidate("a", "A", "a-cmd")],
        vec![
            pattern_rule(".*", "a", 30),
            pattern_rule("^t", "a", -10),
            pattern_rule("^never$", "a", 500),
        ],
        10,
        100,
    );
    let table = compute_scores(&cfg, "text", &vec![false, false, false]);
    assert_eq!(scores_of(&table), vec![("a".to_string(), 20)]);
}

#[test]
fn multi_target_rule_fans_out_one_predicate() {
    let cfg = config(
        vec![candidate("a", "A", "a-cmd"), candidate("b", "B", "b-cmd")],
        vec![Scorer::CheckCommandMulti {
            check_command: "exit 0".to_string(),
            targets: vec![("a".to_string(), 7), ("b".to_string(), 9), ("a".to_string(), 3)],
        }],
        10,
        100,
    );
    let table = compute_scores(&cfg, "", &vec![true]);
    assert_eq!(
        scores_of(&table),
        vec![("a".to_string(), 10), ("b".to_string(), 9)]
    );
}

#[test]
fn invalid_pattern_is_a_silent_non_match() {
    let cfg = config(
        vec![candidate("a", "A", "a-cmd"), candidate("b", "B", "b-cmd")],
        vec![pattern_rule("(", "a", 50), pattern_rule(".*", "b", 5)],
        10,
        100,
    );
    let table = compute_scores(&cfg, "text", &vec![false, false]);
    assert_eq!(
        scores_of(&table),
        vec![("a".to_string(), 0), ("b".to_string(), 5)]
    );
}

#[test]
fn pattern_is_matched_against_the_given_text() {
    let cfg = config(
        vec![candidate("a", "A", "a-cmd")],
        vec![pattern_rule("^a+$", "a", 5)],
        10,
        100,
    );
    let hit = compute_scores(&cfg, "aaa", &vec![false]);
    assert_eq!(scores_of(&hit), vec![("a".to_string(), 5)]);
    let miss = compute_scores(&cfg, "bbb", &vec![false]);
    assert_eq!(scores_of(&miss), vec![("a".to_string(), 0)]);
}

#[test]
fn equal_scores_rank_by_label_ascending() {
    let cfg = config(
        vec![candidate("zeta", "Z", "z"), candidate("alpha", "A", "a")],
        vec![Scorer::PatternMulti {
            pattern: ".*".to_string(),
            // deliberately listed with the later label first
            targets: vec![("zeta".to_string(), 40), ("alpha".to_string(), 40)],
        }],
        10,
        100,
    );
    let table = compute_scores(&cfg, "x", &vec![false]);
    let ranked = rank_candidates(&table);
    let order = scores_of(&ranked);
    assert_eq!(
        order,
        vec![("alpha".to_string(), 40), ("zeta".to_string(), 40)]
    );
}

#[test]
fn higher_scores_rank_first() {
    let cfg = config(
        vec![
            candidate("low", "L", "l"),
            candidate("high", "H", "h"),
            candidate("mid", "M", "m"),
        ],
        vec![Scorer::PatternMulti {
            pattern: ".*".to_string(),
            targets: vec![
                ("low".to_string(), 10),
                ("high".to_string(), 30),
                ("mid".to_string(), 20),
            ],
        }],
        5,
        100,
    );
    let table = compute_scores(&cfg, "x", &vec![false]);
    let ranked = rank_candidates(&table);
    assert_eq!(
        scores_of(&ranked),
        vec![
            ("high".to_string(), 30),
            ("mid".to_string(), 20),
            ("low".to_string(), 10)
        ]
    );
}

#[test]
fn non_positive_scores_are_excluded() {
    let cfg = config(
        vec![candidate("a", "A", "a"), candidate("b", "B", "b"), candidate("c", "C", "c")],
        vec![Scorer::PatternMulti {
            pattern: ".*".to_string(),
            targets: vec![("a".to_string(), -5), ("b".to_string(), 12)],
        }],
        5,
        100,
    );
    let table = compute_scores(&cfg, "x", &vec![false]);
    let ranked = rank_candidates(&table);
    assert_eq!(scores_of(&ranked), vec![("b".to_string(), 12)]);
}

#[test]
fn lone_candidate_at_threshold_is_interactive() {
    let cfg = config(
        vec![candidate("a", "A", "a")],
        vec![pattern_rule(".*", "a", 10)],
        10,
        100,
    );
    let table = compute_scores(&cfg, "x", &vec![false]);
    let ranked = rank_candidates(&table);
    assert!(matches!(decide(ranked, 10, 100), Outcome::Interactive(_)));
}

#[test]
fn raising_min_threshold_turns_auto_into_interactive() {
    let cfg = config(
        vec![candidate("a", "A", "a")],
        vec![pattern_rule(".*", "a", 15)],
        10,
        100,
    );
    let table = compute_scores(&cfg, "x", &vec![false]);
    let ranked = rank_candidates(&table);
    assert!(matches!(decide(ranked.clone(), 10, 100), Outcome::AutoSelect(_)));
    assert!(matches!(decide(ranked, 20, 100), Outcome::Interactive(_)));
}

#[test]
fn multi_candidate_auto_select_needs_margin_and_floor() {
    // clear margin over the runner-up and above the hard floor: auto
    let cfg = config(
        vec![candidate("a", "A", "a"), candidate("b", "B", "b")],
        vec![Scorer::PatternMulti {
            pattern: ".*".to_string(),
            targets: vec![("a".to_string(), 120), ("b".to_string(), 5)],
        }],
        10,
        100,
    );
    let table = compute_scores(&cfg, "x", &vec![false]);
    let ranked = rank_candidates(&table);
    match decide(ranked, 10, 100) {
        Outcome::AutoSelect(e) => assert_eq!(e.label, "a"),
        _ => panic!("120 > 100 + 5 and 120 > 10: expected auto-select"),
    }
}

#[test]
fn multi_candidate_auto_select_blocked_by_hard_floor() {
    // enough margin, but the leader does not clear the fixed floor of 10
    let cfg = config(
        vec![candidate("a", "A", "a"), candidate("b", "B", "b")],
        vec![Scorer::PatternMulti {
            pattern: ".*".to_string(),
            targets: vec![("a".to_string(), 9), ("b".to_string(), 2)],
        }],
        -10,
        -5,
    );
    let table = compute_scores(&cfg, "x", &vec![false]);
    let ranked = rank_candidates(&table);
    assert!(matches!(decide(ranked, -10, -5), Outcome::Interactive(_)));
}

#[test]
fn bad_thresholds_fail_validation() {
    let cfg = config(vec![candidate("a", "A", "a")], vec![], 100, 10);
    match cfg.validate() {
        Err(ConfigError::BadThresholds { min, max }) => {
            assert_eq!(min, 100);
            assert_eq!(max, 10);
        }
        _ => panic!("expected threshold rejection"),
    }
}

#[test]
fn duplicate_labels_fail_validation() {
    let cfg = config(
        vec![candidate("a", "A", "a"), candidate("a", "Other", "b")],
        vec![],
        10,
        100,
    );
    match cfg.validate() {
        Err(ConfigError::DuplicateLabel { first, second }) => {
            assert_eq!(first, 0);
            assert_eq!(second, 1);
        }
        _ => panic!("expected duplicate rejection"),
    }
}

#[test]
fn empty_configuration_is_a_noop() {
    let cfg = config(vec![], vec![], 10, 100);
    assert!(cfg.validate().is_ok());
    let table = compute_scores(&cfg, "anything", &vec![]);
    let ranked = rank_candidates(&table);
    assert!(matches!(decide(ranked, 10, 100), Outcome::NoOp));
}

#[test]
fn binary_payload_matches_rules_against_its_mime_type() {
    let cfg = config(
        vec![candidate("viewer", "View image", "imv \"$DATA_FILE\"")],
        vec![pattern_rule("^image/", "viewer", 40)],
        10,
        100,
    );
    let data = Data::Binary(vec![0x89, 0x50, 0x4e, 0x47]);
    let text = data.get_text_for_matching("image/png\n");
    assert_eq!(text, "image/png");
    let table = compute_scores(&cfg, &text, &vec![false]);
    let ranked = rank_candidates(&table);
    match decide(ranked, 10, 100) {
        Outcome::AutoSelect(e) => assert_eq!(e.label, "viewer"),
        _ => panic!("expected auto-select of the image viewer"),
    }
}

#[test]
fn resolve_selection_finds_first_display_match() {
    let entries = vec![
        ScoreEntry {
            label: "a".to_string(),
            command: CommandSpec { display: "One".to_string(), command: "c1".to_string() },
            score: 3,
        },
        ScoreEntry {
            label: "b".to_string(),
            command: CommandSpec { display: "Two".to_string(), command: "c2".to_string() },
            score: 2,
        },
    ];
    assert_eq!(resolve_selection(&entries, &"Two".to_string()), Some(1));
    assert_eq!(resolve_selection(&entries, &"One".to_string()), Some(0));
    assert_eq!(resolve_selection(&entries, &"Missing".to_string()), None);
}
