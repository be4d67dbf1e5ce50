use renumber::digits::{compute_width, zero_pad};
use renumber::engine::{
    parse_entry, plan_action, reindex, render_new_name, sort_entries, Config, PlannedAction,
    RenameIntent,
};

fn parse_all(names: &[&str]) -> Vec<renumber::engine::ParsedEntry> {
    let mut out = Vec::new();
    for name in names {
        if let Some(e) = parse_entry(name) {
            out.push(e);
        }
    }
    out
}

#[test]
fn config_default_values() {
    let c = Config::default();
    assert!(!c.dry_run);
    assert_eq!(c.min_index_width, 2);
}

#[test]
fn width_grows_past_each_power_of_ten() {
    assert_eq!(compute_width(0, 1), 1);
    assert_eq!(compute_width(1, 1), 1);
    assert_eq!(compute_width(10, 1), 1);
    assert_eq!(compute_width(11, 1), 2);
    assert_eq!(compute_width(100, 1), 2);
    assert_eq!(compute_width(101, 1), 3);
    assert_eq!(compute_width(1000, 1), 3);
    assert_eq!(compute_width(1001, 1), 4);
}

#[test]
fn width_respects_floor() {
    assert_eq!(compute_width(3, 2), 2);
    assert_eq!(compute_width(0, 2), 2);
    assert_eq!(compute_width(5, 4), 4);
    assert_eq!(compute_width(101, 2), 3);
}

#[test]
fn zero_pad_pads_to_width() {
    assert_eq!(zero_pad(0, 2), "00");
    assert_eq!(zero_pad(7, 3), "007");
    assert_eq!(zero_pad(123, 2), "123");
    assert_eq!(zero_pad(5, 1), "5");
}

#[test]
fn render_joins_pad_separator_residual() {
    assert_eq!(render_new_name(1, 2, "a.txt"), "01-a.txt");
    assert_eq!(render_new_name(0, 2, "x"), "00-x");
}

#[test]
fn sort_is_stable_on_equal_keys() {
    let entries = parse_all(&["1-b", "1-a", "0-c"]);
    let sorted = sort_entries(entries);
    let names: Vec<&str> = sorted.iter().map(|e| e.original.as_str()).collect();
    assert_eq!(names, vec!["0-c", "1-b", "1-a"]);
}

#[test]
fn reindex_end_to_end() {
    let entries = parse_all(&["2-b.txt", "1-a.txt", "10-c.txt"]);
    let intents = reindex(entries, &Config::default());
    let pairs: Vec<(&str, &str)> =
        intents.iter().map(|i| (i.original.as_str(), i.new_name.as_str())).collect();
    assert_eq!(
        pairs,
        vec![("1-a.txt", "00-a.txt"), ("2-b.txt", "01-b.txt"), ("10-c.txt", "02-c.txt")]
    );
}

#[test]
fn reindex_skips_nothing_it_was_not_given() {
    let entries = parse_all(&["notes.txt", "3-z", "42"]);
    assert_eq!(entries.len(), 1);
    let intents = reindex(entries, &Config::default());
    assert_eq!(intents.len(), 1);
    assert_eq!(intents[0].original, "3-z");
    assert_eq!(intents[0].new_name, "00-z");
}

#[test]
fn reindex_prefix_keys_sort_first() {
    let entries = parse_all(&["1-2-deep", "1-shallow"]);
    let intents = reindex(entries, &Config::default());
    assert_eq!(intents[0].original, "1-shallow");
    assert_eq!(intents[1].original, "1-2-deep");
}

#[test]
fn second_run_reports_all_correct() {
    let entries = parse_all(&["2-b.txt", "1-a.txt", "10-c.txt", "0-2x-d.txt"]);
    let config = Config::default();
    let intents = reindex(entries, &config);
    let renamed: Vec<String> = intents.iter().map(|i| i.new_name.clone()).collect();
    let renamed_refs: Vec<&str> = renamed.iter().map(|s| s.as_str()).collect();
    let second = parse_all(&renamed_refs);
    assert_eq!(second.len(), renamed.len());
    let second_intents = reindex(second, &config);
    for intent in &second_intents {
        assert_eq!(intent.new_name, intent.original);
        assert_eq!(plan_action(intent, false), PlannedAction::AlreadyCorrect);
    }
}

#[test]
fn dry_run_only_previews() {
    let changed = RenameIntent {
        original: String::from("1-a"),
        new_name: String::from("00-a"),
    };
    let unchanged = RenameIntent {
        original: String::from("00-a"),
        new_name: String::from("00-a"),
    };
    assert_eq!(plan_action(&changed, true), PlannedAction::WouldRename);
    assert_eq!(plan_action(&unchanged, true), PlannedAction::Unchanged);
    assert_eq!(plan_action(&changed, false), PlannedAction::Rename);
    assert_eq!(plan_action(&unchanged, false), PlannedAction::AlreadyCorrect);
}

#[test]
fn larger_batches_widen_indices() {
    let mut names: Vec<String> = Vec::new();
    for k in 0..12 {
        names.push(format!("{}-f", 100 - k));
    }
    let name_refs: Vec<&str> = names.iter().map(|s| s.as_str()).collect();
    let entries = parse_all(&name_refs);
    let intents = reindex(entries, &Config::default());
    assert_eq!(intents.len(), 12);
    assert_eq!(intents[0].original, "89-f");
    assert_eq!(intents[0].new_name, "00-f");
    assert_eq!(intents[11].original, "100-f");
    assert_eq!(intents[11].new_name, "11-f");
}
