use anyrun_core::history::{History, HistoryError, HistorySource};
use anyrun_core::ranker::{rank, rank_order, scores_of};
use anyrun_core::shell::{Config, HistoryConfig, State};

fn strings(v: &[&str]) -> Vec<String> {
    v.iter().map(|s| s.to_string()).collect()
}

fn state_with(items: &[&str], max_entries: usize) -> State {
    let mut h = History::from_mem(20);
    for c in items {
        h.push(c.to_string());
    }
    let config = Config {
        prefix: ":sh".to_string(),
        shell: None,
        max_entries,
        history: Some(HistoryConfig { capacity: 20 }),
    };
    State::new(config, Some(h))
}

#[test]
fn default_config() {
    let c = Config::default();
    assert_eq!(c.prefix, ":sh");
    assert_eq!(c.shell, None);
    assert_eq!(c.max_entries, 10);
    assert_eq!(Config::default_max_entries(), 10);
    assert!(c.history.is_none());
}

#[test]
fn input_without_prefix_offers_nothing() {
    let s = state_with(&["ls"], 10);
    assert!(s.get_matches("ls").is_empty());
    assert!(s.get_matches(":s ls").is_empty());
}

#[test]
fn blank_query_offers_nothing() {
    let s = state_with(&["ls"], 10);
    assert!(s.get_matches(":sh").is_empty());
    assert!(s.get_matches(":sh    ").is_empty());
}

#[test]
fn query_is_trimmed_and_first() {
    let s = state_with(&[], 10);
    assert_eq!(s.get_matches(":sh   echo hi  "), strings(&["echo hi"]));
}

#[test]
fn exact_query_is_among_matches() {
    let s = state_with(&["cargo build", "git status", "ls -la"], 10);
    let r = s.get_matches(":sh git status");
    assert_eq!(r[0], "git status");
    assert!(r[1..].iter().any(|t| t == "git status"));
}

#[test]
fn unmatched_query_is_offered_alone() {
    let s = state_with(&["cargo build", "git status"], 10);
    assert_eq!(s.get_matches(":sh zzqx"), strings(&["zzqx"]));
}

#[test]
fn matching_ignores_ascii_case() {
    let s = state_with(&["ls -la", "pwd"], 10);
    assert_eq!(s.get_matches(":shLS"), strings(&["LS", "ls -la"]));
}

#[test]
fn max_entries_limits_titles() {
    let s = state_with(&["ab", "abc", "abd"], 2);
    assert_eq!(s.get_matches(":sh ab").len(), 2);
    let none = state_with(&["ab"], 0);
    assert!(none.get_matches(":sh ab").is_empty());
}

#[test]
fn disabled_history_still_offers_query() {
    let config = Config::default();
    let failed = History::new(3, HistorySource::File { contents: vec![1], decoded: None });
    assert_eq!(failed.err(), Some(HistoryError::Malformed));
    let s = State::new(config, None);
    assert_eq!(s.get_matches(":sh ls"), strings(&["ls"]));
}

#[test]
fn handle_pushes_selection() {
    let mut s = state_with(&["a", "b"], 10);
    s.handle("a".to_string());
    assert_eq!(s.history.as_ref().unwrap().elements(), strings(&["b", "a"]));
    let mut t = State::new(Config::default(), None);
    t.handle("x".to_string());
    assert!(t.history.is_none());
}

#[test]
fn rank_orders_by_score_then_place() {
    let scores = vec![Some(5), None, Some(9), Some(5), Some(1)];
    assert_eq!(rank_order(&scores), vec![2, 0, 3, 4]);
    let items = strings(&["a", "b", "c", "d", "e"]);
    assert_eq!(rank("q", &items, &scores, 10), strings(&["q", "c", "a", "d", "e"]));
    assert_eq!(rank("q", &items, &scores, 3), strings(&["q", "c", "a"]));
    assert!(rank("q", &items, &scores, 0).is_empty());
}

#[test]
fn scores_follow_subsequence_match() {
    let items = strings(&["git status", "grep", "ls"]);
    let s = scores_of(&items, "gs");
    assert!(s[0].is_some());
    assert!(s[1].is_none());
    assert!(s[2].is_none());
}
