use morsels::audit::{AuditStore, FailLogEntry};
use morsels::config::{default_update_interval_secs, directory_min_score, directory_n_best, PluginConfig};
use morsels::keywords::{is_whitespace, split_keywords};
use morsels::morsels::MorselEntry;
use morsels::query::{answer, handle_get_morsel, ToolResponse, SUGGESTION};
use morsels::refresh::{step, Action, Event, Phase};
use morsels::store::{init_failed_keywords, AuditInitError, init_morsels, log_failed_keywords, IndexStore, SavedLog, StoreError};
use morsels::trigrams::{trigram_similarity, trigrams, trigrams_of_lowered, BuildError, Score, Trigrams};

fn entry(id: &str, keywords: &[&str], content: &str) -> MorselEntry {
    MorselEntry {
        id: id.to_string(),
        keywords: keywords.iter().map(|k| k.to_string()).collect(),
        content: content.to_string(),
        link: None,
    }
}

fn pricing_index() -> Trigrams<MorselEntry> {
    Trigrams::new(vec![entry("p1", &["pricing", "cost"], "Plans start at $10")]).unwrap()
}

fn strings(v: &[&str]) -> Vec<String> {
    v.iter().map(|s| s.to_string()).collect()
}

fn counts(store: &AuditStore) -> Vec<(String, usize)> {
    store.snapshot().into_iter().map(|e| (e.keyword, e.count)).collect()
}

#[test]
fn signature_of_api() {
    let mut t = trigrams("api");
    t.sort();
    let mut expected = vec![(' ', ' ', 'a'), (' ', 'a', 'p'), ('a', 'p', 'i'), ('p', 'i', ' '), ('i', ' ', ' ')];
    expected.sort();
    assert_eq!(t, expected);
}

#[test]
fn signature_is_lowercased() {
    let mut a = trigrams("API");
    let mut b = trigrams("api");
    a.sort();
    b.sort();
    assert_eq!(a, b);
}

#[test]
fn signature_keeps_each_trigram_once() {
    // "aaaa" padded is "  aaaa  ": windows "  a", " aa", "aaa", "aaa", "aa ", "a  "
    assert_eq!(trigrams("aaaa").len(), 5);
}

#[test]
fn similarity_to_itself_is_one() {
    let a = trigrams("pricing");
    let s = trigram_similarity(&a, &a);
    assert_eq!(s.num, s.den);
    assert!(s.den > 0);
}

#[test]
fn similarity_is_symmetric_and_exact() {
    // "ab": {"  a"," ab","ab ","b  "}; "ac": {"  a"," ac","ac ","c  "}: one shared of seven
    let a = trigrams("ab");
    let b = trigrams("ac");
    let s1 = trigram_similarity(&a, &b);
    let s2 = trigram_similarity(&b, &a);
    assert_eq!((s1.num, s1.den), (1, 7));
    assert_eq!((s2.num, s2.den), (1, 7));
}

#[test]
fn similarity_of_disjoint_is_zero() {
    let a = trigrams("xy");
    let b = trigrams("qz");
    let s = trigram_similarity(&a, &b);
    assert_eq!(s.num, 0);
}

#[test]
fn similarity_of_empty_signatures_is_zero() {
    let s = trigram_similarity(&Vec::new(), &Vec::new());
    assert_eq!((s.num, s.den), (0, 1));
}

#[test]
fn build_rejects_unnamed_item() {
    let r = Trigrams::new(vec![entry("a", &["x"], ""), entry("b", &[], "")]);
    assert_eq!(r.err(), Some(BuildError::NoNames));
}

#[test]
fn build_keeps_last_item_for_shared_key() {
    let t = Trigrams::new(vec![entry("first", &["same"], "1"), entry("second", &["same"], "2")]).unwrap();
    let r = t.search("same", 5, Score::new(1, 5));
    assert_eq!(r.len(), 2);
    assert!(r.iter().all(|m| m.item.id == "second"));
}

#[test]
fn exact_alias_scores_one() {
    let t = pricing_index();
    let r = t.search("cost", 1, Score::new(1, 5));
    assert_eq!(r.len(), 1);
    assert_eq!(r[0].item.id, "p1");
    assert_eq!(r[0].score.num, r[0].score.den);
}

#[test]
fn rank_is_best_first_and_cut() {
    let t = Trigrams::new(vec![
        entry("a", &["pricing"], ""),
        entry("b", &["price"], ""),
        entry("c", &["prices"], ""),
    ])
    .unwrap();
    let r = t.rank("pricing", 2, Score::new(0, 1));
    assert_eq!(r.len(), 2);
    assert_eq!(r[0].0, 0);
    assert!(r[0].1.at_least(&r[1].1));
}

#[test]
fn zero_threshold_keeps_at_least_as_many() {
    let t = Trigrams::new(vec![entry("a", &["pricing"], ""), entry("b", &["zebra"], "")]).unwrap();
    let zero = t.rank("pri", 10, Score::new(0, 1));
    let tiny = t.rank("pri", 10, Score::new(1, 10000));
    assert!(zero.len() >= tiny.len());
    assert_eq!(zero.len(), 1);
}

#[test]
fn zero_threshold_drops_zero_scores() {
    let t = pricing_index();
    assert_eq!(t.rank("xyzzy", 10, Score::new(0, 1)).len(), 0);
}

#[test]
fn split_at_commas_and_spaces() {
    assert_eq!(split_keywords("pricing, cost  api"), strings(&["pricing", "cost", "api"]));
    assert_eq!(split_keywords(" ,, "), Vec::<String>::new());
    assert_eq!(split_keywords("a\tb"), strings(&["a\tb"]));
    assert_eq!(split_keywords("\tx\n,y"), strings(&["x", "y"]));
}

#[test]
fn scenario_exact_keyword_succeeds() {
    let t = pricing_index();
    let a = answer(&t, &strings(&["pricing"]), 1, Score::new(1, 5), true);
    assert!(a.failed.is_empty());
    match a.response {
        ToolResponse::Success { results_count, morsels } => {
            assert_eq!(results_count, 1);
            assert_eq!(morsels[0].id, "p1");
            assert_eq!(morsels[0].content, "Plans start at $10");
            assert_eq!(morsels[0].score.num, morsels[0].score.den);
        }
        _ => panic!("expected a match"),
    }
}

#[test]
fn scenario_unknown_keyword_is_recorded() {
    let t = pricing_index();
    let a = answer(&t, &strings(&["xyzzy"]), 1, Score::new(1, 5), true);
    match &a.response {
        ToolResponse::NoMatch { searched_keywords, suggestion } => {
            assert_eq!(searched_keywords, &strings(&["xyzzy"]));
            assert_eq!(suggestion, SUGGESTION);
        }
        _ => panic!("expected no match"),
    }
    assert_eq!(a.failed, strings(&["xyzzy"]));
    let mut audit = Some(AuditStore::new());
    let saved = log_failed_keywords(&mut audit, &a.failed, true).unwrap();
    assert_eq!(saved.len(), 1);
    assert_eq!(saved[0].keyword, "xyzzy");
    assert_eq!(saved[0].count, 1);
}

#[test]
fn scenario_repeated_miss_counts_three() {
    let t = pricing_index();
    let mut audit = Some(AuditStore::new());
    for _ in 0..3 {
        let a = answer(&t, &strings(&["xyzzy"]), 1, Score::new(1, 5), true);
        log_failed_keywords(&mut audit, &a.failed, false);
    }
    assert_eq!(counts(audit.as_ref().unwrap()), vec![("xyzzy".to_string(), 3)]);
}

#[test]
fn failures_not_tracked_without_audit_path() {
    let t = pricing_index();
    let a = answer(&t, &strings(&["xyzzy"]), 1, Score::new(1, 5), false);
    assert!(a.failed.is_empty());
}

#[test]
fn merged_hits_cut_to_best() {
    let t = Trigrams::new(vec![entry("p1", &["pricing"], "x"), entry("s1", &["security"], "y")]).unwrap();
    let a = answer(&t, &strings(&["pricing", "security"]), 1, Score::new(1, 5), true);
    match a.response {
        ToolResponse::Success { results_count, .. } => assert_eq!(results_count, 1),
        _ => panic!("expected a match"),
    }
    let b = answer(&t, &strings(&["pricing", "security"]), 2, Score::new(1, 5), true);
    match b.response {
        ToolResponse::Success { results_count, morsels } => {
            assert_eq!(results_count, 2);
            assert!(morsels[0].score.at_least(&morsels[1].score));
        }
        _ => panic!("expected a match"),
    }
}

#[test]
fn store_starts_empty_and_swaps_whole() {
    let mut store: IndexStore<MorselEntry> = IndexStore::new();
    assert_eq!(store.get().err(), Some(StoreError::NotInitialized));
    init_morsels(&mut store, vec![entry("p1", &["pricing", "cost"], "Plans start at $10")]).unwrap();
    assert_eq!(store.get().unwrap().search("pricing", 1, Score::new(1, 5))[0].item.id, "p1");
    init_morsels(&mut store, vec![entry("s1", &["security"], "TLS")]).unwrap();
    let idx = store.get().unwrap();
    assert_eq!(idx.search("pricing", 1, Score::new(1, 5)).len(), 0);
    assert_eq!(idx.search("security", 1, Score::new(1, 5))[0].item.id, "s1");
}

#[test]
fn failed_reload_keeps_previous_index() {
    let mut store: IndexStore<MorselEntry> = IndexStore::new();
    init_morsels(&mut store, vec![entry("p1", &["pricing", "cost"], "Plans start at $10")]).unwrap();
    assert_eq!(init_morsels(&mut store, vec![entry("bad", &[], "")]), Err(BuildError::NoNames));
    assert_eq!(step(Phase::Refreshing, Event::LoadFailed, 120), (Phase::Ready, Action::KeepAndWait));
    let r = store.get().unwrap().search("pricing", 1, Score::new(1, 5));
    assert_eq!(r[0].item.id, "p1");
}

#[test]
fn startup_failure_is_reported() {
    assert_eq!(step(Phase::Uninitialized, Event::Start, 0), (Phase::Loading, Action::Load));
    assert_eq!(step(Phase::Loading, Event::LoadFailed, 0), (Phase::Failed, Action::ReportFailure));
    assert_eq!(step(Phase::Failed, Event::Tick, 60), (Phase::Failed, Action::Stop));
}

#[test]
fn refresh_runs_only_with_interval() {
    assert_eq!(step(Phase::Loading, Event::Loaded, 0), (Phase::Ready, Action::InstallAndReport));
    assert_eq!(step(Phase::Ready, Event::Tick, 0), (Phase::Ready, Action::Stop));
    assert_eq!(step(Phase::Ready, Event::Tick, 120), (Phase::Refreshing, Action::Load));
    assert_eq!(step(Phase::Refreshing, Event::Loaded, 120), (Phase::Ready, Action::InstallAndWait));
}

#[test]
fn audit_records_and_replaces() {
    let mut s = AuditStore::new();
    s.record_at(&"a".to_string(), "t1".to_string());
    s.record_at(&"b".to_string(), "t2".to_string());
    s.record_at(&"a".to_string(), "t3".to_string());
    let snap = s.snapshot();
    assert_eq!(snap.len(), 2);
    assert_eq!((snap[0].keyword.as_str(), snap[0].count, snap[0].timestamp.as_str()), ("a", 2, "t3"));
    assert_eq!((snap[1].keyword.as_str(), snap[1].count), ("b", 1));
}

#[test]
fn audit_count_saturates() {
    let saved = vec![FailLogEntry { keyword: "k".to_string(), count: usize::MAX, timestamp: "t".to_string() }];
    let mut s = AuditStore::from_entries(saved);
    s.record_at(&"k".to_string(), "u".to_string());
    assert_eq!(s.snapshot()[0].count, usize::MAX);
}

#[test]
fn audit_load_keeps_last_of_duplicates() {
    let saved = vec![
        FailLogEntry { keyword: "k".to_string(), count: 2, timestamp: "t".to_string() },
        FailLogEntry { keyword: "k".to_string(), count: 5, timestamp: "u".to_string() },
    ];
    let s = AuditStore::from_entries(saved);
    assert_eq!(counts(&s), vec![("k".to_string(), 5)]);
}

#[test]
fn log_without_keywords_or_record_does_nothing() {
    let mut none: Option<AuditStore> = None;
    assert!(log_failed_keywords(&mut none, &strings(&["x"]), true).is_none());
    assert!(none.is_none());
    let mut some = Some(AuditStore::new());
    assert!(log_failed_keywords(&mut some, &Vec::new(), true).is_none());
    assert!(some.unwrap().snapshot().is_empty());
}

#[test]
fn recorded_miss_gets_a_timestamp() {
    let mut some = Some(AuditStore::new());
    let saved = log_failed_keywords(&mut some, &strings(&["x"]), true).unwrap();
    assert!(!saved[0].timestamp.is_empty());
}

#[test]
fn audit_init_cases() {
    let mut s: Option<AuditStore> = None;
    assert!(init_failed_keywords(&mut s, SavedLog::NoPath).is_ok());
    assert!(s.is_none());
    assert!(init_failed_keywords(&mut s, SavedLog::Malformed).is_err());
    assert!(s.is_none());
    assert!(init_failed_keywords(&mut s, SavedLog::Unreadable).is_ok());
    assert!(s.as_ref().unwrap().snapshot().is_empty());
    let mut t: Option<AuditStore> = None;
    let saved = vec![FailLogEntry { keyword: "k".to_string(), count: 4, timestamp: "t".to_string() }];
    assert!(init_failed_keywords(&mut t, SavedLog::Parsed(saved)).is_ok());
    assert_eq!(counts(t.as_ref().unwrap()), vec![("k".to_string(), 4)]);
    assert_eq!(init_failed_keywords(&mut t, SavedLog::Malformed), Err(AuditInitError::AlreadyInitialized));
    assert_eq!(counts(t.as_ref().unwrap()), vec![("k".to_string(), 4)]);
    assert!(init_failed_keywords(&mut t, SavedLog::NoPath).is_ok());
    assert_eq!(counts(t.as_ref().unwrap()), vec![("k".to_string(), 4)]);
}

#[test]
fn config_defaults() {
    assert_eq!(directory_n_best(), Some(1));
    assert_eq!(directory_min_score(), Some(Score::new(1, 5)));
    assert_eq!(default_update_interval_secs(), Some(3600));
    let c = PluginConfig {
        function_description: String::new(),
        database_path: "db.yaml".to_string(),
        failed_keywords_path: None,
        morsel_n_best: None,
        morsel_min_score: None,
        update_interval_secs: Some(120),
    };
    assert_eq!(c.n_best(), 1);
    assert_eq!(c.min_score(), Score::new(1, 5));
    assert_eq!(c.interval_secs(), 120);
}

fn audited_config() -> PluginConfig {
    PluginConfig {
        function_description: String::new(),
        database_path: "db.yaml".to_string(),
        failed_keywords_path: Some("failed.json".to_string()),
        morsel_n_best: Some(1),
        morsel_min_score: Some(Score::new(1, 5)),
        update_interval_secs: Some(0),
    }
}

#[test]
fn handler_needs_an_index() {
    let store: IndexStore<MorselEntry> = IndexStore::new();
    let mut audit = Some(AuditStore::new());
    assert_eq!(handle_get_morsel(&store, &mut audit, "pricing", &audited_config()).err(), Some(StoreError::NotInitialized));
}

#[test]
fn handler_answers_and_records_misses() {
    let mut store: IndexStore<MorselEntry> = IndexStore::new();
    init_morsels(&mut store, vec![entry("p1", &["pricing", "cost"], "Plans start at $10")]).unwrap();
    let mut audit = Some(AuditStore::new());
    let config = audited_config();
    let hit = handle_get_morsel(&store, &mut audit, "pricing", &config).unwrap();
    match hit.response {
        ToolResponse::Success { results_count, morsels } => {
            assert_eq!(results_count, 1);
            assert_eq!(morsels[0].id, "p1");
        }
        _ => panic!("expected a match"),
    }
    assert!(hit.to_save.is_none());
    for _ in 0..3 {
        let miss = handle_get_morsel(&store, &mut audit, "xyzzy", &config).unwrap();
        assert!(matches!(miss.response, ToolResponse::NoMatch { .. }));
    }
    assert_eq!(counts(audit.as_ref().unwrap()), vec![("xyzzy".to_string(), 3)]);
}

#[test]
fn handler_splits_query_and_cuts_globally() {
    let mut store: IndexStore<MorselEntry> = IndexStore::new();
    init_morsels(&mut store, vec![entry("p1", &["pricing"], "x"), entry("s1", &["security"], "y")]).unwrap();
    let mut audit = Some(AuditStore::new());
    let out = handle_get_morsel(&store, &mut audit, "pricing,security xyzzy", &audited_config()).unwrap();
    match out.response {
        ToolResponse::Success { results_count, .. } => assert_eq!(results_count, 1),
        _ => panic!("expected a match"),
    }
    let saved = out.to_save.unwrap();
    assert_eq!(saved.len(), 1);
    assert_eq!(saved[0].keyword, "xyzzy");
}

#[test]
fn whitespace_agrees_with_std() {
    for u in 0u32..0x3100 {
        if let Some(c) = char::from_u32(u) {
            assert_eq!(is_whitespace(c), c.is_whitespace(), "U+{u:04X}");
        }
    }
}

#[test]
fn windows_of_lowered_characters() {
    let mut t = trigrams_of_lowered(&vec!['a', 'b']);
    t.sort();
    let mut expected = vec![(' ', ' ', 'a'), (' ', 'a', 'b'), ('a', 'b', ' '), ('b', ' ', ' ')];
    expected.sort();
    assert_eq!(t, expected);
    assert_eq!(trigrams_of_lowered(&Vec::new()), vec![(' ', ' ', ' ')]);
}

#[test]
fn unlisted_events_wait() {
    assert_eq!(step(Phase::Uninitialized, Event::Tick, 5), (Phase::Uninitialized, Action::Wait));
    assert_eq!(step(Phase::Ready, Event::Loaded, 5), (Phase::Ready, Action::Wait));
}

#[test]
fn saved_record_loads_back() {
    let mut s = AuditStore::new();
    s.record_at(&"a".to_string(), "t1".to_string());
    s.record_at(&"b".to_string(), "t2".to_string());
    s.record_at(&"a".to_string(), "t3".to_string());
    let back = AuditStore::from_entries(s.snapshot());
    let pairs = |x: &AuditStore| x.snapshot().into_iter().map(|e| (e.keyword, e.count, e.timestamp)).collect::<Vec<_>>();
    assert_eq!(pairs(&back), pairs(&s));
}

#[test]
fn record_leaves_other_entries_alone() {
    let mut s = AuditStore::new();
    s.record_at(&"a".to_string(), "t1".to_string());
    let mut audit = Some(s);
    log_failed_keywords(&mut audit, &strings(&["b"]), false);
    let snap = audit.unwrap().snapshot();
    assert_eq!((snap[0].keyword.as_str(), snap[0].count, snap[0].timestamp.as_str()), ("a", 1, "t1"));
    assert_eq!((snap[1].keyword.as_str(), snap[1].count), ("b", 1));
}

#[test]
fn handler_names_searched_keywords() {
    let mut store: IndexStore<MorselEntry> = IndexStore::new();
    init_morsels(&mut store, vec![entry("p1", &["pricing", "cost"], "Plans start at $10")]).unwrap();
    let mut audit = Some(AuditStore::new());
    let out = handle_get_morsel(&store, &mut audit, "xyzzy", &audited_config()).unwrap();
    match out.response {
        ToolResponse::NoMatch { searched_keywords, suggestion } => {
            assert_eq!(searched_keywords, strings(&["xyzzy"]));
            assert_eq!(suggestion, SUGGESTION);
        }
        _ => panic!("expected no match"),
    }
    let saved = out.to_save.unwrap();
    assert_eq!((saved[0].keyword.as_str(), saved[0].count), ("xyzzy", 1));
}

#[test]
fn handler_without_audit_path_keeps_record() {
    let mut store: IndexStore<MorselEntry> = IndexStore::new();
    init_morsels(&mut store, vec![entry("p1", &["pricing"], "x")]).unwrap();
    let mut audit = Some(AuditStore::new());
    let mut config = audited_config();
    config.failed_keywords_path = None;
    let out = handle_get_morsel(&store, &mut audit, "xyzzy", &config).unwrap();
    assert!(out.to_save.is_none());
    assert!(audit.unwrap().snapshot().is_empty());
}
