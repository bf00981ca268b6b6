use oba::parser::HostEntry;
use oba::whitelisting::{keep_unmatched, EvaluationResult, Whitelister, WhitelistingWorker};

#[test]
fn test_whitelister() {
    let whitelisted_hosts = vec![String::from("kagi.com")];
    let whitelister = Whitelister::new(&whitelisted_hosts);

    let entries = vec![HostEntry::new("kagi.com"), HostEntry::new("eff.org")];

    let result = whitelister.evaluate(&entries, 4);
    assert!(result.len() == 1);
    assert_eq!(result.first().unwrap().0, "eff.org");
}

#[test]
fn test_globbing_in_whitelisted_hosts() {
    let whitelisted_hosts = vec![String::from("*.kagi.com")];
    let whitelister = Whitelister::new(&whitelisted_hosts);

    let entries = vec![
        HostEntry::new("kagi.com"),
        HostEntry::new("assistant.kagi.com"),
        HostEntry::new("settings.kagi.com"),
        HostEntry::new("eff.org"),
    ];

    let result = whitelister.evaluate(&entries, 4);
    assert!(result.len() == 2);
    assert_eq!(result.first().unwrap().0, "kagi.com");
    assert_eq!(result[1].0, "eff.org");
}

#[test]
fn glob_removes_exactly_the_subdomain() {
    let patterns = vec![String::from("*.kagi.com")];
    let entries = vec![
        HostEntry::new("kagi.com"),
        HostEntry::new("assistant.kagi.com"),
        HostEntry::new("eff.org"),
    ];
    for workers in 1..5 {
        let kept: Vec<String> = Whitelister::new(&patterns)
            .evaluate(&entries, workers)
            .into_iter()
            .map(|e| e.0)
            .collect();
        assert_eq!(kept, vec!["kagi.com", "eff.org"]);
    }
}

#[test]
fn no_patterns_keep_everything() {
    let patterns: Vec<String> = vec![];
    let entries = vec![HostEntry::new("a.com"), HostEntry::new("a.com")];
    assert_eq!(Whitelister::new(&patterns).evaluate(&entries, 2).len(), 2);
    assert!(Whitelister::new(&patterns).evaluate(&[], 2).is_empty());
}

#[test]
fn any_matching_pattern_removes() {
    let patterns = vec![String::from("nothing.here"), String::from("ads.*")];
    let worker_entries = vec![HostEntry::new("ads.example"), HostEntry::new("good.example")];
    let worker = WhitelistingWorker {
        entries_to_check: &worker_entries,
        whitelisted_hosts: &patterns,
    };
    assert!(worker.evaluate(&worker_entries[0]) == EvaluationResult::Remove);
    assert!(worker.evaluate(&worker_entries[1]) == EvaluationResult::Keep);
    let kept: Vec<String> = worker.run().into_iter().map(|e| e.0).collect();
    assert_eq!(kept, vec!["good.example"]);
}

#[test]
fn keep_unmatched_follows_the_flags() {
    let entries = vec![
        HostEntry::new("a"),
        HostEntry::new("b"),
        HostEntry::new("c"),
    ];
    let kept: Vec<String> = keep_unmatched(&entries, &[false, true, false])
        .into_iter()
        .map(|e| e.0)
        .collect();
    assert_eq!(kept, vec!["a", "c"]);
}
