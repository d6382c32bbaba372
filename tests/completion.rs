use codecrafters_shell::completion::{
    current_word, CompletionEngine, CompletionOutcome, PrefixMatch, Trie,
};

fn names(items: &[&str]) -> Vec<String> {
    items.iter().map(|s| s.to_string()).collect()
}

#[test]
fn ambiguous_then_show_all_on_quick_repeat() {
    let mut engine = CompletionEngine::new(names(&["cd", "cat", "car"]));
    let t0: u64 = 10_000;
    assert_eq!(engine.complete("ca", t0), CompletionOutcome::Ambiguous);
    assert_eq!(
        engine.complete("ca", t0 + 100),
        CompletionOutcome::ShowAll(names(&["car", "cat"]))
    );
}

#[test]
fn single_match_completes_with_space() {
    let mut engine = CompletionEngine::new(names(&["pwd"]));
    assert_eq!(
        engine.complete("p", 5),
        CompletionOutcome::Complete("pwd ".to_string())
    );
}

#[test]
fn refresh_twice_keeps_the_same_names() {
    let mut engine = CompletionEngine::new(names(&["cd"]));
    let found = names(&["ls", "cat"]);
    engine.refresh_cache(&found);
    assert_eq!(engine.complete("", 0), CompletionOutcome::Ambiguous);
    let once = engine.complete("", 100);
    engine.refresh_cache(&found);
    assert_eq!(engine.complete("", 5_000), CompletionOutcome::Ambiguous);
    let twice = engine.complete("", 5_100);
    assert_eq!(once, CompletionOutcome::ShowAll(names(&["cat", "cd", "ls"])));
    assert_eq!(twice, once);
}

#[test]
fn refresh_drops_names_no_longer_found() {
    let mut engine = CompletionEngine::new(names(&["cd"]));
    engine.refresh_cache(&names(&["grep"]));
    assert_eq!(
        engine.complete("gr", 0),
        CompletionOutcome::Complete("grep ".to_string())
    );
    engine.refresh_cache(&names(&["ls"]));
    assert_eq!(engine.complete("gr", 10), CompletionOutcome::NoMatch);
    assert_eq!(
        engine.complete("c", 20),
        CompletionOutcome::Complete("cd ".to_string())
    );
}

#[test]
fn no_match_for_unknown_prefix() {
    let mut engine = CompletionEngine::new(names(&["cd", "cat"]));
    assert_eq!(engine.complete("x", 0), CompletionOutcome::NoMatch);
    assert_eq!(engine.complete("cdx", 0), CompletionOutcome::NoMatch);
}

#[test]
fn common_prefix_extends_the_word() {
    let mut engine = CompletionEngine::new(names(&["git", "gitk", "git-upload", "ls"]));
    assert_eq!(
        engine.complete("g", 0),
        CompletionOutcome::ExtendPrefix("git".to_string())
    );
}

#[test]
fn window_boundary_is_exclusive() {
    let mut engine = CompletionEngine::new(names(&["cat", "car"]));
    assert_eq!(engine.complete("ca", 1_000), CompletionOutcome::Ambiguous);
    assert_eq!(engine.complete("ca", 1_500), CompletionOutcome::Ambiguous);
    assert_eq!(
        engine.complete("ca", 1_999),
        CompletionOutcome::ShowAll(names(&["car", "cat"]))
    );
}

#[test]
fn earlier_timestamp_is_not_a_repeat() {
    let mut engine = CompletionEngine::new(names(&["cat", "car"]));
    assert_eq!(engine.complete("ca", 1_000), CompletionOutcome::Ambiguous);
    assert_eq!(engine.complete("ca", 900), CompletionOutcome::Ambiguous);
}

#[test]
fn other_outcomes_leave_the_reference_time() {
    let mut engine = CompletionEngine::new(names(&["cat", "car", "pwd"]));
    assert_eq!(engine.complete("ca", 1_000), CompletionOutcome::Ambiguous);
    assert_eq!(
        engine.complete("p", 1_100),
        CompletionOutcome::Complete("pwd ".to_string())
    );
    assert_eq!(
        engine.complete("ca", 1_200),
        CompletionOutcome::ShowAll(names(&["car", "cat"]))
    );
}

#[test]
fn empty_partial_matches_every_name() {
    let mut engine = CompletionEngine::new(names(&["echo", "exit", "cd"]));
    assert_eq!(engine.complete("", 0), CompletionOutcome::Ambiguous);
    assert_eq!(
        engine.complete("", 1),
        CompletionOutcome::ShowAll(names(&["cd", "echo", "exit"]))
    );
}

#[test]
fn name_that_prefixes_another_is_listed() {
    let mut engine = CompletionEngine::new(names(&["ls", "lsof", "lsblk"]));
    assert_eq!(engine.complete("ls", 0), CompletionOutcome::Ambiguous);
    assert_eq!(
        engine.complete("ls", 10),
        CompletionOutcome::ShowAll(names(&["ls", "lsblk", "lsof"]))
    );
}

#[test]
fn trie_insert_is_idempotent() {
    let mut trie = Trie::new();
    trie.insert("cat".to_string());
    trie.insert("cat".to_string());
    trie.insert("car".to_string());
    let mut found = trie.find_prefix("ca");
    found.sort();
    assert_eq!(found, names(&["car", "cat"]));
    assert_eq!(trie.find_prefix("d"), Vec::<String>::new());
}

#[test]
fn trie_find_common_prefix_cases() {
    let mut trie = Trie::new();
    for n in ["cd", "cat", "car", "catalog"].iter() {
        trie.insert(n.to_string());
    }
    assert_eq!(trie.find_common_prefix("x"), PrefixMatch::NoMatch);
    assert_eq!(
        trie.find_common_prefix("cata"),
        PrefixMatch::Unique("catalog ".to_string())
    );
    assert_eq!(
        trie.find_common_prefix("ca"),
        PrefixMatch::Ambiguous(names(&["car", "cat", "catalog"]))
    );
    assert_eq!(
        trie.find_common_prefix("cat"),
        PrefixMatch::Ambiguous(names(&["cat", "catalog"]))
    );
}

#[test]
fn trie_handles_non_ascii_names() {
    let mut trie = Trie::new();
    trie.insert("caf\u{e9}".to_string());
    trie.insert("caf\u{e9}-bar".to_string());
    assert_eq!(
        trie.find_common_prefix("c"),
        PrefixMatch::CommonPrefix("caf\u{e9}".to_string())
    );
}

#[test]
fn current_word_after_last_blank() {
    assert_eq!(current_word("echo hel"), "hel");
    assert_eq!(current_word("ca"), "ca");
    assert_eq!(current_word(""), "");
    assert_eq!(current_word("ls "), "");
    assert_eq!(current_word("ls\tgr"), "gr");
}

#[test]
fn current_word_keeps_escaped_blanks() {
    assert_eq!(current_word("cat my\\ fi"), "my\\ fi");
    assert_eq!(current_word("cat a\\\\ b"), "b");
}
