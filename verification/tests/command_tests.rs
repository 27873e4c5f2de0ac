use nem::chain::NemFiles;
use nem::command::{
    list_lines, parse_args, resolve, run_create, run_edit, run_remove, Action, DispatchPlan,
    NemError,
};
use nem::entry::Entry;
use nem::store::NemFile;

fn entry(cmd: &str, code: &str) -> Entry {
    Entry::new(cmd.to_string(), code.to_string(), String::new())
}

fn store(name: &str, entries: Vec<Entry>) -> NemFile {
    NemFile::new("0.0".to_string(), entries, name.to_string())
}

fn args(a: &[&str]) -> Vec<String> {
    a.iter().map(|w| w.to_string()).collect()
}

#[test]
fn parse_no_action_defaults_to_list() {
    assert!(matches!(parse_args(&args(&["n"])), Ok(Action::List)));
}

#[test]
fn parse_list_action() {
    assert!(matches!(parse_args(&args(&["n", "/cl"])), Ok(Action::List)));
}

#[test]
fn parse_list_ignores_extra_arguments() {
    assert!(matches!(
        parse_args(&args(&["n", "/cl", "extra"])),
        Ok(Action::List)
    ));
}

#[test]
fn parse_create_collects_the_words() {
    match parse_args(&args(&["n", "/cc", "echo", "hi"])) {
        Ok(Action::Create(ws)) => assert_eq!(ws, vec!["echo", "hi"]),
        other => panic!("unexpected action: {:?}", other.is_ok()),
    }
}

#[test]
fn parse_create_without_words_is_an_argument_error() {
    assert!(matches!(
        parse_args(&args(&["n", "/cc"])),
        Err(NemError::Argument)
    ));
}

#[test]
fn parse_edit_takes_exactly_two_codes() {
    match parse_args(&args(&["n", "/ce", "a", "b"])) {
        Ok(Action::Edit(o, nw)) => {
            assert_eq!(o, "a");
            assert_eq!(nw, "b");
        },
        _ => panic!("expected an edit action"),
    }
    assert!(matches!(
        parse_args(&args(&["n", "/ce", "a"])),
        Err(NemError::Argument)
    ));
    assert!(matches!(
        parse_args(&args(&["n", "/ce", "a", "b", "c"])),
        Err(NemError::Argument)
    ));
}

#[test]
fn parse_remove_takes_exactly_one_code() {
    match parse_args(&args(&["n", "/cr", "a"])) {
        Ok(Action::Remove(c)) => assert_eq!(c, "a"),
        _ => panic!("expected a remove action"),
    }
    assert!(matches!(
        parse_args(&args(&["n", "/cr"])),
        Err(NemError::Argument)
    ));
}

#[test]
fn parse_unknown_word_dispatches_it_as_a_code() {
    match parse_args(&args(&["n", "e", "hello"])) {
        Ok(Action::Dispatch(c, fwd)) => {
            assert_eq!(c, "e");
            assert_eq!(fwd, vec!["hello"]);
        },
        _ => panic!("expected a dispatch action"),
    }
}

#[test]
fn create_then_find() {
    let mut chain = NemFiles::new(vec![store("near", vec![])]);
    let code = run_create(&mut chain, &args(&["echo"])).expect("create succeeds");
    assert_eq!(code, "e");
    let hit = chain.find_entry_by_code(&code).expect("present");
    assert_eq!(hit.cmd, "echo");
}

#[test]
fn create_joins_words_and_dodges_existing_codes() {
    let mut chain = NemFiles::new(vec![store("near", vec![entry("edit", "e")])]);
    let code = run_create(&mut chain, &args(&["echo", "hi"])).expect("create succeeds");
    assert_eq!(code, "eh");
    let hit = chain.find_entry_by_code(&code).expect("present");
    assert_eq!(hit.cmd, "echo hi");
}

#[test]
fn create_on_an_empty_chain_is_refused() {
    let mut chain = NemFiles::new(vec![]);
    assert!(matches!(
        run_create(&mut chain, &args(&["echo"])),
        Err(NemError::EmptyChain)
    ));
}

#[test]
fn edit_collision_is_refused_and_nothing_changes() {
    let near = store("near", vec![entry("alpha", "a"), entry("beta", "b")]);
    let mut chain = NemFiles::new(vec![near]);
    match run_edit(&mut chain, &"a".to_string(), &"b".to_string()) {
        Err(NemError::Collision { code, cmd }) => {
            assert_eq!(code, "b");
            assert_eq!(cmd, "beta");
        },
        _ => panic!("expected a collision"),
    }
    assert_eq!(chain.nem_files[0].entries[0], entry("alpha", "a"));
    assert_eq!(chain.nem_files[0].entries[1], entry("beta", "b"));
}

#[test]
fn edit_of_a_missing_code_is_not_found() {
    let mut chain = NemFiles::new(vec![store("near", vec![entry("alpha", "a")])]);
    assert!(matches!(
        run_edit(&mut chain, &"zz".to_string(), &"y".to_string()),
        Err(NemError::NotFound { .. })
    ));
}

#[test]
fn edit_relabels_on_success() {
    let mut chain = NemFiles::new(vec![store("near", vec![entry("alpha", "a")])]);
    let changed = run_edit(&mut chain, &"a".to_string(), &"al".to_string()).expect("edits");
    assert_eq!(changed.code, "al");
    assert_eq!(changed.cmd, "alpha");
    assert!(chain.find_entry_by_code(&"a".to_string()).is_none());
}

#[test]
fn remove_returns_the_entry_and_missing_is_not_found() {
    let mut chain = NemFiles::new(vec![store("near", vec![entry("alpha", "a")])]);
    let removed = run_remove(&mut chain, &"a".to_string()).expect("removes");
    assert_eq!(removed.cmd, "alpha");
    match run_remove(&mut chain, &"a".to_string()) {
        Err(NemError::NotFound { code }) => assert_eq!(code, "a"),
        _ => panic!("expected not-found"),
    }
}

#[test]
fn dispatch_hit_builds_the_full_argument_vector() {
    let chain = NemFiles::new(vec![store("near", vec![entry("echo hi", "e")])]);
    match resolve(&chain, &"e".to_string(), &args(&["there"])) {
        DispatchPlan::Run(argv) => assert_eq!(argv, vec!["echo", "hi", "there"]),
        DispatchPlan::List => panic!("expected a hit"),
    }
}

#[test]
fn dispatch_miss_degrades_to_the_listing() {
    let chain = NemFiles::new(vec![store("near", vec![entry("echo hi", "e")])]);
    let plan = resolve(&chain, &"nope".to_string(), &args(&[]));
    assert!(matches!(plan, DispatchPlan::List));
    // the fallback shows exactly what the listing action shows
    let expected = list_lines(&chain);
    assert_eq!(expected, vec!["file: near", "\te\techo hi"]);
}

#[test]
fn listing_prints_farthest_store_first() {
    let near = store("/home/me/prj/.nem.toml", vec![entry("echo prj", "e")]);
    let far = store(
        "/home/me/.nem.toml",
        vec![entry("cargo build --release", "cbr")],
    );
    let chain = NemFiles::new(vec![near, far]);
    assert_eq!(
        list_lines(&chain),
        vec![
            "file: /home/me/.nem.toml",
            "\tcbr\tcargo build --release",
            "file: /home/me/prj/.nem.toml",
            "\te\techo prj",
        ]
    );
}
