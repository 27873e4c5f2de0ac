use nem::codegen::mnemonic;
use nem::text::{join_words, split_cmd};

fn words(ws: &[&str]) -> Vec<String> {
    ws.iter().map(|w| w.to_string()).collect()
}

#[test]
fn generate_takes_first_letters() {
    assert_eq!(mnemonic(&words(&["echo"]), &vec![]), "e");
}

#[test]
fn generate_multi_word() {
    assert_eq!(
        mnemonic(&words(&["cargo", "build", "--release"]), &vec![]),
        "cbr"
    );
}

#[test]
fn generate_skips_leading_hyphens() {
    assert_eq!(mnemonic(&words(&["--echo"]), &vec![]), "e");
}

#[test]
fn generate_hyphen_only_word_contributes_nothing() {
    assert_eq!(mnemonic(&words(&["--", "echo"]), &vec![]), "e");
    assert_eq!(mnemonic(&words(&["--"]), &vec![]), "");
}

#[test]
fn generate_empty_words_yield_empty_code() {
    assert_eq!(mnemonic(&words(&[]), &vec![]), "");
}

#[test]
fn generate_appends_ones_on_collision() {
    assert_eq!(mnemonic(&words(&["echo"]), &vec!["e".to_string()]), "e1");
    assert_eq!(
        mnemonic(
            &words(&["echo"]),
            &vec!["e".to_string(), "e1".to_string()]
        ),
        "e11"
    );
}

#[test]
fn split_cmd_splits_at_every_space() {
    assert_eq!(split_cmd("echo hi"), vec!["echo", "hi"]);
    assert_eq!(split_cmd("a  b"), vec!["a", "", "b"]);
    assert_eq!(split_cmd("solo"), vec!["solo"]);
    assert_eq!(split_cmd(""), vec![""]);
}

#[test]
fn join_words_puts_single_spaces() {
    assert_eq!(join_words(&words(&["cargo", "build"])), "cargo build");
    assert_eq!(join_words(&words(&["echo"])), "echo");
    assert_eq!(join_words(&words(&[])), "");
}

#[test]
fn split_undoes_join_for_space_free_words() {
    let ws = words(&["cargo", "build", "--release"]);
    assert_eq!(split_cmd(&join_words(&ws)), ws);
}
