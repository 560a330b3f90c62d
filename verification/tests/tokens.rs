//! What the token file promises, including when it is wrong.

use quanty::sha256::sha256;
use quanty::strings::to_hex;
use quanty::tokens::{from_hex, mint, Tokens, TokensError};

fn line_for(token: &str, label: &str) -> String {
    format!("{} {}\n", to_hex(&sha256(token.as_bytes())), label)
}

fn load(text: &str) -> Result<Tokens, TokensError> {
    Tokens::load("tokens", Some(1), Ok(text.to_string()))
}

#[test]
fn a_listed_token_is_accepted_and_an_unlisted_one_is_not() {
    let tokens = load(&line_for("secret", "elchi")).expect("load");

    assert_eq!(tokens.len(), 1);
    assert!(tokens.accepts(b"secret"));
    assert!(!tokens.accepts(b"secre"));
    assert!(!tokens.accepts(b"secrets"));
    assert!(!tokens.accepts(b""));
    assert_eq!(tokens.path(), "tokens");
    assert!(!tokens.is_empty());
}

#[test]
fn comments_and_blank_lines_are_not_tokens() {
    let body = format!(
        "# the ops token\n\n{}   # rotated 2026-08-20\n\n",
        line_for("secret", "ops").trim()
    );
    let tokens = load(&body).expect("load");

    assert_eq!(tokens.len(), 1);
    assert!(tokens.accepts(b"secret"));
}

/// Revoking is deleting a line, and it takes effect on a running server.
#[test]
fn deleting_a_line_revokes_it_without_a_restart() {
    let body = format!("{}{}", line_for("keep", "keep"), line_for("drop", "drop"));
    let mut tokens = load(&body).expect("load");
    assert!(tokens.accepts(b"keep") && tokens.accepts(b"drop"));

    let reloaded = tokens
        .reload_if_changed(Some(2), Ok(line_for("keep", "keep")))
        .expect("reload");
    assert!(reloaded, "no reload");
    assert!(tokens.accepts(b"keep"));
    assert!(!tokens.accepts(b"drop"), "the revoked token still works");
}

#[test]
fn an_unchanged_file_is_not_read_again() {
    let mut tokens = load(&line_for("secret", "one")).expect("load");
    assert!(!tokens.changed(Some(1)));
    assert!(!tokens
        .reload_if_changed(Some(1), Ok(String::new()))
        .expect("reload"));
    assert!(tokens.accepts(b"secret"));
}

#[test]
fn a_file_that_went_back_in_time_is_read_again() {
    let mut tokens = Tokens::load("tokens", Some(9), Ok(line_for("a", "a"))).expect("load");
    assert!(tokens
        .reload_if_changed(Some(3), Ok(line_for("b", "b")))
        .expect("reload"));
    assert!(tokens.accepts(b"b") && !tokens.accepts(b"a"));
    // without a time there is no telling, so it is read
    assert!(tokens.changed(None));
}

/// A broken file must not fall open and must not fall over.
#[test]
fn a_malformed_line_is_refused_and_the_old_set_stays_in_force() {
    let mut tokens = load(&line_for("secret", "one")).expect("load");

    let err = tokens
        .reload_if_changed(Some(2), Ok("not-a-hash label\n".to_string()))
        .expect_err("should have refused");
    assert!(err.message().contains("line 1"), "{err:?}");
    assert!(
        tokens.accepts(b"secret"),
        "a broken file must not disarm the tokens that were working"
    );
}

#[test]
fn a_hash_without_a_label_is_refused() {
    let err =
        load(&format!("{}\n", to_hex(&sha256(b"x")))).expect_err("should have refused");
    assert!(err.message().contains("label"), "{err:?}");
}

#[test]
fn a_missing_file_is_an_error_rather_than_an_empty_allow_list() {
    let err = Tokens::load("nothing-here", None, Err("no such file".to_string()))
        .expect_err("should have refused");
    assert!(!err.message().is_empty());
    assert_eq!(err.message(), "no such file");
}

/// A minted token verifies against the line minted with it, and two mints
/// do not collide.
#[test]
fn a_minted_token_verifies_against_its_own_line() {
    let (token, line) = mint(&[7u8; 32], "elchi");
    let (other, _) = mint(&[8u8; 32], "elchi");
    assert_ne!(token, other, "two mints produced the same token");
    assert_eq!(token.len(), 64);

    let tokens = load(&format!("{line}\n")).expect("load");
    assert!(tokens.accepts(token.as_bytes()));
    assert!(!tokens.accepts(other.as_bytes()));
}

#[test]
fn the_malformed_line_is_counted_from_one() {
    let text = format!("# top\n{}\nnope x\n", line_for("a", "a").trim());
    match load(&text) {
        Err(TokensError::Malformed { line, detail }) => {
            assert_eq!(line, 3);
            assert_eq!(detail, "expected sixty four hex characters");
        }
        other => panic!("got {other:?}"),
    }
}

#[test]
fn the_same_hash_twice_is_one_token() {
    let text = format!("{}{}", line_for("a", "one"), line_for("a", "two"));
    assert_eq!(load(&text).expect("load").len(), 1);
    assert!(load("").expect("load").is_empty());
}

#[test]
fn hex_reads_back_in_either_case() {
    let hash = sha256(b"abc");
    let text = to_hex(&hash);
    assert_eq!(from_hex(&text), Some(hash));
    assert_eq!(from_hex(&text.to_uppercase()), Some(hash));
    assert_eq!(from_hex(&text[..63]), None);
    assert_eq!(from_hex(&format!("g{}", &text[1..])), None);
}

#[test]
fn a_label_may_have_blanks_and_a_comment() {
    let (token, line) = mint(&[3u8; 32], "  the build box # rotated");
    let (other, _) = mint(&[4u8; 32], "x");
    let tokens = load(&format!("{line}\n")).expect("load");
    assert_eq!(tokens.len(), 1);
    assert!(tokens.accepts(token.as_bytes()));
    assert!(!tokens.accepts(other.as_bytes()));

    // nothing but a comment is no label
    let (_, line) = mint(&[3u8; 32], " # rotated");
    match load(&line) {
        Err(TokensError::Malformed { line, detail }) => {
            assert_eq!(line, 1);
            assert_eq!(detail, "a hash needs a label after it");
        }
        other => panic!("got {other:?}"),
    }
}
