use quanty::text::{
    contains_all, contains_phrase, count_terms, decode_posting, encode_posting, length, phrase_hits,
    phrase_occurrences, postings, terms_of, tokenize, MAX_TERM_LEN,
};

fn terms(text: &str) -> Vec<String> {
    tokenize(text).into_iter().map(|t| t.term).collect()
}

#[test]
fn a_phrase_is_words_in_sequence() {
    assert_eq!(phrase_occurrences("the quick brown fox", "quick brown"), 1);
    assert_eq!(phrase_occurrences("the quick brown fox", "brown quick"), 0);
    assert_eq!(phrase_occurrences("a b a b a b", "a b"), 3);
    assert_eq!(phrase_occurrences("a b a b a b", "b a"), 2);
    // punctuation between the words does not break the sequence,
    // because positions count tokens
    assert_eq!(phrase_occurrences("quick, brown!", "quick brown"), 1);
    // and a phrase longer than the text cannot fit in it
    assert_eq!(phrase_occurrences("quick", "quick brown"), 0);
}

#[test]
fn an_empty_phrase_is_everywhere_like_an_empty_query() {
    assert!(contains_phrase("anything at all", "   ...  "));
    assert!(contains_phrase("", ""));
    assert_eq!(phrase_occurrences("anything", "  "), 0);
}

#[test]
fn the_index_half_answers_what_the_text_half_answers() {
    // The two are different code over different data and have to
    // agree, so they are checked against each other rather than each
    // against a hand written expectation.
    let texts = [
        "a b a b a b",
        "the quick brown fox jumps over the quick brown dog",
        "one two three",
        "x",
        "",
        "b a b a",
    ];
    let queries = ["a b", "b a", "quick brown", "the quick brown", "one", "z"];
    for text in texts {
        let table = postings(text);
        for query in queries {
            let terms: Vec<String> = tokenize(query).into_iter().map(|t| t.term).collect();
            let lists: Option<Vec<Vec<u32>>> = terms
                .iter()
                .map(|term| {
                    table
                        .iter()
                        .find(|(t, _)| t == term)
                        .map(|(_, p)| p.clone())
                })
                .collect();
            let from_index = lists.map_or(0, |l| phrase_hits(&l));
            assert_eq!(
                from_index,
                phrase_occurrences(text, query),
                "text {text:?} query {query:?}"
            );
        }
    }
}

#[test]
fn a_posting_survives_a_round_trip_and_junk_is_refused() {
    for case in [vec![], vec![0u32], vec![0, 1, 7, 4_000_000_000]] {
        assert_eq!(decode_posting(&encode_posting(42, &case)), Some((42, case)));
    }
    // too short to hold even a length
    assert_eq!(decode_posting(&[]), None);
    assert_eq!(decode_posting(&[1, 2, 3]), None);
    // a length and part of a position
    assert_eq!(decode_posting(&[1, 2, 3, 4, 5]), None);
}

#[test]
fn words_come_out_lowercased_and_split_on_punctuation() {
    assert_eq!(
        terms("The quick brown fox"),
        ["the", "quick", "brown", "fox"]
    );
    assert_eq!(
        terms("don't stop-me now!"),
        ["don", "t", "stop", "me", "now"]
    );
    assert_eq!(terms("MiXeD CaSe"), ["mixed", "case"]);
}

#[test]
fn digits_are_terms_and_so_are_words_with_them() {
    assert_eq!(terms("rfc 2119 and utf8"), ["rfc", "2119", "and", "utf8"]);
    assert_eq!(terms("v1.2.3"), ["v1", "2", "3"]);
}

#[test]
fn nothing_in_means_nothing_out() {
    assert!(tokenize("").is_empty());
    assert!(tokenize("   \n\t  ").is_empty());
    assert!(tokenize("...!?---").is_empty());
    assert_eq!(length(""), 0);
}

#[test]
fn positions_count_tokens_not_bytes() {
    // Two terms separated by a paragraph are still adjacent positions,
    // which is what a phrase query needs to know.
    let tokens = tokenize("alpha\n\n\n     beta");
    assert_eq!(tokens[0].position, 0);
    assert_eq!(tokens[1].position, 1);
}

#[test]
fn a_repeated_word_keeps_every_position() {
    let p = postings("the cat sat on the mat the end");
    let the = p.iter().find(|(t, _)| t == "the").expect("the");
    assert_eq!(the.1, vec![0, 4, 6]);
    assert_eq!(p.iter().find(|(t, _)| t == "cat").unwrap().1, vec![1]);
}

#[test]
fn postings_come_out_sorted_and_distinct() {
    let p = postings("zebra apple zebra mango apple apple");
    let names: Vec<&str> = p.iter().map(|(t, _)| t.as_str()).collect();
    assert_eq!(
        names,
        ["apple", "mango", "zebra"],
        "not sorted or not distinct"
    );
    assert_eq!(p[0].1.len(), 3, "apple appears three times");
}

#[test]
fn term_frequency_is_the_length_of_the_position_list() {
    // No separate counter exists, so none can drift from the list.
    let text = "a b a c a b a";
    let p = postings(text);
    let total: usize = p.iter().map(|(_, ps)| ps.len()).sum();
    assert_eq!(total as u32, length(text));
}

#[test]
fn a_very_long_run_of_letters_is_cut_rather_than_refused() {
    let long = "x".repeat(MAX_TERM_LEN * 3);
    let tokens = tokenize(&long);
    assert_eq!(tokens.len(), 1);
    assert_eq!(tokens[0].term.len(), MAX_TERM_LEN);

    // and the cut does not swallow what follows it
    let tokens = tokenize(&format!("{long} tail"));
    assert_eq!(tokens.len(), 2);
    assert_eq!(tokens[1].term, "tail");
}

#[test]
fn non_ascii_separates_which_is_the_documented_limitation() {
    // ADR-036 names this rather than hiding it: a word split by a byte
    // this tokenizer cannot fold becomes two terms.
    let terms = terms("caf\u{e9} au lait");
    assert_eq!(terms, ["caf", "au", "lait"]);

    // and text with no ASCII at all produces nothing, rather than one
    // enormous term or a panic
    assert!(tokenize("\u{3053}\u{3093}\u{306b}\u{3061}\u{306f}").is_empty());
}

/// Deterministic junk: bytes that are letters, digits, punctuation,
/// whitespace and multibyte characters in whatever order.
fn junk(seed: u64, len: usize) -> String {
    let mut state = seed;
    let alphabet: Vec<char> = "abZ9 _-.,\n\t/\u{e9}\u{3053}!".chars().collect();
    (0..len)
        .map(|_| {
            state = state
                .wrapping_mul(6_364_136_223_846_793_005)
                .wrapping_add(1_442_695_040_888_963_407);
            alphabet[(state >> 33) as usize % alphabet.len()]
        })
        .collect()
}

#[test]
fn arbitrary_text_tokenizes_without_surprises() {
    // The tokenizer is the one thing every posting depends on, so it
    // gets held to its invariants over junk rather than over three
    // sentences somebody chose.
    for seed in 0..200u64 {
        let mut text = junk(seed, 1 + (seed as usize % 90));
        // Every so often, a run long enough to meet the cut, which
        // junk on its own is too broken up to reach.
        if seed % 7 == 0 {
            text.push_str(&"q".repeat(MAX_TERM_LEN + seed as usize % 40));
            text.push_str(&junk(seed + 991, 20));
        }
        let text = text;
        let tokens = tokenize(&text);

        for (i, token) in tokens.iter().enumerate() {
            assert_eq!(token.position, i as u32, "positions skipped, seed {seed}");
            assert!(!token.term.is_empty(), "empty term, seed {seed}");
            assert!(
                token.term.len() <= MAX_TERM_LEN,
                "over the cut, seed {seed}"
            );
            assert!(
                token.term.chars().all(|c| c.is_ascii_alphanumeric()),
                "a separator got into a term, seed {seed}: {:?}",
                token.term
            );
            assert_eq!(
                token.term,
                token.term.to_ascii_lowercase(),
                "not folded, seed {seed}"
            );
        }

        assert_eq!(length(&text), tokens.len() as u32);
        let p = postings(&text);
        let total: usize = p.iter().map(|(_, ps)| ps.len()).sum();
        assert_eq!(total, tokens.len(), "postings lost a token, seed {seed}");
        let mut names: Vec<&String> = p.iter().map(|(t, _)| t).collect();
        let before = names.len();
        names.sort();
        names.dedup();
        assert_eq!(names.len(), before, "a term appeared twice, seed {seed}");
    }
}

#[test]
fn every_position_is_used_once_and_in_order() {
    let text = "one two three two one three one";
    let mut seen: Vec<u32> = postings(text).into_iter().flat_map(|(_, ps)| ps).collect();
    seen.sort_unstable();
    let expected: Vec<u32> = (0..length(text)).collect();
    assert_eq!(seen, expected, "a position went missing or was reused");
}

#[test]
fn every_word_of_a_query_has_to_be_there() {
    assert!(contains_all("the quick brown fox", "fox QUICK"));
    assert!(!contains_all("the quick brown fox", "fox slow"));
    assert!(contains_all("anything", "..."));
    assert_eq!(terms_of("b a b"), ["a", "b"]);
}

#[test]
fn tokens_of_two_texts_are_those_of_both() {
    let (a, b) = ("Quick, brown", "fox7 (and) dog");
    let mut both = terms(a);
    both.extend(terms(b));
    assert_eq!(terms(&format!("{a} {b}")), both);
    assert_eq!(count_terms(&format!("{a} {b}")), 5);
    assert_eq!(count_terms(""), 0);
    assert_eq!(count_terms("one"), 1);
}

#[test]
fn the_lists_of_postings_add_up_to_the_length() {
    let text = "a b a c a b";
    let total: usize = postings(text).iter().map(|(_, p)| p.len()).sum();
    assert_eq!(total, 6);
    assert_eq!(length(text), 6);
}
