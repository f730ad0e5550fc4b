use mcp::domain::ranking::{rank, Ranked};
use mcp::domain::text::{chars_of, contains, is_whitespace, keep_alphanumerics, split_words};
use mcp::domain::{Context, ContextMetadata, RetrievalService, Score, Timestamp};

fn context_of(id: u128, content: &str) -> Context {
    Context {
        id,
        content: content.to_string(),
        metadata: ContextMetadata::default(),
        created_at: Timestamp { seconds: 0, nanos: 0 },
        expires_at: None,
    }
}

#[test]
fn rank_orders_positions_best_first_and_keeps_ties_in_order() {
    let keys: Vec<usize> = vec![1, 3, 2, 3, 0, 1];
    assert_eq!(rank(&keys), vec![1, 3, 2, 0, 5, 4]);
    let none: Vec<usize> = Vec::new();
    assert!(rank(&none).is_empty());
    assert!(5usize.is_above(&4));
    assert!(!4usize.is_above(&4));
}

#[test]
fn words_are_runs_between_white_space() {
    let words = split_words(&chars_of("  neural\tnetworks \n transformers\u{a0}attention "));
    let words: Vec<String> = words.iter().map(|w| w.iter().collect()).collect();
    assert_eq!(words, vec!["neural", "networks", "transformers", "attention"]);
    assert!(split_words(&chars_of(" \t\n")).is_empty());
    assert!(split_words(&chars_of("")).is_empty());
}

#[test]
fn letters_and_digits_are_kept() {
    let kept: String = keep_alphanumerics(&chars_of("it's 4-ever, \u{e9}t\u{e9}!")).iter().collect();
    assert_eq!(kept, "its4ever\u{e9}t\u{e9}");
}

#[test]
fn scores_are_matched_terms_out_of_query_terms() {
    let service = RetrievalService::new(10);
    let contexts = vec![
        context_of(1, "Python is a popular language"),
        context_of(2, "Rust is a systems programming language"),
        context_of(3, "Nothing to see"),
    ];
    let ranked = service.rank_contexts("rust LANGUAGE systems", &contexts, &[]);
    assert_eq!(ranked.len(), 3);
    assert_eq!(ranked[0].0.id, 2);
    assert_eq!(ranked[0].1, Score::Ratio { matched: 3, total: 3 });
    assert_eq!(ranked[1].0.id, 1);
    assert_eq!(ranked[1].1, Score::Ratio { matched: 1, total: 3 });
    assert_eq!(ranked[2].0.id, 3);
    assert_eq!(ranked[2].1, Score::Ratio { matched: 0, total: 3 });
}

#[test]
fn a_term_matches_inside_a_word_and_whatever_its_case() {
    let service = RetrievalService::new(10);
    let contexts = vec![context_of(1, "TRANSFORMERS have revolutionized processing")];
    let ranked = service.rank_contexts("former Process absent", &contexts, &[]);
    assert_eq!(ranked[0].1, Score::Ratio { matched: 2, total: 3 });
}

#[test]
fn an_empty_query_scores_nothing() {
    let service = RetrievalService::new(10);
    let contexts = vec![context_of(1, "one"), context_of(2, "two")];
    let ranked = service.rank_contexts("   ", &contexts, &[]);
    assert_eq!(ranked.len(), 2);
    assert_eq!(ranked[0].0.id, 1);
    assert_eq!(ranked[1].0.id, 2);
    assert_eq!(ranked[0].1, Score::Ratio { matched: 0, total: 0 });
    assert_eq!(ranked[1].1, Score::Ratio { matched: 0, total: 0 });
}

#[test]
fn ranking_is_cut_to_the_best_and_never_longer() {
    let contexts = vec![
        context_of(1, "alpha"),
        context_of(2, "alpha beta"),
        context_of(3, "alpha beta gamma"),
        context_of(4, "beta"),
    ];
    let ranked = RetrievalService::new(2).rank_contexts("alpha beta gamma", &contexts, &[]);
    let ids: Vec<u128> = ranked.iter().map(|entry| entry.0.id).collect();
    assert_eq!(ids, vec![3, 2]);
    let all = RetrievalService::new(9).rank_contexts("alpha beta gamma", &contexts, &[]);
    let ids: Vec<u128> = all.iter().map(|entry| entry.0.id).collect();
    assert_eq!(ids, vec![3, 2, 1, 4]);
    for pair in all.windows(2) {
        match (pair[0].1, pair[1].1) {
            (Score::Ratio { matched: a, .. }, Score::Ratio { matched: b, .. }) => assert!(a >= b),
            _ => panic!("a ranking scores by ratio"),
        }
    }
    assert!(RetrievalService::new(0).rank_contexts("alpha", &contexts, &[]).is_empty());
}

#[test]
fn white_space_is_what_the_standard_library_calls_white_space() {
    for code in 0..=0x10ffffu32 {
        if let Some(c) = char::from_u32(code) {
            assert_eq!(is_whitespace(c), c.is_whitespace(), "U+{:04X}", code);
        }
    }
    assert!(is_whitespace(' '));
    assert!(is_whitespace('\u{3000}'));
    assert!(!is_whitespace('\u{200b}'));
    assert!(!is_whitespace('a'));
}

#[test]
fn a_needle_occurs_where_the_standard_library_finds_it() {
    let texts = ["", "a", "ab", "aab", "abab", "b\u{e9}a", "\u{e9}", "aaa", "baaab", "ba"];
    for hay in texts {
        for needle in texts {
            assert_eq!(
                contains(&chars_of(hay), &chars_of(needle)),
                hay.contains(needle),
                "{:?} in {:?}",
                needle,
                hay
            );
        }
    }
    assert!(contains(&chars_of("transformers"), &chars_of("former")));
    assert!(!contains(&chars_of("former"), &chars_of("transformers")));
    assert!(contains(&chars_of("anything"), &chars_of("")));
}
