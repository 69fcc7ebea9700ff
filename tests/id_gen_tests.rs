use party_rooms::id_gen::{generate_code, Chain, FunnyWords, ENTROPY_SCALE};
use rand::rngs::StdRng;
use rand::SeedableRng;

fn is_code_char(c: char) -> bool {
    c.is_ascii_uppercase() || c.is_ascii_digit()
}

fn words(list: &[&str]) -> FunnyWords {
    let owned: Vec<String> = list.iter().map(|w| w.to_string()).collect();
    FunnyWords::from_words(&owned)
}

#[test]
fn push_records_each_transition_in_order() {
    let mut w = FunnyWords::default();
    w.push("CAB");
    assert_eq!(w.followers_of(None), &vec![Some('C')]);
    assert_eq!(w.followers_of(Some('C')), &vec![Some('A')]);
    assert_eq!(w.followers_of(Some('A')), &vec![Some('B')]);
    assert_eq!(w.followers_of(Some('B')), &vec![None]);
    w.push("AA");
    assert_eq!(w.followers_of(None), &vec![Some('C'), Some('A')]);
    assert_eq!(w.followers_of(Some('A')), &vec![Some('B'), Some('A'), None]);
}

#[test]
fn empty_word_marks_an_empty_start() {
    let mut w = FunnyWords::default();
    w.push("");
    assert_eq!(w.followers_of(None), &vec![None]);
}

#[test]
fn default_model_is_empty() {
    let w = FunnyWords::default();
    assert!(w.followers_of(None).is_empty());
    assert!(w.followers_of(Some('z')).is_empty());
}

#[test]
fn from_words_learns_every_word() {
    let w = words(&["HI", "HO"]);
    assert_eq!(w.followers_of(None), &vec![Some('H'), Some('H')]);
    assert_eq!(w.followers_of(Some('H')), &vec![Some('I'), Some('O')]);
    assert_eq!(w.followers_of(Some('I')), &vec![None]);
}

#[test]
fn codes_have_the_requested_length_and_alphabet() {
    let corpora: Vec<FunnyWords> = vec![
        words(&[]),
        words(&["banana", "apple", "kiwi"]),
        words(&["BANANA", "CHERRY", "x-ray", "o'neil"]),
    ];
    let mut rng = StdRng::seed_from_u64(11);
    for corpus in &corpora {
        for entropy in [0u16, 1, 100, 500, 999, ENTROPY_SCALE] {
            for length in [0usize, 1, 8, 20] {
                let code = generate_code(corpus, entropy, length, &mut rng);
                assert_eq!(code.chars().count(), length);
                assert!(code.chars().all(is_code_char), "{}", code);
            }
        }
    }
}

#[test]
fn zero_entropy_follows_the_model() {
    let w = words(&["AB"]);
    let mut rng = StdRng::seed_from_u64(3);
    for _ in 0..50 {
        let code = generate_code(&w, 0, 8, &mut rng);
        assert_eq!(code.chars().next(), Some('B'));
    }
}

#[test]
fn chain_starts_from_the_model_then_falls_back() {
    let w = words(&["AB"]);
    let mut rng = StdRng::seed_from_u64(5);
    let mut chain = Chain::new(&w, 0);
    assert_eq!(chain.next(&mut rng), 'B');
    for _ in 0..20 {
        assert!(is_code_char(chain.next(&mut rng)));
    }
}

#[test]
fn lower_case_successors_are_upper_cased() {
    let w = words(&["ab"]);
    let mut rng = StdRng::seed_from_u64(9);
    let code = generate_code(&w, 0, 1, &mut rng);
    assert_eq!(code, "B");
}

#[test]
fn full_entropy_ignores_the_corpus() {
    let w = words(&["AAAAAAAA", "AAAA"]);
    let mut rng = StdRng::seed_from_u64(21);
    let mut counts = std::collections::HashMap::new();
    let draws = 62_000;
    for _ in 0..draws / 8 {
        for c in generate_code(&w, ENTROPY_SCALE, 8, &mut rng).chars() {
            *counts.entry(c).or_insert(0u32) += 1;
        }
    }
    assert_eq!(counts.len(), 36);
    for (c, n) in counts {
        // A letter is drawn upper or lower case: 2 chances in 62; a digit 1.
        let expected = if c.is_ascii_digit() { 1000.0 } else { 2000.0 };
        let n = n as f64;
        assert!(n > expected * 0.8 && n < expected * 1.2, "{} drawn {} times", c, n);
    }
}
