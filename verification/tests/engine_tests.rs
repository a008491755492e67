use namegen::CFGrammar;
use namegen::Markov;
use namegen::Prng;
use namegen::Sample;
use namegen::SampleSet;
use namegen::WorkingSet;

fn word(s: &str) -> Sample {
    Sample::Word(s.to_string())
}

fn row(cells: &[&str]) -> Sample {
    Sample::Tokens(cells.iter().map(|c| c.to_string()).collect())
}

#[test]
fn test_markov_single_word_round_trip() {
    // With only one learned word there is only one valid walk, so every
    // call must reproduce it exactly.
    let mut markov = Markov::new();
    let mut set = SampleSet::new();
    set.add_sample(word("aba"));
    markov.learn(&set).unwrap();
    assert!(markov.validate().is_ok());

    let mut ws = WorkingSet::new();
    let mut rng = Prng::seeded(7);
    for _ in 0..20 {
        markov.generate(&mut ws, &mut rng);
        assert_eq!(ws.get_result(), "aba");
    }
}

#[test]
fn test_markov_determinism_across_seeds() {
    let corpus = ["mira", "mara", "lino", "lina", "tarel", "timor"];
    let mut first: Vec<String> = Vec::new();
    let mut second: Vec<String> = Vec::new();
    for run in 0..2 {
        let mut markov = Markov::new();
        let mut set = SampleSet::new();
        for w in corpus.iter() {
            set.add_sample(word(w));
        }
        markov.learn(&set).unwrap();
        let mut ws = WorkingSet::new();
        let mut rng = Prng::seeded(123);
        for _ in 0..10 {
            markov.generate(&mut ws, &mut rng);
            if run == 0 {
                first.push(ws.get_result().to_string());
            } else {
                second.push(ws.get_result().to_string());
            }
        }
    }
    assert_eq!(first, second);
}

#[test]
fn test_markov_totals_match_sums() {
    let mut markov = Markov::new();
    let mut set = SampleSet::new();
    set.add_sample(word("mira"));
    set.add_sample(word("mara"));
    set.add_sample(word("miri"));
    markov.learn(&set).unwrap();

    let start_sum: usize = markov.starts.iter().map(|s| s.weight).sum();
    assert_eq!(start_sum, markov.total_starts);
    let length_sum: usize = markov.lengths.iter().sum();
    assert_eq!(length_sum, markov.total_lengths);
    assert_eq!(markov.total_starts, 3);
    assert!(markov.validate().is_ok());
}

#[test]
fn test_markov_batch_atomicity() {
    // A multi-sample batch with one bad sample must leave the engine
    // exactly as it was.
    let mut markov = Markov::new();
    let mut warmup = SampleSet::new();
    warmup.add_sample(word("mira"));
    warmup.add_sample(word("mara"));
    markov.learn(&warmup).unwrap();

    let tokens_before = markov.tokens.clone();
    let total_starts_before = markov.total_starts;
    let total_lengths_before = markov.total_lengths;
    let lengths_before = markov.lengths.clone();
    let n_starts_before = markov.starts.len();
    let n_nodes_before = markov.nodes.len();

    let mut bad = SampleSet::new();
    bad.add_sample(word("lino"));
    bad.add_sample(word("xy"));
    bad.add_sample(word("lina"));
    let err = markov.learn(&bad).unwrap_err();
    assert_eq!(err.code, 0);

    assert_eq!(markov.tokens, tokens_before);
    assert_eq!(markov.total_starts, total_starts_before);
    assert_eq!(markov.total_lengths, total_lengths_before);
    assert_eq!(markov.lengths, lengths_before);
    assert_eq!(markov.starts.len(), n_starts_before);
    assert_eq!(markov.nodes.len(), n_nodes_before);
    assert!(markov.validate().is_ok());
}

#[test]
fn test_markov_wrong_sample_kind() {
    let mut markov = Markov::new();
    let err = markov.learn_one(&row(&["a", "b", "a"])).unwrap_err();
    assert_eq!(err.code, 1);
    let err2 = markov.learn_one(&word("ab")).unwrap_err();
    assert_eq!(err2.code, 0);
}

#[test]
fn test_markov_start_length_fidelity() {
    // With start-length faithfulness on, the generated token count always
    // equals the recorded length of the chosen start.
    let tokens: Vec<&str> = Vec::new();
    let mut markov = Markov::with_constraints(&tokens, true, false, false, false);
    let mut set = SampleSet::new();
    set.add_sample(word("mirara"));
    set.add_sample(word("marana"));
    markov.learn(&set).unwrap();

    let mut ws = WorkingSet::new();
    let mut rng = Prng::seeded(99);
    for _ in 0..20 {
        markov.generate(&mut ws, &mut rng);
        // every learned start records length six
        assert_eq!(ws.result.len(), 6);
        assert_eq!(ws.get_result().chars().count(), 6);
    }
}

#[test]
fn test_markov_token_frequency_fidelity() {
    // With the token frequency restriction on, no token may appear more
    // often than its learned per-sample ceiling.
    let tokens: Vec<&str> = Vec::new();
    let mut markov = Markov::with_constraints(&tokens, false, false, false, true);
    let mut set = SampleSet::new();
    set.add_sample(word("aab"));
    set.add_sample(word("aba"));
    set.add_sample(word("bab"));
    markov.learn(&set).unwrap();

    // ceilings learned: 'a' at most twice, 'b' at most twice
    let mut ws = WorkingSet::new();
    let mut rng = Prng::seeded(5);
    for _ in 0..30 {
        markov.generate(&mut ws, &mut rng);
        let out = ws.get_result();
        let a_count = out.chars().filter(|c| *c == 'a').count();
        let b_count = out.chars().filter(|c| *c == 'b').count();
        assert!(a_count <= 2, "too many a in {}", out);
        assert!(b_count <= 2, "too many b in {}", out);
    }
}

#[test]
fn test_grammar_cross_product() {
    // Slot pools are independent, so two learned rows open up the full
    // cross product of their columns.
    let subtokens: Vec<&str> = Vec::new();
    let mut grammar = CFGrammar::new(&subtokens, false, false);
    let mut set = SampleSet::with_labels(&["cons", "vowel"]);
    set.add_sample(row(&["t", "a"]));
    set.add_sample(row(&["k", "i"]));
    grammar.learn(&set).unwrap();
    assert!(grammar.validate().is_ok());

    let mut ws = WorkingSet::new();
    let mut rng = Prng::seeded(11);
    for _ in 0..40 {
        grammar.generate(&mut ws, &mut rng);
        let out = ws.get_result();
        assert!(
            out == "ta" || out == "ti" || out == "ka" || out == "ki",
            "unexpected output {}",
            out
        );
    }
}

#[test]
fn test_grammar_dedup_increments_weight() {
    // Learning the same row twice raises the matching row shape's weight
    // instead of creating a second shape.
    let subtokens: Vec<&str> = Vec::new();
    let mut grammar = CFGrammar::new(&subtokens, false, false);

    let mut set = SampleSet::with_labels(&["cons", "vowel"]);
    set.add_sample(row(&["t", "a"]));
    grammar.learn(&set).unwrap();
    assert_eq!(grammar.result_rules.len(), 1);
    assert_eq!(grammar.result_rules[0].weight, 1);

    let mut again = SampleSet::with_labels(&["cons", "vowel"]);
    again.add_sample(row(&["t", "a"]));
    grammar.learn(&again).unwrap();
    assert_eq!(grammar.result_rules.len(), 1);
    assert_eq!(grammar.result_rules[0].weight, 2);
    assert_eq!(grammar.total_result_weight, 2);
    assert!(grammar.validate().is_ok());
}

#[test]
fn test_grammar_error_codes() {
    let subtokens: Vec<&str> = Vec::new();
    let mut grammar = CFGrammar::new(&subtokens, false, false);

    let mut words = SampleSet::new();
    words.add_sample(word("nope"));
    assert_eq!(grammar.learn(&words).unwrap_err().code, 0);

    let mut mismatch = SampleSet::with_labels(&["cons", "vowel"]);
    mismatch.add_sample(row(&["t", "a", "x"]));
    assert_eq!(grammar.learn(&mismatch).unwrap_err().code, 3);

    let mut empty_row = SampleSet::new();
    empty_row.add_sample(Sample::Tokens(Vec::new()));
    assert_eq!(grammar.learn(&empty_row).unwrap_err().code, 3);

    let mut reserved = SampleSet::with_labels(&["anon_0"]);
    reserved.add_sample(row(&["t"]));
    assert_eq!(grammar.learn(&reserved).unwrap_err().code, 4);

    // nothing of the failed calls stuck
    assert_eq!(grammar.result_rules.len(), 0);
    assert_eq!(grammar.token_rules.len(), 0);
    assert_eq!(grammar.tokens.len(), 0);
    assert!(grammar.validate().is_ok());
}

#[test]
fn test_grammar_adjacency_restriction() {
    // With the adjacent-subtoken restriction on, a slot candidate whose
    // first subtoken equals the previous slot's last subtoken is refused.
    let subtokens: Vec<&str> = Vec::new();
    let mut grammar = CFGrammar::new(&subtokens, false, true);
    let mut set = SampleSet::with_labels(&["one", "two"]);
    set.add_sample(row(&["a", "a"]));
    set.add_sample(row(&["a", "b"]));
    grammar.learn(&set).unwrap();

    let mut ws = WorkingSet::new();
    let mut rng = Prng::seeded(3);
    for _ in 0..20 {
        grammar.generate(&mut ws, &mut rng);
        assert_eq!(ws.get_result(), "ab");
    }
}

#[test]
fn test_grammar_subtoken_frequency_fidelity() {
    // With the subtoken frequency restriction on, no subtoken may appear
    // in one output more often than its learned per-row ceiling.
    let subtokens: Vec<&str> = Vec::new();
    let mut grammar = CFGrammar::new(&subtokens, true, false);
    let mut set = SampleSet::with_labels(&["one", "two"]);
    set.add_sample(row(&["a", "b"]));
    set.add_sample(row(&["b", "a"]));
    grammar.learn(&set).unwrap();

    // ceilings: one 'a' and one 'b' per row
    let mut ws = WorkingSet::new();
    let mut rng = Prng::seeded(17);
    for _ in 0..30 {
        grammar.generate(&mut ws, &mut rng);
        let out = ws.get_result();
        assert!(out == "ab" || out == "ba", "unexpected output {}", out);
    }
}

#[test]
fn test_grammar_determinism_across_seeds() {
    let mut first: Vec<String> = Vec::new();
    let mut second: Vec<String> = Vec::new();
    for run in 0..2 {
        let subtokens: Vec<&str> = Vec::new();
        let mut grammar = CFGrammar::new(&subtokens, false, false);
        let mut set = SampleSet::with_labels(&["cons", "vowel", "tail"]);
        set.add_sample(row(&["t", "a", "ri"]));
        set.add_sample(row(&["k", "i", "na"]));
        set.add_sample(row(&["m", "o", "ra"]));
        grammar.learn(&set).unwrap();
        let mut ws = WorkingSet::new();
        let mut rng = Prng::seeded(77);
        for _ in 0..10 {
            grammar.generate(&mut ws, &mut rng);
            if run == 0 {
                first.push(ws.get_result().to_string());
            } else {
                second.push(ws.get_result().to_string());
            }
        }
    }
    assert_eq!(first, second);
}

#[test]
fn test_markov_empty_engine_clears_previous_output() {
    // A generate call clears its buffers at entry, so an engine that has
    // learned nothing must leave an empty result, not the previous one.
    let mut markov = Markov::new();
    let mut set = SampleSet::new();
    set.add_sample(word("aba"));
    markov.learn(&set).unwrap();
    let mut ws = WorkingSet::new();
    let mut rng = Prng::seeded(3);
    markov.generate(&mut ws, &mut rng);
    assert_eq!(ws.get_result(), "aba");

    let empty = Markov::new();
    empty.generate(&mut ws, &mut rng);
    assert_eq!(ws.get_result(), "");
}

#[test]
fn test_grammar_empty_engine_clears_previous_output() {
    let subtokens: Vec<&str> = Vec::new();
    let mut grammar = CFGrammar::new(&subtokens, false, false);
    let mut set = SampleSet::with_labels(&["cons", "vowel"]);
    set.add_sample(row(&["t", "a"]));
    grammar.learn(&set).unwrap();
    let mut ws = WorkingSet::new();
    let mut rng = Prng::seeded(3);
    grammar.generate(&mut ws, &mut rng);
    assert_eq!(ws.get_result(), "ta");

    let empty = CFGrammar::new(&subtokens, false, false);
    empty.generate(&mut ws, &mut rng);
    assert_eq!(ws.get_result(), "");
}

#[test]
fn test_markov_learn_error_carries_offending_sample() {
    let mut markov = Markov::new();
    let mut set = SampleSet::new();
    set.add_sample(word("good"));
    set.add_sample(word("xy"));
    set.add_sample(word("more"));
    let err = markov.learn(&set).unwrap_err();
    assert_eq!(err.code, 0);
    match err.sample {
        Some(Sample::Word(w)) => assert_eq!(w, "xy"),
        _ => panic!("expected the offending word sample"),
    }
}

#[test]
fn test_grammar_learn_error_carries_offending_sample() {
    let subtokens: Vec<&str> = Vec::new();
    let mut grammar = CFGrammar::new(&subtokens, false, false);
    let mut set = SampleSet::with_labels(&["cons", "vowel"]);
    set.add_sample(row(&["t", "a"]));
    set.add_sample(word("nope"));
    let err = grammar.learn(&set).unwrap_err();
    assert_eq!(err.code, 0);
    match err.sample {
        Some(Sample::Word(w)) => assert_eq!(w, "nope"),
        _ => panic!("expected the offending word sample"),
    }

    let mut grammar2 = CFGrammar::new(&subtokens, false, false);
    let mut reserved = SampleSet::with_labels(&["anon_x"]);
    reserved.add_sample(row(&["t"]));
    let err2 = grammar2.learn(&reserved).unwrap_err();
    assert_eq!(err2.code, 4);
    assert!(err2.sample.is_none());
}

#[test]
fn test_grammar_anonymous_slot_names_are_reserved() {
    // Unlabeled columns get fresh anonymous slots whose names carry the
    // reserved prefix and the slot counter.
    let subtokens: Vec<&str> = Vec::new();
    let mut grammar = CFGrammar::new(&subtokens, false, false);
    let mut set = SampleSet::new();
    set.add_sample(row(&["t", "a"]));
    grammar.learn(&set).unwrap();
    assert_eq!(grammar.token_rules.len(), 2);
    assert_eq!(grammar.token_rules[0].name, "anon_0");
    assert_eq!(grammar.token_rules[1].name, "anon_1");
}

#[test]
fn test_grammar_ceilings_record_max() {
    // The ceiling table ends at the exact per-row maximum of each
    // subtoken, and a later row with smaller counts leaves it alone.
    let subtokens: Vec<&str> = Vec::new();
    let mut grammar = CFGrammar::new(&subtokens, false, false);
    let mut set = SampleSet::with_labels(&["first", "second"]);
    set.add_sample(row(&["aa", "a"]));
    grammar.learn(&set).unwrap();
    assert_eq!(grammar.subtokens.len(), 1);
    assert_eq!(grammar.subtoken_frequencies, vec![3]);

    let mut set2 = SampleSet::with_labels(&["first", "second"]);
    set2.add_sample(row(&["a", "a"]));
    grammar.learn(&set2).unwrap();
    assert_eq!(grammar.subtoken_frequencies, vec![3]);
}

#[test]
fn test_markov_ceilings_record_max() {
    let tokens: Vec<&str> = Vec::new();
    let mut markov = Markov::with_constraints(&tokens, false, false, false, true);
    let mut set = SampleSet::new();
    set.add_sample(word("aab"));
    markov.learn(&set).unwrap();
    let ia = markov.tokens.iter().position(|t| t == "a").unwrap();
    let ib = markov.tokens.iter().position(|t| t == "b").unwrap();
    assert_eq!(markov.max_tokens[ia], 2);
    assert_eq!(markov.max_tokens[ib], 1);
}

#[test]
fn test_grammar_relearn_reuses_slots_and_tokens() {
    // Relearning an identical labeled row resolves to the same slots and
    // tokens: nothing is appended, only the matching row shape's weight
    // and the pools grow.
    let subtokens: Vec<&str> = Vec::new();
    let mut grammar = CFGrammar::new(&subtokens, false, false);
    let mut set = SampleSet::with_labels(&["cons", "vowel"]);
    set.add_sample(row(&["t", "a"]));
    grammar.learn(&set).unwrap();
    let n_slots = grammar.token_rules.len();
    let n_tokens = grammar.tokens.len();
    let n_subtokens = grammar.subtokens.len();
    let pool0 = grammar.token_rules[0].tokens.len();

    grammar.learn(&set).unwrap();
    assert_eq!(grammar.token_rules.len(), n_slots);
    assert_eq!(grammar.tokens.len(), n_tokens);
    assert_eq!(grammar.subtokens.len(), n_subtokens);
    assert_eq!(grammar.result_rules.len(), 1);
    assert_eq!(grammar.result_rules[0].weight, 2);
    assert_eq!(grammar.token_rules[0].tokens.len(), pool0 + 1);
}
