use namegen::FormattingRule;
use namegen::Markov;
use namegen::Name;
use namegen::NamePart;
use namegen::Prng;
use namegen::Sample;
use namegen::SampleSet;
use namegen::WorkingSet;

fn word(s: &str) -> Sample {
    Sample::Word(s.to_string())
}

#[test]
fn test_name_learn_and_generate() {
    let mut name = Name::new();
    let tokens: Vec<&str> = Vec::new();
    name.add_part(NamePart::new_markov(
        "first",
        &[FormattingRule::CapitalizeFirst],
        &tokens,
        false,
        false,
        false,
        false,
    ));
    name.add_part(NamePart::new_wordlist("title", &[]));

    let mut set = SampleSet::new();
    set.add_sample(word("aba"));
    name.learn("first", &set).unwrap();

    let mut titles = SampleSet::new();
    titles.add_sample(word("the bold"));
    name.learn("title", &titles).unwrap();

    assert!(name.validate().is_ok());
    assert!(name.has_part_name("first"));
    assert!(!name.has_part_name("missing"));

    name.add_format("full", "{first} {title}");
    assert!(name.has_format_name("full"));
    assert_eq!(name.first_format_name(), Some("full"));

    let mut ws = WorkingSet::new();
    let mut rng = Prng::seeded(2);
    let found = name.generate_into(&mut ws, &mut rng, "full");
    assert!(found);
    assert_eq!(ws.result_total, "Aba the bold");

    let missing = name.generate_into(&mut ws, &mut rng, "nope");
    assert!(!missing);
}

#[test]
fn test_name_part_not_found() {
    let mut name = Name::new();
    let mut set = SampleSet::new();
    set.add_sample(word("aba"));
    let err = name.learn("ghost", &set).unwrap_err();
    assert_eq!(err.code, 100);
}

#[test]
fn test_name_format_alternation_and_literals() {
    let mut name = Name::new();
    name.add_format("greeting", "oh {=hi|=hey} you");
    let mut ws = WorkingSet::new();
    let mut rng = Prng::seeded(4);
    let found = name.generate_into(&mut ws, &mut rng, "greeting");
    assert!(found);
    let out = ws.result_total.clone();
    assert!(out == "oh hi you" || out == "oh hey you", "unexpected output {}", out);

    // a brace group nothing matches stays literal text
    let mut name2 = Name::new();
    name2.add_format("odd", "x{nothing}y");
    ws.result_total.clear();
    assert!(name2.generate_into(&mut ws, &mut rng, "odd"));
    assert_eq!(ws.result_total, "x{nothing}y");
}

#[test]
fn test_name_format_referencing_format() {
    let mut name = Name::new();
    name.add_format("inner", "ab");
    name.add_format("outer", "<{:inner}>");
    let mut ws = WorkingSet::new();
    let mut rng = Prng::seeded(6);
    assert!(name.generate_into(&mut ws, &mut rng, "outer"));
    assert_eq!(ws.result_total, "<ab>");
    assert!(name.validate().is_ok());
}

#[test]
fn test_name_part_validate_reports_engine() {
    let mut name = Name::new();
    let subtokens: Vec<&str> = Vec::new();
    name.add_part(NamePart::new_cfgrammar("slots", &[], &subtokens, false, false));
    let mut set = SampleSet::with_labels(&["cons", "vowel"]);
    set.add_sample(Sample::Tokens(vec!["t".to_string(), "a".to_string()]));
    name.learn("slots", &set).unwrap();
    assert!(name.validate().is_ok());

    let mut ws = WorkingSet::new();
    let mut rng = Prng::seeded(8);
    name.add_format("only", "{slots}");
    assert!(name.generate_into(&mut ws, &mut rng, "only"));
    assert_eq!(ws.result_total, "ta");
}

#[test]
fn test_name_learn_error_names_missing_part() {
    let mut name = Name::new();
    let mut set = SampleSet::new();
    set.add_sample(word("aba"));
    let err = name.learn("ghost", &set).unwrap_err();
    assert_eq!(err.code, 100);
    assert_eq!(err.desc, "Part ghost not found");
}

#[test]
fn test_name_part_validate_names_part() {
    // A report from a part's validation carries the part's name.
    let broken = Markov {
        tokens: vec!["a".to_string()],
        max_tokens: vec![0],
        starts: Vec::new(),
        total_starts: 1,
        nodes: Vec::new(),
        lengths: Vec::new(),
        total_lengths: 0,
        lrs: false,
        lrm: false,
        lre: false,
        rtf: false,
    };
    let part = NamePart {
        name: "first".to_string(),
        generator: namegen::part::PartGenerator::Markov(broken),
        format_rules: Vec::new(),
    };
    let err = part.validate().unwrap_err();
    assert_eq!(err.name, "first");
    assert_eq!(err.kind, "parts::Markov");
}
