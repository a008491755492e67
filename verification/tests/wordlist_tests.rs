use namegen::wordlist::Rule;
use namegen::Sample;
use namegen::SampleSet;
use namegen::WordList;

#[test]
fn test_generate() {
    let mut wlist = WordList::new();
    let mut res = String::with_capacity(8);

    wlist.learn_one(&sw("stuff", 1)).unwrap();
    wlist.learn_one(&sw("things", 2)).unwrap();
    wlist.learn_one(&sw("objects", 4)).unwrap();
    wlist.learn_one(&sw("items", 16)).unwrap();
    wlist.learn_one(&sw("artifact", 1)).unwrap();

    for i in 0..2 {
        wlist.generate_with_roll(&mut res, i);
        assert_eq!(&res, "things", "things ({}/2)", i + 1);
    }
    for i in 2..6 {
        wlist.generate_with_roll(&mut res, i);
        assert_eq!(&res, "objects", "objects ({}/4)", i + 1);
    }
    for i in 6..22 {
        wlist.generate_with_roll(&mut res, i);
        assert_eq!(&res, "items", "items ({}/16)", i + 1);
    }

    wlist.generate_with_roll(&mut res, 22);
    assert_eq!(&res, "stuff");
    wlist.generate_with_roll(&mut res, 23);
    assert_eq!(&res, "artifact");
}

#[test]
fn test_cutoff() {
    let mut wlist = WordList::new();
    assert_eq!(wlist.rules.as_slice(), &[]);
    assert_eq!(wlist.one_cutoff_index, 0);
    assert_eq!(wlist.one_cutoff_weight, 0);
    assert_eq!(wlist.total_weight, 0);

    wlist.learn_one(&s("stuff")).unwrap();
    assert_eq!(wlist.rules.as_slice(), &[r("stuff")]);
    assert_eq!(wlist.one_cutoff_index, 0);
    assert_eq!(wlist.one_cutoff_weight, 0);
    assert_eq!(wlist.total_weight, 1);

    wlist.learn_one(&s("stuff")).unwrap();
    assert_eq!(wlist.rules.as_slice(), &[rw("stuff", 2)]);
    assert_eq!(wlist.one_cutoff_index, 1);
    assert_eq!(wlist.one_cutoff_weight, 2);
    assert_eq!(wlist.total_weight, 2);

    wlist.learn_one(&s("things")).unwrap();
    assert_eq!(wlist.rules.as_slice(), &[rw("stuff", 2), r("things")]);
    assert_eq!(wlist.one_cutoff_index, 1);
    assert_eq!(wlist.one_cutoff_weight, 2);
    assert_eq!(wlist.total_weight, 3);

    wlist.learn_one(&s("items")).unwrap();
    assert_eq!(wlist.rules.as_slice(), &[rw("stuff", 2), r("things"), r("items")]);
    assert_eq!(wlist.one_cutoff_index, 1);
    assert_eq!(wlist.one_cutoff_weight, 2);
    assert_eq!(wlist.total_weight, 4);

    wlist.learn_one(&s("artifacts")).unwrap();
    assert_eq!(
        wlist.rules.as_slice(),
        &[rw("stuff", 2), r("things"), r("items"), r("artifacts")]
    );
    assert_eq!(wlist.one_cutoff_index, 1);
    assert_eq!(wlist.one_cutoff_weight, 2);
    assert_eq!(wlist.total_weight, 5);

    wlist.learn_one(&sw("objects", 13)).unwrap();
    assert_eq!(
        wlist.rules.as_slice(),
        &[rw("stuff", 2), rw("objects", 13), r("items"), r("artifacts"), r("things")]
    );
    assert_eq!(wlist.one_cutoff_index, 2);
    assert_eq!(wlist.one_cutoff_weight, 15);
    assert_eq!(wlist.total_weight, 18);

    wlist.learn_one(&sw("artifacts", 6)).unwrap();
    assert_eq!(
        wlist.rules.as_slice(),
        &[rw("stuff", 2), rw("objects", 13), rw("artifacts", 7), r("items"), r("things")]
    );
    assert_eq!(wlist.one_cutoff_index, 3);
    assert_eq!(wlist.one_cutoff_weight, 22);
    assert_eq!(wlist.total_weight, 24);

    wlist.learn_one(&sw("objects", 2)).unwrap();
    assert_eq!(
        wlist.rules.as_slice(),
        &[rw("stuff", 2), rw("objects", 15), rw("artifacts", 7), r("items"), r("things")]
    );
    assert_eq!(wlist.one_cutoff_index, 3);
    assert_eq!(wlist.one_cutoff_weight, 24);
    assert_eq!(wlist.total_weight, 26);
}

#[test]
fn test_wordlist_learn_rejects_tokens() {
    let mut wlist = WordList::new();
    let mut set = SampleSet::new();
    set.add_sample(Sample::Word("alpha".to_string()));
    set.add_sample(Sample::Tokens(vec!["a".to_string(), "b".to_string()]));
    let err = wlist.learn(&set).unwrap_err();
    assert_eq!(err.code, 1);
    // the failed batch left nothing behind
    assert_eq!(wlist.rules.len(), 0);
    assert_eq!(wlist.total_weight, 0);
    assert!(wlist.validate().is_ok());
}

#[test]
fn test_wordlist_validate_after_learn() {
    let mut wlist = WordList::new();
    let mut set = SampleSet::new();
    set.add_sample(Sample::Word("alpha".to_string()));
    set.add_sample(Sample::WordWeighted("beta".to_string(), 5));
    set.add_sample(Sample::Word("alpha".to_string()));
    wlist.learn(&set).unwrap();
    assert!(wlist.validate().is_ok());
    assert_eq!(wlist.total_weight, 7);
}

fn s(s: &str) -> Sample {
    Sample::Word(s.to_owned())
}

fn sw(s: &str, w: u32) -> Sample {
    Sample::WordWeighted(s.to_owned(), w)
}

fn r(s: &str) -> Rule {
    Rule { name: s.to_owned(), weight: 1 }
}

fn rw(s: &str, w: u32) -> Rule {
    Rule { name: s.to_owned(), weight: w }
}
