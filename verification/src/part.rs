use vstd::prelude::*;
use crate::base::{LearnError, ValidationError, WorkingSet};
use crate::cfgrammar::CFGrammar;
use crate::formatting::{format_ws, formatted, FormattingRule};
use crate::markov::{batch_ok, tok_views, Markov};
use crate::rng::Prng;
use crate::sample::SampleSet;
use crate::wordlist::{batch_weight, batch_weights_positive, WordList};

verus! {

/// The generator a part runs: one of the three engines.
pub enum PartGenerator {
    Markov(Markov),
    CFGrammar(CFGrammar),
    WordList(WordList),
}

impl PartGenerator {
    /// The engine invariant of whichever engine the part runs.
    pub open spec fn wf(self) -> bool {
        match self {
            PartGenerator::Markov(m) => m.wf(),
            PartGenerator::CFGrammar(c) => c.wf(),
            PartGenerator::WordList(w) => w.wf(),
        }
    }

    /// Room the engine needs before learning this set, so that no counter
    /// can run over.
    pub open spec fn learn_room(self, set: SampleSet) -> bool {
        match self {
            PartGenerator::Markov(m) => m.total_starts + set.samples@.len() < usize::MAX,
            PartGenerator::CFGrammar(c) => c.total_result_weight + set.samples@.len() < u32::MAX,
            PartGenerator::WordList(w) => w.total_weight + batch_weight(set.samples@) < u32::MAX
                && batch_weights_positive(set.samples@),
        }
    }

    /// Whether the engine accepts every sample of the set.
    pub open spec fn learn_ok(self, set: SampleSet) -> bool {
        match self {
            PartGenerator::Markov(m) => batch_ok(tok_views(m.tokens@), set.samples@),
            PartGenerator::CFGrammar(c) => crate::cfgrammar::grammar_scan(
                set.labels@.len() as int,
                set.samples@,
                set.labels@,
            ) == -1,
            PartGenerator::WordList(w) => forall|i: int|
                0 <= i < set.samples@.len() ==> !(#[trigger] set.samples@[i] is Tokens),
        }
    }

    /// Run the engine once, writing into the shared working set. The
    /// output obeys the engine's own contract: a Markov output is an
    /// admitted walk, a grammar output an admitted row, a word-list
    /// output one of the learned words.
    pub fn generate(&self, ws: &mut WorkingSet, rng: &mut Prng)
        requires
            self.wf(),
        ensures
            final(ws).result_total == old(ws).result_total,
            final(ws).result_chars == old(ws).result_chars,
            match *self {
                PartGenerator::Markov(m) => final(ws).result_str@ == crate::markov::concat_tokens(
                    tok_views(m.tokens@),
                    final(ws).result@,
                ) && (final(ws).result@.len() == 0 || crate::markov::generated_ok(
                    m,
                    final(ws).result@,
                )),
                PartGenerator::CFGrammar(c) => (final(ws).result@.len() == 0 && final(ws).result_str@.len() == 0) || (
                crate::cfgrammar::grammar_generated_ok(c, final(ws).result@) && final(ws).result_str@ == crate::markov::concat_tokens(
                    tok_views(c.subtokens@),
                    final(ws).subtokens@,
                )),
                PartGenerator::WordList(w) => w.total_weight > 0 ==> exists|roll: int|
                    0 <= roll < w.total_weight && final(ws).result_str@ == w.rules@[
                        crate::wordlist::cum_pick(w.rules@, roll)].name@,
            },
    {
        match self {
            PartGenerator::Markov(m) => m.generate(ws, rng),
            PartGenerator::CFGrammar(c) => c.generate(ws, rng),
            PartGenerator::WordList(w) => w.generate(ws, rng),
        }
    }

    /// Learn the set with the engine. Success is exactly the engine's own
    /// acceptance condition, and the engine steps by its own full learn
    /// contract.
    pub fn learn(&mut self, sample_set: &SampleSet) -> (r: Result<(), LearnError>)
        requires
            old(self).wf(),
            old(self).learn_room(*sample_set),
        ensures
            final(self).wf(),
            r.is_ok() <==> old(self).learn_ok(*sample_set),
            (*final(self)) is Markov <==> (*old(self)) is Markov,
            (*final(self)) is CFGrammar <==> (*old(self)) is CFGrammar,
            (*final(self)) is WordList <==> (*old(self)) is WordList,
            generator_learn_post(*old(self), *final(self), *sample_set, r),
    {
        match self {
            PartGenerator::Markov(m) => m.learn(sample_set),
            PartGenerator::CFGrammar(c) => c.learn(sample_set),
            PartGenerator::WordList(w) => w.learn(sample_set),
        }
    }

    /// What the engine's own validation checks.
    pub open spec fn validate_ok(self) -> bool {
        match self {
            PartGenerator::Markov(m) => m.validate_ok(),
            PartGenerator::CFGrammar(c) => c.validate_ok(),
            PartGenerator::WordList(w) => w.wf(),
        }
    }

    /// Run the engine's validation.
    pub fn validate(&self) -> (r: Result<(), ValidationError>)
        ensures
            r.is_ok() <==> self.validate_ok(),
    {
        match self {
            PartGenerator::Markov(m) => m.validate(),
            PartGenerator::CFGrammar(c) => c.validate(),
            PartGenerator::WordList(w) => w.validate(),
        }
    }

    /// A well-formed engine passes its own validation.
    pub proof fn lemma_wf_validates(self)
        requires
            self.wf(),
        ensures
            self.validate_ok(),
    {
        match self {
            PartGenerator::Markov(m) => m.lemma_wf_validates(),
            PartGenerator::CFGrammar(c) => c.lemma_wf_validates(),
            PartGenerator::WordList(w) => {},
        }
    }
}

/// Everything the wrapped engine's own `learn` promises, for whichever
/// engine a part runs: the variant is kept and the engine inside steps
/// exactly by its own learn contract, error contents included.
pub open spec fn generator_learn_post(
    pre: PartGenerator,
    post: PartGenerator,
    set: SampleSet,
    r: Result<(), LearnError>,
) -> bool {
    &&& (pre is Markov ==> post is Markov && crate::markov::learn_post(
        pre->Markov_0,
        post->Markov_0,
        set,
        r,
    ))
    &&& (pre is CFGrammar ==> post is CFGrammar && crate::cfgrammar::learn_post(
        pre->CFGrammar_0,
        post->CFGrammar_0,
        set,
        r,
    ))
    &&& (pre is WordList ==> post is WordList && crate::wordlist::learn_post(
        pre->WordList_0,
        post->WordList_0,
        set,
        r,
    ))
}

/// A named part of a composed name: an engine plus the formatting rules
/// applied to everything it generates.
pub struct NamePart {
    pub name: String,
    pub generator: PartGenerator,
    pub format_rules: Vec<FormattingRule>,
}

impl NamePart {
    pub open spec fn wf(self) -> bool {
        self.generator.wf()
    }

    pub fn name(&self) -> (r: &str)
        ensures
            r@ == self.name@,
    {
        self.name.as_str()
    }

    /// Generate one value and apply this part's formatting rules to it:
    /// `result_str` ends up holding the engine's rendered output, passed
    /// through this part's rules.
    pub fn generate(&self, ws: &mut WorkingSet, rng: &mut Prng)
        requires
            self.wf(),
        ensures
            final(ws).result_total == old(ws).result_total,
            match self.generator {
                PartGenerator::Markov(m) => final(ws).result_str@ == formatted(
                    crate::markov::concat_tokens(tok_views(m.tokens@), final(ws).result@),
                    self.format_rules@,
                ) && (final(ws).result@.len() == 0 || crate::markov::generated_ok(
                    m,
                    final(ws).result@,
                )),
                PartGenerator::CFGrammar(c) => (final(ws).result@.len() == 0 && final(ws).result_str@.len() == 0) || (
                crate::cfgrammar::grammar_generated_ok(c, final(ws).result@) && final(ws).result_str@ == formatted(
                    crate::markov::concat_tokens(tok_views(c.subtokens@), final(ws).subtokens@),
                    self.format_rules@,
                )),
                PartGenerator::WordList(w) => w.total_weight > 0 ==> exists|roll: int|
                    0 <= roll < w.total_weight && final(ws).result_str@ == formatted(
                        w.rules@[crate::wordlist::cum_pick(w.rules@, roll)].name@,
                        self.format_rules@,
                    ),
            },
    {
        self.generator.generate(ws, rng);
        let ghost mid = *ws;
        format_ws(ws, self.format_rules.as_slice());
        proof {
            match &self.generator {
                PartGenerator::Markov(m) => {},
                PartGenerator::CFGrammar(c) => {
                    if mid.result@.len() == 0 && mid.result_str@.len() == 0 {
                        assert(ws.result_str@ == formatted(mid.result_str@, self.format_rules@));
                        assert(ws.result_str@.len() == 0);
                    }
                },
                PartGenerator::WordList(w) => {
                    if w.total_weight > 0 {
                        let roll = choose|roll: int|
                            0 <= roll < w.total_weight && mid.result_str@ == w.rules@[
                                crate::wordlist::cum_pick(w.rules@, roll)].name@;
                        assert(0 <= roll < w.total_weight && ws.result_str@ == formatted(
                            w.rules@[crate::wordlist::cum_pick(w.rules@, roll)].name@,
                            self.format_rules@,
                        ));
                    }
                },
            }
        }
    }

    /// Learn the set with this part's engine, which steps by its own full
    /// learn contract; the name and the formatting rules stay.
    pub fn learn(&mut self, sample_set: &SampleSet) -> (r: Result<(), LearnError>)
        requires
            old(self).wf(),
            old(self).generator.learn_room(*sample_set),
        ensures
            final(self).wf(),
            r.is_ok() <==> old(self).generator.learn_ok(*sample_set),
            final(self).name == old(self).name,
            final(self).format_rules == old(self).format_rules,
            generator_learn_post(old(self).generator, final(self).generator, *sample_set, r),
    {
        self.generator.learn(sample_set)
    }

    /// Validate this part's engine, naming this part in any report.
    pub fn validate(&self) -> (r: Result<(), ValidationError>)
        ensures
            r.is_ok() <==> self.generator.validate_ok(),
            r is Err ==> r->Err_0.name@ == self.name@,
    {
        let res = self.generator.validate();
        match res {
            Ok(_) => Ok(()),
            Err(e) => Err(e.with_name(self.name.as_str())),
        }
    }

    /// A part built around the token-chain engine.
    pub fn new_markov(
        name: &str,
        format_rules: &[FormattingRule],
        initial_tokens: &[&str],
        lrs: bool,
        lrm: bool,
        lre: bool,
        rtf: bool,
    ) -> (r: NamePart)
        requires
            forall|i: int|
                0 <= i < initial_tokens@.len() ==> (#[trigger] initial_tokens@[i])@.len() >= 1,
            forall|i: int, j: int|
                0 <= i < j < initial_tokens@.len() ==> (#[trigger] initial_tokens@[i])@ != (
                #[trigger] initial_tokens@[j])@,
        ensures
            r.wf(),
            r.name@ == name@,
            r.generator is Markov,
            tok_views(r.generator->Markov_0.tokens@) == initial_tokens@.map_values(|s: &str| s@),
            r.generator->Markov_0.starts@.len() == 0,
            r.generator->Markov_0.nodes@.len() == 0,
            r.generator->Markov_0.total_starts == 0,
            r.generator->Markov_0.total_lengths == 0,
            r.generator->Markov_0.lrs == lrs && r.generator->Markov_0.lrm == lrm
                && r.generator->Markov_0.lre == lre && r.generator->Markov_0.rtf == rtf,
            r.format_rules@ == format_rules@,
    {
        NamePart {
            name: name.to_owned(),
            format_rules: copy_rules(format_rules),
            generator: PartGenerator::Markov(
                Markov::with_constraints(initial_tokens, lrs, lrm, lre, rtf),
            ),
        }
    }

    /// A part built around the slot-grammar engine.
    pub fn new_cfgrammar(
        name: &str,
        format_rules: &[FormattingRule],
        initial_subtokens: &[&str],
        rlf: bool,
        ral: bool,
    ) -> (r: NamePart)
        requires
            forall|i: int|
                0 <= i < initial_subtokens@.len() ==> (#[trigger] initial_subtokens@[i])@.len()
                    >= 1,
            forall|i: int, j: int|
                0 <= i < j < initial_subtokens@.len() ==> (#[trigger] initial_subtokens@[i])@ != (
                #[trigger] initial_subtokens@[j])@,
        ensures
            r.wf(),
            r.name@ == name@,
            r.generator is CFGrammar,
            tok_views(r.generator->CFGrammar_0.subtokens@) == initial_subtokens@.map_values(
                |s: &str| s@,
            ),
            r.generator->CFGrammar_0.result_rules@.len() == 0,
            r.generator->CFGrammar_0.token_rules@.len() == 0,
            r.generator->CFGrammar_0.tokens@.len() == 0,
            r.generator->CFGrammar_0.total_result_weight == 0,
            r.generator->CFGrammar_0.rlf == rlf && r.generator->CFGrammar_0.ral == ral,
            r.format_rules@ == format_rules@,
    {
        NamePart {
            name: name.to_owned(),
            format_rules: copy_rules(format_rules),
            generator: PartGenerator::CFGrammar(CFGrammar::new(initial_subtokens, rlf, ral)),
        }
    }

    /// A part built around the weighted word list.
    pub fn new_wordlist(name: &str, format_rules: &[FormattingRule]) -> (r: NamePart)
        ensures
            r.wf(),
            r.name@ == name@,
            r.generator is WordList,
            r.format_rules@ == format_rules@,
    {
        NamePart {
            name: name.to_owned(),
            format_rules: copy_rules(format_rules),
            generator: PartGenerator::WordList(WordList::new()),
        }
    }
}

/// Copy a borrowed formatting rule list.
fn copy_rules(rules: &[FormattingRule]) -> (r: Vec<FormattingRule>)
    ensures
        r@ == rules@,
{
    let mut r: Vec<FormattingRule> = Vec::new();
    let mut i: usize = 0;
    while i < rules.len()
        invariant
            i <= rules@.len(),
            r@.len() == i,
            forall|j: int| 0 <= j < i ==> r@[j] == rules@[j],
        decreases rules@.len() - i,
    {
        r.push(rules[i]);
        i = i + 1;
    }
    proof {
        assert(r@ =~= rules@);
    }
    r
}

} // verus!
