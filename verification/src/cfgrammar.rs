use vstd::prelude::*;
use crate::base::{LearnError, ValidationError, WorkingSet};
use crate::markov::{
    concat_tokens, count_of, count_tok, cum_index, frame_hi, is_prefix_of,
    lemma_seq_extended_refl, scan_best_match, seq_extended, spec_tokenize, string_append,
    tok_views, tokens_distinct, tokens_nonempty,
};
use crate::rng::Prng;
use crate::sample::{sample_model, Sample, SampleSet};
use crate::seqsum::{
    lemma_sum_usize_element_bound, lemma_sum_usize_first, lemma_sum_usize_nonneg,
    lemma_sum_usize_snoc, lemma_sum_usize_update, sum_usize,
};
use crate::wordlist::{clone_string, string_eq};

verus! {

/// A grammar token: an ordered sequence of subtoken indices. Tokens are
/// deduplicated by this sequence, not by their source text.
pub struct Token(pub Vec<usize>);

impl Token {
    pub fn subtokens(&self) -> (r: &[usize])
        ensures
            r@ == self.0@,
    {
        self.0.as_slice()
    }

    /// The first subtoken, or zero for an empty token.
    pub fn first(&self) -> (r: usize)
        ensures
            r == tok_first(*self),
    {
        if self.0.len() > 0 {
            self.0[0]
        } else {
            0
        }
    }

    /// The last subtoken, or zero for an empty token.
    pub fn last(&self) -> (r: usize)
        ensures
            r == tok_last(*self),
    {
        if self.0.len() > 0 {
            self.0[self.0.len() - 1]
        } else {
            0
        }
    }

    pub fn new(subtoken_indices: &[usize]) -> (r: Token)
        ensures
            r.0@ == subtoken_indices@,
    {
        let mut v: Vec<usize> = Vec::new();
        let mut i: usize = 0;
        while i < subtoken_indices.len()
            invariant
                i <= subtoken_indices@.len(),
                v@.len() == i,
                forall|j: int| 0 <= j < i ==> v@[j] == subtoken_indices@[j],
            decreases subtoken_indices@.len() - i,
        {
            v.push(subtoken_indices[i]);
            i = i + 1;
        }
        proof {
            assert(v@ =~= subtoken_indices@);
        }
        Token(v)
    }
}

/// The first subtoken of a token, zero when it is empty.
pub open spec fn tok_first(t: Token) -> usize {
    if t.0@.len() > 0 {
        t.0@[0]
    } else {
        0
    }
}

/// The last subtoken of a token, zero when it is empty.
pub open spec fn tok_last(t: Token) -> usize {
    if t.0@.len() > 0 {
        t.0@[t.0@.len() - 1]
    } else {
        0
    }
}

/// A slot: a named (or anonymous) pool of tokens observed in one column.
pub struct TokenRule {
    pub name: String,
    pub tokens: Vec<usize>,
}

/// One learned row shape: the tuple of slots, one per column, and how
/// many samples matched it.
pub struct ResultRule {
    pub token_rules: Vec<usize>,
    pub weight: u32,
}

/// The result-rule weights as counters.
pub open spec fn rr_weights(rrs: Seq<ResultRule>) -> Seq<usize> {
    rrs.map_values(|r: ResultRule| r.weight as usize)
}

/// The text of one grammar token: its subtokens' characters in order.
pub open spec fn token_text(g: CFGrammar, ti: int) -> Seq<char> {
    concat_tokens(tok_views(g.subtokens@), g.tokens@[ti].0@)
}

/// One pool entry `t` of slot `j` decodes to a cell of the learned set,
/// in a column `tri` maps to that slot. `s_bound` and `col_bound` say how
/// much of the set has been applied.
pub open spec fn entry_from_cells(
    g: CFGrammar,
    samples: Seq<Sample>,
    tri: Seq<usize>,
    n_cols: int,
    s_bound: int,
    col_bound: int,
    j: int,
    t: usize,
) -> bool {
    exists|s2: int, k: int|
        0 <= s2 <= s_bound && (s2 < s_bound || k < col_bound) && 0 <= k < n_cols && tri[k] == j
            && token_text(g, t as int) == samples[s2]->Tokens_0@[k]@
}

/// Every slot-pool entry beyond a base snapshot decodes to a cell of the
/// learned set, in a column the row shape maps to that slot.
pub open spec fn pool_cells_ok(
    g: CFGrammar,
    base: Seq<TokenRule>,
    samples: Seq<Sample>,
    tri: Seq<usize>,
    n_cols: int,
    s_bound: int,
    col_bound: int,
) -> bool {
    forall|j: int, q: int|
        0 <= j < g.token_rules@.len() && base[j].tokens@.len() <= q
            < g.token_rules@[j].tokens@.len() ==> entry_from_cells(
            g,
            samples,
            tri,
            n_cols,
            s_bound,
            col_bound,
            j,
            (#[trigger] g.token_rules@[j].tokens@[q]),
        )
}

/// The column count a set prescribes: its labels where given, else the
/// width of its first row.
pub open spec fn set_columns(set: SampleSet) -> int {
    if set.labels@.len() > 0 {
        set.labels@.len() as int
    } else {
        set.samples@[0]->Tokens_0@.len() as int
    }
}

/// An acceptable empty set learns nothing and meets the whole contract.
proof fn lemma_learn_post_empty(g: CFGrammar, set: SampleSet)
    requires
        g.wf(),
        set.samples@.len() == 0,
        grammar_scan(set.labels@.len() as int, set.samples@, set.labels@) == -1,
    ensures
        learn_post(g, g, set, Ok::<(), LearnError>(())),
{
    assert forall|j: int|
        0 <= j < g.token_rules@.len() implies seq_extended(
        (#[trigger] g.token_rules@[j].tokens)@,
        g.token_rules@[j].tokens@,
    ) by {
        lemma_seq_extended_refl(g.token_rules@[j].tokens@);
    }
}

/// Every cell of the set splits against the engine's current subtokens
/// without minting a new one, into a sequence the token store already
/// holds: nothing in the set is new to the engine.
pub open spec fn cells_known(g: CFGrammar, samples: Seq<Sample>) -> bool {
    forall|s2: int, k: int|
        #![trigger samples[s2]->Tokens_0@[k]]
        0 <= s2 < samples.len() && samples[s2] is Tokens && 0 <= k
            < samples[s2]->Tokens_0@.len() ==> ({
            let d = spec_tokenize(tok_views(g.subtokens@), samples[s2]->Tokens_0@[k]@);
            &&& d.0 == tok_views(g.subtokens@)
            &&& exists|ti: int|
                #![trigger g.tokens@[ti]]
                0 <= ti < g.tokens@.len() && g.tokens@[ti].0@.map_values(|x: usize| x as int)
                    == d.1
        })
}

/// What a set's cells are made of depends only on the subtoken and token
/// stores: an engine equal in those knows the same cells.
proof fn lemma_cells_known_same_stores(a: CFGrammar, b: CFGrammar, samples: Seq<Sample>)
    requires
        cells_known(a, samples),
        b.tokens == a.tokens,
        b.subtokens == a.subtokens,
    ensures
        cells_known(b, samples),
{
    assert forall|s2: int, k: int|
        #![trigger samples[s2]->Tokens_0@[k]]
        0 <= s2 < samples.len() && samples[s2] is Tokens && 0 <= k
            < samples[s2]->Tokens_0@.len() implies ({
        let d = spec_tokenize(tok_views(b.subtokens@), samples[s2]->Tokens_0@[k]@);
        &&& d.0 == tok_views(b.subtokens@)
        &&& exists|ti: int|
            #![trigger b.tokens@[ti]]
            0 <= ti < b.tokens@.len() && b.tokens@[ti].0@.map_values(|x: usize| x as int)
                == d.1
    }) by {
        let d = spec_tokenize(tok_views(a.subtokens@), samples[s2]->Tokens_0@[k]@);
        assert(d.0 == tok_views(a.subtokens@));
        let kt = choose|ti: int|
            #![trigger a.tokens@[ti]]
            0 <= ti < a.tokens@.len() && a.tokens@[ti].0@.map_values(|x: usize| x as int)
                == d.1;
        assert(0 <= kt < b.tokens@.len() && b.tokens@[kt].0@.map_values(|x: usize| x as int)
            == d.1);
    }
}

/// One learned row per sample of the set: each row holds one token per
/// column, every token decodes to that sample's cell in that column, and
/// the ceiling table covers every subtoken's count within the composed
/// row.
pub open spec fn rows_covered(
    g: CFGrammar,
    samples: Seq<Sample>,
    n_cols: int,
    rows: Seq<Seq<usize>>,
) -> bool {
    &&& rows.len() == samples.len()
    &&& forall|s2: int| 0 <= s2 < rows.len() ==> (#[trigger] rows[s2]).len() == n_cols
    &&& forall|s2: int, k: int|
        0 <= s2 < rows.len() && 0 <= k < n_cols ==> (#[trigger] rows[s2][k]) < g.tokens@.len()
            && token_text(g, rows[s2][k] as int) == samples[s2]->Tokens_0@[k]@
    &&& forall|s2: int, st: usize|
        0 <= s2 < rows.len() ==> #[trigger] count_tok(
            flatten_subtokens(g.tokens@, rows[s2]),
            st,
        ) <= (if (st as int) < g.subtoken_frequencies@.len() {
            g.subtoken_frequencies@[st as int] as int
        } else {
            0
        })
}

/// Reading the pieces an index sequence names from a token store that
/// grew at the end yields the same subtokens.
proof fn lemma_flatten_stable(t1: Seq<Token>, t2: Seq<Token>, acc: Seq<usize>)
    requires
        t2.len() >= t1.len(),
        forall|j: int| 0 <= j < t1.len() ==> (#[trigger] t2[j].0)@ == t1[j].0@,
        forall|k: int| 0 <= k < acc.len() ==> (#[trigger] acc[k]) < t1.len(),
    ensures
        flatten_subtokens(t2, acc) == flatten_subtokens(t1, acc),
    decreases acc.len(),
{
    if acc.len() > 0 {
        assert(acc[0] < t1.len());
        assert forall|k: int|
            0 <= k < acc.drop_first().len() implies (#[trigger] acc.drop_first()[k])
                < t1.len() by {
            assert(acc.drop_first()[k] == acc[k + 1]);
        }
        lemma_flatten_stable(t1, t2, acc.drop_first());
    }
}

/// The row statement survives learning more: the stores only grow and the
/// ceilings never drop.
proof fn lemma_rows_covered_grown(
    a: CFGrammar,
    b: CFGrammar,
    samples: Seq<Sample>,
    n_cols: int,
    rows: Seq<Seq<usize>>,
)
    requires
        rows_covered(a, samples, n_cols, rows),
        a.subtoken_frequencies@.len() == a.subtokens@.len(),
        forall|i: int, k: int|
            0 <= i < a.tokens@.len() && 0 <= k < a.tokens@[i].0@.len()
                ==> #[trigger] a.tokens@[i].0@[k] < a.subtokens@.len(),
        b.tokens@.len() >= a.tokens@.len(),
        forall|j: int| 0 <= j < a.tokens@.len() ==> (#[trigger] b.tokens@[j].0)@ == a.tokens@[j].0@,
        b.subtokens@.len() >= a.subtokens@.len(),
        forall|j: int| 0 <= j < a.subtokens@.len() ==> #[trigger] b.subtokens@[j] == a.subtokens@[j],
        b.subtoken_frequencies@.len() >= a.subtoken_frequencies@.len(),
        forall|j: int|
            0 <= j < a.subtoken_frequencies@.len() ==> #[trigger] b.subtoken_frequencies@[j]
                >= a.subtoken_frequencies@[j],
    ensures
        rows_covered(b, samples, n_cols, rows),
{
    assert(tok_views(a.subtokens@).len() == a.subtokens@.len());
    assert(tok_views(b.subtokens@).len() == b.subtokens@.len());
    assert forall|j: int|
        0 <= j < a.subtokens@.len() implies tok_views(b.subtokens@)[j] == tok_views(
        a.subtokens@,
    )[j] by {
        assert(b.subtokens@[j] == a.subtokens@[j]);
    }
    assert forall|s2: int, k: int|
        0 <= s2 < rows.len() && 0 <= k < n_cols implies (#[trigger] rows[s2][k]) < b.tokens@.len()
            && token_text(b, rows[s2][k] as int) == samples[s2]->Tokens_0@[k]@ by {
        let t = rows[s2][k];
        assert(t < a.tokens@.len() && token_text(a, t as int) == samples[s2]->Tokens_0@[k]@);
        crate::markov::lemma_concat_tokens_stable(
            tok_views(a.subtokens@),
            tok_views(b.subtokens@),
            a.tokens@[t as int].0@,
        );
        assert(token_text(b, t as int) == token_text(a, t as int));
    }
    assert forall|s2: int, st: usize|
        0 <= s2 < rows.len() implies #[trigger] count_tok(
        flatten_subtokens(b.tokens@, rows[s2]),
        st,
    ) <= (if (st as int) < b.subtoken_frequencies@.len() {
        b.subtoken_frequencies@[st as int] as int
    } else {
        0
    }) by {
        assert forall|k: int|
            0 <= k < rows[s2].len() implies (#[trigger] rows[s2][k]) < a.tokens@.len() by {
            assert(rows[s2][k] < a.tokens@.len() && token_text(a, rows[s2][k] as int)
                == samples[s2]->Tokens_0@[k]@);
        }
        lemma_flatten_stable(a.tokens@, b.tokens@, rows[s2]);
        crate::markov::lemma_count_tok_nonneg(flatten_subtokens(a.tokens@, rows[s2]), st);
        if (st as int) >= a.subtoken_frequencies@.len() {
            lemma_flatten_bounded(a.tokens@, rows[s2], a.subtokens@.len() as int);
            if count_tok(flatten_subtokens(a.tokens@, rows[s2]), st) > 0 {
                crate::markov::lemma_count_pos_member(
                    flatten_subtokens(a.tokens@, rows[s2]),
                    st,
                );
            }
        }
    }
}

/// The pool statement depends only on the slot pools, the token store and
/// the subtoken store: an engine equal in those carries it over.
proof fn lemma_pool_cells_same_model(
    a: CFGrammar,
    b: CFGrammar,
    base: Seq<TokenRule>,
    samples: Seq<Sample>,
    tri: Seq<usize>,
    n_cols: int,
    sb: int,
    cb: int,
)
    requires
        pool_cells_ok(a, base, samples, tri, n_cols, sb, cb),
        b.token_rules == a.token_rules,
        b.tokens == a.tokens,
        b.subtokens == a.subtokens,
    ensures
        pool_cells_ok(b, base, samples, tri, n_cols, sb, cb),
{
    assert forall|j: int, q: int|
        0 <= j < b.token_rules@.len() && base[j].tokens@.len() <= q
            < b.token_rules@[j].tokens@.len() implies entry_from_cells(
        b,
        samples,
        tri,
        n_cols,
        sb,
        cb,
        j,
        (#[trigger] b.token_rules@[j].tokens@[q]),
    ) by {
        let t = b.token_rules@[j].tokens@[q];
        assert(t == a.token_rules@[j].tokens@[q]);
        assert(entry_from_cells(a, samples, tri, n_cols, sb, cb, j, t));
        let (s2, k): (int, int) = choose|s2: int, k: int|
            0 <= s2 <= sb && (s2 < sb || k < cb) && 0 <= k < n_cols && tri[k] == j && token_text(
                a,
                t as int,
            ) == samples[s2]->Tokens_0@[k]@;
        assert(token_text(b, t as int) == token_text(a, t as int));
        assert(0 <= s2 <= sb && (s2 < sb || k < cb) && 0 <= k < n_cols && tri[k] == j
            && token_text(b, t as int) == samples[s2]->Tokens_0@[k]@);
    }
}

/// Once a whole sample has been applied, the pool statement rolls over to
/// the next sample with no column applied yet.
proof fn lemma_pool_cells_next_sample(
    g: CFGrammar,
    base: Seq<TokenRule>,
    samples: Seq<Sample>,
    tri: Seq<usize>,
    n_cols: int,
    sb: int,
)
    requires
        pool_cells_ok(g, base, samples, tri, n_cols, sb, n_cols),
    ensures
        pool_cells_ok(g, base, samples, tri, n_cols, sb + 1, 0),
{
    assert forall|j: int, q: int|
        0 <= j < g.token_rules@.len() && base[j].tokens@.len() <= q
            < g.token_rules@[j].tokens@.len() implies entry_from_cells(
        g,
        samples,
        tri,
        n_cols,
        sb + 1,
        0,
        j,
        (#[trigger] g.token_rules@[j].tokens@[q]),
    ) by {
        let t = g.token_rules@[j].tokens@[q];
        assert(entry_from_cells(g, samples, tri, n_cols, sb, n_cols, j, t));
        let (s2, k): (int, int) = choose|s2: int, k: int|
            0 <= s2 <= sb && (s2 < sb || k < n_cols) && 0 <= k < n_cols && tri[k] == j
                && token_text(g, t as int) == samples[s2]->Tokens_0@[k]@;
        assert(0 <= s2 <= sb + 1 && (s2 < sb + 1 || k < 0) && 0 <= k < n_cols && tri[k] == j
            && token_text(g, t as int) == samples[s2]->Tokens_0@[k]@);
    }
}

/// The subtoken indices of a run of accepted tokens, concatenated.
pub open spec fn flatten_subtokens(tokens: Seq<Token>, acc: Seq<usize>) -> Seq<usize>
    decreases acc.len(),
{
    if acc.len() == 0 {
        Seq::empty()
    } else {
        (if acc[0] < tokens.len() {
            tokens[acc[0] as int].0@
        } else {
            Seq::empty()
        }) + flatten_subtokens(tokens, acc.drop_first())
    }
}

/// The constrained slot-grammar model: learns labeled multi-token rows
/// and generates by per-slot candidate pools under adjacency and
/// frequency constraints.
pub struct CFGrammar {
    pub tokens: Vec<Token>,
    pub subtokens: Vec<String>,
    pub token_rules: Vec<TokenRule>,
    pub result_rules: Vec<ResultRule>,
    pub total_result_weight: u32,
    pub subtoken_frequencies: Vec<usize>,
    pub rlf: bool,
    pub ral: bool,
}

impl CFGrammar {
    /// The engine invariant: the frequency table runs parallel to the
    /// subtoken list, subtokens are nonempty and deduplicated, every
    /// index is in range, every slot pool a row shape refers to is
    /// nonempty, every row shape is nonempty with a positive weight, and
    /// the weights sum to the global counter.
    pub open spec fn wf(self) -> bool {
        &&& self.subtoken_frequencies@.len() == self.subtokens@.len()
        &&& tokens_nonempty(tok_views(self.subtokens@))
        &&& tokens_distinct(tok_views(self.subtokens@))
        &&& forall|i: int, k: int|
            0 <= i < self.tokens@.len() && 0 <= k < self.tokens@[i].0@.len()
                ==> #[trigger] self.tokens@[i].0@[k] < self.subtokens@.len()
        &&& forall|i: int, k: int|
            0 <= i < self.token_rules@.len() && 0 <= k < self.token_rules@[i].tokens@.len()
                ==> #[trigger] self.token_rules@[i].tokens@[k] < self.tokens@.len()
        &&& forall|i: int, k: int|
            0 <= i < self.result_rules@.len() && 0 <= k
                < self.result_rules@[i].token_rules@.len()
                ==> #[trigger] self.result_rules@[i].token_rules@[k] < self.token_rules@.len()
        &&& forall|i: int, k: int|
            0 <= i < self.result_rules@.len() && 0 <= k
                < self.result_rules@[i].token_rules@.len() ==> self.token_rules@[(
            #[trigger] self.result_rules@[i].token_rules@[k]) as int].tokens@.len() >= 1
        &&& forall|i: int|
            0 <= i < self.result_rules@.len() ==> (
            #[trigger] self.result_rules@[i].token_rules@.len()) >= 1
        &&& forall|i: int|
            0 <= i < self.result_rules@.len() ==> (#[trigger] self.result_rules@[i].weight) >= 1
        &&& self.total_result_weight == sum_usize(rr_weights(self.result_rules@))
    }

    /// Create an engine with predefined subtokens and the two constraint
    /// flags: subtoken-frequency restriction and adjacent-subtoken
    /// restriction.
    pub fn new(initial_subtokens: &[&str], rlf: bool, ral: bool) -> (r: CFGrammar)
        requires
            forall|i: int|
                0 <= i < initial_subtokens@.len() ==> (#[trigger] initial_subtokens@[i])@.len()
                    >= 1,
            forall|i: int, j: int|
                0 <= i < j < initial_subtokens@.len() ==> (#[trigger] initial_subtokens@[i])@ != (
                #[trigger] initial_subtokens@[j])@,
        ensures
            r.wf(),
            r.result_rules@.len() == 0,
            r.token_rules@.len() == 0,
            r.tokens@.len() == 0,
            r.total_result_weight == 0,
            tok_views(r.subtokens@) == initial_subtokens@.map_values(|s: &str| s@),
            forall|i: int|
                0 <= i < r.subtoken_frequencies@.len() ==> #[trigger] r.subtoken_frequencies@[i]
                    == 1,
            r.rlf == rlf,
            r.ral == ral,
    {
        let n = initial_subtokens.len();
        let mut owned: Vec<String> = Vec::new();
        let mut ones: Vec<usize> = Vec::new();
        let mut i: usize = 0;
        while i < n
            invariant
                i <= n == initial_subtokens@.len(),
                owned@.len() == i,
                ones@.len() == i,
                forall|j: int| 0 <= j < i ==> (#[trigger] owned@[j])@ == initial_subtokens@[j]@,
                forall|j: int| 0 <= j < i ==> #[trigger] ones@[j] == 1usize,
            decreases n - i,
        {
            owned.push(initial_subtokens[i].to_owned());
            ones.push(1);
            i = i + 1;
        }
        let r = CFGrammar {
            tokens: Vec::new(),
            subtokens: owned,
            result_rules: Vec::new(),
            token_rules: Vec::new(),
            total_result_weight: 0,
            subtoken_frequencies: ones,
            rlf,
            ral,
        };
        proof {
            assert(tok_views(r.subtokens@) =~= initial_subtokens@.map_values(|s: &str| s@));
            assert(rr_weights(r.result_rules@) =~= Seq::<usize>::empty());
        }
        r
    }
}

/// The error decision `learn` makes, scanning the samples in order and
/// then the labels: `-1` for an acceptable set, else the code of the
/// first offence. `tl` is the expected column count, `0` while still
/// unknown.
pub open spec fn grammar_scan(tl: int, samples: Seq<Sample>, labels: Seq<String>) -> int
    decreases samples.len(),
{
    if samples.len() == 0 {
        if exists|i: int| 0 <= i < labels.len() && is_prefix_of(anon_prefix(), labels[i]@) {
            4
        } else {
            -1
        }
    } else {
        match samples[0] {
            Sample::Tokens(row) => {
                if row@.len() == 0 || (tl > 0 && tl != row@.len()) {
                    3
                } else {
                    grammar_scan(
                        if tl == 0 {
                            row@.len() as int
                        } else {
                            tl
                        },
                        samples.drop_first(),
                        labels,
                    )
                }
            },
            _ => 0,
        }
    }
}

/// The index of the first sample the scan refuses: meaningless where the
/// set is acceptable or the offence is a reserved label.
pub open spec fn grammar_scan_ix(tl: int, samples: Seq<Sample>) -> int
    decreases samples.len(),
{
    if samples.len() == 0 {
        0
    } else {
        match samples[0] {
            Sample::Tokens(row) => {
                if row@.len() == 0 || (tl > 0 && tl != row@.len()) {
                    0
                } else {
                    1 + grammar_scan_ix(
                        if tl == 0 {
                            row@.len() as int
                        } else {
                            tl
                        },
                        samples.drop_first(),
                    )
                }
            },
            _ => 0,
        }
    }
}

/// The reserved label prefix.
pub open spec fn anon_prefix() -> Seq<char> {
    seq!['a', 'n', 'o', 'n', '_']
}

/// The first slot carrying this name, or the length of the list.
pub open spec fn slot_key_index(trs: Seq<TokenRule>, name: Seq<char>) -> int
    decreases trs.len(),
{
    if trs.len() == 0 {
        0
    } else if trs[0].name@ == name {
        0
    } else {
        1 + slot_key_index(trs.drop_first(), name)
    }
}

/// A key index is never negative.
proof fn lemma_slot_key_nonneg(trs: Seq<TokenRule>, name: Seq<char>)
    ensures
        slot_key_index(trs, name) >= 0,
    decreases trs.len(),
{
    if trs.len() > 0 && trs[0].name@ != name {
        lemma_slot_key_nonneg(trs.drop_first(), name);
    }
}

/// An in-range key index points at a slot of that name.
proof fn lemma_slot_key_names(trs: Seq<TokenRule>, name: Seq<char>)
    requires
        slot_key_index(trs, name) < trs.len(),
    ensures
        trs[slot_key_index(trs, name)].name@ == name,
    decreases trs.len(),
{
    if trs.len() > 0 && trs[0].name@ != name {
        let kd = slot_key_index(trs.drop_first(), name);
        lemma_slot_key_nonneg(trs.drop_first(), name);
        assert(slot_key_index(trs, name) == 1 + kd);
        lemma_slot_key_names(trs.drop_first(), name);
        assert(trs.drop_first()[kd] == trs[kd + 1]);
    }
}

/// A scan position that matched nothing earlier pins the key index down.
proof fn lemma_slot_key_from_scan(trs: Seq<TokenRule>, name: Seq<char>, j: int)
    requires
        0 <= j <= trs.len(),
        forall|j2: int| 0 <= j2 < j ==> (#[trigger] trs[j2].name)@ != name,
        j == trs.len() || trs[j].name@ == name,
    ensures
        slot_key_index(trs, name) == j,
    decreases j,
{
    if j == 0 {
    } else {
        assert(trs[0].name@ != name);
        assert forall|j2: int|
            0 <= j2 < j - 1 implies (#[trigger] trs.drop_first()[j2].name)@ != name by {
            assert(trs.drop_first()[j2] == trs[j2 + 1]);
        }
        assert(j - 1 == trs.drop_first().len() || trs.drop_first()[j - 1].name@ == name);
        lemma_slot_key_from_scan(trs.drop_first(), name, j - 1);
    }
}

/// Everything `learn` promises, as one statement.
pub open spec fn learn_post(
    pre: CFGrammar,
    post: CFGrammar,
    set: SampleSet,
    r: Result<(), LearnError>,
) -> bool {
    &&& (post.wf())
    &&& (post.rlf == pre.rlf && post.ral == pre.ral)
    &&& (r.is_ok() <==> grammar_scan(
                set.labels@.len() as int,
                set.samples@,
                set.labels@,
            ) == -1)
    &&& (r is Err ==> r->Err_0.code == grammar_scan(
                set.labels@.len() as int,
                set.samples@,
                set.labels@,
            ))
    &&& (r is Err && r->Err_0.code != 4 ==> r->Err_0.sample is Some && sample_model(
                r->Err_0.sample->0,
            ) == sample_model(
                set.samples@[grammar_scan_ix(
                    set.labels@.len() as int,
                    set.samples@,
                )],
            ))
    &&& (r is Err && r->Err_0.code == 4 ==> r->Err_0.sample is None)
    &&& (r is Err ==> post == pre)
    &&& (r.is_ok() && cells_known(pre, set.samples@) ==> post.tokens@.len()
        == pre.tokens@.len() && post.subtokens@.len() == pre.subtokens@.len())
    &&& (r.is_ok() ==> {
                &&& post.total_result_weight == pre.total_result_weight
                    + set.samples@.len()
                &&& set.samples@.len() > 0 ==> exists|ri: int|
                    #[trigger] rr_update_shape(
                        pre.result_rules@,
                        post.result_rules@,
                        ri,
                        set.samples@.len() as int,
                    ) && post.result_rules@[ri].token_rules@.len() == (
                    if set.labels@.len() > 0 {
                        set.labels@.len() as int
                    } else {
                        set.samples@[0]->Tokens_0@.len() as int
                    }) && (ri >= pre.result_rules@.len() ==> forall|j: int|
                        0 <= j < pre.result_rules@.len()
                            ==> (#[trigger] pre.result_rules@[j].token_rules@)
                            != post.result_rules@[ri].token_rules@) && pool_cells_ok(
                        post,
                        pre.token_rules@,
                        set.samples@,
                        post.result_rules@[ri].token_rules@,
                        post.result_rules@[ri].token_rules@.len() as int,
                        set.samples@.len() as int,
                        0,
                    ) && (forall|k: int|
                        0 <= k < set.labels@.len() && set.labels@[k]@ != seq!['*']
                            ==> (#[trigger] post.token_rules@[post.result_rules@[ri].token_rules@[k] as int].name)@
                            == set.labels@[k]@) && (forall|k: int|
                        0 <= k < set.labels@.len() && set.labels@[k]@ != seq!['*']
                            && slot_key_index(pre.token_rules@, set.labels@[k]@)
                            < pre.token_rules@.len()
                            ==> (#[trigger] post.result_rules@[ri].token_rules@[k]) as int
                            == slot_key_index(pre.token_rules@, set.labels@[k]@))
                &&& (set.labels@.len() > 0 && (forall|k: int|
                    0 <= k < set.labels@.len() ==> (#[trigger] set.labels@[k])@
                        != seq!['*'] && slot_key_index(
                        pre.token_rules@,
                        set.labels@[k]@,
                    ) < pre.token_rules@.len())) ==> post.token_rules@.len()
                    == pre.token_rules@.len()
                &&& post.token_rules@.len() >= pre.token_rules@.len()
                &&& forall|j: int|
                    0 <= j < pre.token_rules@.len() ==> (#[trigger] post.token_rules@[j].name)@ == pre.token_rules@[j].name@ && seq_extended(
                        pre.token_rules@[j].tokens@,
                        post.token_rules@[j].tokens@,
                    )
                &&& post.subtokens@.len() >= pre.subtokens@.len()
                &&& forall|j: int|
                    0 <= j < pre.subtokens@.len() ==> #[trigger] post.subtokens@[j]
                        == pre.subtokens@[j]
                &&& post.tokens@.len() >= pre.tokens@.len()
                &&& forall|j: int|
                    0 <= j < pre.tokens@.len() ==> (#[trigger] post.tokens@[j]).0@
                        == pre.tokens@[j].0@
                &&& post.subtoken_frequencies@.len() == post.subtokens@.len()
                &&& forall|j: int|
                    0 <= j < pre.subtoken_frequencies@.len()
                        ==> #[trigger] post.subtoken_frequencies@[j]
                        >= pre.subtoken_frequencies@[j]
                &&& set.samples@.len() > 0 ==> exists|rows: Seq<Seq<usize>>|
                    #[trigger] rows_covered(
                        post,
                        set.samples@,
                        set_columns(set),
                        rows,
                    )
            })
}

impl CFGrammar {
    /// Learn a set of labeled rows. The whole set is validated first, so a
    /// failing set leaves the engine exactly as it was: every sample must
    /// be a `Tokens` row, the rows must agree on the column count (taken
    /// from the labels where given), and no label may use the reserved
    /// prefix. Learning resolves each labeled column to the first slot of
    /// that name (creating it only when none exists), finds or creates
    /// the row shape for the slot tuple without ever duplicating a tuple,
    /// raises that shape's weight once per sample, appends each column's
    /// token to its slot pool, and raises the per-subtoken frequency
    /// ceilings to cover each composed row exactly.
    #[verifier::rlimit(100)]
    #[verifier::spinoff_prover]
    pub fn learn(&mut self, sample_set: &SampleSet) -> (r: Result<(), LearnError>)
        requires
            old(self).wf(),
            old(self).total_result_weight + sample_set.samples@.len() < u32::MAX,
        ensures
            learn_post(*old(self), *final(self), *sample_set, r),
    {
        let labels = sample_set.labels();
        let samples = sample_set.samples();
        let n_samples = samples.len();
        let n_labels = labels.len();
        // Validate the whole set before touching anything.
        let mut tokens_len: usize = n_labels;
        let mut v: usize = 0;
        proof {
            assert(samples@.skip(0) =~= samples@);
        }
        loop
            invariant_except_break
                v <= n_samples,
                n_labels > 0 ==> tokens_len == n_labels,
                grammar_scan(n_labels as int, samples@, labels@) == grammar_scan(
                    tokens_len as int,
                    samples@.skip(v as int),
                    labels@,
                ),
                grammar_scan_ix(n_labels as int, samples@) == v + grammar_scan_ix(
                    tokens_len as int,
                    samples@.skip(v as int),
                ),
                tokens_len == 0 ==> v == 0 && n_labels == 0,
                forall|i: int|
                    0 <= i < v ==> (#[trigger] samples@[i]) is Tokens
                        && samples@[i]->Tokens_0@.len() == tokens_len,
            invariant
                n_samples == samples@.len(),
                n_labels == labels@.len(),
                samples@ == sample_set.samples@,
                labels@ == sample_set.labels@,
                *self == *old(self),
                old(self).wf(),
            ensures
                grammar_scan(n_labels as int, samples@, labels@) == grammar_scan(
                    tokens_len as int,
                    Seq::<Sample>::empty(),
                    labels@,
                ),
                n_samples > 0 ==> tokens_len > 0,
                n_labels > 0 ==> tokens_len == n_labels,
                forall|i: int|
                    0 <= i < samples@.len() ==> (#[trigger] samples@[i]) is Tokens
                        && samples@[i]->Tokens_0@.len() == tokens_len,
            decreases n_samples - v,
        {
            if v >= n_samples {
                proof {
                    assert(samples@.skip(v as int) =~= Seq::<Sample>::empty());
                }
                break ;
            }
            proof {
                assert(samples@.skip(v as int)[0] == samples@[v as int]);
                assert(samples@.skip(v as int).drop_first() =~= samples@.skip(v as int + 1));
            }
            match &samples[v] {
                Sample::Tokens(row) => {
                    if row.len() == 0 || (tokens_len > 0 && tokens_len != row.len()) {
                        proof {
                            assert(grammar_scan(
                                tokens_len as int,
                                samples@.skip(v as int),
                                labels@,
                            ) == 3);
                            assert(grammar_scan_ix(tokens_len as int, samples@.skip(v as int))
                                == 0);
                        }
                        return Err(
                            LearnError::new(
                                3,
                                String::from_str("Token lengths must match"),
                                Some(samples[v].duplicate()),
                            ),
                        );
                    }
                    if tokens_len == 0 {
                        tokens_len = row.len();
                    }
                },
                _ => {
                    proof {
                        assert(grammar_scan(tokens_len as int, samples@.skip(v as int), labels@)
                            == 0);
                        assert(grammar_scan_ix(tokens_len as int, samples@.skip(v as int)) == 0);
                    }
                    return Err(
                        LearnError::new(
                            0,
                            String::from_str("Word type sample not supported"),
                            Some(samples[v].duplicate()),
                        ),
                    );
                },
            }
            v = v + 1;
        }
        let mut l: usize = 0;
        while l < n_labels
            invariant
                l <= n_labels == labels@.len(),
                labels@ == sample_set.labels@,
                samples@ == sample_set.samples@,
                *self == *old(self),
                old(self).wf(),
                grammar_scan(n_labels as int, samples@, labels@) == grammar_scan(
                    tokens_len as int,
                    Seq::<Sample>::empty(),
                    labels@,
                ),
                forall|i: int| 0 <= i < l ==> !is_prefix_of(anon_prefix(), labels@[i]@),
            decreases n_labels - l,
        {
            if str_has_anon_prefix(labels[l].as_str()) {
                proof {
                    assert(is_prefix_of(anon_prefix(), labels@[l as int]@));
                    assert(grammar_scan(tokens_len as int, Seq::<Sample>::empty(), labels@) == 4);
                }
                return Err(
                    LearnError::new(
                        4,
                        String::from_str("Labels cannot use reserved prefix (anon_)"),
                        None,
                    ),
                );
            }
            l = l + 1;
        }
        proof {
            if grammar_scan(n_labels as int, samples@, labels@) != -1 {
                assert(exists|i: int|
                    0 <= i < labels@.len() && is_prefix_of(anon_prefix(), labels@[i]@));
                let i = choose|i: int|
                    0 <= i < labels@.len() && is_prefix_of(anon_prefix(), labels@[i]@);
                assert(!is_prefix_of(anon_prefix(), labels@[i]@));
            }
        }
        if n_samples == 0 {
            proof {
                lemma_learn_post_empty(*self, *sample_set);
            }
            return Ok(());
        }
        // Find or create the slot for each column.
        let ghost g0 = *self;
        let mut tri: Vec<usize> = Vec::new();
        let mut c: usize = 0;
        while c < tokens_len
            invariant
                c <= tokens_len,
                tri@.len() == c,
                n_labels == labels@.len(),
                labels@ == sample_set.labels@,
                forall|k: int| 0 <= k < c ==> #[trigger] tri@[k] < self.token_rules@.len(),
                grammar_phase_a(g0, *self),
                n_labels > 0 ==> tokens_len == n_labels,
                forall|k: int|
                    0 <= k < c && k < labels@.len() && labels@[k]@ != seq!['*'] ==> (
                    #[trigger] self.token_rules@[tri@[k] as int].name)@ == labels@[k]@,
                forall|k: int|
                    0 <= k < c && k < labels@.len() && labels@[k]@ != seq!['*'] && slot_key_index(
                        g0.token_rules@,
                        labels@[k]@,
                    ) < g0.token_rules@.len() ==> (#[trigger] tri@[k]) as int == slot_key_index(
                        g0.token_rules@,
                        labels@[k]@,
                    ),
                (n_labels > 0 && (forall|k: int|
                    0 <= k < labels@.len() ==> (#[trigger] labels@[k])@ != seq!['*']
                        && slot_key_index(g0.token_rules@, labels@[k]@)
                        < g0.token_rules@.len())) ==> self.token_rules@.len()
                    == g0.token_rules@.len(),
            decreases tokens_len - c,
        {
            let ghost pre_a = *self;
            let tr_i: usize;
            if n_labels > 0 {
                proof {
                    assert(c < labels@.len());
                }
                if str_is_star(labels[c].as_str()) {
                    tr_i = self.ensure_anon_token_rule();
                } else {
                    tr_i = self.ensure_token_rule(&labels[c]);
                }
            } else {
                tr_i = self.ensure_anon_token_rule();
            }
            tri.push(tr_i);
            proof {
                assert(grammar_phase_a(g0, pre_a));
                assert forall|j: int|
                    0 <= j < g0.token_rules@.len() implies #[trigger] self.token_rules@[j]
                        == g0.token_rules@[j] by {
                    assert(pre_a.token_rules@[j] == g0.token_rules@[j]);
                    assert(self.token_rules@[j] == pre_a.token_rules@[j]);
                }
                assert forall|j: int|
                    g0.token_rules@.len() <= j < self.token_rules@.len() implies (
                #[trigger] self.token_rules@[j].tokens@).len() == 0 by {
                    if j < pre_a.token_rules@.len() {
                        assert((pre_a.token_rules@[j].tokens@).len() == 0);
                        assert(self.token_rules@[j] == pre_a.token_rules@[j]);
                    } else {
                        assert(j == pre_a.token_rules@.len());
                        assert(tr_i as int == j);
                        assert(self.token_rules@[j].tokens@.len() == 0);
                    }
                }
                // a label that already named a slot resolves to the first
                // such slot, and reusing every slot appends none
                if c < labels@.len() && labels@[c as int]@ != seq!['*'] {
                    let key = slot_key_index(g0.token_rules@, labels@[c as int]@);
                    lemma_slot_key_nonneg(g0.token_rules@, labels@[c as int]@);
                    if key < g0.token_rules@.len() {
                        lemma_slot_key_names(g0.token_rules@, labels@[c as int]@);
                        assert(self.token_rules@[key] == g0.token_rules@[key]);
                        assert(self.token_rules@[key].name@ == labels@[c as int]@);
                        assert(tr_i as int <= key);
                        assert forall|j: int|
                            0 <= j < tr_i implies (#[trigger] g0.token_rules@[j].name)@
                                != labels@[c as int]@ by {
                            assert(self.token_rules@[j] == g0.token_rules@[j]);
                        }
                        assert(g0.token_rules@[tr_i as int] == self.token_rules@[tr_i as int]);
                        lemma_slot_key_from_scan(g0.token_rules@, labels@[c as int]@, tr_i as int);
                        assert(tr_i as int == key);
                        assert(self.token_rules@.len() == pre_a.token_rules@.len());
                    }
                }
            }
            c = c + 1;
        }
        proof {
            if n_labels > 0 {
                assert(tokens_len == n_labels);
            }
        }
        // Find or create the row shape for the slot tuple.
        let result_index = self.ensure_result_rule(&tri);
        let ghost g1 = *self;
        proof {
            assert(g1.subtoken_frequencies@.len() == g1.subtokens@.len());
            assert forall|j: int|
                g0.token_rules@.len() <= j < g1.token_rules@.len() implies (
            #[trigger] g1.token_rules@[j].tokens@).len() == 0 by {}
            assert forall|k: int|
                0 <= k < labels@.len() && labels@[k]@ != seq!['*'] implies (
            #[trigger] g1.token_rules@[tri@[k] as int].name)@ == labels@[k]@ by {}
            assert forall|j: int|
                0 <= j < g1.token_rules@.len() implies (#[trigger] self.token_rules@[j].name)@
                    == g1.token_rules@[j].name@ && seq_extended(
                    g1.token_rules@[j].tokens@,
                    self.token_rules@[j].tokens@,
                ) by {
                lemma_seq_extended_refl(g1.token_rules@[j].tokens@);
            }
            assert forall|j: int, k: int|
                0 <= j < self.token_rules@.len() && 0 <= k
                    < self.token_rules@[j].tokens@.len() implies (
            #[trigger] self.token_rules@[j].tokens@[k]) < self.tokens@.len() by {
                if j < g0.token_rules@.len() {
                    assert(self.token_rules@[j] == g0.token_rules@[j]);
                } else {
                    assert(self.token_rules@[j].tokens@.len() == 0);
                }
            }
        }
        // Apply each sample.
        let mut s: usize = 0;
        let mut token_buf: Vec<usize> = Vec::new();
        let ghost mut rows: Seq<Seq<usize>> = Seq::empty();
        proof {
            assert(samples@.take(0) =~= Seq::<Sample>::empty());
        }
        while s < n_samples
            invariant
                old(self).wf(),
                g0 == *old(self),
                self.total_result_weight as int == sum_usize(rr_weights(self.result_rules@)),
                s <= n_samples == samples@.len(),
                samples@ == sample_set.samples@,
                tokens_len > 0,
                forall|i: int|
                    0 <= i < samples@.len() ==> (#[trigger] samples@[i]) is Tokens
                        && samples@[i]->Tokens_0@.len() == tokens_len,
                tri@.len() == tokens_len,
                forall|k: int| 0 <= k < tri@.len() ==> #[trigger] tri@[k] < g1.token_rules@.len(),
                result_index < g1.result_rules@.len(),
                self.rlf == g1.rlf && self.ral == g1.ral,
                self.subtoken_frequencies@.len() == self.subtokens@.len(),
                g1.subtoken_frequencies@.len() == g1.subtokens@.len(),
                forall|j: int|
                    0 <= j < g1.subtoken_frequencies@.len()
                        ==> #[trigger] self.subtoken_frequencies@[j]
                        >= g1.subtoken_frequencies@[j],
                rows_covered(*self, samples@.take(s as int), tokens_len as int, rows),
                cells_known(g1, samples@) ==> self.tokens@.len() == g1.tokens@.len()
                    && self.subtokens@.len() == g1.subtokens@.len(),
                pool_cells_ok(
                    *self,
                    g1.token_rules@,
                    samples@,
                    tri@,
                    tokens_len as int,
                    s as int,
                    0,
                ),
                tokens_nonempty(tok_views(self.subtokens@)),
                tokens_distinct(tok_views(self.subtokens@)),
                self.subtokens@.len() >= g1.subtokens@.len(),
                forall|j: int|
                    0 <= j < g1.subtokens@.len() ==> #[trigger] self.subtokens@[j]
                        == g1.subtokens@[j],
                self.tokens@.len() >= g1.tokens@.len(),
                forall|j: int|
                    0 <= j < g1.tokens@.len() ==> #[trigger] self.tokens@[j].0@
                        == g1.tokens@[j].0@,
                forall|i: int, k: int|
                    0 <= i < self.tokens@.len() && 0 <= k < self.tokens@[i].0@.len()
                        ==> #[trigger] self.tokens@[i].0@[k] < self.subtokens@.len(),
                self.token_rules@.len() == g1.token_rules@.len(),
                forall|j: int|
                    0 <= j < g1.token_rules@.len() ==> (#[trigger] self.token_rules@[j].name)@
                        == g1.token_rules@[j].name@ && seq_extended(
                        g1.token_rules@[j].tokens@,
                        self.token_rules@[j].tokens@,
                    ),
                forall|j: int, k: int|
                    0 <= j < self.token_rules@.len() && 0 <= k
                        < self.token_rules@[j].tokens@.len()
                        ==> #[trigger] self.token_rules@[j].tokens@[k] < self.tokens@.len(),
                s >= 1 ==> forall|k: int|
                    0 <= k < tri@.len() ==> (
                    #[trigger] self.token_rules@[tri@[k] as int].tokens@.len()) >= 1,
                self.result_rules@.len() == g1.result_rules@.len(),
                forall|j: int|
                    0 <= j < g1.result_rules@.len() && j != result_index
                        ==> #[trigger] self.result_rules@[j].token_rules@
                        == g1.result_rules@[j].token_rules@ && self.result_rules@[j].weight
                        == g1.result_rules@[j].weight,
                self.result_rules@[result_index as int].token_rules@ == g1.result_rules@[
                    result_index as int].token_rules@,
                self.result_rules@[result_index as int].weight == g1.result_rules@[
                    result_index as int].weight + s,
                self.total_result_weight == g1.total_result_weight + s,
                g1.total_result_weight + n_samples < u32::MAX,
                forall|i: int, k: int|
                    0 <= i < self.result_rules@.len() && 0 <= k
                        < self.result_rules@[i].token_rules@.len()
                        ==> #[trigger] self.result_rules@[i].token_rules@[k]
                        < self.token_rules@.len(),
                forall|i: int|
                    0 <= i < self.result_rules@.len() ==> (
                    #[trigger] self.result_rules@[i].token_rules@.len()) >= 1,
            decreases n_samples - s,
        {
            let ghost sh0 = *self;
            proof {
                lemma_sum_usize_nonneg(rr_weights(self.result_rules@));
                assert(rr_weights(self.result_rules@)[result_index as int]
                    == self.result_rules@[result_index as int].weight as usize);
                lemma_sum_usize_element_bound(
                    rr_weights(self.result_rules@),
                    result_index as int,
                );
            }
            let ghost pre_w = self.result_rules@;
            bump_rr_weight(&mut self.result_rules, result_index);
            proof {
                assert(rr_weights(self.result_rules@) =~= rr_weights(pre_w).update(
                    result_index as int,
                    self.result_rules@[result_index as int].weight as usize,
                ));
                lemma_sum_usize_update(
                    rr_weights(pre_w),
                    result_index as int,
                    self.result_rules@[result_index as int].weight as usize,
                );
            }
            self.total_result_weight = self.total_result_weight + 1;
            token_buf = Vec::new();
            let ghost row = samples@[s as int]->Tokens_0;
            let mut col: usize = 0;
            proof {
                lemma_pool_cells_same_model(
                    sh0,
                    *self,
                    g1.token_rules@,
                    samples@,
                    tri@,
                    tokens_len as int,
                    s as int,
                    0,
                );
                lemma_rows_covered_grown(
                    sh0,
                    *self,
                    samples@.take(s as int),
                    tokens_len as int,
                    rows,
                );
                assert forall|j: int|
                    0 <= j < g1.result_rules@.len() && j != result_index implies (
                #[trigger] self.result_rules@[j].token_rules)@
                    == g1.result_rules@[j].token_rules@ && self.result_rules@[j].weight
                    == g1.result_rules@[j].weight by {
                    assert(self.result_rules@[j] == sh0.result_rules@[j]);
                    assert((sh0.result_rules@[j].token_rules)@
                        == g1.result_rules@[j].token_rules@ && sh0.result_rules@[j].weight
                        == g1.result_rules@[j].weight);
                }
            }
            match &samples[s] {
                Sample::Tokens(row_vec) => {
                    while col < tokens_len
                        invariant
                            col <= tokens_len,
                            row_vec@ == row@,
                            row@.len() == tokens_len,
                            tri@.len() == tokens_len,
                            token_buf@.len() == col,
                            forall|k: int|
                                0 <= k < tri@.len() ==> #[trigger] tri@[k]
                                    < self.token_rules@.len(),
                            self.subtoken_frequencies@.len() == self.subtokens@.len(),
                            g1.subtoken_frequencies@.len() == g1.subtokens@.len(),
                            forall|j: int|
                                0 <= j < g1.subtoken_frequencies@.len()
                                    ==> #[trigger] self.subtoken_frequencies@[j]
                                    >= g1.subtoken_frequencies@[j],
                            s < samples@.len(),
                            samples@[s as int] is Tokens,
                            row@ == samples@[s as int]->Tokens_0@,
                            rows_covered(
                                *self,
                                samples@.take(s as int),
                                tokens_len as int,
                                rows,
                            ),
                            cells_known(g1, samples@) ==> self.tokens@.len()
                                == g1.tokens@.len() && self.subtokens@.len()
                                == g1.subtokens@.len(),
                            forall|k: int|
                                0 <= k < col ==> (#[trigger] token_buf@[k]) < self.tokens@.len()
                                    && token_text(*self, token_buf@[k] as int) == row@[k]@,
                            pool_cells_ok(
                                *self,
                                g1.token_rules@,
                                samples@,
                                tri@,
                                tokens_len as int,
                                s as int,
                                col as int,
                            ),
                            tokens_nonempty(tok_views(self.subtokens@)),
                            tokens_distinct(tok_views(self.subtokens@)),
                            self.rlf == g1.rlf && self.ral == g1.ral,
                            self.subtokens@.len() >= g1.subtokens@.len(),
                            forall|j: int|
                                0 <= j < g1.subtokens@.len() ==> #[trigger] self.subtokens@[j]
                                    == g1.subtokens@[j],
                            self.tokens@.len() >= g1.tokens@.len(),
                            forall|j: int|
                                0 <= j < g1.tokens@.len() ==> #[trigger] self.tokens@[j].0@
                                    == g1.tokens@[j].0@,
                            forall|i2: int, k: int|
                                0 <= i2 < self.tokens@.len() && 0 <= k
                                    < self.tokens@[i2].0@.len()
                                    ==> #[trigger] self.tokens@[i2].0@[k]
                                    < self.subtokens@.len(),
                            self.token_rules@.len() == g1.token_rules@.len(),
                            forall|j: int|
                                0 <= j < g1.token_rules@.len() ==> (
                                #[trigger] self.token_rules@[j].name)@
                                    == g1.token_rules@[j].name@ && seq_extended(
                                    g1.token_rules@[j].tokens@,
                                    self.token_rules@[j].tokens@,
                                ),
                            forall|j: int, k: int|
                                0 <= j < self.token_rules@.len() && 0 <= k
                                    < self.token_rules@[j].tokens@.len()
                                    ==> #[trigger] self.token_rules@[j].tokens@[k]
                                    < self.tokens@.len(),
                            self.result_rules@.len() == g1.result_rules@.len(),
                            forall|j: int|
                                0 <= j < g1.result_rules@.len() && j != result_index ==> (
                                #[trigger] self.result_rules@[j].token_rules)@
                                    == g1.result_rules@[j].token_rules@
                                    && self.result_rules@[j].weight
                                    == g1.result_rules@[j].weight,
                            result_index < self.result_rules@.len(),
                            self.result_rules@[result_index as int].token_rules@
                                == g1.result_rules@[result_index as int].token_rules@,
                            self.result_rules@[result_index as int].weight
                                == g1.result_rules@[result_index as int].weight + s + 1,
                            self.total_result_weight == g1.total_result_weight + s + 1,
                            forall|i2: int, k: int|
                                0 <= i2 < self.result_rules@.len() && 0 <= k
                                    < self.result_rules@[i2].token_rules@.len()
                                    ==> #[trigger] self.result_rules@[i2].token_rules@[k]
                                    < self.token_rules@.len(),
                            forall|i2: int|
                                0 <= i2 < self.result_rules@.len() ==> (
                                #[trigger] self.result_rules@[i2].token_rules@.len()) >= 1,
                            self.total_result_weight as int == sum_usize(
                                rr_weights(self.result_rules@),
                            ),
                            forall|k: int|
                                0 <= k < col
                                    ==> #[trigger] self.token_rules@[tri@[k] as int].tokens@.len()
                                    >= 1,
                            forall|k: int|
                                0 <= k < token_buf@.len() ==> #[trigger] token_buf@[k]
                                    < self.tokens@.len(),
                        decreases tokens_len - col,
                    {
                        let ghost m0 = *self;
                        let ti = self.ensure_token(&row_vec[col]);
                        let ghost m1 = *self;
                        push_pool_token(&mut self.token_rules, tri[col], ti);
                        proof {
                            assert forall|j: int|
                                0 <= j < g1.token_rules@.len() implies (
                            #[trigger] self.token_rules@[j].name)@ == g1.token_rules@[j].name@
                                && seq_extended(
                                g1.token_rules@[j].tokens@,
                                self.token_rules@[j].tokens@,
                            ) by {
                                if j == tri@[col as int] {
                                    crate::markov::lemma_seq_extended_trans(
                                        g1.token_rules@[j].tokens@,
                                        m1.token_rules@[j].tokens@,
                                        self.token_rules@[j].tokens@,
                                    );
                                } else {
                                    assert(self.token_rules@[j] == m1.token_rules@[j]);
                                }
                            }
                            assert forall|j: int|
                                0 <= j < g1.tokens@.len() implies (#[trigger] self.tokens@[j].0)@
                                    == g1.tokens@[j].0@ by {
                                assert(m1.tokens@[j].0@ == m0.tokens@[j].0@);
                            }
                            assert forall|j: int|
                                0 <= j < g1.subtokens@.len() implies #[trigger] self.subtokens@[j]
                                    == g1.subtokens@[j] by {
                                assert(m1.subtokens@[j] == m0.subtokens@[j]);
                            }
                            assert forall|j: int|
                                0 <= j < g1.subtoken_frequencies@.len()
                                    implies #[trigger] self.subtoken_frequencies@[j]
                                    >= g1.subtoken_frequencies@[j] by {
                                assert(g1.subtoken_frequencies@.len()
                                    <= m0.subtoken_frequencies@.len());
                                assert(m1.subtoken_frequencies@[j]
                                    >= m0.subtoken_frequencies@[j]);
                                assert(self.subtoken_frequencies@[j]
                                    == m1.subtoken_frequencies@[j]);
                            }
                            // every pool entry, old or new, still decodes to
                            // one of the set's cells in a matching column
                            assert(tok_views(self.subtokens@).len() == self.subtokens@.len());
                            assert(tok_views(m0.subtokens@).len() == m0.subtokens@.len());
                            assert forall|j2: int|
                                0 <= j2 < m0.subtokens@.len() implies tok_views(
                                self.subtokens@,
                            )[j2] == tok_views(m0.subtokens@)[j2] by {
                                assert(self.subtokens@[j2] == m0.subtokens@[j2]);
                            }
                            // the rows learned so far, and the columns of
                            // this row, keep their texts as the stores grow
                            lemma_rows_covered_grown(
                                m0,
                                *self,
                                samples@.take(s as int),
                                tokens_len as int,
                                rows,
                            );
                            assert(token_text(*self, ti as int) == row@[col as int]@) by {
                                assert(token_text(m1, ti as int) == row_vec@[col as int]@);
                            }
                            assert forall|k: int|
                                0 <= k < col implies (#[trigger] token_buf@[k])
                                    < self.tokens@.len() && token_text(
                                    *self,
                                    token_buf@[k] as int,
                                ) == row@[k]@ by {
                                assert(token_buf@[k] < m0.tokens@.len() && token_text(
                                    m0,
                                    token_buf@[k] as int,
                                ) == row@[k]@);
                                crate::markov::lemma_concat_tokens_stable(
                                    tok_views(m0.subtokens@),
                                    tok_views(self.subtokens@),
                                    m0.tokens@[token_buf@[k] as int].0@,
                                );
                                assert(self.tokens@[token_buf@[k] as int].0@
                                    == m0.tokens@[token_buf@[k] as int].0@);
                            }
                            // a set whose cells are all known appends
                            // nothing to the stores
                            if cells_known(g1, samples@) {
                                assert(m0.tokens@.len() == g1.tokens@.len());
                                assert(m0.subtokens@.len() == g1.subtokens@.len());
                                assert(tok_views(m0.subtokens@) =~= tok_views(g1.subtokens@))
                                    by {
                                    assert forall|j2: int|
                                        0 <= j2 < g1.subtokens@.len() implies tok_views(
                                        m0.subtokens@,
                                    )[j2] == tok_views(g1.subtokens@)[j2] by {
                                        assert(m0.subtokens@[j2] == g1.subtokens@[j2]);
                                    }
                                }
                                assert(samples@[s as int]->Tokens_0@[col as int]@
                                    == row_vec@[col as int]@);
                                let d = spec_tokenize(
                                    tok_views(g1.subtokens@),
                                    samples@[s as int]->Tokens_0@[col as int]@,
                                );
                                assert(d.0 == tok_views(g1.subtokens@) && exists|t2: int|
                                    #![trigger g1.tokens@[t2]]
                                    0 <= t2 < g1.tokens@.len()
                                        && g1.tokens@[t2].0@.map_values(|x: usize| x as int)
                                        == d.1);
                                assert(spec_tokenize(
                                    tok_views(m0.subtokens@),
                                    row_vec@[col as int]@,
                                ) == d);
                                assert(tok_views(m1.subtokens@) == d.0);
                                assert(m1.subtokens@.len() == m0.subtokens@.len()) by {
                                    assert(tok_views(m1.subtokens@).len()
                                        == m1.subtokens@.len());
                                    assert(tok_views(m0.subtokens@).len()
                                        == m0.subtokens@.len());
                                }
                                let kt = choose|t2: int|
                                    #![trigger g1.tokens@[t2]]
                                    0 <= t2 < g1.tokens@.len() && g1.tokens@[t2].0@.map_values(
                                        |x: usize| x as int,
                                    ) == d.1;
                                assert(m0.tokens@[kt].0@ == g1.tokens@[kt].0@);
                                assert(m1.tokens@[kt].0@ == m0.tokens@[kt].0@);
                                assert(m1.tokens@[ti as int].0@.map_values(|x: usize| x as int)
                                    == d.1);
                                assert(ti < m0.tokens@.len()) by {
                                    if ti >= m0.tokens@.len() {
                                        assert(kt < ti);
                                        assert(m1.tokens@[kt].0@.map_values(
                                            |x: usize| x as int,
                                        ) == d.1);
                                        assert(m1.tokens@[kt].0@.len() == d.1.len());
                                        assert(m1.tokens@[ti as int].0@.len() == d.1.len());
                                        assert(m1.tokens@[kt].0@ =~= m1.tokens@[ti as int].0@)
                                            by {
                                            assert forall|i2: int|
                                                0 <= i2 < m1.tokens@[kt].0@.len()
                                                    implies m1.tokens@[kt].0@[i2]
                                                    == m1.tokens@[ti as int].0@[i2] by {
                                                assert(m1.tokens@[kt].0@.map_values(
                                                    |x: usize| x as int,
                                                )[i2] == d.1[i2]);
                                                assert(m1.tokens@[ti as int].0@.map_values(
                                                    |x: usize| x as int,
                                                )[i2] == d.1[i2]);
                                            }
                                        }
                                        assert(false);
                                    }
                                }
                                assert(m1.tokens == m0.tokens);
                                assert(self.tokens@.len() == g1.tokens@.len());
                                assert(self.subtokens@.len() == g1.subtokens@.len());
                            }
                            assert(pool_cells_ok(
                                m0,
                                g1.token_rules@,
                                samples@,
                                tri@,
                                tokens_len as int,
                                s as int,
                                col as int,
                            ));
                            assert forall|j: int, q: int|
                                0 <= j < self.token_rules@.len()
                                    && g1.token_rules@[j].tokens@.len() <= q
                                    < self.token_rules@[j].tokens@.len() implies entry_from_cells(
                                *self,
                                samples@,
                                tri@,
                                tokens_len as int,
                                s as int,
                                col + 1,
                                j,
                                (#[trigger] self.token_rules@[j].tokens@[q]),
                            ) by {
                                let t = self.token_rules@[j].tokens@[q];
                                if j == tri@[col as int] && q >= m1.token_rules@[j].tokens@.len() {
                                    assert(self.token_rules@[j].tokens@
                                        == m1.token_rules@[j].tokens@.push(ti));
                                    assert(t == ti);
                                    assert(token_text(*self, ti as int) == row@[col as int]@);
                                    assert(0 <= s <= s && (col < col + 1) && 0 <= col < tokens_len
                                        && tri@[col as int] == j && token_text(*self, ti as int)
                                        == samples@[s as int]->Tokens_0@[col as int]@);
                                } else {
                                    assert(m1.token_rules@[j] == m0.token_rules@[j]);
                                    assert(t == m0.token_rules@[j].tokens@[q]);
                                    assert(q < m0.token_rules@[j].tokens@.len());
                                    assert(entry_from_cells(
                                        m0,
                                        samples@,
                                        tri@,
                                        tokens_len as int,
                                        s as int,
                                        col as int,
                                        j,
                                        t,
                                    ));
                                    let (s2, k): (int, int) = choose|s2: int, k: int|
                                        0 <= s2 <= s && (s2 < s || k < col) && 0 <= k < tokens_len
                                            && tri@[k] == j && token_text(
                                            m0,
                                            t as int,
                                        ) == samples@[s2]->Tokens_0@[k]@;
                                    assert(t < m0.tokens@.len());
                                    assert(self.tokens@[t as int].0@ == m0.tokens@[t as int].0@);
                                    crate::markov::lemma_concat_tokens_stable(
                                        tok_views(m0.subtokens@),
                                        tok_views(self.subtokens@),
                                        m0.tokens@[t as int].0@,
                                    );
                                    assert(token_text(*self, t as int) == token_text(
                                        m0,
                                        t as int,
                                    ));
                                    assert(0 <= s2 <= s && (s2 < s || k < col + 1) && 0 <= k
                                        < tokens_len && tri@[k] == j && token_text(
                                        *self,
                                        t as int,
                                    ) == samples@[s2]->Tokens_0@[k]@);
                                }
                            }
                            assert(pool_cells_ok(
                                *self,
                                g1.token_rules@,
                                samples@,
                                tri@,
                                tokens_len as int,
                                s as int,
                                col + 1,
                            ));
                            assert forall|j: int|
                                0 <= j < g1.token_rules@.len() implies seq_extended(
                                g1.token_rules@[j].tokens@,
                                (#[trigger] self.token_rules@[j].tokens)@,
                            ) by {
                                assert((self.token_rules@[j].name)@
                                    == g1.token_rules@[j].name@ && seq_extended(
                                    g1.token_rules@[j].tokens@,
                                    self.token_rules@[j].tokens@,
                                ));
                            }
                        }
                        proof {
                            assert forall|k: int|
                                0 <= k < col + 1 implies (
                            #[trigger] self.token_rules@[tri@[k] as int].tokens@.len()) >= 1 by {
                                if tri@[k] == tri@[col as int] {
                                    assert(self.token_rules@[tri@[col as int] as int].tokens@
                                        == m1.token_rules@[tri@[col as int] as int].tokens@.push(
                                        ti,
                                    ));
                                    assert(self.token_rules@[tri@[col as int] as int].tokens@.len()
                                        >= 1);
                                } else {
                                    assert(k < col);
                                    assert(m0.token_rules@[tri@[k] as int].tokens@.len() >= 1);
                                    assert(m1.token_rules@[tri@[k] as int]
                                        == m0.token_rules@[tri@[k] as int]);
                                    assert(self.token_rules@[tri@[k] as int]
                                        == m1.token_rules@[tri@[k] as int]);
                                }
                            }
                        }
                        token_buf.push(ti);
                        col = col + 1;
                    }
                },
                _ => {
                    proof {
                        assert(false);
                    }
                },
            }
            let ghost before_freq = *self;
            self.learn_subtoken_frequencies(&token_buf);
            proof {
                assert forall|j: int|
                    0 <= j < g1.subtoken_frequencies@.len()
                        implies #[trigger] self.subtoken_frequencies@[j]
                        >= g1.subtoken_frequencies@[j] by {
                    assert(g1.subtoken_frequencies@.len()
                        <= before_freq.subtoken_frequencies@.len());
                    assert(self.subtoken_frequencies@[j]
                        >= before_freq.subtoken_frequencies@[j]);
                }
                // the finished row joins the learned rows: its ceilings were
                // just raised to cover it
                lemma_rows_covered_grown(
                    before_freq,
                    *self,
                    samples@.take(s as int),
                    tokens_len as int,
                    rows,
                );
                assert(samples@.take(s as int + 1) =~= samples@.take(s as int).push(
                    samples@[s as int],
                ));
                assert(rows_covered(
                    *self,
                    samples@.take(s as int + 1),
                    tokens_len as int,
                    rows.push(token_buf@),
                )) by {
                    assert forall|k: int|
                        0 <= k < tokens_len implies (#[trigger] token_buf@[k])
                            < self.tokens@.len() && token_text(*self, token_buf@[k] as int)
                            == samples@[s as int]->Tokens_0@[k]@ by {
                        assert(token_buf@[k] < before_freq.tokens@.len() && token_text(
                            before_freq,
                            token_buf@[k] as int,
                        ) == row@[k]@);
                        assert(self.tokens == before_freq.tokens);
                        assert(self.subtokens == before_freq.subtokens);
                    }
                    assert forall|st: usize|
                        #[trigger] count_tok(
                            flatten_subtokens(self.tokens@, token_buf@),
                            st,
                        ) <= (if (st as int) < self.subtoken_frequencies@.len() {
                            self.subtoken_frequencies@[st as int] as int
                        } else {
                            0
                        }) by {
                        crate::markov::lemma_count_tok_nonneg(
                            flatten_subtokens(self.tokens@, token_buf@),
                            st,
                        );
                        if (st as int) < self.subtoken_frequencies@.len() {
                            assert(self.subtoken_frequencies@[st as int] as int
                                == crate::markov::int_max(
                                before_freq.subtoken_frequencies@[st as int] as int,
                                count_tok(
                                    flatten_subtokens(before_freq.tokens@, token_buf@),
                                    st,
                                ),
                            ));
                        } else {
                            lemma_flatten_bounded(
                                self.tokens@,
                                token_buf@,
                                self.subtokens@.len() as int,
                            );
                            if count_tok(flatten_subtokens(self.tokens@, token_buf@), st)
                                > 0 {
                                crate::markov::lemma_count_pos_member(
                                    flatten_subtokens(self.tokens@, token_buf@),
                                    st,
                                );
                            }
                        }
                    }
                    assert forall|s2: int, k: int|
                        0 <= s2 < rows.push(token_buf@).len() && 0 <= k < tokens_len implies (
                    #[trigger] rows.push(token_buf@)[s2][k]) < self.tokens@.len() && token_text(
                        *self,
                        rows.push(token_buf@)[s2][k] as int,
                    ) == samples@.take(s as int + 1)[s2]->Tokens_0@[k]@ by {
                        if s2 < rows.len() {
                            assert(rows.push(token_buf@)[s2] == rows[s2]);
                            assert(samples@.take(s as int + 1)[s2] == samples@.take(
                                s as int,
                            )[s2]);
                        } else {
                            assert(rows.push(token_buf@)[s2] == token_buf@);
                            assert(samples@.take(s as int + 1)[s2] == samples@[s as int]);
                        }
                    }
                    assert forall|s2: int, st: usize|
                        0 <= s2 < rows.push(token_buf@).len() implies #[trigger] count_tok(
                        flatten_subtokens(self.tokens@, rows.push(token_buf@)[s2]),
                        st,
                    ) <= (if (st as int) < self.subtoken_frequencies@.len() {
                        self.subtoken_frequencies@[st as int] as int
                    } else {
                        0
                    }) by {
                        if s2 < rows.len() {
                            assert(rows.push(token_buf@)[s2] == rows[s2]);
                        } else {
                            assert(rows.push(token_buf@)[s2] == token_buf@);
                        }
                    }
                }
                rows = rows.push(token_buf@);
                lemma_pool_cells_same_model(
                    before_freq,
                    *self,
                    g1.token_rules@,
                    samples@,
                    tri@,
                    tokens_len as int,
                    s as int,
                    tokens_len as int,
                );
                lemma_pool_cells_next_sample(
                    *self,
                    g1.token_rules@,
                    samples@,
                    tri@,
                    tokens_len as int,
                    s as int,
                );
            }
            s = s + 1;
        }
        proof {
            assert(g1.total_result_weight == old(self).total_result_weight);
            assert(g1.subtokens == old(self).subtokens);
            assert(g1.subtoken_frequencies == old(self).subtoken_frequencies);
            assert(g1.tokens == old(self).tokens);
            assert forall|j: int|
                0 <= j < g0.token_rules@.len() implies #[trigger] g1.token_rules@[j]
                    == old(self).token_rules@[j] by {
                assert(g1.token_rules@[j] == g0.token_rules@[j]);
            }
            if result_index < g0.result_rules@.len() {
                assert(g1.result_rules == old(self).result_rules);
            } else {
                assert(g1.result_rules@[result_index as int].weight == 0);
                assert(g1.result_rules@.len() == old(self).result_rules@.len() + 1);
                assert forall|j: int|
                    0 <= j < old(self).result_rules@.len() implies (
                #[trigger] g1.result_rules@[j].token_rules)@
                    == old(self).result_rules@[j].token_rules@ && g1.result_rules@[j].weight
                    == old(self).result_rules@[j].weight by {}
            }
            assert forall|j: int|
                0 <= j < old(self).result_rules@.len() && j != result_index implies (
            #[trigger] self.result_rules@[j].token_rules)@
                == old(self).result_rules@[j].token_rules@ by {
                assert(j < g1.result_rules@.len());
                assert(self.result_rules@[j].token_rules@ == g1.result_rules@[j].token_rules@);
                if result_index < g0.result_rules@.len() {
                    assert(g1.result_rules@[j] == old(self).result_rules@[j]);
                } else {
                    assert(g1.result_rules@[j].token_rules@
                        == old(self).result_rules@[j].token_rules@);
                }
            }
            assert forall|j: int|
                0 <= j < old(self).result_rules@.len() && j != result_index implies (
            #[trigger] self.result_rules@[j].weight) == old(self).result_rules@[j].weight by {
                assert(j < g1.result_rules@.len());
                assert(self.result_rules@[j].token_rules@ == g1.result_rules@[j].token_rules@);
                assert(self.result_rules@[j].weight == g1.result_rules@[j].weight);
                if result_index < g0.result_rules@.len() {
                    assert(g1.result_rules == old(self).result_rules);
                    assert(g1.result_rules@[j] == old(self).result_rules@[j]);
                } else {
                    assert(g1.result_rules@[j].weight == old(self).result_rules@[j].weight);
                }
            }
            lemma_rr_shape_intro(
                old(self).result_rules@,
                self.result_rules@,
                result_index as int,
                n_samples as int,
            );
            // the learned row shape carries the column tuple, which is
            // resolved by the labels and matched against the old shapes
            assert(self.result_rules@[result_index as int].token_rules@ == tri@);
            assert(tri@.len() == tokens_len as int);
            if n_labels == 0 {
                assert(samples@[0] is Tokens && samples@[0]->Tokens_0@.len() == tokens_len);
            }
            // a fully known set appended nothing to the stores
            if cells_known(*old(self), samples@) {
                lemma_cells_known_same_stores(*old(self), g1, samples@);
                assert(self.tokens@.len() == old(self).tokens@.len());
                assert(self.subtokens@.len() == old(self).subtokens@.len());
            }
            // one learned row per sample, each covered by the ceilings
            assert(samples@.take(n_samples as int) =~= samples@);
            assert(rows_covered(*self, samples@, set_columns(*sample_set), rows));
            assert forall|k: int|
                0 <= k < labels@.len() && labels@[k]@ != seq!['*'] implies (
            #[trigger] self.token_rules@[tri@[k] as int].name)@ == labels@[k]@ by {
                assert((self.token_rules@[tri@[k] as int].name)@ == g1.token_rules@[tri@[k] as int].name@);
            }
            assert(g0 == *old(self));
            if labels@.len() > 0 && (forall|k: int|
                0 <= k < labels@.len() ==> (#[trigger] labels@[k])@ != seq!['*']
                    && slot_key_index(old(self).token_rules@, labels@[k]@)
                    < old(self).token_rules@.len()) {
                assert(g1.token_rules@.len() == g0.token_rules@.len());
                assert(self.token_rules@.len() == old(self).token_rules@.len());
            }
            let ghost tuple = self.result_rules@[result_index as int].token_rules@;
            assert(tuple == tri@);
            assert(pool_cells_ok(
                *self,
                old(self).token_rules@,
                samples@,
                tuple,
                tuple.len() as int,
                n_samples as int,
                0,
            )) by {
                assert forall|j: int, q: int|
                    0 <= j < self.token_rules@.len()
                        && old(self).token_rules@[j].tokens@.len() <= q
                        < self.token_rules@[j].tokens@.len() implies entry_from_cells(
                    *self,
                    samples@,
                    tuple,
                    tuple.len() as int,
                    n_samples as int,
                    0,
                    j,
                    (#[trigger] self.token_rules@[j].tokens@[q]),
                ) by {
                    let t = self.token_rules@[j].tokens@[q];
                    assert(g1.token_rules@[j].tokens@.len() <= q) by {
                        if j < old(self).token_rules@.len() {
                            assert(g1.token_rules@[j] == old(self).token_rules@[j]);
                        } else {
                            assert(g1.token_rules@[j].tokens@.len() == 0);
                        }
                    }
                    assert(entry_from_cells(
                        *self,
                        samples@,
                        tri@,
                        tokens_len as int,
                        n_samples as int,
                        0,
                        j,
                        t,
                    ));
                    let (s2, k): (int, int) = choose|s2: int, k: int|
                        0 <= s2 <= n_samples && (s2 < n_samples || k < 0) && 0 <= k < tokens_len
                            && tri@[k] == j && token_text(*self, t as int)
                            == samples@[s2]->Tokens_0@[k]@;
                    assert(tuple[k] == tri@[k]);
                    assert(0 <= s2 <= n_samples && (s2 < n_samples || k < 0) && 0 <= k
                        < tuple.len() && tuple[k] == j && token_text(*self, t as int)
                        == samples@[s2]->Tokens_0@[k]@);
                }
            }
            // every slot a row shape refers to has a nonempty pool
            assert forall|i: int, k: int|
                0 <= i < self.result_rules@.len() && 0 <= k
                    < self.result_rules@[i].token_rules@.len() implies self.token_rules@[(
            #[trigger] self.result_rules@[i].token_rules@[k]) as int].tokens@.len() >= 1 by {
                if i == result_index {
                    assert(self.result_rules@[i].token_rules@ == tri@);
                    assert(self.token_rules@[tri@[k] as int].tokens@.len() >= 1);
                } else {
                    assert(i < g0.result_rules@.len());
                    assert((self.result_rules@[i].token_rules)@
                        == g1.result_rules@[i].token_rules@);
                    assert(self.result_rules@[i].token_rules@
                        == old(self).result_rules@[i].token_rules@);
                    let p = old(self).result_rules@[i].token_rules@[k];
                    assert(p < old(self).token_rules@.len());
                    assert(old(self).token_rules@.len() <= g1.token_rules@.len());
                    assert(old(self).token_rules@[p as int].tokens@.len() >= 1);
                    assert(g1.token_rules@[p as int] == old(self).token_rules@[p as int]);
                    let trig = (self.token_rules@[p as int].name)@;
                    assert(seq_extended(
                        g1.token_rules@[p as int].tokens@,
                        self.token_rules@[p as int].tokens@,
                    ));
                    assert(self.token_rules@[p as int].tokens@.len()
                        >= g1.token_rules@[p as int].tokens@.len());
                }
            }
            // weights stay positive
            assert forall|i: int|
                0 <= i < self.result_rules@.len() implies (
            #[trigger] self.result_rules@[i].weight) >= 1 by {
                if i != result_index {
                    assert(i < g0.result_rules@.len());
                    assert((self.result_rules@[i].token_rules)@
                        == g1.result_rules@[i].token_rules@);
                    assert(self.result_rules@[i].weight == g1.result_rules@[i].weight);
                    assert(self.result_rules@[i].weight == old(self).result_rules@[i].weight);
                }
            }
            // changes relative to the state the call began with
            assert forall|j: int|
                0 <= j < old(self).token_rules@.len() implies (
            #[trigger] final(self).token_rules@[j].name)@ == old(self).token_rules@[j].name@
                && seq_extended(
                old(self).token_rules@[j].tokens@,
                final(self).token_rules@[j].tokens@,
            ) by {
                assert(g1.token_rules@[j] == old(self).token_rules@[j]);
                assert((self.token_rules@[j].name)@ == g1.token_rules@[j].name@ && seq_extended(
                    g1.token_rules@[j].tokens@,
                    self.token_rules@[j].tokens@,
                ));
            }
        }
        Ok(())
    }
}

/// What the slot-creation phase may change: only the slot list grows, and
/// the slots that already existed keep their content.
pub open spec fn grammar_phase_a(g0: CFGrammar, g: CFGrammar) -> bool {
    &&& g.tokens == g0.tokens
    &&& g.subtokens == g0.subtokens
    &&& g.subtoken_frequencies == g0.subtoken_frequencies
    &&& g.result_rules == g0.result_rules
    &&& g.total_result_weight == g0.total_result_weight
    &&& g.rlf == g0.rlf && g.ral == g0.ral
    &&& g.token_rules@.len() >= g0.token_rules@.len()
    &&& forall|j: int|
        0 <= j < g0.token_rules@.len() ==> #[trigger] g.token_rules@[j] == g0.token_rules@[j]
    &&& forall|j: int|
        g0.token_rules@.len() <= j < g.token_rules@.len()
            ==> (#[trigger] g.token_rules@[j].tokens@).len() == 0
}

impl CFGrammar {
    /// Split a column's text into subtoken indices by the greedy
    /// longest-known-prefix rule, minting a new single-character subtoken
    /// with a frequency ceiling of one wherever nothing matches. Only the
    /// subtoken store and its ceiling table change.
    fn decompose(&mut self, chars: &Vec<char>) -> (ixs: Vec<usize>)
        requires
            tokens_nonempty(tok_views(old(self).subtokens@)),
            tokens_distinct(tok_views(old(self).subtokens@)),
            old(self).subtoken_frequencies@.len() == old(self).subtokens@.len(),
        ensures
            tok_views(final(self).subtokens@) == spec_tokenize(
                tok_views(old(self).subtokens@),
                chars@,
            ).0,
            ixs@.map_values(|x: usize| x as int) == spec_tokenize(
                tok_views(old(self).subtokens@),
                chars@,
            ).1,
            final(self).tokens == old(self).tokens,
            final(self).token_rules == old(self).token_rules,
            final(self).result_rules == old(self).result_rules,
            final(self).total_result_weight == old(self).total_result_weight,
            final(self).rlf == old(self).rlf,
            final(self).ral == old(self).ral,
            final(self).subtokens@.len() >= old(self).subtokens@.len(),
            forall|j: int|
                0 <= j < old(self).subtokens@.len() ==> final(self).subtokens@[j] == old(self).subtokens@[j],
            final(self).subtoken_frequencies@.len() == final(self).subtokens@.len(),
            forall|j: int|
                0 <= j < old(self).subtokens@.len() ==> final(self).subtoken_frequencies@[j]
                    == old(self).subtoken_frequencies@[j],
            forall|j: int|
                old(self).subtokens@.len() <= j < final(self).subtokens@.len() ==> final(self).subtoken_frequencies@[j] == 1,
            tokens_nonempty(tok_views(final(self).subtokens@)),
            tokens_distinct(tok_views(final(self).subtokens@)),
            forall|k: int|
                0 <= k < ixs@.len() ==> #[trigger] ixs@[k] < final(self).subtokens@.len(),
    {
        let ghost tv0 = tok_views(old(self).subtokens@);
        let mut ixs: Vec<usize> = Vec::new();
        let mut pos: usize = 0;
        let n_word = chars.len();
        proof {
            assert(chars@.skip(0) =~= chars@);
            assert(ixs@.map_values(|x: usize| x as int) =~= Seq::<int>::empty());
            assert(Seq::<int>::empty() + spec_tokenize(tv0, chars@).1 =~= spec_tokenize(
                tv0,
                chars@,
            ).1);
        }
        while pos < n_word
            invariant
                pos <= n_word == chars@.len(),
                tokens_nonempty(tok_views(self.subtokens@)),
                tokens_distinct(tok_views(self.subtokens@)),
                self.subtoken_frequencies@.len() == self.subtokens@.len(),
                spec_tokenize(tv0, chars@).0 == spec_tokenize(
                    tok_views(self.subtokens@),
                    chars@.skip(pos as int),
                ).0,
                spec_tokenize(tv0, chars@).1 == ixs@.map_values(|x: usize| x as int)
                    + spec_tokenize(tok_views(self.subtokens@), chars@.skip(pos as int)).1,
                self.tokens == old(self).tokens,
                self.token_rules == old(self).token_rules,
                self.result_rules == old(self).result_rules,
                self.total_result_weight == old(self).total_result_weight,
                self.rlf == old(self).rlf,
                self.ral == old(self).ral,
                self.subtokens@.len() >= old(self).subtokens@.len(),
                forall|j: int|
                    0 <= j < old(self).subtokens@.len() ==> self.subtokens@[j] == old(self).subtokens@[j],
                forall|j: int|
                    0 <= j < old(self).subtokens@.len() ==> self.subtoken_frequencies@[j] == old(self).subtoken_frequencies@[j],
                forall|j: int|
                    old(self).subtokens@.len() <= j < self.subtokens@.len()
                        ==> self.subtoken_frequencies@[j] == 1,
                forall|k: int| 0 <= k < ixs@.len() ==> #[trigger] ixs@[k] < self.subtokens@.len(),
            decreases n_word - pos,
        {
            let ghost tv_cur = tok_views(self.subtokens@);
            let ghost rem = chars@.skip(pos as int);
            proof {
                assert(rem.len() > 0);
            }
            let found = scan_best_match(&self.subtokens, chars, pos);
            match found {
                Some(ti) => {
                    let tl = self.subtokens[ti].unicode_len();
                    proof {
                        crate::markov::lemma_match_good_public(tv_cur, rem);
                        assert(is_prefix_of(tv_cur[ti as int], rem));
                        assert(crate::markov::tok_step(tv_cur, rem) == tl as int);
                        assert(ixs@.push(ti).map_values(|x: usize| x as int) =~= ixs@.map_values(
                            |x: usize| x as int,
                        ).push(ti as int));
                        assert(ixs@.map_values(|x: usize| x as int) + (seq![ti as int]
                            + spec_tokenize(tv_cur, rem.skip(tl as int)).1) =~= ixs@.map_values(
                            |x: usize| x as int,
                        ).push(ti as int) + spec_tokenize(tv_cur, rem.skip(tl as int)).1);
                        assert(rem.skip(tl as int) =~= chars@.skip(pos + tl));
                    }
                    ixs.push(ti);
                    pos = pos + tl;
                },
                None => {
                    let c = chars[pos];
                    let mut one: Vec<char> = Vec::new();
                    one.push(c);
                    let minted = crate::formatting::string_from_chars(&one);
                    let new_index = self.subtokens.len();
                    let ghost new_ix: int = new_index as int;
                    proof {
                        crate::markov::lemma_match_none_public(tv_cur, rem);
                        assert(minted@ =~= rem.take(1));
                        assert(tok_views(self.subtokens@.push(minted)) =~= tv_cur.push(
                            rem.take(1),
                        ));
                        assert forall|j: int|
                            0 <= j < tv_cur.len() implies tv_cur[j] != rem.take(1) by {
                            if tv_cur[j] == rem.take(1) {
                                assert(tv_cur[j].len() == 1);
                                assert(is_prefix_of(tv_cur[j], rem));
                            }
                        }
                        assert(ixs@.push((new_ix as usize)).map_values(|x: usize| x as int)
                            =~= ixs@.map_values(|x: usize| x as int).push(new_ix));
                        assert(ixs@.map_values(|x: usize| x as int) + (seq![new_ix]
                            + spec_tokenize(tv_cur.push(rem.take(1)), rem.skip(1)).1)
                            =~= ixs@.map_values(|x: usize| x as int).push(new_ix)
                            + spec_tokenize(tv_cur.push(rem.take(1)), rem.skip(1)).1);
                        assert(rem.skip(1) =~= chars@.skip(pos + 1));
                    }
                    self.subtokens.push(minted);
                    self.subtoken_frequencies.push(1);
                    ixs.push(new_index);
                    pos = pos + 1;
                },
            }
        }
        proof {
            assert(chars@.skip(n_word as int) =~= Seq::<char>::empty());
            assert(ixs@.map_values(|x: usize| x as int) + Seq::<int>::empty() =~= ixs@.map_values(
                |x: usize| x as int,
            ));
        }
        ixs
    }

    /// Find or create the token for a column's text: the text is split
    /// into subtokens and the token is deduplicated by that exact
    /// sequence.
    fn ensure_token(&mut self, token_str: &String) -> (r: usize)
        requires
            tokens_nonempty(tok_views(old(self).subtokens@)),
            tokens_distinct(tok_views(old(self).subtokens@)),
            old(self).subtoken_frequencies@.len() == old(self).subtokens@.len(),
            forall|i: int, k: int|
                0 <= i < old(self).tokens@.len() && 0 <= k < old(self).tokens@[i].0@.len()
                    ==> #[trigger] old(self).tokens@[i].0@[k] < old(self).subtokens@.len(),
        ensures
            r < final(self).tokens@.len(),
            final(self).tokens@[r as int].0@.map_values(|x: usize| x as int) == spec_tokenize(
                tok_views(old(self).subtokens@),
                token_str@,
            ).1,
            token_text(*final(self), r as int) == token_str@,
            forall|j: int|
                0 <= j < r ==> (#[trigger] final(self).tokens@[j].0@)
                    != final(self).tokens@[r as int].0@,
            r < old(self).tokens@.len() ==> final(self).tokens == old(self).tokens,
            tok_views(final(self).subtokens@) == spec_tokenize(
                tok_views(old(self).subtokens@),
                token_str@,
            ).0,
            final(self).tokens@.len() >= old(self).tokens@.len(),
            final(self).tokens@.len() <= old(self).tokens@.len() + 1,
            forall|j: int|
                0 <= j < old(self).tokens@.len() ==> (#[trigger] final(self).tokens@[j]).0@ == old(self).tokens@[j].0@,
            forall|i: int, k: int|
                0 <= i < final(self).tokens@.len() && 0 <= k < final(self).tokens@[i].0@.len()
                    ==> #[trigger] final(self).tokens@[i].0@[k] < final(self).subtokens@.len(),
            final(self).token_rules == old(self).token_rules,
            final(self).result_rules == old(self).result_rules,
            final(self).total_result_weight == old(self).total_result_weight,
            final(self).rlf == old(self).rlf,
            final(self).ral == old(self).ral,
            final(self).subtokens@.len() >= old(self).subtokens@.len(),
            forall|j: int|
                0 <= j < old(self).subtokens@.len() ==> final(self).subtokens@[j] == old(self).subtokens@[j],
            final(self).subtoken_frequencies@.len() == final(self).subtokens@.len(),
            forall|j: int|
                0 <= j < old(self).subtoken_frequencies@.len() ==> final(self).subtoken_frequencies@[j] >= old(self).subtoken_frequencies@[j],
            tokens_nonempty(tok_views(final(self).subtokens@)),
            tokens_distinct(tok_views(final(self).subtokens@)),
    {
        let chars = crate::formatting::str_to_chars(token_str.as_str());
        let ixs = self.decompose(&chars);
        proof {
            crate::markov::lemma_tokenize_concat(
                tok_views(old(self).subtokens@),
                chars@,
                ixs@,
            );
        }
        let n_tokens = self.tokens.len();
        let mut i: usize = 0;
        loop
            invariant_except_break
                i <= n_tokens,
                forall|j: int| 0 <= j < i ==> (#[trigger] self.tokens@[j].0@) != ixs@,
            invariant
                n_tokens == self.tokens@.len(),
                forall|k: int| 0 <= k < ixs@.len() ==> #[trigger] ixs@[k] < self.subtokens@.len(),
            ensures
                i <= n_tokens,
                i < n_tokens ==> self.tokens@[i as int].0@ == ixs@,
                forall|j: int| 0 <= j < i ==> (#[trigger] self.tokens@[j].0@) != ixs@,
            decreases n_tokens - i,
        {
            if i >= n_tokens {
                break ;
            }
            if usize_vec_eq(&self.tokens[i].0, &ixs) {
                break ;
            }
            i = i + 1;
        }
        if i < n_tokens {
            return i;
        }
        self.tokens.push(Token(ixs));
        n_tokens
    }

    /// Create a fresh anonymous slot with an empty pool.
    fn ensure_anon_token_rule(&mut self) -> (r: usize)
        ensures
            r == old(self).token_rules@.len(),
            final(self).token_rules@.len() == old(self).token_rules@.len() + 1,
            forall|j: int|
                0 <= j < old(self).token_rules@.len() ==> #[trigger] final(self).token_rules@[j]
                    == old(self).token_rules@[j],
            final(self).token_rules@[r as int].tokens@.len() == 0,
            final(self).token_rules@[r as int].name@ == anon_prefix() + decimal_of(
                old(self).token_rules@.len() as int,
            ),
            final(self).tokens == old(self).tokens,
            final(self).subtokens == old(self).subtokens,
            final(self).subtoken_frequencies == old(self).subtoken_frequencies,
            final(self).result_rules == old(self).result_rules,
            final(self).total_result_weight == old(self).total_result_weight,
            final(self).rlf == old(self).rlf,
            final(self).ral == old(self).ral,
    {
        let n = self.token_rules.len();
        let name = anon_rule_name(n);
        self.token_rules.push(TokenRule { name, tokens: Vec::new() });
        n
    }

    /// Find the first slot of this name, or create it with an empty pool.
    fn ensure_token_rule(&mut self, name: &String) -> (r: usize)
        ensures
            r < final(self).token_rules@.len(),
            r as int == slot_key_index(old(self).token_rules@, name@),
            forall|j: int|
                0 <= j < r ==> (#[trigger] final(self).token_rules@[j].name)@ != name@,
            final(self).token_rules@.len() >= old(self).token_rules@.len(),
            final(self).token_rules@.len() <= old(self).token_rules@.len() + 1,
            forall|j: int|
                0 <= j < old(self).token_rules@.len() ==> #[trigger] final(self).token_rules@[j]
                    == old(self).token_rules@[j],
            r >= old(self).token_rules@.len() ==> r == old(self).token_rules@.len() && final(self).token_rules@.len() == old(self).token_rules@.len() + 1 && final(self).token_rules@[r as int].tokens@.len() == 0,
            r < old(self).token_rules@.len() ==> final(self).token_rules == old(self).token_rules,
            final(self).token_rules@[r as int].name@ == name@,
            final(self).tokens == old(self).tokens,
            final(self).subtokens == old(self).subtokens,
            final(self).subtoken_frequencies == old(self).subtoken_frequencies,
            final(self).result_rules == old(self).result_rules,
            final(self).total_result_weight == old(self).total_result_weight,
            final(self).rlf == old(self).rlf,
            final(self).ral == old(self).ral,
    {
        let n = self.token_rules.len();
        let mut i: usize = 0;
        while i < n
            invariant
                i <= n == self.token_rules@.len(),
                *self == *old(self),
                forall|j: int| 0 <= j < i ==> (#[trigger] self.token_rules@[j].name)@ != name@,
            decreases n - i,
        {
            if string_eq(&self.token_rules[i].name, name) {
                proof {
                    lemma_slot_key_from_scan(self.token_rules@, name@, i as int);
                }
                return i;
            }
            i = i + 1;
        }
        proof {
            lemma_slot_key_from_scan(self.token_rules@, name@, n as int);
        }
        self.token_rules.push(TokenRule { name: clone_string(name), tokens: Vec::new() });
        n
    }

    /// Find the row shape with exactly this slot tuple, or create it with
    /// weight zero.
    fn ensure_result_rule(&mut self, tri: &Vec<usize>) -> (r: usize)
        ensures
            r < final(self).result_rules@.len(),
            final(self).result_rules@.len() >= old(self).result_rules@.len(),
            final(self).result_rules@.len() <= old(self).result_rules@.len() + 1,
            forall|j: int|
                0 <= j < old(self).result_rules@.len() ==> (#[trigger] final(self).result_rules@[j].token_rules)@ == old(self).result_rules@[j].token_rules@
                    && final(self).result_rules@[j].weight == old(self).result_rules@[j].weight,
            final(self).result_rules@[r as int].token_rules@ == tri@,
            r >= old(self).result_rules@.len() ==> final(self).result_rules@.len() == old(self).result_rules@.len() + 1 && final(self).result_rules@[r as int].weight == 0,
            r < old(self).result_rules@.len() ==> final(self).result_rules == old(self).result_rules,
            r >= old(self).result_rules@.len() ==> forall|j: int|
                0 <= j < old(self).result_rules@.len()
                    ==> (#[trigger] old(self).result_rules@[j].token_rules@) != tri@,
            r < old(self).result_rules@.len() ==> forall|j: int|
                0 <= j < r ==> (#[trigger] old(self).result_rules@[j].token_rules@) != tri@,
            sum_usize(rr_weights(final(self).result_rules@)) == sum_usize(
                rr_weights(old(self).result_rules@),
            ),
            final(self).tokens == old(self).tokens,
            final(self).subtokens == old(self).subtokens,
            final(self).subtoken_frequencies == old(self).subtoken_frequencies,
            final(self).token_rules == old(self).token_rules,
            final(self).total_result_weight == old(self).total_result_weight,
            final(self).rlf == old(self).rlf,
            final(self).ral == old(self).ral,
    {
        let n = self.result_rules.len();
        let mut i: usize = 0;
        while i < n
            invariant
                i <= n == self.result_rules@.len(),
                *self == *old(self),
                forall|j: int|
                    0 <= j < i ==> (#[trigger] self.result_rules@[j].token_rules@) != tri@,
            decreases n - i,
        {
            if usize_vec_eq(&self.result_rules[i].token_rules, tri) {
                return i;
            }
            i = i + 1;
        }
        let mut tuple: Vec<usize> = Vec::new();
        let mut k: usize = 0;
        while k < tri.len()
            invariant
                k <= tri@.len(),
                tuple@.len() == k,
                forall|j: int| 0 <= j < k ==> tuple@[j] == tri@[j],
                *self == *old(self),
            decreases tri@.len() - k,
        {
            tuple.push(tri[k]);
            k = k + 1;
        }
        proof {
            assert(tuple@ =~= tri@);
            lemma_sum_usize_snoc(rr_weights(self.result_rules@).push(0usize));
            assert(rr_weights(self.result_rules@).push(0usize).drop_last() =~= rr_weights(
                self.result_rules@,
            ));
        }
        let ghost pre = self.result_rules@;
        self.result_rules.push(ResultRule { token_rules: tuple, weight: 0 });
        proof {
            assert(rr_weights(self.result_rules@) =~= rr_weights(pre).push(0usize));
        }
        n
    }

    /// Raise the frequency ceiling of every subtoken that occurs in this
    /// composed row to at least its count within the row.
    fn learn_subtoken_frequencies(&mut self, token_indices: &Vec<usize>)
        requires
            forall|k: int|
                0 <= k < token_indices@.len() ==> #[trigger] token_indices@[k] < old(self).tokens@.len(),
            forall|i: int, k: int|
                0 <= i < old(self).tokens@.len() && 0 <= k < old(self).tokens@[i].0@.len()
                    ==> #[trigger] old(self).tokens@[i].0@[k] < old(self).subtokens@.len(),
            old(self).subtoken_frequencies@.len() == old(self).subtokens@.len(),
        ensures
            final(self).subtoken_frequencies@.len() == old(self).subtoken_frequencies@.len(),
            forall|j: int|
                0 <= j < old(self).subtoken_frequencies@.len() ==> #[trigger] final(self).subtoken_frequencies@[j] >= old(self).subtoken_frequencies@[j],
            forall|st: usize|
                (st as int) < final(self).subtoken_frequencies@.len()
                    ==> (#[trigger] final(self).subtoken_frequencies@[st as int]) as int
                    == crate::markov::int_max(
                    old(self).subtoken_frequencies@[st as int] as int,
                    count_tok(flatten_subtokens(old(self).tokens@, token_indices@), st),
                ),
            final(self).tokens == old(self).tokens,
            final(self).subtokens == old(self).subtokens,
            final(self).token_rules == old(self).token_rules,
            final(self).result_rules == old(self).result_rules,
            final(self).total_result_weight == old(self).total_result_weight,
            final(self).rlf == old(self).rlf,
            final(self).ral == old(self).ral,
    {
        let mut flat: Vec<usize> = Vec::new();
        let n_ti = token_indices.len();
        let mut i: usize = 0;
        proof {
            assert(token_indices@.take(0) =~= Seq::<usize>::empty());
        }
        while i < n_ti
            invariant
                i <= n_ti == token_indices@.len(),
                forall|k: int|
                    0 <= k < token_indices@.len() ==> #[trigger] token_indices@[k]
                        < self.tokens@.len(),
                forall|i2: int, k: int|
                    0 <= i2 < self.tokens@.len() && 0 <= k < self.tokens@[i2].0@.len()
                        ==> #[trigger] self.tokens@[i2].0@[k] < self.subtokens@.len(),
                forall|q: int| 0 <= q < flat@.len() ==> #[trigger] flat@[q] < self.subtokens@.len(),
                flat@ == flatten_subtokens(self.tokens@, token_indices@.take(i as int)),
                *self == *old(self),
            decreases n_ti - i,
        {
            let ti = token_indices[i];
            let n_sub = self.tokens[ti].0.len();
            let mut k: usize = 0;
            let ghost flat_start = flat@;
            while k < n_sub
                invariant
                    k <= n_sub == self.tokens@[ti as int].0@.len(),
                    ti < self.tokens@.len(),
                    ti == token_indices@[i as int],
                    i < token_indices@.len(),
                    forall|i2: int, k2: int|
                        0 <= i2 < self.tokens@.len() && 0 <= k2 < self.tokens@[i2].0@.len()
                            ==> #[trigger] self.tokens@[i2].0@[k2] < self.subtokens@.len(),
                    forall|q: int|
                        0 <= q < flat@.len() ==> #[trigger] flat@[q] < self.subtokens@.len(),
                    flat_start == flatten_subtokens(self.tokens@, token_indices@.take(i as int)),
                    flat@ == flat_start + self.tokens@[ti as int].0@.take(k as int),
                    *self == *old(self),
                decreases n_sub - k,
            {
                proof {
                    assert(flat@.push(self.tokens@[ti as int].0@[k as int]) =~= flat_start
                        + self.tokens@[ti as int].0@.take(k as int + 1));
                }
                flat.push(self.tokens[ti].0[k]);
                k = k + 1;
            }
            proof {
                lemma_flatten_snoc(self.tokens@, token_indices@, i as int);
                assert(self.tokens@[ti as int].0@.take(n_sub as int)
                    =~= self.tokens@[ti as int].0@);
            }
            i = i + 1;
        }
        proof {
            assert(token_indices@.take(n_ti as int) =~= token_indices@);
            assert(flat@ == flatten_subtokens(self.tokens@, token_indices@));
        }
        let ghost flat_all = flat@;
        let n_flat = flat.len();
        let mut p: usize = 0;
        while p < n_flat
            invariant
                p <= n_flat == flat@.len(),
                flat@ == flat_all,
                forall|q: int| 0 <= q < flat@.len() ==> #[trigger] flat@[q] < self.subtokens@.len(),
                self.subtoken_frequencies@.len() == self.subtokens@.len(),
                self.subtoken_frequencies@.len() == old(self).subtoken_frequencies@.len(),
                forall|j: int|
                    0 <= j < old(self).subtoken_frequencies@.len() ==> #[trigger] self.subtoken_frequencies@[j]
                        >= old(self).subtoken_frequencies@[j],
                forall|st2: usize|
                    (st2 as int) < self.subtoken_frequencies@.len()
                        ==> (#[trigger] self.subtoken_frequencies@[st2 as int]) as int == (
                    if exists|q: int| 0 <= q < p && flat_all[q] == st2 {
                        crate::markov::int_max(
                            old(self).subtoken_frequencies@[st2 as int] as int,
                            count_tok(flat_all, st2),
                        )
                    } else {
                        old(self).subtoken_frequencies@[st2 as int] as int
                    }),
                self.subtokens == old(self).subtokens,
                self.tokens == old(self).tokens,
                self.token_rules == old(self).token_rules,
                self.result_rules == old(self).result_rules,
                self.total_result_weight == old(self).total_result_weight,
                self.rlf == old(self).rlf,
                self.ral == old(self).ral,
            decreases n_flat - p,
        {
            let st = flat[p];
            let cnt = count_of(&flat, st);
            let ghost freq_pre = self.subtoken_frequencies@;
            if self.subtoken_frequencies[st] < cnt {
                proof {
                    crate::markov::lemma_count_tok_nonneg(flat_all, st);
                }
                self.subtoken_frequencies.set(st, cnt);
            }
            proof {
                assert forall|st2: usize|
                    (st2 as int) < self.subtoken_frequencies@.len() implies (
                #[trigger] self.subtoken_frequencies@[st2 as int]) as int == (
                if exists|q: int| 0 <= q < p + 1 && flat_all[q] == st2 {
                    crate::markov::int_max(
                        old(self).subtoken_frequencies@[st2 as int] as int,
                        count_tok(flat_all, st2),
                    )
                } else {
                    old(self).subtoken_frequencies@[st2 as int] as int
                }) by {
                    if st2 == st {
                        assert(flat_all[p as int] == st);
                        assert(0 <= p < p + 1 && flat_all[p as int] == st2);
                        if exists|q: int| 0 <= q < p && flat_all[q] == st2 {
                            assert(freq_pre[st2 as int] as int == crate::markov::int_max(
                                old(self).subtoken_frequencies@[st2 as int] as int,
                                cnt as int,
                            ));
                            assert(freq_pre[st2 as int] >= cnt);
                            assert(self.subtoken_frequencies@[st2 as int] == freq_pre[st2 as int]);
                        } else {
                            assert(freq_pre[st2 as int] == old(self).subtoken_frequencies@[st2 as int]);
                        }
                    } else {
                        assert(self.subtoken_frequencies@[st2 as int] == freq_pre[st2 as int]);
                        if exists|q: int| 0 <= q < p + 1 && flat_all[q] == st2 {
                            let q = choose|q: int| 0 <= q < p + 1 && flat_all[q] == st2;
                            assert(q != p);
                            assert(0 <= q < p && flat_all[q] == st2);
                        }
                    }
                }
            }
            p = p + 1;
        }
        proof {
            assert forall|st2: usize|
                (st2 as int) < self.subtoken_frequencies@.len() implies (
            #[trigger] self.subtoken_frequencies@[st2 as int]) as int == crate::markov::int_max(
                old(self).subtoken_frequencies@[st2 as int] as int,
                count_tok(flat_all, st2),
            ) by {
                crate::markov::lemma_count_tok_nonneg(flat_all, st2);
                if count_tok(flat_all, st2) > 0 {
                    crate::markov::lemma_count_pos_member(flat_all, st2);
                } else {
                    if exists|q: int| 0 <= q < n_flat && flat_all[q] == st2 {
                        let q = choose|q: int| 0 <= q < n_flat && flat_all[q] == st2;
                        crate::markov::lemma_count_tok_at(flat_all, q);
                    }
                }
            }
        }
    }
}

/// Whether two index vectors hold the same indices in the same order.
fn usize_vec_eq(a: &Vec<usize>, b: &Vec<usize>) -> (r: bool)
    ensures
        r == (a@ == b@),
{
    if a.len() != b.len() {
        return false;
    }
    let n = a.len();
    let mut i: usize = 0;
    while i < n
        invariant
            i <= n == a@.len() == b@.len(),
            forall|j: int| 0 <= j < i ==> a@[j] == b@[j],
        decreases n - i,
    {
        if a[i] != b[i] {
            return false;
        }
        i = i + 1;
    }
    proof {
        assert(a@ =~= b@);
    }
    true
}

/// Whether the text begins with the reserved slot prefix.
fn str_has_anon_prefix(s: &str) -> (r: bool)
    ensures
        r == is_prefix_of(anon_prefix(), s@),
{
    let n = s.unicode_len();
    if n < 5 {
        return false;
    }
    let r = s.get_char(0) == 'a' && s.get_char(1) == 'n' && s.get_char(2) == 'o' && s.get_char(3)
        == 'n' && s.get_char(4) == '_';
    proof {
        if r {
            assert(anon_prefix() =~= s@.take(5));
        } else {
            if is_prefix_of(anon_prefix(), s@) {
                assert(s@.take(5)[0] == s@[0]);
                assert(s@.take(5)[1] == s@[1]);
                assert(s@.take(5)[2] == s@[2]);
                assert(s@.take(5)[3] == s@[3]);
                assert(s@.take(5)[4] == s@[4]);
            }
        }
    }
    r
}

/// Whether the label is the anonymous-slot marker.
fn str_is_star(s: &str) -> (r: bool)
    ensures
        r == (s@ == seq!['*']),
{
    let n = s.unicode_len();
    if n != 1 {
        proof {
            if s@ == seq!['*'] {
                assert(s@.len() == 1);
            }
        }
        return false;
    }
    let r = s.get_char(0) == '*';
    proof {
        if r {
            assert(s@ =~= seq!['*']);
        } else {
            if s@ == seq!['*'] {
                assert(s@[0] == '*');
            }
        }
    }
    r
}

/// The character of one decimal digit.
pub open spec fn digit_char(d: int) -> char {
    if d == 0 {
        '0'
    } else if d == 1 {
        '1'
    } else if d == 2 {
        '2'
    } else if d == 3 {
        '3'
    } else if d == 4 {
        '4'
    } else if d == 5 {
        '5'
    } else if d == 6 {
        '6'
    } else if d == 7 {
        '7'
    } else if d == 8 {
        '8'
    } else {
        '9'
    }
}

/// The decimal digits of a counter, most significant first.
pub open spec fn decimal_of(n: int) -> Seq<char>
    decreases n,
{
    if n < 10 {
        seq![digit_char(n)]
    } else {
        decimal_of(n / 10) + seq![digit_char(n % 10)]
    }
}

/// The character of one decimal digit.
fn digit_char_exec(d: usize) -> (c: char)
    requires
        d < 10,
    ensures
        c == digit_char(d as int),
{
    if d == 0 {
        '0'
    } else if d == 1 {
        '1'
    } else if d == 2 {
        '2'
    } else if d == 3 {
        '3'
    } else if d == 4 {
        '4'
    } else if d == 5 {
        '5'
    } else if d == 6 {
        '6'
    } else if d == 7 {
        '7'
    } else if d == 8 {
        '8'
    } else {
        '9'
    }
}

/// Append the decimal digits of `n`, most significant first.
fn push_decimal(out: &mut Vec<char>, n: usize)
    ensures
        final(out)@ == old(out)@ + decimal_of(n as int),
    decreases n,
{
    if n < 10 {
        out.push(digit_char_exec(n));
        proof {
            assert(out@ =~= old(out)@ + decimal_of(n as int));
        }
    } else {
        push_decimal(out, n / 10);
        out.push(digit_char_exec(n % 10));
        proof {
            assert(out@ =~= old(out)@ + decimal_of(n as int));
        }
    }
}

/// The reserved name of the anonymous slot with this counter.
fn anon_rule_name(n: usize) -> (r: String)
    ensures
        r@ == anon_prefix() + decimal_of(n as int),
{
    let mut chars: Vec<char> = Vec::new();
    chars.push('a');
    chars.push('n');
    chars.push('o');
    chars.push('n');
    chars.push('_');
    proof {
        assert(chars@ =~= anon_prefix());
    }
    push_decimal(&mut chars, n);
    crate::formatting::string_from_chars(&chars)
}

/// Raise one row shape's weight by one; everything else stays as it was.
fn bump_rr_weight(rrs: &mut Vec<ResultRule>, j: usize)
    requires
        j < old(rrs)@.len(),
        old(rrs)@[j as int].weight < u32::MAX,
    ensures
        final(rrs)@.len() == old(rrs)@.len(),
        forall|k: int| 0 <= k < old(rrs)@.len() && k != j ==> final(rrs)@[k] == old(rrs)@[k],
        final(rrs)@[j as int].token_rules == old(rrs)@[j as int].token_rules,
        final(rrs)@[j as int].weight == old(rrs)@[j as int].weight + 1,
{
    let mut tmp = ResultRule { token_rules: Vec::new(), weight: 0 };
    rrs.set_and_swap(j, &mut tmp);
    tmp.weight = tmp.weight + 1;
    rrs.set_and_swap(j, &mut tmp);
}

/// Append one token to one slot's pool; everything else stays as it was.
fn push_pool_token(trs: &mut Vec<TokenRule>, j: usize, ti: usize)
    requires
        j < old(trs)@.len(),
    ensures
        final(trs)@.len() == old(trs)@.len(),
        forall|k: int| 0 <= k < old(trs)@.len() && k != j ==> final(trs)@[k] == old(trs)@[k],
        final(trs)@[j as int].name == old(trs)@[j as int].name,
        final(trs)@[j as int].tokens@ == old(trs)@[j as int].tokens@.push(ti),
        seq_extended(old(trs)@[j as int].tokens@, final(trs)@[j as int].tokens@),
{
    let mut tmp = TokenRule { name: String::new(), tokens: Vec::new() };
    trs.set_and_swap(j, &mut tmp);
    tmp.tokens.push(ti);
    trs.set_and_swap(j, &mut tmp);
    proof {
        assert(final(trs)@[j as int].tokens@.subrange(
            0,
            old(trs)@[j as int].tokens@.len() as int,
        ) =~= old(trs)@[j as int].tokens@);
    }
}

/// A witness that `acc` is a row the engine admits: one token from each
/// slot pool of the chosen row shape, in order, under the enabled
/// constraints.
pub open spec fn gram_witness(m: CFGrammar, acc: Seq<usize>, ri: int) -> bool {
    &&& 0 <= ri < m.result_rules@.len()
    &&& acc.len() == m.result_rules@[ri].token_rules@.len()
    &&& forall|k: int| 0 <= k < acc.len() ==> (#[trigger] acc[k]) < m.tokens@.len()
    &&& forall|k: int|
        0 <= k < acc.len() ==> m.token_rules@[m.result_rules@[ri].token_rules@[k] as int].tokens@.contains(
            #[trigger] acc[k],
        )
    &&& (m.ral ==> forall|k: int|
        1 <= k < acc.len() ==> tok_first(m.tokens@[(#[trigger] acc[k]) as int]) != tok_last(
            m.tokens@[acc[k - 1] as int],
        ))
    &&& (m.rlf ==> forall|st: usize|
        #[trigger] count_tok(flatten_subtokens(m.tokens@, acc), st) <= (
        if st < m.subtoken_frequencies@.len() {
            m.subtoken_frequencies@[st as int] as int
        } else {
            0
        }))
}

/// Whether some row shape admits this accepted token run.
pub open spec fn grammar_generated_ok(m: CFGrammar, acc: Seq<usize>) -> bool {
    exists|ri: int| gram_witness(m, acc, ri)
}

impl CFGrammar {
    /// Pick a row shape, weighted by its recorded weight: a cumulative
    /// scan over the shape weights for a uniform roll below the total.
    fn pick_result_rule(&self, rng: &mut Prng) -> (r: usize)
        requires
            self.wf(),
            self.total_result_weight > 0,
        ensures
            r < self.result_rules@.len(),
            exists|roll: int|
                0 <= roll < self.total_result_weight && r as int == cum_index(
                    rr_weights(self.result_rules@),
                    roll,
                ),
    {
        let mut random = rng.below_u32(self.total_result_weight);
        let ghost roll0 = random as int;
        let n_rr = self.result_rules.len();
        let mut i: usize = 0;
        proof {
            assert(rr_weights(self.result_rules@).skip(0) =~= rr_weights(self.result_rules@));
        }
        loop
            invariant
                self.wf(),
                i <= n_rr == self.result_rules@.len(),
                random < sum_usize(rr_weights(self.result_rules@).skip(i as int)),
                0 <= roll0 < self.total_result_weight,
                cum_index(rr_weights(self.result_rules@), roll0) == i + cum_index(
                    rr_weights(self.result_rules@).skip(i as int),
                    random as int,
                ),
            decreases n_rr - i,
        {
            proof {
                if i as int == self.result_rules@.len() {
                    assert(rr_weights(self.result_rules@).skip(i as int) =~= Seq::<usize>::empty());
                    assert(false);
                }
                assert(rr_weights(self.result_rules@).skip(i as int)[0] == rr_weights(
                    self.result_rules@,
                )[i as int]);
                lemma_sum_usize_first(rr_weights(self.result_rules@).skip(i as int));
                assert(rr_weights(self.result_rules@).skip(i as int).drop_first() =~= rr_weights(
                    self.result_rules@,
                ).skip(i as int + 1));
            }
            let w = self.result_rules[i].weight;
            if w > random {
                return i;
            }
            random = random - w;
            i = i + 1;
        }
    }

    /// Generate one row by per-slot pools: pick a row shape weighted by
    /// its count, then fill its slots left to right, drawing uniformly
    /// from each slot's pool without replacement, rejecting a candidate
    /// whose first subtoken repeats its neighbour's last where the
    /// adjacency restriction is on, backtracking a slot when a pool runs
    /// out, and redoing only the last slot where the frequency check
    /// fails. The mutable buffers are cleared at entry, so an engine with
    /// no learned row leaves an empty result; a successful run leaves the
    /// accepted token indices in `result`, their subtokens in
    /// `subtokens`, and their text in `result_str`. The search gives up
    /// only after an astronomical number of draws, leaving the result
    /// empty.
    #[verifier::rlimit(100)]
    #[verifier::spinoff_prover]
    pub fn generate(&self, ws: &mut WorkingSet, rng: &mut Prng)
        requires
            self.wf(),
        ensures
            final(ws).result_chars == old(ws).result_chars,
            final(ws).result_total == old(ws).result_total,
            self.result_rules@.len() == 0 ==> final(ws).result@.len() == 0 && final(ws).result_str@.len() == 0 && final(ws).stack@.len() == 0 && final(ws).stack_pos@.len() == 0 && final(ws).subtokens == old(ws).subtokens,
            self.result_rules@.len() > 0 ==> (final(ws).result@.len() == 0 && final(ws).result_str@.len() == 0) || (grammar_generated_ok(*self, final(ws).result@) && final(ws).subtokens@ == flatten_subtokens(self.tokens@, final(ws).result@) && final(ws).result_str@ == concat_tokens(tok_views(self.subtokens@), final(ws).subtokens@)),
    {
        ws.result.clear();
        ws.stack.clear();
        ws.stack_pos.clear();
        if self.result_rules.len() == 0 {
            ws.result_str = String::new();
            return ;
        }
        proof {
            assert(rr_weights(self.result_rules@)[0] == self.result_rules@[0].weight as usize);
            lemma_sum_usize_element_bound(rr_weights(self.result_rules@), 0);
        }
        let n_rr = self.result_rules.len();
        let n_tokens = self.tokens.len();
        let mut result_index: usize = 0;
        let mut fuel: u64 = u64::MAX;
        loop
            invariant
                self.wf(),
                n_rr == self.result_rules@.len(),
                n_tokens == self.tokens@.len(),
                n_rr > 0,
                self.total_result_weight > 0,
                ws.result_chars == old(ws).result_chars,
                ws.result_total == old(ws).result_total,
                ws.result_str == old(ws).result_str,
                ws.stack_pos@.len() == 0 ==> ws.stack@.len() == 0 && ws.result@.len() == 0,
                ws.stack_pos@.len() > 0 ==> ws.stack_pos@[0] == 0,
                ws.stack_pos@.len() > 0 ==> {
                    &&& result_index < n_rr
                    &&& ws.stack_pos@.len() == ws.result@.len() + 1
                    &&& ws.result@.len() < self.result_rules@[result_index as int].token_rules@.len()
                    &&& (forall|k: int|
                        0 <= k < ws.result@.len() ==> (#[trigger] ws.result@[k])
                            < self.tokens@.len())
                    &&& (forall|k: int|
                        0 <= k < ws.result@.len() ==> self.token_rules@[self.result_rules@[
                            result_index as int].token_rules@[k] as int].tokens@.contains(
                            #[trigger] ws.result@[k],
                        ))
                    &&& (self.ral ==> forall|k: int|
                        1 <= k < ws.result@.len() ==> tok_first(
                            self.tokens@[(#[trigger] ws.result@[k]) as int],
                        ) != tok_last(self.tokens@[ws.result@[k - 1] as int]))
                    &&& (forall|f1: int, f2: int|
                        #![trigger ws.stack_pos@[f1], ws.stack_pos@[f2]]
                        0 <= f1 <= f2 < ws.stack_pos@.len() ==> ws.stack_pos@[f1]
                            <= ws.stack_pos@[f2])
                    &&& (ws.stack_pos@[ws.stack_pos@.len() - 1] <= ws.stack@.len())
                    &&& (forall|f: int, q: int|
                        #![trigger ws.stack_pos@[f], ws.stack@[q]]
                        0 <= f < ws.stack_pos@.len() && ws.stack_pos@[f] <= q < frame_hi(
                            ws.stack_pos@,
                            ws.stack@.len() as int,
                            f,
                        ) ==> self.token_rules@[self.result_rules@[result_index as int].token_rules@[f] as int].tokens@.contains(
                            ws.stack@[q],
                        ) && ws.stack@[q] < self.tokens@.len())
                },
            decreases fuel,
        {
            if fuel == 0 {
                ws.result.clear();
                ws.result_str = String::new();
                return ;
            }
            fuel = fuel - 1;
            if ws.stack_pos.len() == 0 {
                result_index = self.pick_result_rule(rng);
                let tr0 = self.result_rules[result_index].token_rules[0];
                let base = ws.stack.len();
                ws.stack_pos.push(base);
                extend_pool(&mut ws.stack, &self.token_rules[tr0].tokens);
                proof {
                    let pool = self.token_rules@[tr0 as int].tokens@;
                    assert(ws.stack@ =~= pool);
                    assert forall|f: int, q: int|
                        #![trigger ws.stack_pos@[f], ws.stack@[q]]
                        0 <= f < ws.stack_pos@.len() && ws.stack_pos@[f] <= q < frame_hi(
                            ws.stack_pos@,
                            ws.stack@.len() as int,
                            f,
                        ) implies self.token_rules@[self.result_rules@[result_index as int].token_rules@[f] as int].tokens@.contains(
                        ws.stack@[q],
                    ) && ws.stack@[q] < self.tokens@.len() by {
                        assert(f == 0);
                        assert(ws.stack@[q] == pool[q]);
                        assert(pool.contains(pool[q]));
                    }
                }
                continue ;
            }
            let pos = ws.stack_pos[ws.stack_pos.len() - 1];
            if ws.stack.len() == pos {
                ws.result.pop();
                ws.stack_pos.pop();
                continue ;
            }
            let pick = pos + rng.below_usize(ws.stack.len() - pos);
            let token_index = ws.stack[pick];
            let ghost stack_before = ws.stack@;
            ws.stack.swap_remove(pick);
            proof {
                assert forall|f: int, q: int|
                    #![trigger ws.stack_pos@[f], ws.stack@[q]]
                    0 <= f < ws.stack_pos@.len() && ws.stack_pos@[f] <= q < frame_hi(
                        ws.stack_pos@,
                        ws.stack@.len() as int,
                        f,
                    ) implies self.token_rules@[self.result_rules@[result_index as int].token_rules@[f] as int].tokens@.contains(
                    ws.stack@[q],
                ) && ws.stack@[q] < self.tokens@.len() by {
                    if f < ws.stack_pos@.len() - 1 {
                        assert(ws.stack@[q] == stack_before[q]);
                    } else {
                        if q == pick as int {
                            assert(ws.stack@[q] == stack_before[stack_before.len() - 1]);
                        } else {
                            assert(ws.stack@[q] == stack_before[q]);
                        }
                    }
                }
            }
            if self.ral && ws.result.len() > 0 {
                let prev = ws.result[ws.result.len() - 1];
                if self.tokens[token_index].first() == self.tokens[prev].last() {
                    continue ;
                }
            }
            ws.result.push(token_index);
            let tuple_len = self.result_rules[result_index].token_rules.len();
            if ws.result.len() == tuple_len {
                // Compose the subtokens of the full row.
                let ghost ws_keep = *ws;
                ws.subtokens.clear();
                let n_out = ws.result.len();
                let mut i: usize = 0;
                let ghost acc = ws.result@;
                proof {
                    assert(acc.take(0) =~= Seq::<usize>::empty());
                }
                while i < n_out
                    invariant
                        i <= n_out == ws.result@.len(),
                        acc == ws.result@,
                        self.wf(),
                        forall|k: int|
                            0 <= k < acc.len() ==> (#[trigger] acc[k]) < self.tokens@.len(),
                        ws.subtokens@ == flatten_subtokens(self.tokens@, acc.take(i as int)),
                        ws.result_chars == old(ws).result_chars,
                        ws.result_total == old(ws).result_total,
                        ws.result_str == old(ws).result_str,
                        ws.stack == ws_keep.stack,
                        ws.stack_pos == ws_keep.stack_pos,
                        ws.stack_weight == ws_keep.stack_weight,
                    decreases n_out - i,
                {
                    proof {
                        lemma_flatten_snoc(self.tokens@, acc, i as int);
                    }
                    let ti = ws.result[i];
                    extend_pool(&mut ws.subtokens, &self.tokens[ti].0);
                    proof {
                        assert(ws.subtokens@ =~= flatten_subtokens(self.tokens@, acc.take(
                            i as int + 1,
                        )));
                    }
                    i = i + 1;
                }
                proof {
                    assert(acc.take(n_out as int) =~= acc);
                }
                let ghost ws_comp = *ws;
                proof {
                    lemma_flatten_bounded(self.tokens@, acc, self.subtokens@.len() as int);
                }
                if self.rlf {
                    let n_subs = ws.subtokens.len();
                    let mut p: usize = 0;
                    let mut failed = false;
                    loop
                        invariant_except_break
                            !failed,
                            forall|q: int|
                                0 <= q < p ==> count_tok(ws.subtokens@, #[trigger] ws.subtokens@[q])
                                    <= self.subtoken_frequencies@[ws.subtokens@[q] as int],
                        invariant
                            p <= n_subs == ws.subtokens@.len(),
                            self.wf(),
                            *ws == ws_comp,
                            forall|q: int|
                                0 <= q < ws.subtokens@.len() ==> (#[trigger] ws.subtokens@[q])
                                    < self.subtoken_frequencies@.len(),
                        ensures
                            !failed ==> forall|q: int|
                                0 <= q < ws.subtokens@.len() ==> count_tok(
                                    ws.subtokens@,
                                    #[trigger] ws.subtokens@[q],
                                ) <= self.subtoken_frequencies@[ws.subtokens@[q] as int],
                        decreases n_subs - p,
                    {
                        if p >= n_subs {
                            break ;
                        }
                        let st = ws.subtokens[p];
                        let cnt = count_of(&ws.subtokens, st);
                        if cnt > self.subtoken_frequencies[st] {
                            failed = true;
                            break ;
                        }
                        p = p + 1;
                    }
                    if failed {
                        ws.result.pop();
                        proof {
                            assert(ws.result@ =~= acc.take(acc.len() - 1));
                        }
                        continue ;
                    }
                }
                // Render the row.
                let ghost ws_done = *ws;
                ws.result_str = String::new();
                let n_subs = ws.subtokens.len();
                let mut o: usize = 0;
                let ghost subs = ws.subtokens@;
                proof {
                    assert(subs.take(0) =~= Seq::<usize>::empty());
                    assert(concat_tokens(tok_views(self.subtokens@), subs.take(0)) =~= Seq::<
                        char,
                    >::empty());
                }
                while o < n_subs
                    invariant
                        o <= n_subs == ws.subtokens@.len(),
                        subs == ws.subtokens@,
                        self.wf(),
                        forall|q: int|
                            0 <= q < subs.len() ==> (#[trigger] subs[q]) < self.subtokens@.len(),
                        ws.result_str@ == concat_tokens(
                            tok_views(self.subtokens@),
                            subs.take(o as int),
                        ),
                        ws.result_chars == old(ws).result_chars,
                        ws.result_total == old(ws).result_total,
                        ws.result == ws_done.result,
                        ws.subtokens == ws_done.subtokens,
                    decreases n_subs - o,
                {
                    proof {
                        crate::markov::lemma_concat_tokens_snoc(
                            tok_views(self.subtokens@),
                            subs,
                            o as int,
                        );
                    }
                    let st = ws.subtokens[o];
                    string_append(&mut ws.result_str, self.subtokens[st].as_str());
                    o = o + 1;
                }
                proof {
                    assert(subs.take(n_subs as int) =~= subs);
                    if self.rlf {
                        assert forall|st: usize|
                            #[trigger] count_tok(flatten_subtokens(self.tokens@, ws.result@), st)
                                <= (if st < self.subtoken_frequencies@.len() {
                                self.subtoken_frequencies@[st as int] as int
                            } else {
                                0
                            }) by {
                            crate::markov::lemma_count_tok_nonneg(subs, st);
                            if count_tok(subs, st) > 0 {
                                crate::markov::lemma_count_pos_member(subs, st);
                                let q = choose|q: int| 0 <= q < subs.len() && subs[q] == st;
                                assert(count_tok(subs, subs[q]) <= self.subtoken_frequencies@[
                                    subs[q] as int]);
                            }
                        }
                    }
                    assert(gram_witness(*self, ws.result@, result_index as int));
                    assert(grammar_generated_ok(*self, ws.result@));
                }
                return ;
            } else {
                let next_rule = self.result_rules[result_index].token_rules[ws.result.len()];
                let base = ws.stack.len();
                let ghost sp_pre = ws.stack_pos@;
                let ghost stack_pre = ws.stack@;
                ws.stack_pos.push(base);
                extend_pool(&mut ws.stack, &self.token_rules[next_rule].tokens);
                proof {
                    let pool = self.token_rules@[next_rule as int].tokens@;
                    let sp = ws.stack_pos@;
                    let last = sp.len() - 1;
                    assert forall|f: int, q: int|
                        #![trigger sp[f], ws.stack@[q]]
                        0 <= f < sp.len() && sp[f] <= q < frame_hi(sp, ws.stack@.len() as int, f)
                            implies self.token_rules@[self.result_rules@[result_index as int].token_rules@[f] as int].tokens@.contains(
                        ws.stack@[q],
                    ) && ws.stack@[q] < self.tokens@.len() by {
                        if f < last {
                            assert(sp[f] == sp_pre[f]);
                            if f + 1 < last {
                                assert(sp[f + 1] == sp_pre[f + 1]);
                                assert(sp_pre[f + 1] <= sp_pre[sp_pre.len() - 1]);
                            }
                            assert(frame_hi(sp, ws.stack@.len() as int, f) <= base);
                            assert(ws.stack@[q] == stack_pre[q]);
                            assert(frame_hi(sp, ws.stack@.len() as int, f) == frame_hi(
                                sp_pre,
                                stack_pre.len() as int,
                                f,
                            ));
                        } else {
                            assert(ws.stack@[q] == pool[q - base]);
                            assert(pool.contains(pool[q - base]));
                        }
                    }
                }
            }
        }
    }
}

impl CFGrammar {
    /// The checks `validate` performs, as a predicate: index bounds,
    /// positive weights, nonempty row shapes, nonempty referenced pools,
    /// an accurate weight total, and a ceiling table parallel to the
    /// subtoken store.
    pub open spec fn validate_ok(self) -> bool {
        &&& self.subtoken_frequencies@.len() == self.subtokens@.len()
        &&& forall|i: int, k: int|
            0 <= i < self.tokens@.len() && 0 <= k < self.tokens@[i].0@.len()
                ==> #[trigger] self.tokens@[i].0@[k] < self.subtokens@.len()
        &&& forall|i: int, k: int|
            0 <= i < self.token_rules@.len() && 0 <= k < self.token_rules@[i].tokens@.len()
                ==> #[trigger] self.token_rules@[i].tokens@[k] < self.tokens@.len()
        &&& forall|i: int, k: int|
            0 <= i < self.result_rules@.len() && 0 <= k
                < self.result_rules@[i].token_rules@.len()
                ==> #[trigger] self.result_rules@[i].token_rules@[k] < self.token_rules@.len()
        &&& forall|i: int, k: int|
            0 <= i < self.result_rules@.len() && 0 <= k
                < self.result_rules@[i].token_rules@.len() ==> self.token_rules@[(
            #[trigger] self.result_rules@[i].token_rules@[k]) as int].tokens@.len() >= 1
        &&& forall|i: int|
            0 <= i < self.result_rules@.len() ==> (
            #[trigger] self.result_rules@[i].token_rules@.len()) >= 1
        &&& forall|i: int|
            0 <= i < self.result_rules@.len() ==> (#[trigger] self.result_rules@[i].weight) >= 1
        &&& self.total_result_weight == sum_usize(rr_weights(self.result_rules@))
    }

    /// A well-formed engine passes every check of `validate`.
    pub proof fn lemma_wf_validates(self)
        requires
            self.wf(),
        ensures
            self.validate_ok(),
    {
    }

    /// Check the invariants that hold of every well-formed engine and
    /// report the first violation. Success means exactly that the checks
    /// hold; a well-formed engine always passes.
    #[verifier::rlimit(100)]
    pub fn validate(&self) -> (r: Result<(), ValidationError>)
        ensures
            r.is_ok() <==> self.validate_ok(),
            r is Err ==> r->Err_0.kind@ == "parts::CFGrammar"@,
    {
        if self.subtoken_frequencies.len() != self.subtokens.len() {
            return Err(
                ValidationError::new("parts::CFGrammar", "frequency table length is wrong."),
            );
        }
        let n_tokens = self.tokens.len();
        let n_subtokens = self.subtokens.len();
        let n_tr = self.token_rules.len();
        let n_rr = self.result_rules.len();
        let mut i: usize = 0;
        while i < n_tokens
            invariant
                i <= n_tokens == self.tokens@.len(),
                n_subtokens == self.subtokens@.len(),
                forall|i2: int, k: int|
                    0 <= i2 < i && 0 <= k < self.tokens@[i2].0@.len()
                        ==> #[trigger] self.tokens@[i2].0@[k] < self.subtokens@.len(),
            decreases n_tokens - i,
        {
            let n_sub = self.tokens[i].0.len();
            let mut k: usize = 0;
            while k < n_sub
                invariant
                    i < self.tokens@.len(),
                    k <= n_sub == self.tokens@[i as int].0@.len(),
                    n_subtokens == self.subtokens@.len(),
                    forall|k2: int|
                        0 <= k2 < k ==> #[trigger] self.tokens@[i as int].0@[k2]
                            < self.subtokens@.len(),
                decreases n_sub - k,
            {
                if self.tokens[i].0[k] >= n_subtokens {
                    return Err(
                        ValidationError::new("parts::CFGrammar", "token has out of range subtoken."),
                    );
                }
                k = k + 1;
            }
            i = i + 1;
        }
        let mut i: usize = 0;
        while i < n_tr
            invariant
                i <= n_tr == self.token_rules@.len(),
                n_tokens == self.tokens@.len(),
                forall|i2: int, k: int|
                    0 <= i2 < i && 0 <= k < self.token_rules@[i2].tokens@.len()
                        ==> #[trigger] self.token_rules@[i2].tokens@[k] < self.tokens@.len(),
            decreases n_tr - i,
        {
            let n_pool = self.token_rules[i].tokens.len();
            let mut k: usize = 0;
            while k < n_pool
                invariant
                    i < self.token_rules@.len(),
                    k <= n_pool == self.token_rules@[i as int].tokens@.len(),
                    n_tokens == self.tokens@.len(),
                    forall|k2: int|
                        0 <= k2 < k ==> #[trigger] self.token_rules@[i as int].tokens@[k2]
                            < self.tokens@.len(),
                decreases n_pool - k,
            {
                if self.token_rules[i].tokens[k] >= n_tokens {
                    return Err(
                        ValidationError::new("parts::CFGrammar", "slot pool has out of range token."),
                    );
                }
                k = k + 1;
            }
            i = i + 1;
        }
        let mut i: usize = 0;
        let mut total: u128 = 0;
        while i < n_rr
            invariant
                i <= n_rr == self.result_rules@.len(),
                n_tr == self.token_rules@.len(),
                total == sum_usize(rr_weights(self.result_rules@).take(i as int)),
                total <= i * (u32::MAX as int),
                forall|i2: int, k: int|
                    0 <= i2 < i && 0 <= k < self.result_rules@[i2].token_rules@.len()
                        ==> #[trigger] self.result_rules@[i2].token_rules@[k]
                        < self.token_rules@.len(),
                forall|i2: int, k: int|
                    0 <= i2 < i && 0 <= k < self.result_rules@[i2].token_rules@.len()
                        ==> self.token_rules@[(
                    #[trigger] self.result_rules@[i2].token_rules@[k]) as int].tokens@.len() >= 1,
                forall|i2: int|
                    0 <= i2 < i ==> (#[trigger] self.result_rules@[i2].token_rules@.len()) >= 1,
                forall|i2: int| 0 <= i2 < i ==> (#[trigger] self.result_rules@[i2].weight) >= 1,
            decreases n_rr - i,
        {
            let n_tuple = self.result_rules[i].token_rules.len();
            if n_tuple == 0 {
                return Err(ValidationError::new("parts::CFGrammar", "row shape has no slots."));
            }
            if self.result_rules[i].weight == 0 {
                return Err(ValidationError::new("parts::CFGrammar", "row shape has zero weight."));
            }
            let mut k: usize = 0;
            while k < n_tuple
                invariant
                    i < self.result_rules@.len(),
                    k <= n_tuple == self.result_rules@[i as int].token_rules@.len(),
                    n_tr == self.token_rules@.len(),
                    forall|k2: int|
                        0 <= k2 < k ==> #[trigger] self.result_rules@[i as int].token_rules@[k2]
                            < self.token_rules@.len(),
                    forall|k2: int|
                        0 <= k2 < k ==> self.token_rules@[(
                        #[trigger] self.result_rules@[i as int].token_rules@[k2]) as int].tokens@.len()
                            >= 1,
                decreases n_tuple - k,
            {
                let tr = self.result_rules[i].token_rules[k];
                if tr >= n_tr {
                    return Err(
                        ValidationError::new("parts::CFGrammar", "row shape has out of range slot."),
                    );
                }
                if self.token_rules[tr].tokens.len() == 0 {
                    return Err(
                        ValidationError::new("parts::CFGrammar", "row shape refers to an empty slot."),
                    );
                }
                k = k + 1;
            }
            proof {
                assert(rr_weights(self.result_rules@).take(i as int + 1).drop_last()
                    =~= rr_weights(self.result_rules@).take(i as int));
                lemma_sum_usize_snoc(rr_weights(self.result_rules@).take(i as int + 1));
                crate::markov::lemma_mul_le_public(i as int, n_rr as int, u32::MAX as int);
            }
            total = total + (self.result_rules[i].weight as u128);
            i = i + 1;
        }
        proof {
            assert(rr_weights(self.result_rules@).take(n_rr as int) =~= rr_weights(
                self.result_rules@,
            ));
        }
        if total != (self.total_result_weight as u128) {
            return Err(
                ValidationError::new("parts::CFGrammar", "total_result_weight is not accurate."),
            );
        }
        Ok(())
    }
}

/// Append every entry of a pool to the candidate stack.
fn extend_pool(stack: &mut Vec<usize>, pool: &Vec<usize>)
    ensures
        final(stack)@ == old(stack)@ + pool@,
{
    let n = pool.len();
    let mut c: usize = 0;
    while c < n
        invariant
            c <= n == pool@.len(),
            stack@ == old(stack)@ + pool@.take(c as int),
        decreases n - c,
    {
        proof {
            assert(old(stack)@ + pool@.take(c as int + 1) =~= (old(stack)@ + pool@.take(
                c as int,
            )).push(pool@[c as int]));
        }
        stack.push(pool[c]);
        c = c + 1;
    }
    proof {
        assert(old(stack)@ + pool@.take(n as int) =~= old(stack)@ + pool@);
    }
}

/// Every subtoken of a composed row is in range when every token's
/// subtokens are.
proof fn lemma_flatten_bounded(tokens: Seq<Token>, acc: Seq<usize>, bound: int)
    requires
        forall|i: int, k: int|
            0 <= i < tokens.len() && 0 <= k < tokens[i].0@.len() ==> #[trigger] tokens[i].0@[k]
                < bound,
    ensures
        forall|q: int|
            0 <= q < flatten_subtokens(tokens, acc).len() ==> #[trigger] flatten_subtokens(
                tokens,
                acc,
            )[q] < bound,
    decreases acc.len(),
{
    if acc.len() > 0 {
        lemma_flatten_bounded(tokens, acc.drop_first(), bound);
        let head: Seq<usize> = if acc[0] < tokens.len() {
            tokens[acc[0] as int].0@
        } else {
            Seq::empty()
        };
        assert forall|q: int|
            0 <= q < flatten_subtokens(tokens, acc).len() implies #[trigger] flatten_subtokens(
            tokens,
            acc,
        )[q] < bound by {
            if q < head.len() {
                assert(flatten_subtokens(tokens, acc)[q] == head[q]);
            } else {
                assert(flatten_subtokens(tokens, acc)[q] == flatten_subtokens(
                    tokens,
                    acc.drop_first(),
                )[q - head.len()]);
            }
        }
    }
}

/// Composing one more token appends its subtokens.
proof fn lemma_flatten_snoc(tokens: Seq<Token>, acc: Seq<usize>, o: int)
    requires
        0 <= o < acc.len(),
    ensures
        flatten_subtokens(tokens, acc.take(o + 1)) == flatten_subtokens(tokens, acc.take(o)) + (
        if acc[o] < tokens.len() {
            tokens[acc[o] as int].0@
        } else {
            Seq::empty()
        }),
{
    lemma_flatten_last(tokens, acc.take(o + 1));
    assert(acc.take(o + 1).drop_last() =~= acc.take(o));
    assert(acc.take(o + 1).last() == acc[o]);
}

proof fn lemma_flatten_last(tokens: Seq<Token>, acc: Seq<usize>)
    requires
        acc.len() > 0,
    ensures
        flatten_subtokens(tokens, acc) == flatten_subtokens(tokens, acc.drop_last()) + (
        if acc.last() < tokens.len() {
            tokens[acc.last() as int].0@
        } else {
            Seq::empty()
        }),
    decreases acc.len(),
{
    if acc.len() == 1 {
        assert(acc.drop_last() =~= Seq::empty());
        assert(acc.drop_first() =~= Seq::empty());
        assert(flatten_subtokens(tokens, acc) =~= flatten_subtokens(tokens, acc.drop_last()) + (
        if acc.last() < tokens.len() {
            tokens[acc.last() as int].0@
        } else {
            Seq::empty()
        }));
    } else {
        lemma_flatten_last(tokens, acc.drop_first());
        assert(acc.drop_first().drop_last() =~= acc.drop_last().drop_first());
        assert(acc.drop_first().last() == acc.last());
        assert(acc.drop_last()[0] == acc[0]);
        assert(acc.drop_last().len() > 0);
        assert(flatten_subtokens(tokens, acc) =~= flatten_subtokens(tokens, acc.drop_last()) + (
        if acc.last() < tokens.len() {
            tokens[acc.last() as int].0@
        } else {
            Seq::empty()
        }));
    }
}

/// Package the bookkeeping facts of one learn call into the row-shape
/// statement.
proof fn lemma_rr_shape_intro(pre: Seq<ResultRule>, post: Seq<ResultRule>, ri: int, n: int)
    requires
        0 <= ri < post.len(),
        pre.len() <= post.len() <= pre.len() + 1,
        forall|j: int|
            0 <= j < pre.len() && j != ri ==> (#[trigger] post[j].token_rules)@
                == pre[j].token_rules@,
        forall|j: int| 0 <= j < pre.len() && j != ri ==> (#[trigger] post[j].weight) == pre[j].weight,
        ri < pre.len() ==> post.len() == pre.len() && post[ri].token_rules@
            == pre[ri].token_rules@ && post[ri].weight == pre[ri].weight + n,
        ri >= pre.len() ==> post.len() == pre.len() + 1 && post[ri].weight == n,
    ensures
        rr_update_shape(pre, post, ri, n),
{
}

/// The result-rule list after a learn call: one shape at `ri` gained the
/// batch weight (or was appended carrying it); every other shape is
/// untouched.
pub open spec fn rr_update_shape(
    pre: Seq<ResultRule>,
    post: Seq<ResultRule>,
    ri: int,
    n: int,
) -> bool {
    &&& 0 <= ri < post.len()
    &&& pre.len() <= post.len() <= pre.len() + 1
    &&& forall|j: int|
        0 <= j < pre.len() && j != ri ==> (#[trigger] post[j].token_rules)@
            == pre[j].token_rules@ && post[j].weight == pre[j].weight
    &&& (ri < pre.len() ==> post.len() == pre.len() && post[ri].token_rules@
        == pre[ri].token_rules@ && post[ri].weight == pre[ri].weight + n)
    &&& (ri >= pre.len() ==> post.len() == pre.len() + 1 && post[ri].weight == n)
}

} // verus!
