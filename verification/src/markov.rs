use vstd::prelude::*;
use crate::base::{LearnError, ValidationError, WorkingSet};
use crate::rng::Prng;
use crate::sample::{sample_model, Sample, SampleSet};
use crate::seqsum::{
    lemma_sum_usize_element_bound, lemma_sum_usize_first, lemma_sum_usize_nonneg,
    lemma_sum_usize_snoc, lemma_sum_usize_update, sum_usize,
};
use crate::wordlist::clone_string;
use crate::formatting::{str_to_chars, string_from_chars};

verus! {

/// A Markov entry point: the first two tokens of a learned sample, the
/// number of samples that began with them, the recorded sample length
/// where start-length faithfulness is on, and the transition nodes that
/// may follow.
pub struct StartNode {
    pub tokens: (usize, usize),
    pub weight: usize,
    pub length: usize,
    pub children: Vec<usize>,
}

/// A Markov transition state: the two-token context it follows, the token
/// it emits, its search weight, the recorded sample length where a length
/// faithfulness flag is on, the nodes that may follow it, and whether it
/// ends a word.
pub struct Node {
    pub prev: (usize, usize),
    pub token: usize,
    pub weight: usize,
    pub length: usize,
    pub children: Vec<usize>,
    pub ending: bool,
}

/// The token-chain model: learns whole words and generates by a weighted
/// backtracking walk over a token-transition graph.
pub struct Markov {
    pub tokens: Vec<String>,
    pub max_tokens: Vec<usize>,
    pub starts: Vec<StartNode>,
    pub total_starts: usize,
    pub nodes: Vec<Node>,
    pub lengths: Vec<usize>,
    pub total_lengths: usize,
    pub lrs: bool,
    pub lrm: bool,
    pub lre: bool,
    pub rtf: bool,
}

/// The character sequences of a token list.
pub open spec fn tok_views(ts: Seq<String>) -> Seq<Seq<char>> {
    ts.map_values(|s: String| s@)
}

/// No two tokens hold the same characters.
pub open spec fn tokens_distinct(tv: Seq<Seq<char>>) -> bool {
    forall|i: int, j: int| 0 <= i < j < tv.len() ==> tv[i] != tv[j]
}

/// Every token holds at least one character.
pub open spec fn tokens_nonempty(tv: Seq<Seq<char>>) -> bool {
    forall|i: int| 0 <= i < tv.len() ==> tv[i].len() >= 1
}

/// `p` starts `s`.
pub open spec fn is_prefix_of(p: Seq<char>, s: Seq<char>) -> bool {
    p.len() <= s.len() && p == s.take(p.len() as int)
}

/// The scan for the best token match: the lowest index of a longest
/// nonempty token that starts the remainder, continuing a scan that
/// reached `i` with `best` so far (`-1` for none).
pub open spec fn match_from(tv: Seq<Seq<char>>, rem: Seq<char>, i: int, best: int) -> int
    decreases tv.len() - i,
{
    if i < 0 || i >= tv.len() {
        best
    } else {
        let better = tv[i].len() >= 1 && is_prefix_of(tv[i], rem) && (best < 0 || tv[i].len()
            > tv[best].len());
        match_from(
            tv,
            rem,
            i + 1,
            if better {
                i
            } else {
                best
            },
        )
    }
}

/// The longest-known-token match for the remainder, `-1` when no token
/// starts it.
pub open spec fn best_match(tv: Seq<Seq<char>>, rem: Seq<char>) -> int {
    match_from(tv, rem, 0, -1)
}

/// How many characters the next tokenization step consumes.
pub open spec fn tok_step(tv: Seq<Seq<char>>, rem: Seq<char>) -> int {
    let m = best_match(tv, rem);
    if m >= 0 && m < tv.len() && 1 <= tv[m].len() <= rem.len() {
        tv[m].len() as int
    } else {
        1
    }
}

/// Greedy tokenization: at each position the longest known token that
/// starts the remainder is taken; where none does, the single next
/// character is minted as a new token. Yields the grown token list and
/// the token indices of the word.
pub open spec fn spec_tokenize(tv: Seq<Seq<char>>, rem: Seq<char>) -> (Seq<Seq<char>>, Seq<int>)
    decreases rem.len(),
{
    if rem.len() == 0 {
        (tv, Seq::empty())
    } else {
        let m = best_match(tv, rem);
        if m >= 0 {
            let rest = spec_tokenize(tv, rem.skip(tok_step(tv, rem)));
            (rest.0, seq![m] + rest.1)
        } else {
            let tv2 = tv.push(rem.take(1));
            let rest = spec_tokenize(tv2, rem.skip(1));
            (rest.0, seq![tv.len() as int] + rest.1)
        }
    }
}

/// How often a token index occurs in a sequence.
pub open spec fn count_tok(s: Seq<usize>, t: usize) -> int
    decreases s.len(),
{
    if s.len() == 0 {
        0
    } else {
        (if s[0] == t {
            1int
        } else {
            0
        }) + count_tok(s.drop_first(), t)
    }
}

/// How often a token index occurs in an index sequence of the tokenizer.
pub open spec fn count_ix(s: Seq<int>, t: int) -> int
    decreases s.len(),
{
    if s.len() == 0 {
        0
    } else {
        (if s[0] == t {
            1int
        } else {
            0
        }) + count_ix(s.drop_first(), t)
    }
}

/// The weights of the start nodes.
pub open spec fn start_weights(ss: Seq<StartNode>) -> Seq<usize> {
    ss.map_values(|s: StartNode| s.weight)
}

/// The index a cumulative-weight scan lands on for a given roll: the
/// first position whose running weight total exceeds the roll.
pub open spec fn cum_index(ws: Seq<usize>, roll: int) -> int
    decreases ws.len(),
{
    if ws.len() == 0 {
        0
    } else if roll < ws[0] {
        0
    } else {
        1 + cum_index(ws.drop_first(), roll - ws[0])
    }
}

/// The first start node carrying this key, or the length of the list.
pub open spec fn start_key_index(ss: Seq<StartNode>, t0: int, t1: int, slen: int) -> int
    decreases ss.len(),
{
    if ss.len() == 0 {
        0
    } else if ss[0].tokens.0 == t0 && ss[0].tokens.1 == t1 && ss[0].length == slen {
        0
    } else {
        1 + start_key_index(ss.drop_first(), t0, t1, slen)
    }
}

/// `post` begins with all of `pre`, in order.
pub open spec fn seq_extended(pre: Seq<usize>, post: Seq<usize>) -> bool {
    pre.len() <= post.len() && post.subrange(0, pre.len() as int) == pre
}

impl Markov {
    /// The structural part of well-formedness of one start node.
    pub open spec fn start_ok(self, s: StartNode) -> bool {
        &&& s.tokens.0 < self.tokens@.len()
        &&& s.tokens.1 < self.tokens@.len()
        &&& s.weight >= 1
        &&& (self.lrs ==> s.length >= 3)
        &&& (!self.lrs ==> s.length == 0)
        &&& forall|c: int| 0 <= c < s.children@.len() ==> s.children@[c] < self.nodes@.len()
        &&& (self.rtf ==> self.max_tokens@[s.tokens.0 as int] >= 1
            && self.max_tokens@[s.tokens.1 as int] >= 1 && (s.tokens.0 == s.tokens.1
            ==> self.max_tokens@[s.tokens.0 as int] >= 2))
    }

    /// The structural part of well-formedness of one transition node.
    pub open spec fn node_ok(self, n: Node) -> bool {
        &&& n.token < self.tokens@.len()
        &&& n.prev.0 < self.tokens@.len()
        &&& n.prev.1 < self.tokens@.len()
        &&& n.weight >= 1
        &&& forall|c: int| 0 <= c < n.children@.len() ==> n.children@[c] < self.nodes@.len()
        &&& (n.ending ==> n.weight == 1 && n.children@.len() == 0)
        &&& (n.ending ==> (self.lre ==> n.length >= 3) && (!self.lre ==> n.length == 0))
        &&& (!n.ending ==> n.children@.len() >= 1)
        &&& (!n.ending ==> (self.lrm ==> n.length >= 3) && (!self.lrm ==> n.length == 0))
    }

    /// The engine invariant: tokens are nonempty and deduplicated, the
    /// ceiling table runs parallel to the token list, every index is in
    /// range, weights are positive, an ending node weighs one and has no
    /// children, a non-ending node has a child, the recorded lengths agree
    /// with the faithfulness flags, and the global counters match the
    /// start weights and the length histogram.
    pub open spec fn wf(self) -> bool {
        &&& self.max_tokens@.len() == self.tokens@.len()
        &&& tokens_nonempty(tok_views(self.tokens@))
        &&& tokens_distinct(tok_views(self.tokens@))
        &&& forall|i: int| 0 <= i < self.starts@.len() ==> self.start_ok(#[trigger] self.starts@[i])
        &&& forall|i: int| 0 <= i < self.nodes@.len() ==> self.node_ok(#[trigger] self.nodes@[i])
        &&& self.total_starts == sum_usize(start_weights(self.starts@))
        &&& self.total_lengths == sum_usize(self.lengths@)
        &&& self.total_lengths == self.total_starts
        &&& self.lengths@.len() <= usize::MAX - 2
    }

    /// The checks `validate` performs, as a predicate.
    pub open spec fn validate_ok(self) -> bool {
        &&& self.total_lengths == sum_usize(self.lengths@)
        &&& self.total_starts == sum_usize(start_weights(self.starts@))
        &&& forall|i: int|
            0 <= i < self.starts@.len() ==> !(#[trigger] self.starts@[i].length == 0 && self.lrs)
        &&& forall|i: int, c: int|
            0 <= i < self.starts@.len() && 0 <= c < self.starts@[i].children@.len()
                ==> #[trigger] self.starts@[i].children@[c] < self.nodes@.len()
        &&& forall|i: int|
            0 <= i < self.starts@.len() ==> (#[trigger] self.starts@[i].tokens.0
                < self.tokens@.len() && self.starts@[i].tokens.1 < self.tokens@.len())
        &&& forall|i: int|
            0 <= i < self.nodes@.len() ==> !(#[trigger] self.nodes@[i].length == 0 && (
            if self.nodes@[i].ending {
                self.lre
            } else {
                self.lrm
            }))
        &&& forall|i: int, c: int|
            0 <= i < self.nodes@.len() && 0 <= c < self.nodes@[i].children@.len()
                ==> #[trigger] self.nodes@[i].children@[c] < self.nodes@.len()
        &&& forall|i: int|
            0 <= i < self.nodes@.len() ==> #[trigger] self.nodes@[i].token < self.tokens@.len()
        &&& forall|i: int| 0 <= i < self.nodes@.len() ==> #[trigger] self.nodes@[i].weight >= 1
        &&& forall|i: int|
            0 <= i < self.nodes@.len() ==> (#[trigger] self.nodes@[i].ending
                ==> self.nodes@[i].weight == 1)
        &&& forall|i: int|
            0 <= i < self.nodes@.len() ==> (#[trigger] self.nodes@[i].ending
                ==> self.nodes@[i].children@.len() == 0)
        &&& forall|i: int|
            0 <= i < self.nodes@.len() ==> (#[trigger] self.nodes@[i].prev.0 < self.tokens@.len()
                && self.nodes@[i].prev.1 < self.tokens@.len())
    }

    /// Check the invariants that hold of every well-formed engine and
    /// report the first violation. Success means exactly that the checks
    /// hold; a well-formed engine always passes.
    #[verifier::rlimit(100)]
    #[verifier::spinoff_prover]
    pub fn validate(&self) -> (r: Result<(), ValidationError>)
        ensures
            r.is_ok() <==> self.validate_ok(),
            r is Err ==> r->Err_0.kind@ == "parts::Markov"@,
    {
        let n_lengths = self.lengths.len();
        let mut total: u128 = 0;
        let mut i: usize = 0;
        while i < n_lengths
            invariant
                i <= n_lengths == self.lengths@.len(),
                total == sum_usize(self.lengths@.take(i as int)),
                total <= i * (usize::MAX as int),
            decreases n_lengths - i,
        {
            proof {
                assert(self.lengths@.take(i as int + 1).drop_last() =~= self.lengths@.take(
                    i as int,
                ));
                lemma_sum_usize_snoc(self.lengths@.take(i as int + 1));
                lemma_mul_le_public(i as int, n_lengths as int, usize::MAX as int);
            }
            total = total + (self.lengths[i] as u128);
            i = i + 1;
        }
        proof {
            assert(self.lengths@.take(n_lengths as int) =~= self.lengths@);
        }
        if total != (self.total_lengths as u128) {
            return Err(ValidationError::new("parts::Markov", "total_lengths is not accurate."));
        }
        let n_starts = self.starts.len();
        let mut total_s: u128 = 0;
        let mut i: usize = 0;
        while i < n_starts
            invariant
                i <= n_starts == self.starts@.len(),
                total_s == sum_usize(start_weights(self.starts@).take(i as int)),
                total_s <= i * (usize::MAX as int),
            decreases n_starts - i,
        {
            proof {
                assert(start_weights(self.starts@).take(i as int + 1).drop_last()
                    =~= start_weights(self.starts@).take(i as int));
                lemma_sum_usize_snoc(start_weights(self.starts@).take(i as int + 1));
                lemma_mul_le_public(i as int, n_starts as int, usize::MAX as int);
            }
            total_s = total_s + (self.starts[i].weight as u128);
            i = i + 1;
        }
        proof {
            assert(start_weights(self.starts@).take(n_starts as int) =~= start_weights(
                self.starts@,
            ));
        }
        if total_s != (self.total_starts as u128) {
            return Err(ValidationError::new("parts::Markov", "total_starts is not accurate."));
        }
        let n_nodes = self.nodes.len();
        let n_tokens = self.tokens.len();
        let mut i: usize = 0;
        while i < n_starts
            invariant
                i <= n_starts == self.starts@.len(),
                n_nodes == self.nodes@.len(),
                n_tokens == self.tokens@.len(),
                forall|j: int|
                    0 <= j < i ==> !(#[trigger] self.starts@[j].length == 0 && self.lrs),
                forall|j: int, c: int|
                    0 <= j < i && 0 <= c < self.starts@[j].children@.len()
                        ==> #[trigger] self.starts@[j].children@[c] < self.nodes@.len(),
                forall|j: int|
                    0 <= j < i ==> (#[trigger] self.starts@[j].tokens.0 < self.tokens@.len()
                        && self.starts@[j].tokens.1 < self.tokens@.len()),
            decreases n_starts - i,
        {
            let start = &self.starts[i];
            if start.length == 0 && self.lrs {
                return Err(
                    ValidationError::new(
                        "parts::Markov",
                        "start.length cannot be zero if lrs is true.",
                    ),
                );
            }
            let n_children = start.children.len();
            let mut c: usize = 0;
            while c < n_children
                invariant
                    c <= n_children == self.starts@[i as int].children@.len(),
                    i < self.starts@.len(),
                    n_nodes == self.nodes@.len(),
                    forall|d: int|
                        0 <= d < c ==> #[trigger] self.starts@[i as int].children@[d]
                            < self.nodes@.len(),
                decreases n_children - c,
            {
                if self.starts[i].children[c] >= n_nodes {
                    return Err(
                        ValidationError::new("parts::Markov", "start has out of range child."),
                    );
                }
                c = c + 1;
            }
            if start.tokens.0 >= n_tokens || start.tokens.1 >= n_tokens {
                return Err(ValidationError::new("parts::Markov", "start has out of range token."));
            }
            i = i + 1;
        }
        let mut i: usize = 0;
        while i < n_nodes
            invariant
                i <= n_nodes == self.nodes@.len(),
                n_tokens == self.tokens@.len(),
                forall|j: int|
                    0 <= j < i ==> !(#[trigger] self.nodes@[j].length == 0 && (
                    if self.nodes@[j].ending {
                        self.lre
                    } else {
                        self.lrm
                    })),
                forall|j: int, c: int|
                    0 <= j < i && 0 <= c < self.nodes@[j].children@.len()
                        ==> #[trigger] self.nodes@[j].children@[c] < self.nodes@.len(),
                forall|j: int|
                    0 <= j < i ==> #[trigger] self.nodes@[j].token < self.tokens@.len(),
                forall|j: int| 0 <= j < i ==> #[trigger] self.nodes@[j].weight >= 1,
                forall|j: int|
                    0 <= j < i ==> (#[trigger] self.nodes@[j].ending ==> self.nodes@[j].weight
                        == 1),
                forall|j: int|
                    0 <= j < i ==> (#[trigger] self.nodes@[j].ending
                        ==> self.nodes@[j].children@.len() == 0),
                forall|j: int|
                    0 <= j < i ==> (#[trigger] self.nodes@[j].prev.0 < self.tokens@.len()
                        && self.nodes@[j].prev.1 < self.tokens@.len()),
            decreases n_nodes - i,
        {
            let node = &self.nodes[i];
            let flag = if node.ending {
                self.lre
            } else {
                self.lrm
            };
            if node.length == 0 && flag {
                return Err(
                    ValidationError::new(
                        "parts::Markov",
                        "node.length cannot be zero if lrm/lre is true.",
                    ),
                );
            }
            let n_children = node.children.len();
            let mut c: usize = 0;
            while c < n_children
                invariant
                    c <= n_children == self.nodes@[i as int].children@.len(),
                    i < self.nodes@.len(),
                    n_nodes == self.nodes@.len(),
                    forall|d: int|
                        0 <= d < c ==> #[trigger] self.nodes@[i as int].children@[d]
                            < self.nodes@.len(),
                decreases n_children - c,
            {
                if self.nodes[i].children[c] >= n_nodes {
                    return Err(
                        ValidationError::new("parts::Markov", "node has out of range child."),
                    );
                }
                c = c + 1;
            }
            if node.token >= n_tokens {
                return Err(ValidationError::new("parts::Markov", "node has out of range token."));
            }
            if node.weight == 0 {
                return Err(ValidationError::new("parts::Markov", "node has zero weight."));
            }
            if node.ending && node.weight != 1 {
                return Err(
                    ValidationError::new("parts::Markov", "ending node cannot have weight <> 1."),
                );
            }
            if node.ending && node.children.len() > 0 {
                return Err(
                    ValidationError::new("parts::Markov", "ending node cannot have children."),
                );
            }
            if node.prev.0 >= n_tokens || node.prev.1 >= n_tokens {
                return Err(ValidationError::new("parts::Markov", "node has out of range prev."));
            }
            i = i + 1;
        }
        Ok(())
    }

    /// A well-formed engine passes every check of `validate`.
    pub proof fn lemma_wf_validates(self)
        requires
            self.wf(),
        ensures
            self.validate_ok(),
    {
        assert forall|i: int| 0 <= i < self.starts@.len() implies !(
        #[trigger] self.starts@[i].length == 0 && self.lrs) by {
            assert(self.start_ok(self.starts@[i]));
        }
        assert forall|i: int, c: int|
            0 <= i < self.starts@.len() && 0 <= c < self.starts@[i].children@.len() implies (
        #[trigger] self.starts@[i].children@[c] < self.nodes@.len()) by {
            assert(self.start_ok(self.starts@[i]));
        }
        assert forall|i: int| 0 <= i < self.starts@.len() implies (
        #[trigger] self.starts@[i].tokens.0 < self.tokens@.len() && self.starts@[i].tokens.1
            < self.tokens@.len()) by {
            assert(self.start_ok(self.starts@[i]));
        }
        assert forall|i: int| 0 <= i < self.nodes@.len() implies !(
        #[trigger] self.nodes@[i].length == 0 && (if self.nodes@[i].ending {
            self.lre
        } else {
            self.lrm
        })) by {
            assert(self.node_ok(self.nodes@[i]));
        }
        assert forall|i: int, c: int|
            0 <= i < self.nodes@.len() && 0 <= c < self.nodes@[i].children@.len() implies (
        #[trigger] self.nodes@[i].children@[c] < self.nodes@.len()) by {
            assert(self.node_ok(self.nodes@[i]));
        }
        assert forall|i: int| 0 <= i < self.nodes@.len() implies (
        #[trigger] self.nodes@[i].token < self.tokens@.len() && self.nodes@[i].weight >= 1 && (
        self.nodes@[i].ending ==> self.nodes@[i].weight == 1
            && self.nodes@[i].children@.len() == 0) && self.nodes@[i].prev.0 < self.tokens@.len()
            && self.nodes@[i].prev.1 < self.tokens@.len()) by {
            assert(self.node_ok(self.nodes@[i]));
        }
    }

    /// Create an engine without predefined tokens or constraints.
    pub fn new() -> (r: Markov)
        ensures
            r.wf(),
            r.starts@.len() == 0,
            r.nodes@.len() == 0,
            r.tokens@.len() == 0,
            r.total_starts == 0,
            r.total_lengths == 0,
            !r.lrs && !r.lrm && !r.lre && !r.rtf,
    {
        let tokens: Vec<&str> = Vec::new();
        let r = Self::with_constraints(&tokens, false, false, false, false);
        proof {
            assert(tok_views(r.tokens@).len() == r.tokens@.len());
            assert(tokens@.map_values(|s: &str| s@).len() == tokens@.len());
        }
        r
    }

    /// Create an engine with predefined tokens (vowel pairs, digraphs and
    /// the like, each treated as one unit) and no constraints.
    pub fn with_tokens(tokens: &[&str]) -> (r: Markov)
        requires
            forall|i: int| 0 <= i < tokens@.len() ==> (#[trigger] tokens@[i])@.len() >= 1,
            forall|i: int, j: int|
                0 <= i < j < tokens@.len() ==> (#[trigger] tokens@[i])@ != (#[trigger] tokens@[j])@,
        ensures
            r.wf(),
            tok_views(r.tokens@) == tokens@.map_values(|s: &str| s@),
            r.starts@.len() == 0,
            r.total_starts == 0,
            !r.lrs && !r.lrm && !r.lre && !r.rtf,
    {
        Self::with_constraints(tokens, false, false, false, false)
    }

    /// Create an engine with predefined tokens and faithfulness
    /// constraints: start, middle and end length restriction, and the
    /// token frequency restriction.
    pub fn with_constraints(tokens: &[&str], lrs: bool, lrm: bool, lre: bool, rtf: bool) -> (r:
        Markov)
        requires
            forall|i: int| 0 <= i < tokens@.len() ==> (#[trigger] tokens@[i])@.len() >= 1,
            forall|i: int, j: int|
                0 <= i < j < tokens@.len() ==> (#[trigger] tokens@[i])@ != (#[trigger] tokens@[j])@,
        ensures
            r.wf(),
            tok_views(r.tokens@) == tokens@.map_values(|s: &str| s@),
            r.starts@.len() == 0,
            r.nodes@.len() == 0,
            r.lengths@ == Seq::new(8, |i: int| 0usize),
            r.total_starts == 0,
            r.total_lengths == 0,
            r.max_tokens@.len() == r.tokens@.len(),
            forall|j: int| 0 <= j < r.max_tokens@.len() ==> #[trigger] r.max_tokens@[j] == 0usize,
            r.lrs == lrs && r.lrm == lrm && r.lre == lre && r.rtf == rtf,
    {
        let n = tokens.len();
        let mut owned: Vec<String> = Vec::new();
        let mut zeros: Vec<usize> = Vec::new();
        let mut i: usize = 0;
        while i < n
            invariant
                i <= n == tokens@.len(),
                owned@.len() == i,
                zeros@.len() == i,
                forall|j: int| 0 <= j < i ==> (#[trigger] owned@[j])@ == tokens@[j]@,
                forall|j: int| 0 <= j < i ==> #[trigger] zeros@[j] == 0usize,
            decreases n - i,
        {
            owned.push(tokens[i].to_owned());
            zeros.push(0);
            i = i + 1;
        }
        let mut lengths: Vec<usize> = Vec::new();
        let mut k: usize = 0;
        while k < 8
            invariant
                k <= 8,
                lengths@.len() == k,
                forall|j: int| 0 <= j < k ==> #[trigger] lengths@[j] == 0usize,
            decreases 8 - k,
        {
            lengths.push(0);
            k = k + 1;
        }
        let r = Markov {
            tokens: owned,
            max_tokens: zeros,
            nodes: Vec::new(),
            starts: Vec::new(),
            total_starts: 0,
            lengths,
            total_lengths: 0,
            lrs,
            lrm,
            lre,
            rtf,
        };
        proof {
            assert(tok_views(r.tokens@) =~= tokens@.map_values(|s: &str| s@));
            assert(r.lengths@ =~= Seq::new(8, |i: int| 0usize));
            assert(start_weights(r.starts@) =~= Seq::<usize>::empty());
            lemma_sum_zeros(r.lengths@);
            assert(tokens_nonempty(tok_views(r.tokens@)));
            assert(tokens_distinct(tok_views(r.tokens@)));
        }
        r
    }
}

/// Whether a node carries exactly this search key.
pub open spec fn node_matches(n: Node, p0: usize, p1: usize, token: usize, length: usize, ending: bool) -> bool {
    n.prev.0 == p0 && n.prev.1 == p1 && n.token == token && n.length == length && n.ending == ending
}

/// Whether a node continues the two-token context `(p0, p1)` in the
/// middle of a word of recorded length `length_m`.
pub open spec fn node_links(n: Node, p0: usize, p1: usize, length_m: usize) -> bool {
    n.prev.1 == p0 && n.token == p1 && !n.ending && n.length == length_m
}

/// The length histogram with the bucket at `i` raised by one, padding
/// with empty buckets as needed.
pub open spec fn bumped(s: Seq<usize>, i: int) -> Seq<usize> {
    let padded = if i < s.len() {
        s
    } else {
        s + Seq::new((i + 1 - s.len()) as nat, |_j: int| 0usize)
    };
    padded.update(i, ((padded[i] + 1) as usize))
}

/// Whether token `t` starts the remainder of `word` at `pos`.
pub(crate) fn prefix_matches(t: &String, word: &Vec<char>, pos: usize) -> (r: bool)
        requires
            pos <= word@.len(),
        ensures
            r == is_prefix_of(t@, word@.skip(pos as int)),
    {
        let tl = t.unicode_len();
        let wn = word.len();
        if tl > wn - pos {
            return false;
        }
        let mut k: usize = 0;
        while k < tl
            invariant
                k <= tl == t@.len(),
                pos + tl <= wn == word@.len(),
                forall|j: int| 0 <= j < k ==> t@[j] == word@[pos + j],
            decreases tl - k,
        {
            if t.get_char(k) != word[pos + k] {
                proof {
                    if is_prefix_of(t@, word@.skip(pos as int)) {
                        assert(t@[k as int] == word@.skip(pos as int).take(tl as int)[k as int]);
                    }
                }
                return false;
            }
            k = k + 1;
        }
        proof {
            assert(t@ =~= word@.skip(pos as int).take(tl as int));
        }
        true
}

/// The longest of the known units that starts the remainder of `word` at
/// `pos`, or `None` where none does.
pub(crate) fn scan_best_match(tokens: &Vec<String>, word: &Vec<char>, pos: usize) -> (r: Option<
    usize,
>)
    requires
        pos <= word@.len(),
        tokens_nonempty(tok_views(tokens@)),
    ensures
        match r {
            Some(i) => i < tokens@.len() && best_match(
                tok_views(tokens@),
                word@.skip(pos as int),
            ) == i as int,
            None => best_match(tok_views(tokens@), word@.skip(pos as int)) == -1,
        },
{
        let ghost tv = tok_views(tokens@);
        let ghost rem = word@.skip(pos as int);
        let n = tokens.len();
        let mut best: usize = n;
        let mut best_len: usize = 0;
        let mut i: usize = 0;
        while i < n
            invariant
                i <= n == tokens@.len(),
                pos <= word@.len(),
                tv == tok_views(tokens@),
                rem == word@.skip(pos as int),
                tokens_nonempty(tv),
                best == n || (best < i && is_prefix_of(tv[best as int], rem) && best_len
                    == tv[best as int].len()),
                match_from(
                    tv,
                    rem,
                    i as int,
                    if best == n {
                        -1
                    } else {
                        best as int
                    },
                ) == best_match(tv, rem),
            decreases n - i,
        {
            let pm = prefix_matches(&tokens[i], word, pos);
            let tl = tokens[i].unicode_len();
            if pm && (best == n || tl > best_len) {
                best = i;
                best_len = tl;
            }
            i = i + 1;
        }
        if best == n {
            None
        } else {
            Some(best)
        }
}

impl Markov {
    /// The longest known token that starts the remainder of `word` at
    /// `pos`, or `None` where no token does.
    pub fn find_next_token(&self, word: &Vec<char>, pos: usize) -> (r: Option<usize>)
        requires
            pos <= word@.len(),
            tokens_nonempty(tok_views(self.tokens@)),
        ensures
            match r {
                Some(i) => i < self.tokens@.len() && best_match(
                    tok_views(self.tokens@),
                    word@.skip(pos as int),
                ) == i as int,
                None => best_match(tok_views(self.tokens@), word@.skip(pos as int)) == -1,
            },
    {
        scan_best_match(&self.tokens, word, pos)
    }

    /// Split a word into token indices by the greedy longest-known-token
    /// rule, minting a new single-character token wherever no known token
    /// matches. Only the token list and its ceiling table change.
    fn tokenize_word(&mut self, word: &Vec<char>) -> (ixs: Vec<usize>)
        requires
            tokens_nonempty(tok_views(old(self).tokens@)),
            tokens_distinct(tok_views(old(self).tokens@)),
            old(self).max_tokens@.len() == old(self).tokens@.len(),
        ensures
            tok_views(final(self).tokens@) == spec_tokenize(
                tok_views(old(self).tokens@),
                word@,
            ).0,
            ixs@.map_values(|x: usize| x as int) == spec_tokenize(
                tok_views(old(self).tokens@),
                word@,
            ).1,
            final(self).starts == old(self).starts,
            final(self).nodes == old(self).nodes,
            final(self).lengths == old(self).lengths,
            final(self).total_starts == old(self).total_starts,
            final(self).total_lengths == old(self).total_lengths,
            final(self).lrs == old(self).lrs,
            final(self).lrm == old(self).lrm,
            final(self).lre == old(self).lre,
            final(self).rtf == old(self).rtf,
            final(self).tokens@.len() >= old(self).tokens@.len(),
            forall|j: int|
                0 <= j < old(self).tokens@.len() ==> final(self).tokens@[j] == old(self).tokens@[j],
            final(self).max_tokens@.len() == final(self).tokens@.len(),
            forall|j: int|
                0 <= j < old(self).tokens@.len() ==> final(self).max_tokens@[j] == old(self).max_tokens@[j],
            forall|j: int|
                old(self).tokens@.len() <= j < final(self).tokens@.len() ==> final(self).max_tokens@[j] == 0,
            tokens_nonempty(tok_views(final(self).tokens@)),
            tokens_distinct(tok_views(final(self).tokens@)),
            forall|k: int| 0 <= k < ixs@.len() ==> #[trigger] ixs@[k] < final(self).tokens@.len(),
    {
        let ghost tv0 = tok_views(old(self).tokens@);
        let mut ixs: Vec<usize> = Vec::new();
        let mut pos: usize = 0;
        let n_word = word.len();
        proof {
            assert(word@.skip(0) =~= word@);
            assert(ixs@.map_values(|x: usize| x as int) =~= Seq::<int>::empty());
            assert(Seq::<int>::empty() + spec_tokenize(tv0, word@).1 =~= spec_tokenize(
                tv0,
                word@,
            ).1);
        }
        while pos < n_word
            invariant
                pos <= n_word == word@.len(),
                tokens_nonempty(tok_views(self.tokens@)),
                tokens_distinct(tok_views(self.tokens@)),
                self.max_tokens@.len() == self.tokens@.len(),
                spec_tokenize(tv0, word@).0 == spec_tokenize(
                    tok_views(self.tokens@),
                    word@.skip(pos as int),
                ).0,
                spec_tokenize(tv0, word@).1 == ixs@.map_values(|x: usize| x as int)
                    + spec_tokenize(tok_views(self.tokens@), word@.skip(pos as int)).1,
                self.starts == old(self).starts,
                self.nodes == old(self).nodes,
                self.lengths == old(self).lengths,
                self.total_starts == old(self).total_starts,
                self.total_lengths == old(self).total_lengths,
                self.lrs == old(self).lrs,
                self.lrm == old(self).lrm,
                self.lre == old(self).lre,
                self.rtf == old(self).rtf,
                self.tokens@.len() >= old(self).tokens@.len(),
                forall|j: int|
                    0 <= j < old(self).tokens@.len() ==> self.tokens@[j] == old(self).tokens@[j],
                forall|j: int|
                    0 <= j < old(self).tokens@.len() ==> self.max_tokens@[j] == old(self).max_tokens@[j],
                forall|j: int|
                    old(self).tokens@.len() <= j < self.tokens@.len()
                        ==> self.max_tokens@[j] == 0,
                forall|k: int| 0 <= k < ixs@.len() ==> #[trigger] ixs@[k] < self.tokens@.len(),
            decreases n_word - pos,
        {
            let ghost tv_cur = tok_views(self.tokens@);
            let ghost rem = word@.skip(pos as int);
            proof {
                assert(rem.len() > 0);
            }
            let found = scan_best_match(&self.tokens, word, pos);
            match found {
                Some(ti) => {
                    let tl = self.tokens[ti].unicode_len();
                    proof {
                        lemma_match_from_good(tv_cur, rem, 0, -1);
                        assert(is_prefix_of(tv_cur[ti as int], rem));
                        assert(tok_step(tv_cur, rem) == tl as int);
                        assert(ixs@.push(ti).map_values(|x: usize| x as int) =~= ixs@.map_values(
                            |x: usize| x as int,
                        ).push(ti as int));
                        assert(ixs@.map_values(|x: usize| x as int) + (seq![ti as int]
                            + spec_tokenize(tv_cur, rem.skip(tl as int)).1) =~= ixs@.map_values(
                            |x: usize| x as int,
                        ).push(ti as int) + spec_tokenize(tv_cur, rem.skip(tl as int)).1);
                        assert(rem.skip(tl as int) =~= word@.skip(pos + tl));
                    }
                    ixs.push(ti);
                    pos = pos + tl;
                },
                None => {
                    let c = word[pos];
                    let mut one: Vec<char> = Vec::new();
                    one.push(c);
                    let minted = string_from_chars(&one);
                    let new_index = self.tokens.len();
                    let ghost new_ix: int = new_index as int;
                    proof {
                        lemma_match_from_none(tv_cur, rem, 0, -1);
                        assert(minted@ =~= rem.take(1));
                        assert(tok_views(self.tokens@.push(minted)) =~= tv_cur.push(rem.take(1)));
                        assert forall|j: int|
                            0 <= j < tv_cur.len() implies tv_cur[j] != rem.take(1) by {
                            if tv_cur[j] == rem.take(1) {
                                assert(tv_cur[j].len() == 1);
                                assert(is_prefix_of(tv_cur[j], rem));
                            }
                        }
                        assert(ixs@.push((new_ix as usize)).map_values(|x: usize| x as int)
                            =~= ixs@.map_values(|x: usize| x as int).push(new_ix));
                        assert(ixs@.map_values(|x: usize| x as int) + (seq![new_ix]
                            + spec_tokenize(tv_cur.push(rem.take(1)), rem.skip(1)).1)
                            =~= ixs@.map_values(|x: usize| x as int).push(new_ix)
                            + spec_tokenize(tv_cur.push(rem.take(1)), rem.skip(1)).1);
                        assert(rem.skip(1) =~= word@.skip(pos + 1));
                    }
                    self.tokens.push(minted);
                    self.max_tokens.push(0);
                    ixs.push(new_index);
                    pos = pos + 1;
                },
            }
        }
        proof {
            assert(word@.skip(n_word as int) =~= Seq::<char>::empty());
            assert(ixs@.map_values(|x: usize| x as int) + Seq::<int>::empty() =~= ixs@.map_values(
                |x: usize| x as int,
            ));
        }
        ixs
    }

    /// The first node carrying this key, scanning in creation order.
    fn find_node(&self, p0: usize, p1: usize, token: usize, length: usize, ending: bool) -> (r:
        Option<usize>)
        ensures
            match r {
                Some(i) => i < self.nodes@.len() && node_matches(
                    self.nodes@[i as int],
                    p0,
                    p1,
                    token,
                    length,
                    ending,
                ) && forall|j: int|
                    0 <= j < i ==> !node_matches(
                        #[trigger] self.nodes@[j],
                        p0,
                        p1,
                        token,
                        length,
                        ending,
                    ),
                None => forall|j: int|
                    0 <= j < self.nodes@.len() ==> !node_matches(
                        #[trigger] self.nodes@[j],
                        p0,
                        p1,
                        token,
                        length,
                        ending,
                    ),
            },
    {
        let n = self.nodes.len();
        let mut i: usize = 0;
        while i < n
            invariant
                i <= n == self.nodes@.len(),
                forall|j: int|
                    0 <= j < i ==> !node_matches(
                        #[trigger] self.nodes@[j],
                        p0,
                        p1,
                        token,
                        length,
                        ending,
                    ),
            decreases n - i,
        {
            let nd = &self.nodes[i];
            if nd.prev.0 == p0 && nd.prev.1 == p1 && nd.token == token && nd.length == length
                && nd.ending == ending {
                return Some(i);
            }
            i = i + 1;
        }
        None
    }
}

impl Markov {
    /// Well-formedness of one node, except that a non-ending node need not
    /// have a child yet.
    pub open spec fn node_ok_weak(self, n: Node) -> bool {
        &&& n.token < self.tokens@.len()
        &&& n.prev.0 < self.tokens@.len()
        &&& n.prev.1 < self.tokens@.len()
        &&& n.weight >= 1
        &&& forall|c: int| 0 <= c < n.children@.len() ==> n.children@[c] < self.nodes@.len()
        &&& (n.ending ==> n.weight == 1 && n.children@.len() == 0)
        &&& (n.ending ==> (self.lre ==> n.length >= 3) && (!self.lre ==> n.length == 0))
        &&& (!n.ending ==> (self.lrm ==> n.length >= 3) && (!self.lrm ==> n.length == 0))
    }

    /// Learn one word sample without recomputing weights: tokenize it,
    /// refuse it with fewer than three tokens, then record ceilings, the
    /// start node, the length histogram and the transition chain.
    #[verifier::rlimit(100)]
    #[verifier::spinoff_prover]
    fn learn_norecalc(&mut self, sample: &Sample) -> (r: Result<(), LearnError>)
        requires
            old(self).wf(),
            old(self).total_starts < usize::MAX,
        ensures
            final(self).lrs == old(self).lrs,
            final(self).lrm == old(self).lrm,
            final(self).lre == old(self).lre,
            final(self).rtf == old(self).rtf,
            (*sample is Tokens) ==> r is Err && r->Err_0.code == 1 && *final(self) == *old(self),
            r is Err ==> r->Err_0.sample is Some && sample_model(r->Err_0.sample->0)
                == sample_model(*sample),
            !(*sample is Tokens) ==> ({
                let tk = spec_tokenize(tok_views(old(self).tokens@), word_of(*sample));
                &&& tok_views(final(self).tokens@) == tk.0
                &&& final(self).max_tokens@.len() == final(self).tokens@.len()
                &&& tokens_nonempty(tok_views(final(self).tokens@))
                &&& tokens_distinct(tok_views(final(self).tokens@))
                &&& final(self).tokens@.len() >= old(self).tokens@.len()
                &&& (forall|j: int|
                    0 <= j < old(self).tokens@.len() ==> final(self).tokens@[j] == old(self).tokens@[j])
                &&& (r is Err ==> forall|j: int|
                    0 <= j < old(self).tokens@.len() ==> final(self).max_tokens@[j] == old(self).max_tokens@[j])
                &&& (r is Err ==> forall|j: int|
                    old(self).tokens@.len() <= j < final(self).tokens@.len() ==> final(self).max_tokens@[j] == 0)
                &&& (r is Err <==> tk.1.len() < 3)
                &&& (r is Err ==> r->Err_0.code == 0 && final(self).starts == old(self).starts
                    && final(self).nodes == old(self).nodes && final(self).lengths == old(self).lengths && final(self).total_starts == old(self).total_starts && final(self).total_lengths == old(self).total_lengths)
                &&& (r is Ok ==> {
                    &&& final(self).wf()
                    &&& final(self).total_starts == old(self).total_starts + 1
                    &&& final(self).total_lengths == old(self).total_lengths + 1
                    &&& final(self).lengths@ == bumped(old(self).lengths@, tk.1.len() - 3)
                    &&& (forall|j: int|
                        0 <= j < old(self).max_tokens@.len()
                            ==> #[trigger] final(self).max_tokens@[j] >= old(self).max_tokens@[j])
                    &&& (old(self).rtf ==> forall|t: usize|
                        (t as int) < final(self).max_tokens@.len()
                            ==> (#[trigger] final(self).max_tokens@[t as int]) as int == int_max(
                            if (t as int) < old(self).max_tokens@.len() {
                                old(self).max_tokens@[t as int] as int
                            } else {
                                0
                            },
                            count_tok(tk.1.map_values(|x: int| x as usize), t),
                        ))
                    &&& (!old(self).rtf ==> forall|t: int|
                        0 <= t < final(self).max_tokens@.len()
                            ==> (#[trigger] final(self).max_tokens@[t]) as int == (
                        if t < old(self).max_tokens@.len() {
                            old(self).max_tokens@[t] as int
                        } else {
                            0
                        }))
                    &&& ({
                        let si = start_key_index(
                            old(self).starts@,
                            tk.1[0],
                            tk.1[1],
                            if old(self).lrs {
                                tk.1.len() as int
                            } else {
                                0
                            },
                        );
                        if si < old(self).starts@.len() {
                            &&& final(self).starts@.len() == old(self).starts@.len()
                            &&& forall|j: int|
                                0 <= j < old(self).starts@.len() && j != si ==> final(self).starts@[j] == old(self).starts@[j]
                            &&& final(self).starts@[si].tokens == old(self).starts@[si].tokens
                            &&& final(self).starts@[si].length == old(self).starts@[si].length
                            &&& final(self).starts@[si].weight == old(self).starts@[si].weight + 1
                            &&& seq_extended(
                                old(self).starts@[si].children@,
                                final(self).starts@[si].children@,
                            )
                        } else {
                            &&& final(self).starts@.len() == old(self).starts@.len() + 1
                            &&& forall|j: int|
                                0 <= j < old(self).starts@.len() ==> final(self).starts@[j] == old(self).starts@[j]
                            &&& final(self).starts@[si].tokens.0 as int == tk.1[0]
                            &&& final(self).starts@[si].tokens.1 as int == tk.1[1]
                            &&& final(self).starts@[si].length as int == (if old(self).lrs {
                                tk.1.len() as int
                            } else {
                                0
                            })
                            &&& final(self).starts@[si].weight == 1
                        }
                    })
                    &&& final(self).nodes@.len() >= old(self).nodes@.len()
                    &&& forall|j: int|
                        0 <= j < old(self).nodes@.len() ==> node_same_but_children(
                            old(self).nodes@[j],
                            #[trigger] final(self).nodes@[j],
                        )
                    &&& generated_ok(*final(self), tk.1.map_values(|x: int| x as usize))
                })
            }),
    {
        let word_string: &String;
        match sample {
            Sample::Word(s) => {
                word_string = s;
            },
            Sample::WordWeighted(s, _) => {
                word_string = s;
            },
            Sample::Tokens(_) => {
                return Err(
                    LearnError::new(
                        1,
                        String::from_str("Incorrect sample type. Must be Word"),
                        Some(sample.duplicate()),
                    ),
                );
            },
        }
        let wchars = str_to_chars(word_string.as_str());
        let ixs = self.tokenize_word(&wchars);
        let n_ixs = ixs.len();
        proof {
            assert(ixs@.map_values(|x: usize| x as int).len() == ixs@.len());
        }
        if n_ixs < 3 {
            return Err(
                LearnError::new(
                    0,
                    String::from_str("3 or more tokens required"),
                    Some(sample.duplicate()),
                ),
            );
        }
        let ghost state1 = *self;
        // Record per-sample token ceilings where the frequency restriction
        // is on.
        if self.rtf {
            let mut k: usize = 0;
            while k < n_ixs
                invariant
                    k <= n_ixs == ixs@.len(),
                    self.max_tokens@.len() == state1.max_tokens@.len(),
                    forall|k2: int| 0 <= k2 < ixs@.len() ==> #[trigger] ixs@[k2] < self.max_tokens@.len(),
                    forall|t: int|
                        0 <= t < self.max_tokens@.len() ==> #[trigger] self.max_tokens@[t]
                            >= state1.max_tokens@[t],
                    forall|k2: int|
                        0 <= k2 < k ==> #[trigger] self.max_tokens@[ixs@[k2] as int] >= count_tok(
                            ixs@,
                            ixs@[k2],
                        ),
                    forall|t2: usize|
                        (t2 as int) < self.max_tokens@.len()
                            ==> (#[trigger] self.max_tokens@[t2 as int]) as int == (
                        if exists|q: int| 0 <= q < k && ixs@[q] == t2 {
                            int_max(
                                state1.max_tokens@[t2 as int] as int,
                                count_tok(ixs@, t2),
                            )
                        } else {
                            state1.max_tokens@[t2 as int] as int
                        }),
                    self.tokens == state1.tokens,
                    self.starts == state1.starts,
                    self.nodes == state1.nodes,
                    self.lengths == state1.lengths,
                    self.total_starts == state1.total_starts,
                    self.total_lengths == state1.total_lengths,
                    self.lrs == state1.lrs && self.lrm == state1.lrm && self.lre == state1.lre
                        && self.rtf == state1.rtf,
                decreases n_ixs - k,
            {
                let t = ixs[k];
                let cnt = count_of(&ixs, t);
                let ghost mt_pre = self.max_tokens@;
                if self.max_tokens[t] < cnt {
                    proof {
                        lemma_count_tok_nonneg(ixs@, t);
                    }
                    self.max_tokens.set(t, cnt);
                }
                proof {
                    assert forall|t2: usize|
                        (t2 as int) < self.max_tokens@.len() implies (
                    #[trigger] self.max_tokens@[t2 as int]) as int == (
                    if exists|q: int| 0 <= q < k + 1 && ixs@[q] == t2 {
                        int_max(state1.max_tokens@[t2 as int] as int, count_tok(ixs@, t2))
                    } else {
                        state1.max_tokens@[t2 as int] as int
                    }) by {
                        if t2 == t {
                            assert(ixs@[k as int] == t);
                            assert(0 <= k < k + 1 && ixs@[k as int] == t2);
                            if exists|q: int| 0 <= q < k && ixs@[q] == t2 {
                                assert(mt_pre[t2 as int] as int == int_max(
                                    state1.max_tokens@[t2 as int] as int,
                                    cnt as int,
                                ));
                                assert(mt_pre[t2 as int] >= cnt);
                                assert(self.max_tokens@[t2 as int] == mt_pre[t2 as int]);
                            } else {
                                assert(mt_pre[t2 as int] == state1.max_tokens@[t2 as int]);
                            }
                        } else {
                            assert(self.max_tokens@[t2 as int] == mt_pre[t2 as int]);
                            if exists|q: int| 0 <= q < k + 1 && ixs@[q] == t2 {
                                let q = choose|q: int| 0 <= q < k + 1 && ixs@[q] == t2;
                                assert(q != k);
                                assert(0 <= q < k && ixs@[q] == t2);
                            }
                        }
                    }
                }
                k = k + 1;
            }
            proof {
                assert forall|t2: usize|
                    (t2 as int) < self.max_tokens@.len() implies (
                #[trigger] self.max_tokens@[t2 as int]) as int == int_max(
                    state1.max_tokens@[t2 as int] as int,
                    count_tok(ixs@, t2),
                ) by {
                    lemma_count_tok_nonneg(ixs@, t2);
                    if count_tok(ixs@, t2) > 0 {
                        lemma_count_pos_member(ixs@, t2);
                    } else {
                        if exists|q: int| 0 <= q < n_ixs && ixs@[q] == t2 {
                            let q = choose|q: int| 0 <= q < n_ixs && ixs@[q] == t2;
                            lemma_count_tok_at(ixs@, q);
                        }
                    }
                }
            }
        }
        let ghost state2 = *self;
        // Find or create the start node for the first two tokens.
        let t0 = ixs[0];
        let t1 = ixs[1];
        let slen = if self.lrs {
            n_ixs
        } else {
            0
        };
        let n_starts = self.starts.len();
        let mut start_index = n_starts;
        let mut j: usize = 0;
        loop
            invariant_except_break
                start_index == n_starts,
                forall|j2: int|
                    0 <= j2 < j ==> !start_matches(#[trigger] self.starts@[j2], t0, t1, slen),
            invariant
                j <= n_starts == self.starts@.len(),
                *self == state2,
            ensures
                start_index <= n_starts,
                start_index as int == start_key_index(
                    self.starts@,
                    t0 as int,
                    t1 as int,
                    slen as int,
                ),
                start_index < n_starts ==> start_matches(
                    self.starts@[start_index as int],
                    t0,
                    t1,
                    slen,
                ),
            decreases n_starts - j,
        {
            if j >= n_starts {
                proof {
                    lemma_start_key_from_scan(self.starts@, t0, t1, slen, j as int);
                }
                break ;
            }
            let st = &self.starts[j];
            if st.tokens.0 == t0 && st.tokens.1 == t1 && st.length == slen {
                start_index = j;
                proof {
                    lemma_start_key_from_scan(self.starts@, t0, t1, slen, j as int);
                }
                break ;
            }
            j = j + 1;
        }
        if start_index < n_starts {
            proof {
                assert(start_weights(self.starts@)[start_index as int]
                    == self.starts@[start_index as int].weight);
                lemma_sum_usize_element_bound(start_weights(self.starts@), start_index as int);
            }
            bump_start_weight(&mut self.starts, start_index);
            proof {
                assert(start_weights(self.starts@) =~= start_weights(state2.starts@).update(
                    start_index as int,
                    self.starts@[start_index as int].weight,
                ));
                lemma_sum_usize_update(
                    start_weights(state2.starts@),
                    start_index as int,
                    self.starts@[start_index as int].weight,
                );
            }
        } else {
            self.starts.push(
                StartNode { tokens: (t0, t1), weight: 1, length: slen, children: Vec::new() },
            );
            proof {
                assert(start_weights(self.starts@) =~= start_weights(state2.starts@).push(1usize));
                lemma_sum_usize_snoc(start_weights(state2.starts@).push(1usize));
                assert(start_weights(state2.starts@).push(1usize).drop_last() =~= start_weights(
                    state2.starts@,
                ));
            }
        }
        proof {
            assert(start_index < self.starts@.len());
        }
        self.total_starts = self.total_starts + 1;
        // Record the sample length in the histogram.
        let li = n_ixs - 3;
        proof {
            assert(li + 1 <= usize::MAX - 2);
        }
        let ghost state_h = *self;
        let ghost lengths_before = self.lengths@;
        while self.lengths.len() <= li
            invariant
                li + 1 <= usize::MAX - 2,
                self.tokens == state_h.tokens,
                self.max_tokens == state_h.max_tokens,
                self.starts == state_h.starts,
                self.nodes == state_h.nodes,
                self.total_starts == state_h.total_starts,
                self.total_lengths == state_h.total_lengths,
                self.lrs == state_h.lrs && self.lrm == state_h.lrm && self.lre == state_h.lre
                    && self.rtf == state_h.rtf,
                lengths_before == state_h.lengths@,
                self.lengths@.len() >= lengths_before.len(),
                self.lengths@.len() == lengths_before.len() || self.lengths@.len() <= li + 1,
                forall|j2: int|
                    0 <= j2 < lengths_before.len() ==> #[trigger] self.lengths@[j2]
                        == lengths_before[j2],
                forall|j2: int|
                    lengths_before.len() <= j2 < self.lengths@.len() ==> #[trigger] self.lengths@[j2]
                        == 0usize,
                sum_usize(self.lengths@) == sum_usize(lengths_before),
            decreases li + 1 - self.lengths@.len(),
        {
            proof {
                lemma_sum_usize_snoc(self.lengths@.push(0usize));
                assert(self.lengths@.push(0usize).drop_last() =~= self.lengths@);
            }
            self.lengths.push(0);
        }
        proof {
            lemma_sum_usize_element_bound(self.lengths@, li as int);
            assert(self.total_lengths == sum_usize(lengths_before));
        }
        let ghost lengths_padded = self.lengths@;
        let bucket = self.lengths[li];
        self.lengths.set(li, bucket + 1);
        proof {
            assert(self.lengths@.update(li as int, bucket) =~= lengths_padded);
            lemma_sum_usize_update(self.lengths@.update(li as int, bucket), li as int, (bucket
                + 1) as usize);
            let padded: Seq<usize> = if (li as int) < lengths_before.len() {
                lengths_before
            } else {
                lengths_before + Seq::new((li + 1 - lengths_before.len()) as nat, |_j: int| 0usize)
            };
            assert(self.lengths@.update(li as int, bucket) =~= padded);
            assert(self.lengths@ =~= bumped(lengths_before, li as int));
            assert(self.lengths@ =~= self.lengths@.update(li as int, bucket).update(
                li as int,
                (bucket + 1) as usize,
            ));
        }
        self.total_lengths = self.total_lengths + 1;
        let ghost state3 = *self;
        proof {
            lemma_sum_usize_nonneg(start_weights(state3.starts@));
        }
        // Walk the rest of the sample, linking each transition node to the
        // nodes that can precede it.
        let length_m = if self.lrm {
            n_ixs
        } else {
            0
        };
        let length_e = if self.lre {
            n_ixs
        } else {
            0
        };
        let mut prev0 = t0;
        let mut prev1 = t1;
        let mut i: usize = 2;
        let ghost pending: int = -1;
        let ghost mut path: Seq<usize> = Seq::empty();
        proof {
            assert(self.starts == state_h.starts);
            assert(start_index < self.starts@.len());
            assert(self.starts@[start_index as int].tokens == (t0, t1));
            assert(self.starts@[start_index as int].length == slen);
            assert(li < self.lengths@.len() && self.lengths@[li as int] >= 1);
            lemma_seq_extended_refl(state3.starts@[start_index as int].children@);
            assert forall|j2: int|
                0 <= j2 < state3.nodes@.len() implies node_same_but_children(
                state3.nodes@[j2],
                #[trigger] self.nodes@[j2],
            ) by {
                lemma_seq_extended_refl(state3.nodes@[j2].children@);
            }
            assert forall|j2: int|
                0 <= j2 < self.nodes@.len() implies self.node_ok_weak(#[trigger] self.nodes@[j2])
                && (!self.nodes@[j2].ending ==> self.nodes@[j2].children@.len() >= 1) by {
                assert(old(self).node_ok(old(self).nodes@[j2]));
                assert(self.nodes@[j2] == old(self).nodes@[j2]);
            }
            if self.rtf {
                lemma_count_tok_at(ixs@, 0);
                lemma_count_tok_at(ixs@, 1);
                if t0 == t1 {
                    lemma_count_tok_pair(ixs@, 0, 1);
                }
                assert(self.max_tokens@[t0 as int] >= count_tok(ixs@, t0));
                assert(self.max_tokens@[t1 as int] >= count_tok(ixs@, t1));
            }
            assert forall|j2: int|
                0 <= j2 < self.starts@.len() implies self.start_ok(#[trigger] self.starts@[j2]) by {
                if j2 < old(self).starts@.len() {
                    assert(old(self).start_ok(old(self).starts@[j2]));
                    if self.rtf {
                        assert(self.max_tokens@[old(self).starts@[j2].tokens.0 as int] >= old(self).max_tokens@[old(self).starts@[j2].tokens.0 as int]);
                        assert(self.max_tokens@[old(self).starts@[j2].tokens.1 as int] >= old(self).max_tokens@[old(self).starts@[j2].tokens.1 as int]);
                    }
                }
            }
        }
        while i < n_ixs
            invariant
                2 <= i <= n_ixs == ixs@.len(),
                3 <= n_ixs,
                forall|k2: int| 0 <= k2 < ixs@.len() ==> #[trigger] ixs@[k2] < self.tokens@.len(),
                prev0 == ixs@[i - 2],
                prev1 == ixs@[i - 1],
                length_m == (if self.lrm {
                    n_ixs
                } else {
                    0
                }),
                length_e == (if self.lre {
                    n_ixs
                } else {
                    0
                }),
                self.tokens == state3.tokens,
                self.max_tokens == state3.max_tokens,
                self.lengths == state3.lengths,
                self.total_starts == state3.total_starts,
                self.total_lengths == state3.total_lengths,
                self.lrs == state3.lrs && self.lrm == state3.lrm && self.lre == state3.lre
                    && self.rtf == state3.rtf,
                self.max_tokens@.len() == self.tokens@.len(),
                tokens_nonempty(tok_views(self.tokens@)),
                tokens_distinct(tok_views(self.tokens@)),
                // starts change only at the linked start's child list
                self.starts@.len() == state3.starts@.len(),
                start_index < self.starts@.len(),
                forall|j2: int|
                    0 <= j2 < self.starts@.len() && j2 != start_index ==> #[trigger] self.starts@[j2]
                        == state3.starts@[j2],
                self.starts@[start_index as int].tokens == state3.starts@[start_index as int].tokens,
                self.starts@[start_index as int].weight == state3.starts@[start_index as int].weight,
                self.starts@[start_index as int].length == state3.starts@[start_index as int].length,
                seq_extended(
                    state3.starts@[start_index as int].children@,
                    self.starts@[start_index as int].children@,
                ),
                forall|j2: int|
                    0 <= j2 < self.starts@.len() ==> self.start_ok(#[trigger] self.starts@[j2]),
                self.total_starts == sum_usize(start_weights(self.starts@)),
                self.total_lengths == sum_usize(self.lengths@),
                self.total_lengths == self.total_starts,
                // nodes grow; existing nodes only gain children
                self.nodes@.len() >= state3.nodes@.len(),
                forall|j2: int|
                    0 <= j2 < state3.nodes@.len() ==> node_same_but_children(
                        state3.nodes@[j2],
                        #[trigger] self.nodes@[j2],
                    ),
                forall|j2: int|
                    0 <= j2 < self.nodes@.len() ==> self.node_ok_weak(#[trigger] self.nodes@[j2]),
                forall|j2: int|
                    0 <= j2 < self.nodes@.len() && !self.nodes@[j2].ending && j2 != pending
                        ==> #[trigger] self.nodes@[j2].children@.len() >= 1,
                pending == -1 || (0 <= pending < self.nodes@.len() && node_links(
                    self.nodes@[pending],
                    prev0,
                    prev1,
                    length_m,
                ) && (i > 2)),
                pending >= 0 ==> i < n_ixs,
                // the walked path: one node per accepted token, each linked
                // to its predecessor
                path.len() == i - 2,
                forall|k: int| 0 <= k < path.len() ==> (#[trigger] path[k]) < self.nodes@.len(),
                forall|k: int|
                    0 <= k < path.len() ==> node_matches(
                        self.nodes@[(#[trigger] path[k]) as int],
                        ixs@[k],
                        ixs@[k + 1],
                        ixs@[k + 2],
                        if k == n_ixs - 3 {
                            length_e
                        } else {
                            length_m
                        },
                        k == n_ixs - 3,
                    ),
                i > 2 ==> self.starts@[start_index as int].children@.contains(path[0]),
                forall|k: int|
                    1 <= k < path.len() ==> (
                    #[trigger] self.nodes@[path[k - 1] as int].children@).contains(path[k]),
            decreases n_ixs - i,
        {
            let ghost iter0 = *self;
            let ending = i == n_ixs - 1;
            let length = if ending {
                length_e
            } else {
                length_m
            };
            let token = ixs[i];
            let found = self.find_node(prev0, prev1, token, length, ending);
            let ghost nodes_entry = self.nodes@;
            let mut created = false;
            let cur_i: usize;
            match found {
                Some(x) => {
                    cur_i = x;
                },
                None => {
                    cur_i = self.nodes.len();
                    self.nodes.push(
                        Node {
                            prev: (prev0, prev1),
                            token,
                            weight: 1,
                            length,
                            children: Vec::new(),
                            ending,
                        },
                    );
                    created = true;
                    proof {
                        assert forall|j2: int|
                            0 <= j2 < self.nodes@.len() implies self.node_ok_weak(
                            #[trigger] self.nodes@[j2],
                        ) by {
                            if j2 < nodes_entry.len() {
                                assert(nodes_entry[j2] == self.nodes@[j2]);
                            }
                        }
                    }
                },
            }
            let ghost nodes_after_create = self.nodes@;
            if i > 2 {
                let n_nodes = self.nodes.len();
                let ghost state_w = *self;
                let mut j2: usize = 0;
                proof {
                    assert forall|k2: int|
                        0 <= k2 < self.nodes@.len() implies node_same_but_children(
                        nodes_after_create[k2],
                        #[trigger] self.nodes@[k2],
                    ) by {
                        lemma_seq_extended_refl(nodes_after_create[k2].children@);
                    }
                }
                while j2 < n_nodes
                    invariant
                        self.tokens == state_w.tokens,
                        self.max_tokens == state_w.max_tokens,
                        self.starts == state_w.starts,
                        self.lengths == state_w.lengths,
                        self.total_starts == state_w.total_starts,
                        self.total_lengths == state_w.total_lengths,
                        self.lrs == state_w.lrs && self.lrm == state_w.lrm && self.lre
                            == state_w.lre && self.rtf == state_w.rtf,
                        nodes_after_create == state_w.nodes@,
                        j2 <= n_nodes == self.nodes@.len(),
                        cur_i < self.nodes@.len(),
                        nodes_after_create.len() == self.nodes@.len(),
                        forall|k2: int|
                            0 <= k2 < self.nodes@.len() ==> node_same_but_children(
                                nodes_after_create[k2],
                                #[trigger] self.nodes@[k2],
                            ),
                        forall|k2: int|
                            0 <= k2 < j2 && node_links(nodes_after_create[k2], prev0, prev1, length_m)
                                ==> (#[trigger] self.nodes@[k2].children@).contains(cur_i),
                        forall|k2: int|
                            0 <= k2 < self.nodes@.len() ==> self.node_ok_weak(
                                #[trigger] self.nodes@[k2],
                            ),
                        forall|k2: int|
                            0 <= k2 < self.nodes@.len() && !self.nodes@[k2].ending
                                && nodes_after_create[k2].children@.len() >= 1
                                ==> #[trigger] self.nodes@[k2].children@.len() >= 1,
                    decreases n_nodes - j2,
                {
                    let matches = {
                        let nd = &self.nodes[j2];
                        nd.prev.1 == prev0 && nd.token == prev1 && !nd.ending && nd.length
                            == length_m
                    };
                    if matches {
                        let ghost before = self.nodes@;
                        add_child_to_node(&mut self.nodes, j2, cur_i);
                        proof {
                            assert forall|k2: int|
                                0 <= k2 < self.nodes@.len() implies node_same_but_children(
                                nodes_after_create[k2],
                                #[trigger] self.nodes@[k2],
                            ) by {
                                if k2 == j2 {
                                    lemma_seq_extended_trans(
                                        nodes_after_create[k2].children@,
                                        before[k2].children@,
                                        self.nodes@[k2].children@,
                                    );
                                }
                            }
                            assert forall|k2: int|
                                0 <= k2 < self.nodes@.len() implies self.node_ok_weak(
                                #[trigger] self.nodes@[k2],
                            ) by {
                                if k2 != j2 {
                                    lemma_seq_extended_refl(before[k2].children@);
                                }
                                assert(node_same_but_children(before[k2], self.nodes@[k2]));
                            }
                        }
                    }
                    j2 = j2 + 1;
                }
            } else {
                let ghost sc_before = self.starts@[start_index as int].children@;
                add_child_to_start(&mut self.starts, start_index, cur_i);
                proof {
                    lemma_seq_extended_trans(
                        state3.starts@[start_index as int].children@,
                        sc_before,
                        self.starts@[start_index as int].children@,
                    );
                    assert(self.starts@[start_index as int].children@.contains(cur_i)) by {
                        if !sc_before.contains(cur_i) {
                            assert(self.starts@[start_index as int].children@ == sc_before.push(
                                cur_i,
                            ));
                            assert(self.starts@[start_index as int].children@.last() == cur_i);
                        }
                    }
                    assert forall|k2: int|
                        0 <= k2 < self.nodes@.len() implies node_same_but_children(
                        nodes_after_create[k2],
                        #[trigger] self.nodes@[k2],
                    ) by {
                        lemma_seq_extended_refl(nodes_after_create[k2].children@);
                    }
                }
            }
            let ghost old_pending = pending;
            let ghost old_path = path;
            proof {
                pending = if created && !ending {
                    cur_i as int
                } else {
                    -1
                };
                path = path.push(cur_i);
                // the accepted node carries its key and is linked to its
                // predecessor; earlier path nodes only gained children
                assert(node_matches(self.nodes@[cur_i as int], prev0, prev1, token, length, ending))
                    by {
                    assert(node_same_but_children(
                        nodes_after_create[cur_i as int],
                        self.nodes@[cur_i as int],
                    ));
                }
                assert forall|k: int|
                    0 <= k < old_path.len() implies node_matches(
                    self.nodes@[(#[trigger] old_path[k]) as int],
                    ixs@[k],
                    ixs@[k + 1],
                    ixs@[k + 2],
                    if k == n_ixs - 3 {
                        length_e
                    } else {
                        length_m
                    },
                    k == n_ixs - 3,
                ) by {
                    assert(nodes_after_create[old_path[k] as int] == nodes_entry[old_path[k] as int]);
                    assert(node_same_but_children(
                        nodes_after_create[old_path[k] as int],
                        self.nodes@[old_path[k] as int],
                    ));
                }
                assert forall|k: int|
                    1 <= k < old_path.len() implies (
                #[trigger] self.nodes@[old_path[k - 1] as int].children@).contains(old_path[k]) by {
                    assert(nodes_after_create[old_path[k - 1] as int] == nodes_entry[old_path[k
                        - 1] as int]);
                    assert(node_same_but_children(
                        nodes_after_create[old_path[k - 1] as int],
                        self.nodes@[old_path[k - 1] as int],
                    ));
                    lemma_seq_extended_contains(
                        nodes_after_create[old_path[k - 1] as int].children@,
                        self.nodes@[old_path[k - 1] as int].children@,
                        old_path[k],
                    );
                }
                if i == 2 {
                    assert(self.starts@[start_index as int].children@.contains(cur_i));
                    assert(path[0] == cur_i);
                } else {
                    assert(self.nodes@[old_path[i - 3] as int].children@.contains(cur_i)) by {
                        assert(node_matches(
                            nodes_after_create[old_path[i - 3] as int],
                            ixs@[i - 3],
                            ixs@[i - 2],
                            ixs@[i - 1],
                            length_m,
                            false,
                        ));
                        assert(node_links(
                            nodes_after_create[old_path[i - 3] as int],
                            prev0,
                            prev1,
                            length_m,
                        ));
                    }
                    assert(self.starts@[start_index as int].children@.contains(path[0])) by {
                        assert(self.starts@[start_index as int].children@
                            == iter0.starts@[start_index as int].children@);
                    }
                }
                // starts keep their weights, so the totals stay accurate
                assert(start_weights(self.starts@) =~= start_weights(iter0.starts@));
                assert forall|j2: int|
                    0 <= j2 < self.starts@.len() implies self.start_ok(
                    #[trigger] self.starts@[j2],
                ) by {
                    assert(iter0.start_ok(iter0.starts@[j2]));
                    if j2 == start_index {
                        let pre = iter0.starts@[j2].children@;
                        let post = self.starts@[j2].children@;
                        assert forall|c: int|
                            0 <= c < post.len() implies post[c] < self.nodes@.len() by {
                            if c < pre.len() {
                                assert(post[c] == pre[c]);
                            } else {
                                assert(post == pre.push(cur_i));
                                assert(post[c] == cur_i);
                            }
                        }
                    }
                }
                // every pre-walk node has only gained children
                assert forall|j2: int|
                    0 <= j2 < state3.nodes@.len() implies node_same_but_children(
                    state3.nodes@[j2],
                    #[trigger] self.nodes@[j2],
                ) by {
                    assert(node_same_but_children(state3.nodes@[j2], nodes_entry[j2]));
                    assert(nodes_after_create[j2] == nodes_entry[j2]);
                    assert(node_same_but_children(nodes_after_create[j2], self.nodes@[j2]));
                    lemma_seq_extended_trans(
                        state3.nodes@[j2].children@,
                        nodes_after_create[j2].children@,
                        self.nodes@[j2].children@,
                    );
                }
                // every non-ending node but the one just created has a child
                assert forall|k2: int|
                    0 <= k2 < self.nodes@.len() && !self.nodes@[k2].ending && k2 != pending implies (
                #[trigger] self.nodes@[k2].children@.len() >= 1) by {
                    assert(node_same_but_children(nodes_after_create[k2], self.nodes@[k2]));
                    if k2 < nodes_entry.len() {
                        assert(nodes_after_create[k2] == nodes_entry[k2]);
                        if k2 == old_pending {
                            assert(i > 2);
                            assert(node_links(nodes_after_create[k2], prev0, prev1, length_m));
                            assert(self.nodes@[k2].children@.contains(cur_i));
                            assert(self.nodes@[k2].children@.len() >= 1);
                        } else {
                            assert(nodes_entry[k2].children@.len() >= 1);
                        }
                    } else {
                        assert(created && k2 == cur_i);
                    }
                }
            }
            prev0 = prev1;
            prev1 = token;
            i = i + 1;
        }
        proof {
            assert forall|j2: int|
                0 <= j2 < self.nodes@.len() implies self.node_ok(#[trigger] self.nodes@[j2]) by {
                assert(self.node_ok_weak(self.nodes@[j2]));
            }
            // the walked path witnesses that the learned word is admitted
            let out = ixs@;
            assert(out[0] == self.starts@[start_index as int].tokens.0);
            assert(out[1] == self.starts@[start_index as int].tokens.1);
            if self.lrs {
                assert(out.len() == self.starts@[start_index as int].length);
            } else {
                assert(out.len() - 3 < self.lengths@.len() && self.lengths@[out.len() - 3] >= 1);
            }
            if self.rtf {
                assert forall|t: usize|
                    #[trigger] count_tok(out, t) <= (if t < self.max_tokens@.len() {
                        self.max_tokens@[t as int] as int
                    } else {
                        0
                    }) by {
                    lemma_count_tok_nonneg(out, t);
                    if count_tok(out, t) > 0 {
                        lemma_count_pos_member(out, t);
                        let k2 = choose|k2: int| 0 <= k2 < out.len() && out[k2] == t;
                        assert(self.max_tokens@[out[k2] as int] >= count_tok(out, out[k2]));
                    }
                }
            }
            assert(gen_witness(*self, out, start_index as int, path));
            assert(generated_ok(*self, out));
            assert(self.max_tokens == state2.max_tokens);
            if self.rtf {
                assert forall|t: usize|
                    (t as int) < self.max_tokens@.len() implies (
                #[trigger] self.max_tokens@[t as int]) as int == int_max(
                    if (t as int) < old(self).max_tokens@.len() {
                        old(self).max_tokens@[t as int] as int
                    } else {
                        0
                    },
                    count_tok(ixs@, t),
                ) by {
                    assert(state2.max_tokens@[t as int] as int == int_max(
                        state1.max_tokens@[t as int] as int,
                        count_tok(ixs@, t),
                    ));
                    if (t as int) < old(self).max_tokens@.len() {
                        assert(state1.max_tokens@[t as int] == old(self).max_tokens@[t as int]);
                    } else {
                        assert(state1.max_tokens@[t as int] == 0);
                    }
                }
            } else {
                assert(self.max_tokens == state1.max_tokens);
            }
            let tk = spec_tokenize(tok_views(old(self).tokens@), word_of(*sample));
            assert(out =~= tk.1.map_values(|x: int| x as usize)) by {
                assert(ixs@.map_values(|x: usize| x as int) == tk.1);
                assert forall|j: int| 0 <= j < out.len() implies tk.1.map_values(
                    |x: int| x as usize,
                )[j] == out[j] by {
                    assert(tk.1[j] == ixs@.map_values(|x: usize| x as int)[j]);
                }
            }
        }
        Ok(())
    }
}

/// The observable content of a start node.
pub open spec fn start_model(s: StartNode) -> ((usize, usize), usize, usize, Seq<usize>) {
    (s.tokens, s.weight, s.length, s.children@)
}

/// The observable content of a transition node.
pub open spec fn node_model(n: Node) -> ((usize, usize), usize, usize, usize, Seq<usize>, bool) {
    (n.prev, n.token, n.weight, n.length, n.children@, n.ending)
}

/// The total weight of a child list, reading weights from the node list.
pub open spec fn cws(ch: Seq<usize>, nodes: Seq<Node>) -> int
    decreases ch.len(),
{
    if ch.len() == 0 {
        0
    } else {
        (if ch[0] < nodes.len() {
            nodes[ch[0] as int].weight as int
        } else {
            0
        }) + cws(ch.drop_first(), nodes)
    }
}

/// The larger of two values.
pub open spec fn int_max(a: int, b: int) -> int {
    if a >= b {
        a
    } else {
        b
    }
}

/// A value clamped to what a machine word can hold.
pub open spec fn sat_usize(x: int) -> int {
    if x > usize::MAX {
        usize::MAX as int
    } else {
        x
    }
}

/// Whether every sample of a batch is a word that tokenizes to at least
/// three tokens, tokenizing against the token list as it grows.
pub open spec fn batch_ok(tv: Seq<Seq<char>>, samples: Seq<Sample>) -> bool
    decreases samples.len(),
{
    if samples.len() == 0 {
        true
    } else {
        match samples[0] {
            Sample::Tokens(_) => false,
            _ => spec_tokenize(tv, word_of(samples[0])).1.len() >= 3 && batch_ok(
                spec_tokenize(tv, word_of(samples[0])).0,
                samples.drop_first(),
            ),
        }
    }
}

/// The error code of the first failing sample of a batch, `0` where the
/// batch is acceptable.
pub open spec fn batch_code(tv: Seq<Seq<char>>, samples: Seq<Sample>) -> int
    decreases samples.len(),
{
    if samples.len() == 0 {
        0
    } else {
        match samples[0] {
            Sample::Tokens(_) => 1,
            _ => if spec_tokenize(tv, word_of(samples[0])).1.len() < 3 {
                0
            } else {
                batch_code(spec_tokenize(tv, word_of(samples[0])).0, samples.drop_first())
            },
        }
    }
}

/// The index of the first sample of a batch that the engine refuses,
/// tokenizing against the token list as it grows. Meaningless on an
/// acceptable batch.
pub open spec fn batch_bad_ix(tv: Seq<Seq<char>>, samples: Seq<Sample>) -> int
    decreases samples.len(),
{
    if samples.len() == 0 {
        0
    } else {
        match samples[0] {
            Sample::Tokens(_) => 0,
            _ => if spec_tokenize(tv, word_of(samples[0])).1.len() < 3 {
                0
            } else {
                1 + batch_bad_ix(spec_tokenize(tv, word_of(samples[0])).0, samples.drop_first())
            },
        }
    }
}

/// Two nodes equal in everything but the weight; the child list may only
/// have grown at the end.
pub open spec fn node_grown(pre: Node, post: Node) -> bool {
    pre.prev == post.prev && pre.token == post.token && pre.length == post.length && pre.ending
        == post.ending && seq_extended(pre.children@, post.children@)
}

/// One start node surviving a learn call: key fields kept, the weight not
/// lowered, children only appended.
pub open spec fn start_grown(pre: StartNode, post: StartNode) -> bool {
    pre.tokens == post.tokens && pre.length == post.length && post.weight >= pre.weight
        && seq_extended(pre.children@, post.children@)
}

/// The grow-only arena guarantee of learning: every entry the engine held
/// keeps its index and its key fields, token texts are kept, child lists,
/// ceilings and histogram buckets never shrink, and nothing is removed.
/// Node search weights are deliberately left out: they are recomputed
/// from the child lists after every learn call, not incremented.
pub open spec fn arenas_grown(pre: Markov, post: Markov) -> bool {
    &&& post.tokens@.len() >= pre.tokens@.len()
    &&& forall|j: int| 0 <= j < pre.tokens@.len() ==> #[trigger] post.tokens@[j] == pre.tokens@[j]
    &&& post.max_tokens@.len() >= pre.max_tokens@.len()
    &&& forall|j: int|
        0 <= j < pre.max_tokens@.len() ==> #[trigger] post.max_tokens@[j] >= pre.max_tokens@[j]
    &&& post.starts@.len() >= pre.starts@.len()
    &&& forall|j: int|
        0 <= j < pre.starts@.len() ==> start_grown(pre.starts@[j], #[trigger] post.starts@[j])
    &&& post.nodes@.len() >= pre.nodes@.len()
    &&& forall|j: int|
        0 <= j < pre.nodes@.len() ==> node_grown(pre.nodes@[j], #[trigger] post.nodes@[j])
    &&& post.lengths@.len() >= pre.lengths@.len()
    &&& forall|j: int|
        0 <= j < pre.lengths@.len() ==> #[trigger] post.lengths@[j] >= pre.lengths@[j]
}

/// What learning one word does to the model, node weights aside: the word
/// is split against the engine's token list, the start node matching its
/// first two tokens (and its length, with the start restriction on) is
/// found by key or appended and its weight raised by one, the histogram
/// bucket of the token count is raised, ceilings never drop, existing
/// nodes at most gain children, and the learned word itself is a walk the
/// new model admits.
pub open spec fn learned_word(pre: Markov, post: Markov, sample: Sample) -> bool {
    let tk = spec_tokenize(tok_views(pre.tokens@), word_of(sample));
    let slen: int = if pre.lrs {
        tk.1.len() as int
    } else {
        0
    };
    let si = start_key_index(pre.starts@, tk.1[0], tk.1[1], slen);
    &&& tok_views(post.tokens@) == tk.0
    &&& forall|j: int| 0 <= j < pre.tokens@.len() ==> #[trigger] post.tokens@[j] == pre.tokens@[j]
    &&& post.max_tokens@.len() == post.tokens@.len()
    &&& forall|j: int|
        0 <= j < pre.max_tokens@.len() ==> #[trigger] post.max_tokens@[j] >= pre.max_tokens@[j]
    &&& (pre.rtf ==> forall|t: usize|
        (t as int) < post.max_tokens@.len()
            ==> (#[trigger] post.max_tokens@[t as int]) as int == int_max(
            if (t as int) < pre.max_tokens@.len() {
                pre.max_tokens@[t as int] as int
            } else {
                0
            },
            count_tok(tk.1.map_values(|x: int| x as usize), t),
        ))
    &&& (!pre.rtf ==> forall|t: int|
        0 <= t < post.max_tokens@.len() ==> (#[trigger] post.max_tokens@[t]) as int == (
        if t < pre.max_tokens@.len() {
            pre.max_tokens@[t] as int
        } else {
            0
        }))
    &&& post.total_starts == pre.total_starts + 1
    &&& post.total_lengths == pre.total_lengths + 1
    &&& post.lengths@ == bumped(pre.lengths@, tk.1.len() - 3)
    &&& (if si < pre.starts@.len() {
        &&& post.starts@.len() == pre.starts@.len()
        &&& (forall|j: int|
            0 <= j < pre.starts@.len() && j != si ==> #[trigger] post.starts@[j] == pre.starts@[j])
        &&& post.starts@[si].tokens == pre.starts@[si].tokens
        &&& post.starts@[si].length == pre.starts@[si].length
        &&& post.starts@[si].weight == pre.starts@[si].weight + 1
        &&& seq_extended(pre.starts@[si].children@, post.starts@[si].children@)
    } else {
        &&& post.starts@.len() == pre.starts@.len() + 1
        &&& (forall|j: int|
            0 <= j < pre.starts@.len() ==> #[trigger] post.starts@[j] == pre.starts@[j])
        &&& post.starts@[si].tokens.0 as int == tk.1[0]
        &&& post.starts@[si].tokens.1 as int == tk.1[1]
        &&& post.starts@[si].length as int == slen
        &&& post.starts@[si].weight == 1
    })
    &&& post.nodes@.len() >= pre.nodes@.len()
    &&& forall|j: int|
        0 <= j < pre.nodes@.len() ==> node_grown(pre.nodes@[j], #[trigger] post.nodes@[j])
    &&& post.lrs == pre.lrs && post.lrm == pre.lrm && post.lre == pre.lre && post.rtf == pre.rtf
    &&& generated_ok(post, tk.1.map_values(|x: int| x as usize))
}

/// Equal in everything but the node weights: what a weight recalculation
/// may change.
pub open spec fn same_but_node_weights(pre: Markov, post: Markov) -> bool {
    &&& post.tokens == pre.tokens
    &&& post.max_tokens == pre.max_tokens
    &&& post.starts == pre.starts
    &&& post.lengths == pre.lengths
    &&& post.total_starts == pre.total_starts
    &&& post.total_lengths == pre.total_lengths
    &&& post.lrs == pre.lrs && post.lrm == pre.lrm && post.lre == pre.lre && post.rtf == pre.rtf
    &&& post.nodes@.len() == pre.nodes@.len()
    &&& forall|j: int|
        0 <= j < pre.nodes@.len() ==> node_shape_same(pre.nodes@[j], #[trigger] post.nodes@[j])
}

/// What a successful batch does to the model: each sample in order
/// performs one `learned_word` step, and the node weights are then
/// recomputed, which changes nothing else.
pub open spec fn batch_learned(pre: Markov, post: Markov, samples: Seq<Sample>) -> bool
    decreases samples.len(),
{
    if samples.len() == 0 {
        same_but_node_weights(pre, post)
    } else {
        exists|mid: Markov|
            #[trigger] learned_word(pre, mid, samples[0]) && batch_learned(
                mid,
                post,
                samples.drop_first(),
            )
    }
}

/// Everything `learn` promises, as one statement: success exactly on an
/// acceptable batch, the first offending sample attached to an error, a
/// failing multi-sample batch restored exactly, and a successful batch
/// performing one `learned_word` step per sample with the weights then
/// recomputed.
pub open spec fn learn_post(
    pre: Markov,
    post: Markov,
    set: SampleSet,
    r: Result<(), LearnError>,
) -> bool {
    &&& post.wf()
    &&& post.lrs == pre.lrs && post.lrm == pre.lrm && post.lre == pre.lre && post.rtf == pre.rtf
    &&& (r.is_ok() <==> batch_ok(tok_views(pre.tokens@), set.samples@))
    &&& (r is Err ==> r->Err_0.code == batch_code(tok_views(pre.tokens@), set.samples@))
    &&& (r is Err ==> r->Err_0.sample is Some && sample_model(r->Err_0.sample->0) == sample_model(
        set.samples@[batch_bad_ix(tok_views(pre.tokens@), set.samples@)],
    ))
    &&& (r is Err && set.samples@.len() > 1 ==> post.model() == pre.model())
    &&& (r is Err && set.samples@.len() <= 1 ==> post.starts == pre.starts && post.nodes
        == pre.nodes && post.lengths == pre.lengths && post.total_starts == pre.total_starts
        && post.total_lengths == pre.total_lengths)
    &&& (r.is_ok() ==> arenas_grown(pre, post))
    &&& (r.is_ok() ==> batch_learned(pre, post, set.samples@))
    &&& (r.is_ok() ==> {
        &&& post.total_starts == pre.total_starts + set.samples@.len()
        &&& post.total_lengths == pre.total_lengths + set.samples@.len()
        &&& forall|j: int|
            0 <= j < post.nodes@.len() && post.nodes@[j].ending
                ==> #[trigger] post.nodes@[j].weight == 1
        &&& forall|j: int|
            0 <= j < post.nodes@.len() && !post.nodes@[j].ending && (forall|c: int|
                0 <= c < post.nodes@[j].children@.len()
                    ==> #[trigger] post.nodes@[j].children@[c] > j) ==> (
            #[trigger] post.nodes@[j].weight) as int == sat_usize(
                cws(post.nodes@[j].children@, post.nodes@),
            )
    })
}

/// A `learned_word` step only grows the arenas.
pub proof fn lemma_learned_word_grows(pre: Markov, post: Markov, sample: Sample)
    requires
        pre.wf(),
        pre.total_lengths < usize::MAX,
        spec_tokenize(tok_views(pre.tokens@), word_of(sample)).1.len() >= 3,
        learned_word(pre, post, sample),
    ensures
        arenas_grown(pre, post),
{
    let tk = spec_tokenize(tok_views(pre.tokens@), word_of(sample));
    assert(tok_views(post.tokens@).len() == post.tokens@.len());
    assert(tok_views(pre.tokens@).len() == pre.tokens@.len());
    lemma_spec_tokenize_grows(tok_views(pre.tokens@), word_of(sample));
    assert forall|j: int|
        0 <= j < pre.starts@.len() implies start_grown(
        pre.starts@[j],
        #[trigger] post.starts@[j],
    ) by {
        let si = start_key_index(pre.starts@, tk.1[0], tk.1[1], if pre.lrs {
            tk.1.len() as int
        } else {
            0
        });
        if !(si < pre.starts@.len() && j == si) {
            lemma_seq_extended_refl(pre.starts@[j].children@);
        }
    }
    let k = tk.1.len() - 3;
    let padded: Seq<usize> = if k < pre.lengths@.len() {
        pre.lengths@
    } else {
        pre.lengths@ + Seq::new((k + 1 - pre.lengths@.len()) as nat, |_j: int| 0usize)
    };
    if k < pre.lengths@.len() {
        lemma_sum_usize_element_bound(pre.lengths@, k);
    }
    assert forall|j: int|
        0 <= j < pre.lengths@.len() implies #[trigger] post.lengths@[j] >= pre.lengths@[j] by {
        assert(post.lengths@ == padded.update(k, ((padded[k] + 1) as usize)));
        assert(padded[j] == pre.lengths@[j]);
        if j == k {
            assert(padded[k] < usize::MAX);
            assert(post.lengths@[j] == padded[k] + 1);
        } else {
            assert(post.lengths@[j] == padded[j]);
        }
    }
}

/// Splitting a word never shortens the token list.
pub proof fn lemma_spec_tokenize_grows(tv: Seq<Seq<char>>, rem: Seq<char>)
    ensures
        spec_tokenize(tv, rem).0.len() >= tv.len(),
        forall|j: int| 0 <= j < tv.len() ==> #[trigger] spec_tokenize(tv, rem).0[j] == tv[j],
    decreases rem.len(),
{
    if rem.len() > 0 {
        let m = best_match(tv, rem);
        if m >= 0 {
            lemma_spec_tokenize_grows(tv, rem.skip(tok_step(tv, rem)));
        } else {
            lemma_spec_tokenize_grows(tv.push(rem.take(1)), rem.skip(1));
        }
    }
}

/// An untouched engine counts as grown.
pub proof fn lemma_arenas_grown_refl(m: Markov)
    ensures
        arenas_grown(m, m),
{
    assert forall|j: int|
        0 <= j < m.starts@.len() implies start_grown(m.starts@[j], #[trigger] m.starts@[j]) by {
        lemma_seq_extended_refl(m.starts@[j].children@);
    }
    assert forall|j: int|
        0 <= j < m.nodes@.len() implies node_grown(m.nodes@[j], #[trigger] m.nodes@[j]) by {
        lemma_seq_extended_refl(m.nodes@[j].children@);
    }
}

/// Growing the arenas twice grows them once.
pub proof fn lemma_arenas_grown_trans(a: Markov, b: Markov, c: Markov)
    requires
        arenas_grown(a, b),
        arenas_grown(b, c),
    ensures
        arenas_grown(a, c),
{
    assert forall|j: int|
        0 <= j < a.starts@.len() implies start_grown(a.starts@[j], #[trigger] c.starts@[j]) by {
        lemma_seq_extended_trans(
            a.starts@[j].children@,
            b.starts@[j].children@,
            c.starts@[j].children@,
        );
    }
    assert forall|j: int|
        0 <= j < a.nodes@.len() implies node_grown(a.nodes@[j], #[trigger] c.nodes@[j]) by {
        lemma_seq_extended_trans(
            a.nodes@[j].children@,
            b.nodes@[j].children@,
            c.nodes@[j].children@,
        );
    }
}

/// A prefix extension keeps every element it held.
pub proof fn lemma_seq_extended_contains(a: Seq<usize>, b: Seq<usize>, x: usize)
    requires
        seq_extended(a, b),
        a.contains(x),
    ensures
        b.contains(x),
{
    let i = choose|i: int| 0 <= i < a.len() && a[i] == x;
    assert(b.subrange(0, a.len() as int)[i] == b[i]);
}

/// A weight recalculation does not disturb an admitted walk.
pub proof fn lemma_generated_ok_recalc(pre: Markov, post: Markov, out: Seq<usize>)
    requires
        same_but_node_weights(pre, post),
        generated_ok(pre, out),
    ensures
        generated_ok(post, out),
{
    let (si, path) = choose|si: int, path: Seq<usize>| gen_witness(pre, out, si, path);
    assert forall|k: int|
        0 <= k < path.len() implies node_shape_same(
        pre.nodes@[(#[trigger] path[k]) as int],
        post.nodes@[path[k] as int],
    ) by {}
    assert(gen_witness(post, out, si, path));
}

/// Further learning does not disturb an admitted walk: the arenas only
/// grow and the constraint flags stay.
pub proof fn lemma_generated_ok_grown(pre: Markov, post: Markov, out: Seq<usize>)
    requires
        arenas_grown(pre, post),
        pre.lrs == post.lrs && pre.lre == post.lre && pre.rtf == post.rtf,
        generated_ok(pre, out),
    ensures
        generated_ok(post, out),
{
    let (si, path) = choose|si: int, path: Seq<usize>| gen_witness(pre, out, si, path);
    assert(start_grown(pre.starts@[si], post.starts@[si]));
    lemma_seq_extended_contains(
        pre.starts@[si].children@,
        post.starts@[si].children@,
        path[0],
    );
    assert forall|k: int|
        1 <= k < path.len() implies (
    #[trigger] post.nodes@[path[k - 1] as int].children@).contains(path[k]) by {
        assert(node_grown(pre.nodes@[path[k - 1] as int], post.nodes@[path[k - 1] as int]));
        lemma_seq_extended_contains(
            pre.nodes@[path[k - 1] as int].children@,
            post.nodes@[path[k - 1] as int].children@,
            path[k],
        );
    }
    assert forall|k: int|
        0 <= k < path.len() implies node_grown(
        pre.nodes@[(#[trigger] path[k]) as int],
        post.nodes@[path[k] as int],
    ) by {}
    if post.rtf {
        assert forall|t: usize|
            #[trigger] count_tok(out, t) <= (if t < post.max_tokens@.len() {
                post.max_tokens@[t as int] as int
            } else {
                0
            }) by {
            lemma_count_tok_nonneg(out, t);
            assert(count_tok(out, t) <= (if t < pre.max_tokens@.len() {
                pre.max_tokens@[t as int] as int
            } else {
                0
            }));
        }
    }
    assert(gen_witness(post, out, si, path));
}

/// Recomputing the weights after a `learned_word` step leaves the step's
/// statement intact.
pub proof fn lemma_learned_word_recalc(pre: Markov, mid: Markov, post: Markov, sample: Sample)
    requires
        learned_word(pre, mid, sample),
        same_but_node_weights(mid, post),
    ensures
        learned_word(pre, post, sample),
{
    assert forall|j: int|
        0 <= j < pre.nodes@.len() implies node_grown(pre.nodes@[j], #[trigger] post.nodes@[j]) by {
        assert(node_grown(pre.nodes@[j], mid.nodes@[j]));
        assert(node_shape_same(mid.nodes@[j], post.nodes@[j]));
    }
    let tk = spec_tokenize(tok_views(pre.tokens@), word_of(sample));
    lemma_generated_ok_recalc(mid, post, tk.1.map_values(|x: int| x as usize));
}

/// A weight recalculation only grows the arenas.
pub proof fn lemma_same_but_weights_grows(pre: Markov, post: Markov)
    requires
        same_but_node_weights(pre, post),
    ensures
        arenas_grown(pre, post),
{
    assert forall|j: int|
        0 <= j < pre.starts@.len() implies start_grown(
        pre.starts@[j],
        #[trigger] post.starts@[j],
    ) by {
        lemma_seq_extended_refl(pre.starts@[j].children@);
    }
    assert forall|j: int|
        0 <= j < pre.nodes@.len() implies node_grown(pre.nodes@[j], #[trigger] post.nodes@[j]) by {
        lemma_seq_extended_refl(pre.nodes@[j].children@);
    }
}

impl Markov {
    /// The full observable state of the engine. Two engines with equal
    /// models behave alike.
    pub open spec fn model(self) -> (
        Seq<Seq<char>>,
        Seq<usize>,
        Seq<((usize, usize), usize, usize, Seq<usize>)>,
        int,
        Seq<((usize, usize), usize, usize, usize, Seq<usize>, bool)>,
        Seq<usize>,
        int,
        (bool, bool, bool, bool),
    ) {
        (
            tok_views(self.tokens@),
            self.max_tokens@,
            self.starts@.map_values(|s: StartNode| start_model(s)),
            self.total_starts as int,
            self.nodes@.map_values(|n: Node| node_model(n)),
            self.lengths@,
            self.total_lengths as int,
            (self.lrs, self.lrm, self.lre, self.rtf),
        )
    }

    /// A deep copy with the same observable state.
    fn snapshot(&self) -> (r: Markov)
        ensures
            r.model() == self.model(),
            self.wf() ==> r.wf(),
    {
        let mut tokens_copy: Vec<String> = Vec::new();
        let mut i: usize = 0;
        while i < self.tokens.len()
            invariant
                i <= self.tokens@.len(),
                tokens_copy@.len() == i,
                forall|j: int| 0 <= j < i ==> tokens_copy@[j] == self.tokens@[j],
            decreases self.tokens@.len() - i,
        {
            tokens_copy.push(clone_string(&self.tokens[i]));
            i = i + 1;
        }
        let max_copy = copy_usize_vec(&self.max_tokens);
        let lengths_copy = copy_usize_vec(&self.lengths);
        let mut starts_copy: Vec<StartNode> = Vec::new();
        let mut i: usize = 0;
        while i < self.starts.len()
            invariant
                i <= self.starts@.len(),
                starts_copy@.len() == i,
                forall|j: int|
                    0 <= j < i ==> start_model(#[trigger] starts_copy@[j]) == start_model(
                        self.starts@[j],
                    ),
            decreases self.starts@.len() - i,
        {
            let s = &self.starts[i];
            starts_copy.push(
                StartNode {
                    tokens: s.tokens,
                    weight: s.weight,
                    length: s.length,
                    children: copy_usize_vec(&s.children),
                },
            );
            i = i + 1;
        }
        let mut nodes_copy: Vec<Node> = Vec::new();
        let mut i: usize = 0;
        while i < self.nodes.len()
            invariant
                i <= self.nodes@.len(),
                nodes_copy@.len() == i,
                forall|j: int|
                    0 <= j < i ==> node_model(#[trigger] nodes_copy@[j]) == node_model(
                        self.nodes@[j],
                    ),
            decreases self.nodes@.len() - i,
        {
            let n = &self.nodes[i];
            nodes_copy.push(
                Node {
                    prev: n.prev,
                    token: n.token,
                    weight: n.weight,
                    length: n.length,
                    children: copy_usize_vec(&n.children),
                    ending: n.ending,
                },
            );
            i = i + 1;
        }
        let r = Markov {
            tokens: tokens_copy,
            max_tokens: max_copy,
            starts: starts_copy,
            total_starts: self.total_starts,
            nodes: nodes_copy,
            lengths: lengths_copy,
            total_lengths: self.total_lengths,
            lrs: self.lrs,
            lrm: self.lrm,
            lre: self.lre,
            rtf: self.rtf,
        };
        proof {
            assert(r.tokens@ =~= self.tokens@);
            assert(tok_views(r.tokens@) =~= tok_views(self.tokens@));
            assert(r.starts@.map_values(|s: StartNode| start_model(s))
                =~= self.starts@.map_values(|s: StartNode| start_model(s)));
            assert(r.nodes@.map_values(|n: Node| node_model(n)) =~= self.nodes@.map_values(
                |n: Node| node_model(n),
            ));
            if self.wf() {
                assert(start_weights(r.starts@) =~= start_weights(self.starts@));
                assert forall|j: int|
                    0 <= j < r.starts@.len() implies r.start_ok(#[trigger] r.starts@[j]) by {
                    assert(self.start_ok(self.starts@[j]));
                    assert(start_model(r.starts@[j]) == start_model(self.starts@[j]));
                }
                assert forall|j: int|
                    0 <= j < r.nodes@.len() implies r.node_ok(#[trigger] r.nodes@[j]) by {
                    assert(self.node_ok(self.nodes@[j]));
                    assert(node_model(r.nodes@[j]) == node_model(self.nodes@[j]));
                }
            }
        }
        r
    }

    /// Recompute every node's search weight, in reverse creation order: an
    /// ending node weighs one, any other node the clamped total weight of
    /// its children as read at that moment. A node whose children were all
    /// created after it therefore ends up weighing exactly the clamped
    /// total of its children's final weights. The children-sum clause is
    /// guarded on index-forward children on purpose: a node can be its own
    /// descendant (learn a word like `"aaaaa"`), and no weight assignment
    /// makes every non-ending node equal its children's sum on such a
    /// cycle, so the unguarded form is unsatisfiable.
    pub fn recalculate_weights(&mut self)
        requires
            old(self).wf(),
        ensures
            final(self).wf(),
            final(self).tokens == old(self).tokens,
            final(self).max_tokens == old(self).max_tokens,
            final(self).starts == old(self).starts,
            final(self).lengths == old(self).lengths,
            final(self).total_starts == old(self).total_starts,
            final(self).total_lengths == old(self).total_lengths,
            final(self).lrs == old(self).lrs && final(self).lrm == old(self).lrm && final(self).lre
                == old(self).lre && final(self).rtf == old(self).rtf,
            final(self).nodes@.len() == old(self).nodes@.len(),
            forall|j: int|
                0 <= j < old(self).nodes@.len() ==> node_shape_same(
                    old(self).nodes@[j],
                    #[trigger] final(self).nodes@[j],
                ),
            forall|j: int|
                0 <= j < final(self).nodes@.len() && final(self).nodes@[j].ending
                    ==> #[trigger] final(self).nodes@[j].weight == 1,
            forall|j: int|
                0 <= j < final(self).nodes@.len() && !final(self).nodes@[j].ending && (forall|
                    c: int,
                |
                    0 <= c < final(self).nodes@[j].children@.len()
                        ==> #[trigger] final(self).nodes@[j].children@[c] > j) ==> (
                #[trigger] final(self).nodes@[j].weight) as int == sat_usize(
                    cws(final(self).nodes@[j].children@, final(self).nodes@),
                ),
    {
        let ghost nodes0 = self.nodes@;
        let ghost m0 = *self;
        let n_nodes = self.nodes.len();
        let mut idx: usize = n_nodes;
        while idx > 0
            invariant
                idx <= n_nodes == self.nodes@.len(),
                self.tokens == m0.tokens,
                self.max_tokens == m0.max_tokens,
                self.starts == m0.starts,
                self.lengths == m0.lengths,
                self.total_starts == m0.total_starts,
                self.total_lengths == m0.total_lengths,
                self.lrs == m0.lrs && self.lrm == m0.lrm && self.lre == m0.lre && self.rtf
                    == m0.rtf,
                nodes0 == m0.nodes@,
                nodes0.len() == self.nodes@.len(),
                m0.wf(),
                forall|j: int|
                    0 <= j < self.nodes@.len() ==> node_shape_same(
                        nodes0[j],
                        #[trigger] self.nodes@[j],
                    ),
                forall|j: int|
                    0 <= j < self.nodes@.len() ==> #[trigger] self.nodes@[j].weight >= 1,
                forall|j: int|
                    idx <= j < self.nodes@.len() && self.nodes@[j].ending
                        ==> #[trigger] self.nodes@[j].weight == 1,
                forall|j: int|
                    idx <= j < self.nodes@.len() && !self.nodes@[j].ending && (forall|c: int|
                        0 <= c < self.nodes@[j].children@.len()
                            ==> #[trigger] self.nodes@[j].children@[c] > j) ==> (
                    #[trigger] self.nodes@[j].weight) as int == sat_usize(
                        cws(self.nodes@[j].children@, self.nodes@),
                    ),
            decreases idx,
        {
            let i = idx - 1;
            let ghost before = self.nodes@;
            if self.nodes[i].ending {
                set_node_weight(&mut self.nodes, i, 1);
            } else {
                proof {
                    assert(node_shape_same(nodes0[i as int], self.nodes@[i as int]));
                    assert(m0.node_ok(m0.nodes@[i as int]));
                }
                let sum = self.children_weight_total(i);
                let w = if sum > (usize::MAX as u128) {
                    usize::MAX
                } else {
                    sum as usize
                };
                proof {
                    assert(self.nodes@[i as int].children@.len() >= 1);
                    assert(self.nodes@[i as int].children@[0] < self.nodes@.len());
                    lemma_cws_first(self.nodes@[i as int].children@, self.nodes@);
                    lemma_cws_nonneg(self.nodes@[i as int].children@.drop_first(), self.nodes@);
                    assert(w >= 1);
                    assert((w as int) == sat_usize(cws(before[i as int].children@, before)));
                }
                set_node_weight(&mut self.nodes, i, w);
            }
            proof {
                assert forall|j: int|
                    idx - 1 <= j < self.nodes@.len() && !self.nodes@[j].ending && (forall|c: int|
                        0 <= c < self.nodes@[j].children@.len()
                            ==> #[trigger] self.nodes@[j].children@[c] > j) implies (
                #[trigger] self.nodes@[j].weight) as int == sat_usize(
                    cws(self.nodes@[j].children@, self.nodes@),
                ) by {
                    assert(self.nodes@[j].children@ == before[j].children@);
                    assert forall|c: int|
                        0 <= c < before[j].children@.len() implies #[trigger] before[j].children@[c]
                            > j by {
                        assert(before[j].children@[c] == self.nodes@[j].children@[c]);
                    }
                    lemma_cws_stable(before[j].children@, before, self.nodes@, i as int);
                    if j != i as int {
                        assert(self.nodes@[j] == before[j]);
                        assert((before[j].weight) as int == sat_usize(
                            cws(before[j].children@, before),
                        ));
                    }
                }
            }
            idx = i;
        }
        proof {
            assert forall|j: int|
                0 <= j < self.nodes@.len() implies self.node_ok(#[trigger] self.nodes@[j]) by {
                assert(m0.node_ok(m0.nodes@[j]));
                assert(node_shape_same(nodes0[j], self.nodes@[j]));
            }
            assert forall|j: int|
                0 <= j < self.starts@.len() implies self.start_ok(#[trigger] self.starts@[j]) by {
                assert(m0.start_ok(m0.starts@[j]));
            }
        }
    }

    /// The clamped-at-`u128` total weight of one node's children.
    fn children_weight_total(&self, i: usize) -> (sum: u128)
        requires
            i < self.nodes@.len(),
            forall|c: int|
                0 <= c < self.nodes@[i as int].children@.len()
                    ==> #[trigger] self.nodes@[i as int].children@[c] < self.nodes@.len(),
        ensures
            sum == cws(self.nodes@[i as int].children@, self.nodes@),
    {
        let ghost ch = self.nodes@[i as int].children@;
        let n_children = self.nodes[i].children.len();
        let mut sum: u128 = 0;
        let mut k: usize = 0;
        proof {
            assert(ch.take(0) =~= Seq::<usize>::empty());
        }
        while k < n_children
            invariant
                k <= n_children == ch.len(),
                i < self.nodes@.len(),
                ch == self.nodes@[i as int].children@,
                forall|c: int| 0 <= c < ch.len() ==> #[trigger] ch[c] < self.nodes@.len(),
                sum == cws(ch.take(k as int), self.nodes@),
                sum <= k * (usize::MAX as int),
            decreases n_children - k,
        {
            proof {
                lemma_cws_snoc(ch, k as int, self.nodes@);
                lemma_mul_le_public(k as int, n_children as int, usize::MAX as int);
                lemma_u128_room(k as int, n_children as int);
            }
            let c = self.nodes[i].children[k];
            sum = sum + (self.nodes[c].weight as u128);
            k = k + 1;
        }
        proof {
            assert(ch.take(n_children as int) =~= ch);
        }
        sum
    }
}

/// Two nodes equal in everything but the weight.
pub open spec fn node_shape_same(pre: Node, post: Node) -> bool {
    pre.prev == post.prev && pre.token == post.token && pre.length == post.length && pre.children
        == post.children && pre.ending == post.ending
}

/// Copy a vector of counters.
fn copy_usize_vec(v: &Vec<usize>) -> (r: Vec<usize>)
    ensures
        r@ == v@,
{
    let mut r: Vec<usize> = Vec::new();
    let mut i: usize = 0;
    while i < v.len()
        invariant
            i <= v@.len(),
            r@.len() == i,
            forall|j: int| 0 <= j < i ==> r@[j] == v@[j],
        decreases v@.len() - i,
    {
        r.push(v[i]);
        i = i + 1;
    }
    proof {
        assert(r@ =~= v@);
    }
    r
}

proof fn lemma_cws_nonneg(ch: Seq<usize>, nodes: Seq<Node>)
    ensures
        cws(ch, nodes) >= 0,
    decreases ch.len(),
{
    if ch.len() > 0 {
        lemma_cws_nonneg(ch.drop_first(), nodes);
    }
}

proof fn lemma_cws_first(ch: Seq<usize>, nodes: Seq<Node>)
    requires
        ch.len() > 0,
    ensures
        cws(ch, nodes) == (if ch[0] < nodes.len() {
            nodes[ch[0] as int].weight as int
        } else {
            0
        }) + cws(ch.drop_first(), nodes),
{
}

proof fn lemma_cws_snoc(ch: Seq<usize>, k: int, nodes: Seq<Node>)
    requires
        0 <= k < ch.len(),
    ensures
        cws(ch.take(k + 1), nodes) == cws(ch.take(k), nodes) + (if ch[k] < nodes.len() {
            nodes[ch[k] as int].weight as int
        } else {
            0
        }),
{
    lemma_cws_last(ch.take(k + 1), nodes);
    assert(ch.take(k + 1).drop_last() =~= ch.take(k));
    assert(ch.take(k + 1).last() == ch[k]);
}

proof fn lemma_cws_last(ch: Seq<usize>, nodes: Seq<Node>)
    requires
        ch.len() > 0,
    ensures
        cws(ch, nodes) == cws(ch.drop_last(), nodes) + (if ch.last() < nodes.len() {
            nodes[ch.last() as int].weight as int
        } else {
            0
        }),
    decreases ch.len(),
{
    if ch.len() == 1 {
        assert(ch.drop_last() =~= Seq::empty());
        assert(ch.drop_first() =~= Seq::empty());
    } else {
        lemma_cws_last(ch.drop_first(), nodes);
        assert(ch.drop_first().drop_last() =~= ch.drop_last().drop_first());
        assert(ch.drop_first().last() == ch.last());
        assert(ch.drop_last()[0] == ch[0]);
        assert(ch.drop_last().len() > 0);
    }
}

/// A child total over indices all above `i` does not change when the node
/// at `i` changes weight.
proof fn lemma_cws_stable(ch: Seq<usize>, pre: Seq<Node>, post: Seq<Node>, i: int)
    requires
        pre.len() == post.len(),
        forall|j: int| 0 <= j < pre.len() && j != i ==> pre[j].weight == post[j].weight,
        forall|c: int| 0 <= c < ch.len() ==> #[trigger] ch[c] > i,
    ensures
        cws(ch, pre) == cws(ch, post),
    decreases ch.len(),
{
    if ch.len() > 0 {
        assert(ch[0] > i);
        assert forall|c: int| 0 <= c < ch.drop_first().len() implies #[trigger] ch.drop_first()[c]
            > i by {
            assert(ch.drop_first()[c] == ch[c + 1]);
        }
        lemma_cws_stable(ch.drop_first(), pre, post, i);
    }
}

proof fn lemma_u128_room(k: int, n: int) by (nonlinear_arith)
    requires
        0 <= k < n,
        n <= usize::MAX,
    ensures
        k * (usize::MAX as int) + (usize::MAX as int) < 0x100000000000000000000000000000000,
{
}

impl Markov {
    /// Learn every sample of the set. A set with more than one sample is
    /// learned all-or-nothing: the first failing sample restores the state
    /// the call began with and is reported, with the offending sample
    /// attached. A successful call performs one `learned_word` step per
    /// sample in order — so the arenas only grow and each learned word is
    /// admitted by the model it built — and ends by recomputing all node
    /// weights.
    #[verifier::rlimit(100)]
    #[verifier::spinoff_prover]
    pub fn learn(&mut self, sample_set: &SampleSet) -> (r: Result<(), LearnError>)
        requires
            old(self).wf(),
            old(self).total_starts + sample_set.samples@.len() < usize::MAX,
        ensures
            learn_post(*old(self), *final(self), *sample_set, r),
    {
        let samples = sample_set.samples();
        let n_samples = samples.len();
        let mut old_state: Option<Markov> = None;
        if n_samples > 1 {
            old_state = Some(self.snapshot());
        }
        let mut i: usize = 0;
        proof {
            assert(samples@.skip(0) =~= samples@);
            lemma_arenas_grown_refl(*self);
        }
        loop
            invariant
                self.wf(),
                i <= n_samples == samples@.len(),
                samples@ == sample_set.samples@,
                old(self).total_starts + samples@.len() < usize::MAX,
                self.total_starts == old(self).total_starts + i,
                self.total_lengths == old(self).total_lengths + i,
                self.lrs == old(self).lrs && self.lrm == old(self).lrm && self.lre == old(self).lre && self.rtf == old(self).rtf,
                n_samples > 1 ==> old_state is Some && old_state->0.model() == old(self).model()
                    && old_state->0.wf(),
                batch_ok(tok_views(old(self).tokens@), samples@) == batch_ok(
                    tok_views(self.tokens@),
                    samples@.skip(i as int),
                ),
                batch_code(tok_views(old(self).tokens@), samples@) == batch_code(
                    tok_views(self.tokens@),
                    samples@.skip(i as int),
                ),
                batch_bad_ix(tok_views(old(self).tokens@), samples@) == i + batch_bad_ix(
                    tok_views(self.tokens@),
                    samples@.skip(i as int),
                ),
                arenas_grown(*old(self), *self),
                forall|post: Markov|
                    batch_learned(*self, post, samples@.skip(i as int)) ==> batch_learned(
                        *old(self),
                        post,
                        samples@,
                    ),
                i == 0 ==> self.starts == old(self).starts && self.nodes == old(self).nodes
                    && self.lengths == old(self).lengths && self.tokens == old(self).tokens
                    && self.max_tokens == old(self).max_tokens,
            ensures
                i == n_samples,
            decreases n_samples - i,
        {
            if i >= n_samples {
                break ;
            }
            let ghost pre = *self;
            let res = self.learn_norecalc(&samples[i]);
            proof {
                assert(samples@.skip(i as int)[0] == samples@[i as int]);
                assert(samples@.skip(i as int).drop_first() =~= samples@.skip(i as int + 1));
            }
            match res {
                Ok(_) => {
                    proof {
                        assert(batch_ok(tok_views(pre.tokens@), samples@.skip(i as int))
                            == batch_ok(tok_views(self.tokens@), samples@.skip(i as int + 1)));
                        assert(batch_code(tok_views(pre.tokens@), samples@.skip(i as int))
                            == batch_code(tok_views(self.tokens@), samples@.skip(i as int + 1)));
                        assert(batch_bad_ix(tok_views(pre.tokens@), samples@.skip(i as int)) == 1
                            + batch_bad_ix(tok_views(self.tokens@), samples@.skip(i as int + 1)));
                        assert forall|j2: int|
                            0 <= j2 < pre.nodes@.len() implies node_grown(
                            pre.nodes@[j2],
                            #[trigger] self.nodes@[j2],
                        ) by {
                            assert(node_same_but_children(pre.nodes@[j2], self.nodes@[j2]));
                        }
                        assert(learned_word(pre, *self, samples@[i as int]));
                        lemma_learned_word_grows(pre, *self, samples@[i as int]);
                        lemma_arenas_grown_trans(*old(self), pre, *self);
                        assert forall|post: Markov|
                            batch_learned(*self, post, samples@.skip(i as int + 1)) implies
                            batch_learned(*old(self), post, samples@) by {
                            assert(learned_word(
                                pre,
                                *self,
                                samples@.skip(i as int)[0],
                            ));
                            assert(batch_learned(pre, post, samples@.skip(i as int)));
                        }
                    }
                    i = i + 1;
                },
                Err(err) => {
                    proof {
                        assert(!batch_ok(tok_views(pre.tokens@), samples@.skip(i as int)));
                        assert(batch_bad_ix(tok_views(pre.tokens@), samples@.skip(i as int)) == 0);
                        assert(batch_bad_ix(tok_views(old(self).tokens@), samples@) == i);
                    }
                    if n_samples > 1 {
                        match old_state {
                            Some(saved) => {
                                *self = saved;
                            },
                            None => {},
                        }
                    } else {
                        proof {
                            assert forall|j2: int|
                                0 <= j2 < self.starts@.len() implies self.start_ok(
                                #[trigger] self.starts@[j2],
                            ) by {
                                assert(pre.start_ok(pre.starts@[j2]));
                            }
                            assert forall|j2: int|
                                0 <= j2 < self.nodes@.len() implies self.node_ok(
                                #[trigger] self.nodes@[j2],
                            ) by {
                                assert(pre.node_ok(pre.nodes@[j2]));
                            }
                        }
                    }
                    return Err(err);
                },
            }
        }
        proof {
            assert(samples@.skip(n_samples as int) =~= Seq::<Sample>::empty());
            assert(i == n_samples);
            assert(batch_ok(tok_views(self.tokens@), samples@.skip(i as int)));
            assert(batch_ok(tok_views(old(self).tokens@), samples@));
        }
        let ghost pre_recalc = *self;
        self.recalculate_weights();
        proof {
            assert(same_but_node_weights(pre_recalc, *self));
            assert(batch_learned(pre_recalc, *self, samples@.skip(n_samples as int)));
            assert(batch_learned(*old(self), *self, samples@));
            lemma_same_but_weights_grows(pre_recalc, *self);
            lemma_arenas_grown_trans(*old(self), pre_recalc, *self);
        }
        Ok(())
    }

    /// Learn one sample and recompute the weights. A failing sample leaves
    /// the model untouched, though tokens minted while splitting the word
    /// stay known.
    pub fn learn_one(&mut self, sample: &Sample) -> (r: Result<(), LearnError>)
        requires
            old(self).wf(),
            old(self).total_starts < usize::MAX,
        ensures
            final(self).wf(),
            r.is_ok() <==> !(*sample is Tokens) && spec_tokenize(
                tok_views(old(self).tokens@),
                word_of(*sample),
            ).1.len() >= 3,
            r is Err ==> r->Err_0.code == (if *sample is Tokens {
                1int
            } else {
                0
            }),
            r is Err ==> r->Err_0.sample is Some && sample_model(r->Err_0.sample->0)
                == sample_model(*sample),
            r is Err ==> final(self).starts == old(self).starts && final(self).nodes == old(self).nodes && final(self).lengths == old(self).lengths && final(self).total_starts == old(self).total_starts && final(self).total_lengths == old(self).total_lengths,
            r.is_ok() ==> final(self).total_starts == old(self).total_starts + 1 && final(self).total_lengths == old(self).total_lengths + 1,
            r.is_ok() ==> learned_word(*old(self), *final(self), *sample),
            r.is_ok() ==> arenas_grown(*old(self), *final(self)),
            r.is_ok() ==> {
                &&& forall|j: int|
                    0 <= j < final(self).nodes@.len() && final(self).nodes@[j].ending
                        ==> #[trigger] final(self).nodes@[j].weight == 1
                &&& forall|j: int|
                    0 <= j < final(self).nodes@.len() && !final(self).nodes@[j].ending && (forall|
                        c: int,
                    |
                        0 <= c < final(self).nodes@[j].children@.len()
                            ==> #[trigger] final(self).nodes@[j].children@[c] > j) ==> (
                    #[trigger] final(self).nodes@[j].weight) as int == sat_usize(
                        cws(final(self).nodes@[j].children@, final(self).nodes@),
                    )
            },
    {
        let ghost pre = *self;
        let res = self.learn_norecalc(sample);
        match res {
            Err(err) => {
                proof {
                    if !(*sample is Tokens) {
                        assert forall|j2: int|
                            0 <= j2 < self.starts@.len() implies self.start_ok(
                            #[trigger] self.starts@[j2],
                        ) by {
                            assert(pre.start_ok(pre.starts@[j2]));
                        }
                        assert forall|j2: int|
                            0 <= j2 < self.nodes@.len() implies self.node_ok(
                            #[trigger] self.nodes@[j2],
                        ) by {
                            assert(pre.node_ok(pre.nodes@[j2]));
                        }
                    }
                }
                Err(err)
            },
            Ok(_) => {
                let ghost mid = *self;
                proof {
                    assert forall|j2: int|
                        0 <= j2 < pre.nodes@.len() implies node_grown(
                        pre.nodes@[j2],
                        #[trigger] mid.nodes@[j2],
                    ) by {
                        assert(node_same_but_children(pre.nodes@[j2], mid.nodes@[j2]));
                    }
                    assert(learned_word(pre, mid, *sample));
                }
                self.recalculate_weights();
                proof {
                    assert(same_but_node_weights(mid, *self));
                    lemma_learned_word_recalc(pre, mid, *self, *sample);
                    lemma_learned_word_grows(pre, *self, *sample);
                }
                Ok(())
            },
        }
    }
}

impl Node {
    /// Whether this node already links to the given child.
    pub fn has_child(&self, index: usize) -> (r: bool)
        ensures
            r == self.children@.contains(index),
    {
        let n = self.children.len();
        let mut k: usize = 0;
        loop
            invariant_except_break
                forall|d: int| 0 <= d < k ==> self.children@[d] != index,
            invariant
                k <= n == self.children@.len(),
            ensures
                (k < n && self.children@[k as int] == index) || (k == n && !self.children@.contains(
                    index,
                )),
            decreases n - k,
        {
            if k >= n {
                proof {
                    if self.children@.contains(index) {
                        let d = choose|d: int|
                            0 <= d < self.children@.len() && self.children@[d] == index;
                        assert(self.children@[d] != index);
                    }
                }
                break ;
            }
            if self.children[k] == index {
                break ;
            }
            k = k + 1;
        }
        k < n
    }
}

/// The characters of a token index sequence, concatenated in order.
pub open spec fn concat_tokens(tv: Seq<Seq<char>>, ixs: Seq<usize>) -> Seq<char>
    decreases ixs.len(),
{
    if ixs.len() == 0 {
        Seq::empty()
    } else {
        (if ixs[0] < tv.len() {
            tv[ixs[0] as int]
        } else {
            Seq::empty()
        }) + concat_tokens(tv, ixs.drop_first())
    }
}

/// Concatenation reads only the pieces an index sequence names, so a
/// piece list that grew at the end yields the same text.
pub proof fn lemma_concat_tokens_stable(tv1: Seq<Seq<char>>, tv2: Seq<Seq<char>>, ixs: Seq<usize>)
    requires
        tv2.len() >= tv1.len(),
        forall|j: int| 0 <= j < tv1.len() ==> tv2[j] == tv1[j],
        forall|k: int| 0 <= k < ixs.len() ==> (#[trigger] ixs[k]) < tv1.len(),
    ensures
        concat_tokens(tv2, ixs) == concat_tokens(tv1, ixs),
    decreases ixs.len(),
{
    if ixs.len() > 0 {
        assert(ixs[0] < tv1.len());
        assert forall|k: int|
            0 <= k < ixs.drop_first().len() implies (#[trigger] ixs.drop_first()[k])
                < tv1.len() by {
            assert(ixs.drop_first()[k] == ixs[k + 1]);
        }
        lemma_concat_tokens_stable(tv1, tv2, ixs.drop_first());
    }
}

/// The greedy split covers its input: the pieces it yields, read from the
/// token list it leaves behind, concatenate back to the input.
pub proof fn lemma_tokenize_concat(tv: Seq<Seq<char>>, rem: Seq<char>, ixs: Seq<usize>)
    requires
        ixs.map_values(|x: usize| x as int) == spec_tokenize(tv, rem).1,
    ensures
        concat_tokens(spec_tokenize(tv, rem).0, ixs) == rem,
    decreases rem.len(),
{
    let tk = spec_tokenize(tv, rem);
    if rem.len() == 0 {
        assert(ixs =~= Seq::<usize>::empty());
        assert(concat_tokens(tk.0, ixs) =~= rem);
    } else {
        let m = best_match(tv, rem);
        if m >= 0 {
            lemma_match_good_public(tv, rem);
            let step = tok_step(tv, rem);
            assert(step == tv[m].len());
            let rest = spec_tokenize(tv, rem.skip(step));
            assert(ixs.len() == tk.1.len());
            assert(ixs[0] as int == tk.1[0] == m);
            assert(ixs.drop_first().map_values(|x: usize| x as int) =~= rest.1) by {
                assert forall|j: int| 0 <= j < ixs.len() - 1 implies ixs.drop_first().map_values(
                    |x: usize| x as int,
                )[j] == rest.1[j] by {
                    assert(ixs.map_values(|x: usize| x as int)[j + 1] == (seq![m] + rest.1)[j
                        + 1]);
                }
            }
            lemma_tokenize_concat(tv, rem.skip(step), ixs.drop_first());
            lemma_spec_tokenize_grows(tv, rem.skip(step));
            assert(tk.0[m] == tv[m]);
            assert(tv[m] =~= rem.take(step)) by {
                assert(is_prefix_of(tv[m], rem));
            }
            assert(concat_tokens(tk.0, ixs) == tk.0[ixs[0] as int] + concat_tokens(
                tk.0,
                ixs.drop_first(),
            ));
            assert(rem.take(step) + rem.skip(step) =~= rem);
        } else {
            let tv2 = tv.push(rem.take(1));
            let rest = spec_tokenize(tv2, rem.skip(1));
            assert(ixs.len() == tk.1.len());
            assert(ixs[0] as int == tk.1[0] == tv.len() as int);
            assert(ixs.drop_first().map_values(|x: usize| x as int) =~= rest.1) by {
                assert forall|j: int| 0 <= j < ixs.len() - 1 implies ixs.drop_first().map_values(
                    |x: usize| x as int,
                )[j] == rest.1[j] by {
                    assert(ixs.map_values(|x: usize| x as int)[j + 1] == (seq![tv.len() as int]
                        + rest.1)[j + 1]);
                }
            }
            lemma_tokenize_concat(tv2, rem.skip(1), ixs.drop_first());
            lemma_spec_tokenize_grows(tv2, rem.skip(1));
            assert(tk.0[tv.len() as int] == tv2[tv.len() as int]);
            assert(concat_tokens(tk.0, ixs) == tk.0[ixs[0] as int] + concat_tokens(
                tk.0,
                ixs.drop_first(),
            ));
            assert(rem.take(1) + rem.skip(1) =~= rem);
        }
    }
}

/// A witness that `out` is a walk the engine admits: it opens with the two
/// tokens of the chosen start, follows child links through non-ending
/// nodes into exactly one ending node, and obeys every enabled
/// faithfulness constraint.
pub open spec fn gen_witness(m: Markov, out: Seq<usize>, si: int, path: Seq<usize>) -> bool {
    &&& 0 <= si < m.starts@.len()
    &&& out.len() >= 3
    &&& path.len() == out.len() - 2
    &&& out[0] == m.starts@[si].tokens.0
    &&& out[1] == m.starts@[si].tokens.1
    &&& forall|k: int| 0 <= k < path.len() ==> (#[trigger] path[k]) < m.nodes@.len()
    &&& forall|k: int|
        0 <= k < path.len() ==> (#[trigger] m.nodes@[path[k] as int].token) == out[k + 2]
    &&& m.starts@[si].children@.contains(path[0])
    &&& forall|k: int|
        1 <= k < path.len() ==> (#[trigger] m.nodes@[path[k - 1] as int].children@).contains(
            path[k],
        )
    &&& forall|k: int|
        0 <= k < path.len() ==> ((#[trigger] m.nodes@[path[k] as int].ending) <==> k == path.len()
            - 1)
    &&& (m.lrs ==> out.len() == m.starts@[si].length)
    &&& (!m.lrs ==> out.len() - 3 < m.lengths@.len() && m.lengths@[out.len() - 3] >= 1)
    &&& (m.lre ==> m.nodes@[path.last() as int].length == out.len())
    &&& (m.rtf ==> forall|t: usize|
        #[trigger] count_tok(out, t) <= (if t < m.max_tokens@.len() {
            m.max_tokens@[t as int] as int
        } else {
            0
        }))
}

/// Whether some start and some node path admit this output.
pub open spec fn generated_ok(m: Markov, out: Seq<usize>) -> bool {
    exists|si: int, path: Seq<usize>| gen_witness(m, out, si, path)
}

impl Markov {
    /// Pick a target token count from the length histogram, weighted by
    /// bucket counts and offset by the three-token minimum: a cumulative
    /// scan over the buckets for a uniform roll below the total.
    fn pick_length(&self, rng: &mut Prng) -> (r: usize)
        requires
            self.wf(),
            self.total_lengths > 0,
        ensures
            3 <= r,
            r - 3 < self.lengths@.len(),
            self.lengths@[r - 3] >= 1,
            exists|roll: int|
                0 <= roll < self.total_lengths && r - 3 == cum_index(self.lengths@, roll),
    {
        let mut random = rng.below_usize(self.total_lengths);
        let ghost roll0 = random as int;
        let n_lengths = self.lengths.len();
        let mut i: usize = 0;
        proof {
            assert(self.lengths@.skip(0) =~= self.lengths@);
        }
        loop
            invariant
                self.wf(),
                i <= n_lengths == self.lengths@.len(),
                random < sum_usize(self.lengths@.skip(i as int)),
                0 <= roll0 < self.total_lengths,
                cum_index(self.lengths@, roll0) == i + cum_index(
                    self.lengths@.skip(i as int),
                    random as int,
                ),
            decreases n_lengths - i,
        {
            proof {
                if i as int == self.lengths@.len() {
                    assert(self.lengths@.skip(i as int) =~= Seq::<usize>::empty());
                    assert(false);
                }
                assert(self.lengths@.skip(i as int)[0] == self.lengths@[i as int]);
                lemma_sum_usize_first(self.lengths@.skip(i as int));
                assert(self.lengths@.skip(i as int).drop_first() =~= self.lengths@.skip(
                    i as int + 1,
                ));
            }
            let bucket = self.lengths[i];
            if bucket > random {
                return 3 + i;
            }
            random = random - bucket;
            i = i + 1;
        }
    }

    /// Pick a start node, weighted by its recorded weight: a cumulative
    /// scan over the start weights for a uniform roll below the total.
    fn pick_start(&self, rng: &mut Prng) -> (r: usize)
        requires
            self.wf(),
            self.total_starts > 0,
        ensures
            r < self.starts@.len(),
            exists|roll: int|
                0 <= roll < self.total_starts && r as int == cum_index(
                    start_weights(self.starts@),
                    roll,
                ),
    {
        let mut random = rng.below_usize(self.total_starts);
        let ghost roll0 = random as int;
        let n_starts = self.starts.len();
        let mut i: usize = 0;
        proof {
            assert(start_weights(self.starts@).skip(0) =~= start_weights(self.starts@));
        }
        loop
            invariant
                self.wf(),
                i <= n_starts == self.starts@.len(),
                random < sum_usize(start_weights(self.starts@).skip(i as int)),
                0 <= roll0 < self.total_starts,
                cum_index(start_weights(self.starts@), roll0) == i + cum_index(
                    start_weights(self.starts@).skip(i as int),
                    random as int,
                ),
            decreases n_starts - i,
        {
            proof {
                if i as int == self.starts@.len() {
                    assert(start_weights(self.starts@).skip(i as int) =~= Seq::<usize>::empty());
                    assert(false);
                }
                assert(start_weights(self.starts@).skip(i as int)[0] == start_weights(
                    self.starts@,
                )[i as int]);
                lemma_sum_usize_first(start_weights(self.starts@).skip(i as int));
                assert(start_weights(self.starts@).skip(i as int).drop_first() =~= start_weights(
                    self.starts@,
                ).skip(i as int + 1));
            }
            let w = self.starts[i].weight;
            if w > random {
                return i;
            }
            random = random - w;
            i = i + 1;
        }
    }

    /// Generate one word by a weighted backtracking walk: pick a start and
    /// a target length, then repeatedly draw a child in proportion to its
    /// weight, rejecting candidates that break an enabled constraint and
    /// backtracking when a frame runs out. The mutable buffers are cleared
    /// at entry, so an engine that has learned nothing leaves an empty
    /// result; otherwise the accepted token indices land in `result` and
    /// their text in `result_str`. The search gives up only after an
    /// astronomical number of draws, leaving the result empty.
    #[verifier::rlimit(100)]
    #[verifier::spinoff_prover]
    pub fn generate(&self, ws: &mut WorkingSet, rng: &mut Prng)
        requires
            self.wf(),
        ensures
            final(ws).result_chars == old(ws).result_chars,
            final(ws).result_total == old(ws).result_total,
            final(ws).subtokens == old(ws).subtokens,
            final(ws).result_str@ == concat_tokens(tok_views(self.tokens@), final(ws).result@),
            final(ws).result@.len() == 0 || generated_ok(*self, final(ws).result@),
            self.starts@.len() == 0 ==> final(ws).result@.len() == 0 && final(ws).result_str@.len() == 0,
    {
        ws.stack_pos.clear();
        ws.stack_weight.clear();
        ws.stack.clear();
        ws.result.clear();
        if self.starts.len() == 0 {
            ws.result_str = String::new();
            proof {
                assert(concat_tokens(tok_views(self.tokens@), ws.result@) =~= Seq::<
                    char,
                >::empty());
            }
            return ;
        }
        proof {
            if self.total_starts == 0 {
                lemma_sum_usize_element_bound(start_weights(self.starts@), 0);
                assert(self.starts@[0].weight >= 1);
            }
        }
        let n_nodes = self.nodes.len();
        let mut length: usize = 1;
        let ghost mut gsi: int = 0;
        let ghost mut path: Seq<usize> = Seq::empty();
        let mut fuel: u64 = u64::MAX;
        loop
            invariant
                self.wf(),
                n_nodes == self.nodes@.len(),
                self.starts@.len() > 0,
                self.total_starts > 0,
                ws.result_chars == old(ws).result_chars,
                ws.result_total == old(ws).result_total,
                ws.subtokens == old(ws).subtokens,
                ws.stack_pos@.len() == ws.stack_weight@.len(),
                ws.stack_pos@.len() > 0 ==> {
                    &&& 0 <= gsi < self.starts@.len()
                    &&& ws.result@.len() == ws.stack_pos@.len() + 1
                    &&& path.len() == ws.stack_pos@.len() - 1
                    &&& ws.result@[0] == self.starts@[gsi].tokens.0
                    &&& ws.result@[1] == self.starts@[gsi].tokens.1
                    &&& 3 <= length
                    &&& (self.lrs ==> length == self.starts@[gsi].length)
                    &&& (!self.lrs ==> length - 3 < self.lengths@.len() && self.lengths@[length
                        - 3] >= 1)
                    &&& ws.result@.len() <= length
                    &&& (forall|k: int|
                        0 <= k < path.len() ==> (#[trigger] path[k]) < self.nodes@.len())
                    &&& (forall|k: int|
                        0 <= k < path.len() ==> (#[trigger] self.nodes@[path[k] as int].token)
                            == ws.result@[k + 2])
                    &&& (path.len() > 0 ==> self.starts@[gsi].children@.contains(path[0]))
                    &&& (forall|k: int|
                        1 <= k < path.len() ==> (
                        #[trigger] self.nodes@[path[k - 1] as int].children@).contains(path[k]))
                    &&& (forall|k: int|
                        0 <= k < path.len() ==> ((#[trigger] self.nodes@[path[k] as int].ending)
                            ==> (k == path.len() - 1 && ws.result@.len() == length)))
                    &&& (self.lre ==> forall|k: int|
                        0 <= k < path.len() && (#[trigger] self.nodes@[path[k] as int].ending)
                            ==> self.nodes@[path[k] as int].length == length)
                    &&& (forall|f1: int, f2: int|
                        #![trigger ws.stack_pos@[f1], ws.stack_pos@[f2]]
                        0 <= f1 <= f2 < ws.stack_pos@.len() ==> ws.stack_pos@[f1]
                            <= ws.stack_pos@[f2])
                    &&& (ws.stack_pos@[ws.stack_pos@.len() - 1] <= ws.stack@.len())
                    &&& (forall|q: int|
                        0 <= q < ws.stack@.len() ==> (#[trigger] ws.stack@[q])
                            < self.nodes@.len())
                    &&& (forall|f: int, q: int|
                        #![trigger ws.stack_pos@[f], ws.stack@[q]]
                        0 <= f < ws.stack_pos@.len() && ws.stack_pos@[f] <= q < frame_hi(
                            ws.stack_pos@,
                            ws.stack@.len() as int,
                            f,
                        ) ==> frame_parent_holds(*self, gsi, path, f, ws.stack@[q]))
                    &&& (forall|f: int|
                        0 <= f < ws.stack_pos@.len() ==> (#[trigger] ws.stack_weight@[f])
                            == cws(
                            ws.stack@.subrange(
                                ws.stack_pos@[f] as int,
                                frame_hi(ws.stack_pos@, ws.stack@.len() as int, f),
                            ),
                            self.nodes@,
                        ))
                },
                ws.stack_pos@.len() > 0 && ws.result@.len() == length ==> path.len() >= 1
                    && self.nodes@[path.last() as int].ending,
                self.rtf ==> forall|t: usize|
                    #[trigger] count_tok(ws.result@, t) <= (if t < self.max_tokens@.len() {
                        self.max_tokens@[t as int] as int
                    } else {
                        0
                    }),
                forall|j: int| 0 <= j < ws.result@.len() ==> (#[trigger] ws.result@[j]) < self.tokens@.len(),
            ensures
                ws.stack_pos@.len() > 0,
                ws.result@.len() == length,
            decreases fuel,
        {
            if ws.stack_pos.len() > 0 && ws.result.len() >= length {
                break ;
            }
            if fuel == 0 {
                ws.result.clear();
                ws.result_str = String::new();
                proof {
                    assert(concat_tokens(tok_views(self.tokens@), ws.result@) =~= Seq::<
                        char,
                    >::empty());
                }
                return ;
            }
            fuel = fuel - 1;
            if ws.stack_pos.len() == 0 {
                let start_index = self.pick_start(rng);
                ws.result.clear();
                ws.stack.clear();
                ws.stack_weight.clear();
                let start_t0 = self.starts[start_index].tokens.0;
                let start_t1 = self.starts[start_index].tokens.1;
                ws.result.push(start_t0);
                ws.result.push(start_t1);
                let n_children = self.starts[start_index].children.len();
                let mut c: usize = 0;
                let ghost ws_frozen = *ws;
                while c < n_children
                    invariant
                        c <= n_children == self.starts@[start_index as int].children@.len(),
                        start_index < self.starts@.len(),
                        self.wf(),
                        ws.stack@.len() == c,
                        forall|q: int|
                            0 <= q < c ==> #[trigger] ws.stack@[q]
                                == self.starts@[start_index as int].children@[q],
                        ws.result == ws_frozen.result,
                        ws.result_str == ws_frozen.result_str,
                        ws.result_chars == ws_frozen.result_chars,
                        ws.result_total == ws_frozen.result_total,
                        ws.stack_pos == ws_frozen.stack_pos,
                        ws.stack_weight == ws_frozen.stack_weight,
                        ws.subtokens == ws_frozen.subtokens,
                    decreases n_children - c,
                {
                    proof {
                        assert(self.start_ok(self.starts@[start_index as int]));
                    }
                    ws.stack.push(self.starts[start_index].children[c]);
                    c = c + 1;
                }
                proof {
                    assert(ws.stack@ =~= self.starts@[start_index as int].children@);
                    assert(self.start_ok(self.starts@[start_index as int]));
                }
                let frame_weight = self.stack_range_weight(&ws.stack, 0);
                ws.stack_pos.push(0);
                ws.stack_weight.push(frame_weight);
                length = if self.lrs {
                    self.starts[start_index].length
                } else {
                    self.pick_length(rng)
                };
                proof {
                    gsi = start_index as int;
                    path = Seq::empty();
                    assert(ws.stack@.subrange(0, ws.stack@.len() as int) =~= ws.stack@);
                    assert forall|f: int, q: int|
                        #![trigger ws.stack_pos@[f], ws.stack@[q]]
                        0 <= f < ws.stack_pos@.len() && ws.stack_pos@[f] <= q < frame_hi(
                            ws.stack_pos@,
                            ws.stack@.len() as int,
                            f,
                        ) implies frame_parent_holds(*self, gsi, path, f, ws.stack@[q]) by {
                        assert(f == 0);
                        assert(ws.stack@[q] == self.starts@[gsi].children@[q]);
                        assert(self.starts@[gsi].children@.contains(ws.stack@[q]));
                    }
                    if self.rtf {
                        assert(self.start_ok(self.starts@[gsi]));
                        assert forall|t: usize|
                            #[trigger] count_tok(ws.result@, t) <= (if t < self.max_tokens@.len() {
                                self.max_tokens@[t as int] as int
                            } else {
                                0
                            }) by {
                            lemma_count_two(ws.result@, t);
                        }
                    }
                }
                continue ;
            }
            let frame_base = ws.stack_pos[ws.stack_pos.len() - 1];
            let frame_weight = ws.stack_weight[ws.stack_weight.len() - 1];
            if ws.stack.len() == frame_base {
                let ghost result_pre = ws.result@;
                ws.stack_pos.pop();
                ws.stack_weight.pop();
                ws.result.pop();
                proof {
                    if path.len() > 0 {
                        path = path.drop_last();
                    }
                    if self.rtf {
                        assert forall|t: usize|
                            #[trigger] count_tok(ws.result@, t) <= (if t < self.max_tokens@.len() {
                                self.max_tokens@[t as int] as int
                            } else {
                                0
                            }) by {
                            lemma_count_tok_last(result_pre, t);
                            assert(ws.result@ =~= result_pre.drop_last());
                        }
                    }
                }
                continue ;
            }
            proof {
                let f = ws.stack_pos@.len() - 1;
                assert(frame_hi(ws.stack_pos@, ws.stack@.len() as int, f) == ws.stack@.len());
                assert(frame_weight == cws(
                    ws.stack@.subrange(frame_base as int, ws.stack@.len() as int),
                    self.nodes@,
                ));
                lemma_cws_pos(
                    ws.stack@.subrange(frame_base as int, ws.stack@.len() as int),
                    self.nodes@,
                    *self,
                );
            }
            let mut r = rng.below_u128(frame_weight);
            let n_stack = ws.stack.len();
            let mut node_index = frame_base;
            loop
                invariant
                    self.wf(),
                    n_stack == ws.stack@.len(),
                    frame_base <= node_index <= n_stack,
                    forall|q: int|
                        0 <= q < ws.stack@.len() ==> (#[trigger] ws.stack@[q])
                            < self.nodes@.len(),
                    r < cws(
                        ws.stack@.subrange(node_index as int, ws.stack@.len() as int),
                        self.nodes@,
                    ),
                ensures
                    node_index < ws.stack@.len(),
                    (self.nodes@[ws.stack@[node_index as int] as int].weight as int) > r,
                decreases ws.stack@.len() - node_index,
            {
                proof {
                    if node_index as int == ws.stack@.len() {
                        assert(ws.stack@.subrange(node_index as int, ws.stack@.len() as int)
                            =~= Seq::<usize>::empty());
                        assert(false);
                    }
                    let sub = ws.stack@.subrange(node_index as int, ws.stack@.len() as int);
                    lemma_cws_first(sub, self.nodes@);
                    assert(sub[0] == ws.stack@[node_index as int]);
                    assert(sub.drop_first() =~= ws.stack@.subrange(
                        node_index as int + 1,
                        ws.stack@.len() as int,
                    ));
                }
                let node_w = self.nodes[ws.stack[node_index]].weight;
                if r < (node_w as u128) {
                    break ;
                }
                r = r - (node_w as u128);
                node_index = node_index + 1;
            }
            let picked = ws.stack[node_index];
            let picked_w = self.nodes[picked].weight;
            let ghost stack_before = ws.stack@;
            proof {
                lemma_cws_element(
                    ws.stack@.subrange(frame_base as int, ws.stack@.len() as int),
                    node_index - frame_base,
                    self.nodes@,
                );
            }
            ws.stack.swap_remove(node_index);
            let lw = ws.stack_weight[ws.stack_weight.len() - 1];
            let wpos = ws.stack_weight.len() - 1;
            proof {
                lemma_cws_swap_remove(stack_before, frame_base as int, node_index as int, self.nodes@);
            }
            ws.stack_weight.set(wpos, lw - (picked_w as u128));
            proof {
                assert(ws.stack_pos@[ws.stack_pos@.len() - 1] <= ws.stack@.len());
                assert forall|f: int, q: int|
                    #![trigger ws.stack_pos@[f], ws.stack@[q]]
                    0 <= f < ws.stack_pos@.len() && ws.stack_pos@[f] <= q < frame_hi(
                        ws.stack_pos@,
                        ws.stack@.len() as int,
                        f,
                    ) implies frame_parent_holds(*self, gsi, path, f, ws.stack@[q]) by {
                    if f < ws.stack_pos@.len() - 1 {
                        assert(ws.stack@[q] == stack_before[q]);
                    } else {
                        if q == node_index as int {
                            assert(ws.stack@[q] == stack_before[stack_before.len() - 1]);
                        } else {
                            assert(ws.stack@[q] == stack_before[q]);
                        }
                    }
                }
                assert forall|f: int|
                    0 <= f < ws.stack_pos@.len() implies (#[trigger] ws.stack_weight@[f]) == cws(
                    ws.stack@.subrange(
                        ws.stack_pos@[f] as int,
                        frame_hi(ws.stack_pos@, ws.stack@.len() as int, f),
                    ),
                    self.nodes@,
                ) by {
                    if f < ws.stack_pos@.len() - 1 {
                        assert(ws.stack@.subrange(
                            ws.stack_pos@[f] as int,
                            frame_hi(ws.stack_pos@, ws.stack@.len() as int, f),
                        ) =~= stack_before.subrange(
                            ws.stack_pos@[f] as int,
                            frame_hi(ws.stack_pos@, stack_before.len() as int, f),
                        ));
                    }
                }
            }
            let ghost sp_pre = ws.stack_pos@;
            let ghost stack_pre = ws.stack@;
            let ghost sw_pre = ws.stack_weight@;
            let ending_wanted = ws.result.len() == length - 1;
            let node_ending = self.nodes[picked].ending;
            if node_ending != ending_wanted {
                continue ;
            }
            if self.lre && ending_wanted && length != self.nodes[picked].length {
                continue ;
            }
            let picked_token = self.nodes[picked].token;
            if self.rtf {
                proof {
                    lemma_count_tok_le_len(ws.result@, picked_token);
                }
                let cnt = count_of(&ws.result, picked_token) + 1;
                if cnt > self.max_tokens[picked_token] {
                    continue ;
                }
            }
            proof {
                assert(self.node_ok(self.nodes@[picked as int]));
            }
            let ghost result_pre = ws.result@;
            ws.result.push(picked_token);
            let new_base = ws.stack.len();
            let n_children = self.nodes[picked].children.len();
            let mut c: usize = 0;
            let ghost stack_mid = ws.stack@;
            let ghost ws_r_frozen = *ws;
            while c < n_children
                invariant
                    c <= n_children == self.nodes@[picked as int].children@.len(),
                    picked < self.nodes@.len(),
                    self.wf(),
                    new_base == stack_mid.len(),
                    ws.stack@.len() == new_base + c,
                    forall|q: int| 0 <= q < new_base ==> #[trigger] ws.stack@[q] == stack_mid[q],
                    forall|q: int|
                        new_base <= q < ws.stack@.len() ==> #[trigger] ws.stack@[q]
                            == self.nodes@[picked as int].children@[q - new_base],
                    ws.result == ws_r_frozen.result,
                    ws.result_str == ws_r_frozen.result_str,
                    ws.result_chars == ws_r_frozen.result_chars,
                    ws.result_total == ws_r_frozen.result_total,
                    ws.stack_pos == ws_r_frozen.stack_pos,
                    ws.stack_weight == ws_r_frozen.stack_weight,
                    ws.subtokens == ws_r_frozen.subtokens,
                decreases n_children - c,
            {
                proof {
                    assert(self.node_ok(self.nodes@[picked as int]));
                }
                ws.stack.push(self.nodes[picked].children[c]);
                c = c + 1;
            }
            let frame_weight2 = self.stack_range_weight(&ws.stack, new_base);
            ws.stack_pos.push(new_base);
            ws.stack_weight.push(frame_weight2);
            proof {
                path = path.push(picked);
                let sp = ws.stack_pos@;
                let last = sp.len() - 1;
                assert(sp =~= sp_pre.push(new_base));
                assert forall|f: int, q: int|
                    #![trigger sp[f], ws.stack@[q]]
                    0 <= f < sp.len() && sp[f] <= q < frame_hi(sp, ws.stack@.len() as int, f)
                        implies frame_parent_holds(*self, gsi, path, f, ws.stack@[q]) by {
                    if f < last {
                        assert(sp[f] == sp_pre[f]);
                        if f + 1 < last {
                            assert(sp[f + 1] == sp_pre[f + 1]);
                            assert(sp_pre[f + 1] <= sp_pre[sp_pre.len() - 1]);
                        }
                        assert(frame_hi(sp, ws.stack@.len() as int, f) <= new_base);
                        assert(ws.stack@[q] == stack_pre[q]);
                        assert(frame_hi(sp, ws.stack@.len() as int, f) == frame_hi(
                            sp_pre,
                            stack_pre.len() as int,
                            f,
                        ));
                        assert(frame_parent_holds(*self, gsi, path.drop_last(), f, stack_pre[q]));
                        if f > 0 {
                            assert(path[f - 1] == path.drop_last()[f - 1]);
                        }
                    } else {
                        assert(ws.stack@[q] == self.nodes@[picked as int].children@[q - new_base]);
                        assert(self.nodes@[picked as int].children@.contains(ws.stack@[q]));
                        assert(path[last - 1] == picked);
                    }
                }
                assert forall|f: int|
                    0 <= f < sp.len() implies (#[trigger] ws.stack_weight@[f]) == cws(
                    ws.stack@.subrange(sp[f] as int, frame_hi(sp, ws.stack@.len() as int, f)),
                    self.nodes@,
                ) by {
                    if f < last {
                        assert(ws.stack_weight@[f] == sw_pre[f]);
                        assert(ws.stack@.subrange(
                            sp[f] as int,
                            frame_hi(sp, ws.stack@.len() as int, f),
                        ) =~= stack_pre.subrange(
                            sp_pre[f] as int,
                            frame_hi(sp_pre, stack_pre.len() as int, f),
                        ));
                    } else {
                        assert(ws.stack@.subrange(
                            sp[last] as int,
                            frame_hi(sp, ws.stack@.len() as int, last),
                        ) =~= ws.stack@.subrange(new_base as int, ws.stack@.len() as int));
                    }
                }
                if self.rtf {
                    assert forall|t: usize|
                        #[trigger] count_tok(ws.result@, t) <= (if t < self.max_tokens@.len() {
                            self.max_tokens@[t as int] as int
                        } else {
                            0
                        }) by {
                        lemma_count_tok_last(ws.result@, t);
                        assert(ws.result@.drop_last() =~= result_pre);
                        assert(ws.result@.last() == picked_token);
                    }
                }
            }
        }
        proof {
            assert(gen_witness(*self, ws.result@, gsi, path));
            assert(generated_ok(*self, ws.result@));
        }
        // Render the accepted tokens.
        ws.result_str = String::new();
        let n_out = ws.result.len();
        let mut o: usize = 0;
        let ghost out = ws.result@;
        proof {
            assert(out.take(0) =~= Seq::<usize>::empty());
            assert(concat_tokens(tok_views(self.tokens@), out.take(0)) =~= Seq::<char>::empty());
        }
        while o < n_out
            invariant
                o <= n_out == ws.result@.len(),
                out == ws.result@,
                self.wf(),
                forall|j: int| 0 <= j < out.len() ==> (#[trigger] out[j]) < self.tokens@.len(),
                ws.result_str@ == concat_tokens(tok_views(self.tokens@), out.take(o as int)),
                ws.result_chars == old(ws).result_chars,
                ws.result_total == old(ws).result_total,
                ws.subtokens == old(ws).subtokens,
            decreases n_out - o,
        {
            proof {
                lemma_concat_tokens_snoc(tok_views(self.tokens@), out, o as int);
            }
            let ti = ws.result[o];
            string_append(&mut ws.result_str, self.tokens[ti].as_str());
            o = o + 1;
        }
        proof {
            assert(out.take(n_out as int) =~= out);
        }
    }

    /// The clamped total weight of the stack entries from `from` on.
    fn stack_range_weight(&self, stack: &Vec<usize>, from: usize) -> (sum: u128)
        requires
            from <= stack@.len(),
            forall|q: int| 0 <= q < stack@.len() ==> (#[trigger] stack@[q]) < self.nodes@.len(),
        ensures
            sum == cws(stack@.subrange(from as int, stack@.len() as int), self.nodes@),
    {
        let ghost sub = stack@.subrange(from as int, stack@.len() as int);
        let n = stack.len();
        let mut sum: u128 = 0;
        let mut k: usize = from;
        proof {
            assert(sub.take(0) =~= Seq::<usize>::empty());
        }
        while k < n
            invariant
                from <= k <= n == stack@.len(),
                sub == stack@.subrange(from as int, stack@.len() as int),
                forall|q: int| 0 <= q < stack@.len() ==> (#[trigger] stack@[q]) < self.nodes@.len(),
                sum == cws(sub.take(k - from), self.nodes@),
                sum <= (k - from) * (usize::MAX as int),
            decreases n - k,
        {
            proof {
                assert(sub[k - from] == stack@[k as int]);
                lemma_cws_snoc(sub, k - from, self.nodes@);
                lemma_mul_le_public(k - from, n as int, usize::MAX as int);
                lemma_u128_room(k - from, n as int);
            }
            let c = stack[k];
            sum = sum + (self.nodes[c].weight as u128);
            k = k + 1;
        }
        proof {
            assert(sub.take(n - from) =~= sub);
        }
        sum
    }

    /// The two totals every well-formed engine keeps accurate: the start
    /// weights sum to `total_starts` and the histogram buckets to
    /// `total_lengths`.
    pub proof fn lemma_totals_accurate(self)
        requires
            self.wf(),
        ensures
            sum_usize(start_weights(self.starts@)) == self.total_starts,
            sum_usize(self.lengths@) == self.total_lengths,
    {
    }
}

/// The upper bound of frame `f` in the flat candidate stack.
pub open spec fn frame_hi(sp: Seq<usize>, stack_len: int, f: int) -> int {
    if f + 1 < sp.len() {
        sp[f + 1] as int
    } else {
        stack_len
    }
}

/// A frame entry is a child of the node the frame belongs to: frame `0`
/// belongs to the chosen start, frame `f > 0` to the `f`-th accepted node.
pub open spec fn frame_parent_holds(m: Markov, gsi: int, path: Seq<usize>, f: int, q: usize) -> bool {
    if f == 0 {
        0 <= gsi < m.starts@.len() && m.starts@[gsi].children@.contains(q)
    } else {
        0 <= f - 1 < path.len() && path[f - 1] < m.nodes@.len() && m.nodes@[path[f
            - 1] as int].children@.contains(q)
    }
}

/// A nonempty frame of positive-weight nodes has positive total weight.
proof fn lemma_cws_pos(ch: Seq<usize>, nodes: Seq<Node>, m: Markov)
    requires
        m.wf(),
        nodes == m.nodes@,
        ch.len() > 0 ==> ch[0] < nodes.len(),
    ensures
        ch.len() > 0 ==> cws(ch, nodes) >= 1,
{
    if ch.len() > 0 {
        lemma_cws_first(ch, nodes);
        lemma_cws_nonneg(ch.drop_first(), nodes);
        assert(m.node_ok(m.nodes@[ch[0] as int]));
    }
}

/// Removing the element at `k` of the last frame by a swap with the stack
/// top lowers the frame total by exactly that element's weight.
proof fn lemma_cws_swap_remove(stack: Seq<usize>, lo: int, k: int, nodes: Seq<Node>)
    requires
        0 <= lo <= k < stack.len(),
    ensures
        cws(
            stack.update(k, stack.last()).drop_last().subrange(
                lo,
                stack.len() - 1,
            ),
            nodes,
        ) == cws(stack.subrange(lo, stack.len() as int), nodes) - (if stack[k] < nodes.len() {
            nodes[stack[k] as int].weight as int
        } else {
            0
        }),
{
    let s = stack.subrange(lo, stack.len() as int);
    let j = k - lo;
    let post = stack.update(k, stack.last()).drop_last().subrange(lo, stack.len() - 1);
    assert(post =~= s.update(j, s.last()).drop_last());
    lemma_cws_update(s, j, s.last(), nodes);
    lemma_cws_last(s.update(j, s.last()), nodes);
    if j == s.len() - 1 {
        assert(s.update(j, s.last()) =~= s);
    } else {
        assert(s.update(j, s.last()).last() == s.last());
    }
    assert(s[j] == stack[k]);
}

/// A count never exceeds the sequence length.
proof fn lemma_count_tok_le_len(s: Seq<usize>, t: usize)
    ensures
        count_tok(s, t) <= s.len(),
    decreases s.len(),
{
    if s.len() > 0 {
        lemma_count_tok_le_len(s.drop_first(), t);
    }
}

/// A two-token sequence counts each of its tokens.
proof fn lemma_count_two(s: Seq<usize>, t: usize)
    requires
        s.len() == 2,
    ensures
        count_tok(s, t) == (if s[0] == t {
            1int
        } else {
            0
        }) + (if s[1] == t {
            1int
        } else {
            0
        }),
{
    assert(s.drop_first()[0] == s[1]);
    assert(s.drop_first().drop_first() =~= Seq::<usize>::empty());
    assert(count_tok(s.drop_first().drop_first(), t) == 0);
    assert(count_tok(s.drop_first(), t) == (if s[1] == t {
        1int
    } else {
        0
    }));
}

/// One member's weight never exceeds the frame total.
proof fn lemma_cws_element(ch: Seq<usize>, q: int, nodes: Seq<Node>)
    requires
        0 <= q < ch.len(),
    ensures
        (if ch[q] < nodes.len() {
            nodes[ch[q] as int].weight as int
        } else {
            0
        }) <= cws(ch, nodes),
    decreases ch.len(),
{
    lemma_cws_nonneg(ch.drop_first(), nodes);
    if q == 0 {
    } else {
        lemma_cws_element(ch.drop_first(), q - 1, nodes);
    }
}

/// Replacing one entry of a child list shifts the total by the weight
/// difference.
proof fn lemma_cws_update(ch: Seq<usize>, j: int, x: usize, nodes: Seq<Node>)
    requires
        0 <= j < ch.len(),
    ensures
        cws(ch.update(j, x), nodes) == cws(ch, nodes) - (if ch[j] < nodes.len() {
            nodes[ch[j] as int].weight as int
        } else {
            0
        }) + (if x < nodes.len() {
            nodes[x as int].weight as int
        } else {
            0
        }),
    decreases ch.len(),
{
    if j == 0 {
        assert(ch.update(0, x).drop_first() =~= ch.drop_first());
        assert(ch.update(0, x)[0] == x);
    } else {
        lemma_cws_update(ch.drop_first(), j - 1, x, nodes);
        assert(ch.update(j, x).drop_first() =~= ch.drop_first().update(j - 1, x));
        assert(ch.update(j, x)[0] == ch[0]);
    }
}

/// A positive count means the token occurs somewhere.
pub proof fn lemma_count_pos_member(s: Seq<usize>, t: usize)
    requires
        count_tok(s, t) > 0,
    ensures
        exists|q: int| 0 <= q < s.len() && s[q] == t,
    decreases s.len(),
{
    if s.len() > 0 {
        if s[0] == t {
            assert(s[0] == t);
        } else {
            lemma_count_pos_member(s.drop_first(), t);
            let q = choose|q: int| 0 <= q < s.drop_first().len() && s.drop_first()[q] == t;
            assert(s[q + 1] == t);
        }
    }
}

/// Concatenating one more token appends its characters.
pub proof fn lemma_concat_tokens_snoc(tv: Seq<Seq<char>>, ixs: Seq<usize>, o: int)
    requires
        0 <= o < ixs.len(),
    ensures
        concat_tokens(tv, ixs.take(o + 1)) == concat_tokens(tv, ixs.take(o)) + (if ixs[o]
            < tv.len() {
            tv[ixs[o] as int]
        } else {
            Seq::empty()
        }),
{
    lemma_concat_tokens_last(tv, ixs.take(o + 1));
    assert(ixs.take(o + 1).drop_last() =~= ixs.take(o));
    assert(ixs.take(o + 1).last() == ixs[o]);
}

proof fn lemma_concat_tokens_last(tv: Seq<Seq<char>>, ixs: Seq<usize>)
    requires
        ixs.len() > 0,
    ensures
        concat_tokens(tv, ixs) == concat_tokens(tv, ixs.drop_last()) + (if ixs.last() < tv.len() {
            tv[ixs.last() as int]
        } else {
            Seq::empty()
        }),
    decreases ixs.len(),
{
    if ixs.len() == 1 {
        assert(ixs.drop_last() =~= Seq::empty());
        assert(ixs.drop_first() =~= Seq::empty());
        assert(concat_tokens(tv, ixs.drop_last()) == Seq::<char>::empty());
        assert(concat_tokens(tv, ixs) =~= concat_tokens(tv, ixs.drop_last()) + (if ixs.last()
            < tv.len() {
            tv[ixs.last() as int]
        } else {
            Seq::empty()
        }));
    } else {
        lemma_concat_tokens_last(tv, ixs.drop_first());
        assert(ixs.drop_first().drop_last() =~= ixs.drop_last().drop_first());
        assert(ixs.drop_first().last() == ixs.last());
        assert(ixs.drop_last()[0] == ixs[0]);
        assert(ixs.drop_last().len() > 0);
        assert(concat_tokens(tv, ixs) =~= concat_tokens(tv, ixs.drop_last()) + (if ixs.last()
            < tv.len() {
            tv[ixs.last() as int]
        } else {
            Seq::empty()
        }));
    }
}

/// Relies on vstd's specification of `String::append`.
pub(crate) fn string_append(dst: &mut String, s: &str)
    ensures
        final(dst)@ == old(dst)@ + s@,
{
    dst.append(s);
}

/// The characters of a word sample; empty for a `Tokens` sample.
pub open spec fn word_of(s: Sample) -> Seq<char> {
    match s {
        Sample::Word(w) => w@,
        Sample::WordWeighted(w, _) => w@,
        Sample::Tokens(_) => Seq::empty(),
    }
}

/// Whether a start node carries exactly this key.
pub open spec fn start_matches(s: StartNode, t0: usize, t1: usize, slen: usize) -> bool {
    s.tokens.0 == t0 && s.tokens.1 == t1 && s.length == slen
}

/// Two nodes equal in everything but the child list, which may only have
/// grown at the end.
pub open spec fn node_same_but_children(pre: Node, post: Node) -> bool {
    pre.prev == post.prev && pre.token == post.token && pre.weight == post.weight && pre.length
        == post.length && pre.ending == post.ending && seq_extended(pre.children@, post.children@)
}

/// How often a token occurs in an index list.
pub(crate) fn count_of(ixs: &Vec<usize>, t: usize) -> (c: usize)
    ensures
        c == count_tok(ixs@, t),
{
    let n = ixs.len();
    let mut c: usize = 0;
    let mut k: usize = 0;
    proof {
        assert(ixs@.take(0) =~= Seq::<usize>::empty());
    }
    while k < n
        invariant
            k <= n == ixs@.len(),
            c == count_tok(ixs@.take(k as int), t),
            c <= k,
        decreases n - k,
    {
        proof {
            lemma_count_tok_snoc(ixs@, k as int, t);
        }
        if ixs[k] == t {
            c = c + 1;
        }
        k = k + 1;
    }
    proof {
        assert(ixs@.take(n as int) =~= ixs@);
    }
    c
}

/// Counting over a one-longer prefix adds the last element's occurrence.
proof fn lemma_count_tok_snoc(s: Seq<usize>, k: int, t: usize)
    requires
        0 <= k < s.len(),
    ensures
        count_tok(s.take(k + 1), t) == count_tok(s.take(k), t) + (if s[k] == t {
            1int
        } else {
            0
        }),
{
    lemma_count_tok_last(s.take(k + 1), t);
    assert(s.take(k + 1).drop_last() =~= s.take(k));
    assert(s.take(k + 1).last() == s[k]);
}

proof fn lemma_count_tok_last(s: Seq<usize>, t: usize)
    requires
        s.len() > 0,
    ensures
        count_tok(s, t) == count_tok(s.drop_last(), t) + (if s.last() == t {
            1int
        } else {
            0
        }),
    decreases s.len(),
{
    if s.len() == 1 {
        assert(s.drop_last() =~= Seq::empty());
        assert(s.drop_first() =~= Seq::empty());
    } else {
        lemma_count_tok_last(s.drop_first(), t);
        assert(s.drop_first().drop_last() =~= s.drop_last().drop_first());
        assert(s.drop_first().last() == s.last());
        assert(s.drop_last()[0] == s[0]);
        assert(s.drop_last().len() > 0);
    }
}

pub proof fn lemma_count_tok_nonneg(s: Seq<usize>, t: usize)
    ensures
        count_tok(s, t) >= 0,
    decreases s.len(),
{
    if s.len() > 0 {
        lemma_count_tok_nonneg(s.drop_first(), t);
    }
}

pub proof fn lemma_count_tok_split(s: Seq<usize>, k: int, t: usize)
    requires
        0 <= k <= s.len(),
    ensures
        count_tok(s, t) == count_tok(s.take(k), t) + count_tok(s.skip(k), t),
    decreases k,
{
    if k == 0 {
        assert(s.take(0) =~= Seq::empty());
        assert(s.skip(0) =~= s);
    } else {
        lemma_count_tok_split(s, k - 1, t);
        lemma_count_tok_snoc(s, k - 1, t);
        assert(s.skip(k - 1).drop_first() =~= s.skip(k));
        assert(s.skip(k - 1)[0] == s[k - 1]);
    }
}

/// An element occurs at least once.
pub proof fn lemma_count_tok_at(s: Seq<usize>, i: int)
    requires
        0 <= i < s.len(),
    ensures
        count_tok(s, s[i]) >= 1,
{
    lemma_count_tok_split(s, i, s[i]);
    lemma_count_tok_nonneg(s.take(i), s[i]);
    assert(s.skip(i)[0] == s[i]);
    lemma_count_tok_nonneg(s.skip(i).drop_first(), s[i]);
}

/// An element that occurs at two positions occurs at least twice.
pub proof fn lemma_count_tok_pair(s: Seq<usize>, i: int, j: int)
    requires
        0 <= i < j < s.len(),
        s[i] == s[j],
    ensures
        count_tok(s, s[i]) >= 2,
{
    lemma_count_tok_split(s, j, s[i]);
    lemma_count_tok_split(s.take(j), i, s[i]);
    lemma_count_tok_nonneg(s.take(j).take(i), s[i]);
    assert(s.take(j).skip(i)[0] == s[i]);
    lemma_count_tok_nonneg(s.take(j).skip(i).drop_first(), s[i]);
    assert(s.skip(j)[0] == s[j]);
    lemma_count_tok_nonneg(s.skip(j).drop_first(), s[i]);
}

/// Every index sequence extends itself.
pub proof fn lemma_seq_extended_refl(s: Seq<usize>)
    ensures
        seq_extended(s, s),
{
    assert(s.subrange(0, s.len() as int) =~= s);
}

/// A scan position that matched nothing earlier pins the key index down.
proof fn lemma_start_key_from_scan(ss: Seq<StartNode>, t0: usize, t1: usize, slen: usize, j: int)
    requires
        0 <= j <= ss.len(),
        forall|j2: int| 0 <= j2 < j ==> !start_matches(#[trigger] ss[j2], t0, t1, slen),
        j == ss.len() || start_matches(ss[j], t0, t1, slen),
    ensures
        start_key_index(ss, t0 as int, t1 as int, slen as int) == j,
    decreases j,
{
    if j == 0 {
    } else {
        assert(!start_matches(ss[0], t0, t1, slen));
        assert forall|j2: int|
            0 <= j2 < j - 1 implies !start_matches(#[trigger] ss.drop_first()[j2], t0, t1, slen) by {
            assert(ss.drop_first()[j2] == ss[j2 + 1]);
        }
        assert(j - 1 == ss.drop_first().len() || start_matches(ss.drop_first()[j - 1], t0, t1, slen));
        lemma_start_key_from_scan(ss.drop_first(), t0, t1, slen, j - 1);
    }
}

/// Append a child to one node's child list unless it is already there;
/// every other node and every other field stays as it was.
fn add_child_to_node(nodes: &mut Vec<Node>, j: usize, c: usize)
    requires
        j < old(nodes)@.len(),
    ensures
        final(nodes)@.len() == old(nodes)@.len(),
        forall|k: int| 0 <= k < old(nodes)@.len() && k != j ==> final(nodes)@[k] == old(nodes)@[k],
        final(nodes)@[j as int].prev == old(nodes)@[j as int].prev,
        final(nodes)@[j as int].token == old(nodes)@[j as int].token,
        final(nodes)@[j as int].weight == old(nodes)@[j as int].weight,
        final(nodes)@[j as int].length == old(nodes)@[j as int].length,
        final(nodes)@[j as int].ending == old(nodes)@[j as int].ending,
        final(nodes)@[j as int].children@ == (if old(nodes)@[j as int].children@.contains(c) {
            old(nodes)@[j as int].children@
        } else {
            old(nodes)@[j as int].children@.push(c)
        }),
        final(nodes)@[j as int].children@.contains(c),
        seq_extended(old(nodes)@[j as int].children@, final(nodes)@[j as int].children@),
{
    let mut tmp = Node {
        prev: (0, 0),
        token: 0,
        weight: 0,
        length: 0,
        children: Vec::new(),
        ending: false,
    };
    nodes.set_and_swap(j, &mut tmp);
    let n_children = tmp.children.len();
    let mut found = false;
    let mut k: usize = 0;
    loop
        invariant_except_break
            !found,
            forall|d: int| 0 <= d < k ==> tmp.children@[d] != c,
        invariant
            k <= n_children == tmp.children@.len(),
        ensures
            found == tmp.children@.contains(c),
        decreases n_children - k,
    {
        if k >= n_children {
            proof {
                if tmp.children@.contains(c) {
                    let d = choose|d: int| 0 <= d < tmp.children@.len() && tmp.children@[d] == c;
                    assert(tmp.children@[d] != c);
                }
            }
            break ;
        }
        if tmp.children[k] == c {
            found = true;
            proof {
                assert(tmp.children@.contains(c));
            }
            break ;
        }
        k = k + 1;
    }
    if !found {
        tmp.children.push(c);
    }
    nodes.set_and_swap(j, &mut tmp);
    proof {
        let pre = old(nodes)@[j as int].children@;
        let post = final(nodes)@[j as int].children@;
        if pre.contains(c) {
            assert(post =~= pre);
            assert(post.subrange(0, pre.len() as int) =~= pre);
        } else {
            assert(post =~= pre.push(c));
            assert(post.subrange(0, pre.len() as int) =~= pre);
            assert(post[pre.len() as int] == c);
        }
    }
}

/// Append a child to one start node's child list unless it is already
/// there; every other start and every other field stays as it was.
fn add_child_to_start(starts: &mut Vec<StartNode>, j: usize, c: usize)
    requires
        j < old(starts)@.len(),
    ensures
        final(starts)@.len() == old(starts)@.len(),
        forall|k: int|
            0 <= k < old(starts)@.len() && k != j ==> final(starts)@[k] == old(starts)@[k],
        final(starts)@[j as int].tokens == old(starts)@[j as int].tokens,
        final(starts)@[j as int].weight == old(starts)@[j as int].weight,
        final(starts)@[j as int].length == old(starts)@[j as int].length,
        final(starts)@[j as int].children@ == (if old(starts)@[j as int].children@.contains(c) {
            old(starts)@[j as int].children@
        } else {
            old(starts)@[j as int].children@.push(c)
        }),
        seq_extended(old(starts)@[j as int].children@, final(starts)@[j as int].children@),
{
    let mut tmp = StartNode { tokens: (0, 0), weight: 0, length: 0, children: Vec::new() };
    starts.set_and_swap(j, &mut tmp);
    let n_children = tmp.children.len();
    let mut found = false;
    let mut k: usize = 0;
    loop
        invariant_except_break
            !found,
            forall|d: int| 0 <= d < k ==> tmp.children@[d] != c,
        invariant
            k <= n_children == tmp.children@.len(),
        ensures
            found == tmp.children@.contains(c),
        decreases n_children - k,
    {
        if k >= n_children {
            proof {
                if tmp.children@.contains(c) {
                    let d = choose|d: int| 0 <= d < tmp.children@.len() && tmp.children@[d] == c;
                    assert(tmp.children@[d] != c);
                }
            }
            break ;
        }
        if tmp.children[k] == c {
            found = true;
            proof {
                assert(tmp.children@.contains(c));
            }
            break ;
        }
        k = k + 1;
    }
    if !found {
        tmp.children.push(c);
    }
    starts.set_and_swap(j, &mut tmp);
    proof {
        let pre = old(starts)@[j as int].children@;
        let post = final(starts)@[j as int].children@;
        if pre.contains(c) {
            assert(post =~= pre);
            assert(post.subrange(0, pre.len() as int) =~= pre);
        } else {
            assert(post =~= pre.push(c));
            assert(post.subrange(0, pre.len() as int) =~= pre);
        }
    }
}

/// Raise one start node's weight by one; everything else stays as it was.
fn bump_start_weight(starts: &mut Vec<StartNode>, j: usize)
    requires
        j < old(starts)@.len(),
        old(starts)@[j as int].weight < usize::MAX,
    ensures
        final(starts)@.len() == old(starts)@.len(),
        forall|k: int|
            0 <= k < old(starts)@.len() && k != j ==> final(starts)@[k] == old(starts)@[k],
        final(starts)@[j as int].tokens == old(starts)@[j as int].tokens,
        final(starts)@[j as int].weight == old(starts)@[j as int].weight + 1,
        final(starts)@[j as int].length == old(starts)@[j as int].length,
        final(starts)@[j as int].children == old(starts)@[j as int].children,
{
    let mut tmp = StartNode { tokens: (0, 0), weight: 0, length: 0, children: Vec::new() };
    starts.set_and_swap(j, &mut tmp);
    tmp.weight = tmp.weight + 1;
    starts.set_and_swap(j, &mut tmp);
}

/// Set one node's weight; everything else stays as it was.
fn set_node_weight(nodes: &mut Vec<Node>, j: usize, w: usize)
    requires
        j < old(nodes)@.len(),
    ensures
        final(nodes)@.len() == old(nodes)@.len(),
        forall|k: int| 0 <= k < old(nodes)@.len() && k != j ==> final(nodes)@[k] == old(nodes)@[k],
        final(nodes)@[j as int].prev == old(nodes)@[j as int].prev,
        final(nodes)@[j as int].token == old(nodes)@[j as int].token,
        final(nodes)@[j as int].weight == w,
        final(nodes)@[j as int].length == old(nodes)@[j as int].length,
        final(nodes)@[j as int].children == old(nodes)@[j as int].children,
        final(nodes)@[j as int].ending == old(nodes)@[j as int].ending,
{
    let mut tmp = Node {
        prev: (0, 0),
        token: 0,
        weight: 0,
        length: 0,
        children: Vec::new(),
        ending: false,
    };
    nodes.set_and_swap(j, &mut tmp);
    tmp.weight = w;
    nodes.set_and_swap(j, &mut tmp);
}

/// A scan that found no good token yet and finds none later yields `-1`.
proof fn lemma_match_from_none(tv: Seq<Seq<char>>, rem: Seq<char>, i: int, best: int)
    requires
        best == -1,
        0 <= i <= tv.len(),
        match_from(tv, rem, i, best) == -1,
    ensures
        forall|j: int|
            i <= j < tv.len() ==> !((#[trigger] tv[j]).len() >= 1 && is_prefix_of(tv[j], rem)),
    decreases tv.len() - i,
{
    if i < tv.len() {
        if tv[i].len() >= 1 && is_prefix_of(tv[i], rem) {
            lemma_match_from_stays(tv, rem, i + 1, i);
        } else {
            lemma_match_from_none(tv, rem, i + 1, -1);
        }
    }
}

/// A scan that carries a valid candidate never returns `-1`, and its
/// result is a valid candidate.
proof fn lemma_match_from_stays(tv: Seq<Seq<char>>, rem: Seq<char>, i: int, best: int)
    requires
        0 <= i <= tv.len(),
        0 <= best < tv.len(),
        tv[best].len() >= 1 && is_prefix_of(tv[best], rem),
    ensures
        match_from(tv, rem, i, best) >= 0,
        ({
            let m = match_from(tv, rem, i, best);
            0 <= m < tv.len() && tv[m].len() >= 1 && is_prefix_of(tv[m], rem)
        }),
    decreases tv.len() - i,
{
    if i < tv.len() {
        let better = tv[i].len() >= 1 && is_prefix_of(tv[i], rem) && (best < 0 || tv[i].len()
            > tv[best].len());
        if better {
            lemma_match_from_stays(tv, rem, i + 1, i);
        } else {
            lemma_match_from_stays(tv, rem, i + 1, best);
        }
    }
}

/// A nonnegative scan result is a valid candidate.
proof fn lemma_match_from_good(tv: Seq<Seq<char>>, rem: Seq<char>, i: int, best: int)
    requires
        0 <= i <= tv.len(),
        best == -1 || (0 <= best < tv.len() && tv[best].len() >= 1 && is_prefix_of(tv[best], rem)),
        match_from(tv, rem, i, best) >= 0,
    ensures
        ({
            let m = match_from(tv, rem, i, best);
            0 <= m < tv.len() && tv[m].len() >= 1 && is_prefix_of(tv[m], rem)
        }),
    decreases tv.len() - i,
{
    if i < tv.len() {
        let better = tv[i].len() >= 1 && is_prefix_of(tv[i], rem) && (best < 0 || tv[i].len()
            > tv[best].len());
        if better {
            lemma_match_from_good(tv, rem, i + 1, i);
        } else {
            lemma_match_from_good(tv, rem, i + 1, best);
        }
    }
}

/// A nonnegative best match is a valid candidate: nonempty and a prefix.
pub proof fn lemma_match_good_public(tv: Seq<Seq<char>>, rem: Seq<char>)
    requires
        best_match(tv, rem) >= 0,
    ensures
        0 <= best_match(tv, rem) < tv.len(),
        tv[best_match(tv, rem)].len() >= 1,
        is_prefix_of(tv[best_match(tv, rem)], rem),
{
    lemma_match_from_good(tv, rem, 0, -1);
}

/// A failed best match means no nonempty token starts the remainder.
pub proof fn lemma_match_none_public(tv: Seq<Seq<char>>, rem: Seq<char>)
    requires
        best_match(tv, rem) == -1,
    ensures
        forall|j: int|
            0 <= j < tv.len() ==> !((#[trigger] tv[j]).len() >= 1 && is_prefix_of(tv[j], rem)),
{
    lemma_match_from_none(tv, rem, 0, -1);
}

/// Extension of index prefixes is transitive.
pub proof fn lemma_seq_extended_trans(a: Seq<usize>, b: Seq<usize>, c: Seq<usize>)
    requires
        seq_extended(a, b),
        seq_extended(b, c),
    ensures
        seq_extended(a, c),
{
    assert(c.subrange(0, a.len() as int) =~= a) by {
        assert(forall|i: int|
            0 <= i < a.len() ==> c.subrange(0, b.len() as int)[i] == #[trigger] c[i]);
        assert(forall|i: int|
            0 <= i < a.len() ==> b.subrange(0, a.len() as int)[i] == #[trigger] b[i]);
    }
}

proof fn lemma_sum_zeros(s: Seq<usize>)
    requires
        forall|j: int| 0 <= j < s.len() ==> #[trigger] s[j] == 0usize,
    ensures
        sum_usize(s) == 0,
    decreases s.len(),
{
    if s.len() > 0 {
        lemma_sum_zeros(s.drop_first());
    }
}

pub proof fn lemma_mul_le_public(a: int, b: int, c: int)
    requires
        0 <= a <= b,
        0 <= c,
    ensures
        a * c <= b * c,
{
    broadcast use vstd::arithmetic::mul::lemma_mul_inequality;

}


} // verus!
