use vstd::prelude::*;
use crate::base::{LearnError, ValidationError, WorkingSet};
use crate::rng::Prng;
use crate::sample::{Sample, SampleSet};

verus! {

/// One entry of the word list: a word and how often it should be drawn
/// relative to the total weight.
#[derive(Debug)]
pub struct Rule {
    pub name: String,
    pub weight: u32,
}

impl PartialEq for Rule {
    fn eq(&self, other: &Rule) -> (r: bool) {
        self.name == other.name && self.weight == other.weight
    }
}

impl vstd::std_specs::cmp::PartialEqSpecImpl for Rule {
    open spec fn obeys_eq_spec() -> bool {
        true
    }

    open spec fn eq_spec(&self, other: &Rule) -> bool {
        self.name@ == other.name@ && self.weight == other.weight
    }
}

/// Total weight of a sequence of rules.
pub open spec fn sum_weights(rs: Seq<Rule>) -> int
    decreases rs.len(),
{
    if rs.len() == 0 {
        0
    } else {
        rs[0].weight + sum_weights(rs.drop_first())
    }
}

/// The rule index a roll selects: the unique `i` with
/// `sum_weights(rs.take(i)) <= roll < sum_weights(rs.take(i + 1))`.
pub open spec fn cum_pick(rs: Seq<Rule>, roll: int) -> int
    decreases rs.len(),
{
    if rs.len() == 0 {
        0
    } else if roll < rs[0].weight {
        0
    } else {
        1 + cum_pick(rs.drop_first(), roll - rs[0].weight)
    }
}

/// Whether some rule carries this word.
pub open spec fn has_named(rs: Seq<Rule>, name: Seq<char>) -> bool {
    exists|i: int| 0 <= i < rs.len() && rs[i].name@ == name
}

/// No word appears in two entries.
pub open spec fn distinct_names(rs: Seq<Rule>) -> bool {
    forall|x: int, y: int| 0 <= x < y < rs.len() ==> rs[x].name@ != rs[y].name@
}

/// The weight recorded for a word, zero when the word is absent.
pub open spec fn weight_of(rs: Seq<Rule>, name: Seq<char>) -> int {
    if has_named(rs, name) {
        rs[choose|i: int| 0 <= i < rs.len() && rs[i].name@ == name].weight as int
    } else {
        0
    }
}

/// The weight a batch of samples adds to one word.
pub open spec fn added_weight(samples: Seq<Sample>, name: Seq<char>) -> int
    decreases samples.len(),
{
    if samples.len() == 0 {
        0
    } else {
        let head: int = match samples[0] {
            Sample::Word(w) => if w@ == name {
                1int
            } else {
                0
            },
            Sample::WordWeighted(w, n) => if w@ == name {
                n as int
            } else {
                0
            },
            Sample::Tokens(_) => 0,
        };
        head + added_weight(samples.drop_first(), name)
    }
}

/// The weight a batch of samples adds in total.
pub open spec fn batch_weight(samples: Seq<Sample>) -> int
    decreases samples.len(),
{
    if samples.len() == 0 {
        0
    } else {
        sample_weight(samples[0]) + batch_weight(samples.drop_first())
    }
}

/// The weight one sample contributes.
pub open spec fn sample_weight(s: Sample) -> int {
    match s {
        Sample::Word(_) => 1,
        Sample::WordWeighted(_, n) => n as int,
        Sample::Tokens(_) => 0,
    }
}

/// Every word sample of the batch carries a positive weight.
pub open spec fn batch_weights_positive(samples: Seq<Sample>) -> bool {
    forall|i: int|
        0 <= i < samples.len() ==> match #[trigger] samples[i] {
            Sample::WordWeighted(_, n) => n >= 1,
            _ => true,
        }
}

/// A simple weighted word list. Entries with weight one sit behind
/// `one_cutoff_index` so that a high roll can be answered by direct
/// indexing instead of a cumulative scan.
pub struct WordList {
    pub rules: Vec<Rule>,
    pub one_cutoff_index: usize,
    pub one_cutoff_weight: u32,
    pub total_weight: u32,
}

/// Everything `learn` promises, as one statement: success exactly where
/// no sample is a token row, every learned name's weight raised by its
/// batch weight, and a failing batch leaving the model as it was.
pub open spec fn learn_post(
    pre: WordList,
    post: WordList,
    set: SampleSet,
    r: Result<(), LearnError>,
) -> bool {
    &&& post.wf()
    &&& (r.is_ok() <==> forall|i: int|
        0 <= i < set.samples@.len() ==> !(set.samples@[i] is Tokens))
    &&& (r.is_ok() ==> {
        &&& forall|n: Seq<char>|
            weight_of(post.rules@, n) == weight_of(pre.rules@, n) + added_weight(
                set.samples@,
                n,
            )
        &&& post.total_weight == pre.total_weight + batch_weight(set.samples@)
    })
    &&& (r is Err ==> post.model() == pre.model() && r->Err_0.code == 1)
}

impl WordList {
    /// The bookkeeping invariant: the entries behind the cutoff all weigh
    /// one and the entries before it at least two, the cutoff weight is the
    /// weight of the entries before it, the total is the weight of all
    /// entries, every weight is positive, and words are not repeated.
    pub open spec fn wf(self) -> bool {
        &&& self.one_cutoff_index <= self.rules@.len()
        &&& forall|i: int|
            self.one_cutoff_index <= i < self.rules@.len() ==> self.rules@[i].weight == 1
        &&& forall|i: int| 0 <= i < self.rules@.len() ==> self.rules@[i].weight >= 1
        &&& forall|i: int| 0 <= i < self.one_cutoff_index ==> self.rules@[i].weight >= 2
        &&& self.one_cutoff_weight == sum_weights(self.rules@.take(self.one_cutoff_index as int))
        &&& self.total_weight == sum_weights(self.rules@)
        &&& distinct_names(self.rules@)
    }

    /// The full observable state: entries with their content plus the
    /// bookkeeping counters. Two lists with equal models behave alike.
    pub open spec fn model(self) -> (Seq<(Seq<char>, u32)>, int, int, int) {
        (
            self.rules@.map_values(|r: Rule| (r.name@, r.weight)),
            self.one_cutoff_index as int,
            self.one_cutoff_weight as int,
            self.total_weight as int,
        )
    }

    /// Write the word a roll selects into `target`: the entry at the
    /// cumulative-weight position of `roll`.
    pub fn generate_with_roll(&self, target: &mut String, roll: u32)
        requires
            self.wf(),
            roll < self.total_weight,
        ensures
            final(target)@ == self.rules@[cum_pick(self.rules@, roll as int)].name@,
    {
        proof {
            lemma_sum_take_bound(self.rules@, self.one_cutoff_index as int);
        }
        let n_rules = self.rules.len();
        if roll > self.one_cutoff_weight {
            let off = (roll - self.one_cutoff_weight) as usize;
            proof {
                let k = self.one_cutoff_index as int;
                lemma_sum_split_ones(self.rules@, k);
                lemma_cum_pick_skip(self.rules@, k, roll as int);
                lemma_cum_pick_ones(self.rules@.skip(k), roll - self.one_cutoff_weight);
            }
            assert(off < n_rules - self.one_cutoff_index);
            let idx = self.one_cutoff_index + off;
            *target = clone_string(&self.rules[idx].name);
        } else {
            let mut roll_left = roll;
            let mut j: usize = 0;
            proof {
                assert(self.rules@.skip(0) =~= self.rules@);
                assert(self.rules@.take(0) =~= Seq::empty());
            }
            loop
                invariant
                    self.wf(),
                    n_rules == self.rules@.len(),
                    j <= n_rules,
                    roll_left <= roll < self.total_weight,
                    roll_left == roll - sum_weights(self.rules@.take(j as int)),
                    cum_pick(self.rules@, roll as int) == j + cum_pick(
                        self.rules@.skip(j as int),
                        roll_left as int,
                    ),
                    roll_left < sum_weights(self.rules@.skip(j as int)),
                decreases self.rules@.len() - j,
            {
                proof {
                    lemma_sum_split(self.rules@, j as int);
                    if j as int == self.rules@.len() {
                        assert(self.rules@.skip(j as int) =~= Seq::empty());
                        assert(false);
                    }
                    assert(j < self.rules@.len());
                }
                let w = self.rules[j].weight;
                proof {
                    assert(self.rules@.skip(j as int)[0] == self.rules@[j as int]);
                }
                if roll_left < w {
                    *target = clone_string(&self.rules[j].name);
                    proof {
                        assert(cum_pick(self.rules@.skip(j as int), roll_left as int) == 0);
                    }
                    return ;
                }
                proof {
                    let s = self.rules@.skip(j as int);
                    assert(s.drop_first() =~= self.rules@.skip(j as int + 1));
                    assert(self.rules@.take(j as int + 1).drop_last() =~= self.rules@.take(
                        j as int,
                    ));
                    lemma_sum_snoc(self.rules@.take(j as int + 1));
                    assert(self.rules@.take(j as int + 1).last() == self.rules@[j as int]);
                }
                roll_left = roll_left - w;
                j = j + 1;
            }
        }
    }

    /// Write a weighted random choice into the shared output buffer. An
    /// empty list leaves the output empty.
    pub fn generate(&self, ws: &mut WorkingSet, rng: &mut Prng)
        requires
            self.wf(),
        ensures
            final(ws).result == old(ws).result,
            final(ws).result_chars == old(ws).result_chars,
            final(ws).result_total == old(ws).result_total,
            final(ws).stack == old(ws).stack,
            final(ws).stack_pos == old(ws).stack_pos,
            final(ws).stack_weight == old(ws).stack_weight,
            final(ws).subtokens == old(ws).subtokens,
            self.total_weight == 0 ==> final(ws).result_str@.len() == 0,
            self.total_weight > 0 ==> exists|roll: int|
                0 <= roll < self.total_weight && final(ws).result_str@ == self.rules@[cum_pick(
                    self.rules@,
                    roll,
                )].name@,
    {
        if self.total_weight == 0 {
            ws.result_str = String::new();
            return ;
        }
        let roll = rng.below_u32(self.total_weight);
        self.generate_with_roll(&mut ws.result_str, roll);
    }

    /// Learn every sample of the set, or fail on the first sample that is
    /// not a word and restore the state the call began with.
    pub fn learn(&mut self, sample_set: &SampleSet) -> (r: Result<(), LearnError>)
        requires
            old(self).wf(),
            old(self).total_weight + batch_weight(sample_set.samples@) < u32::MAX,
            batch_weights_positive(sample_set.samples@),
        ensures
            learn_post(*old(self), *final(self), *sample_set, r),
    {
        let old_state = self.snapshot();
        let samples = sample_set.samples();
        let n_samples = samples.len();
        let mut i: usize = 0;
        loop
            invariant
                self.wf(),
                old_state.rules@ == old(self).rules@,
                old_state.one_cutoff_index == old(self).one_cutoff_index,
                old_state.one_cutoff_weight == old(self).one_cutoff_weight,
                old_state.total_weight == old(self).total_weight,
                old_state.wf(),
                i <= n_samples == samples@.len(),
                samples@ == sample_set.samples@,
                batch_weights_positive(samples@),
                old(self).total_weight + batch_weight(samples@) < u32::MAX,
                forall|j: int| 0 <= j < i ==> !(samples@[j] is Tokens),
                forall|n: Seq<char>|
                    weight_of(self.rules@, n) == weight_of(old(self).rules@, n) + added_weight(
                        samples@.take(i as int),
                        n,
                    ),
                self.total_weight == old(self).total_weight + batch_weight(
                    samples@.take(i as int),
                ),
            decreases n_samples - i,
        {
            if i >= n_samples {
                proof {
                    assert(samples@.take(i as int) =~= samples@);
                }
                return Ok(());
            }
            proof {
                lemma_batch_weight_take_bounds(samples@, i as int);
            }
            let res = self.learn_one(&samples[i]);
            match res {
                Ok(_) => {
                    proof {
                        lemma_batch_take_snoc(samples@, i as int);
                    }
                    i = i + 1;
                },
                Err(err) => {
                    *self = old_state;
                    return Err(err);
                },
            }
        }
    }

    /// Learn a single word sample: its weight is added to the word's entry,
    /// a fresh word gets a new entry. A `Tokens` sample is refused.
    pub fn learn_one(&mut self, sample: &Sample) -> (r: Result<(), LearnError>)
        requires
            old(self).wf(),
            match *sample {
                Sample::Word(_) => old(self).total_weight + 1 < u32::MAX,
                Sample::WordWeighted(_, n) => n >= 1 && old(self).total_weight + n < u32::MAX,
                Sample::Tokens(_) => true,
            },
        ensures
            final(self).wf(),
            r.is_ok() <==> !(*sample is Tokens),
            r is Err ==> final(self).model() == old(self).model() && r->Err_0.code == 1,
            r.is_ok() ==> {
                &&& final(self).total_weight == old(self).total_weight + sample_weight(*sample)
                &&& forall|n: Seq<char>|
                    weight_of(final(self).rules@, n) == weight_of(old(self).rules@, n) + (
                    if n == sample_name(*sample) {
                        sample_weight(*sample)
                    } else {
                        0
                    })
            },
    {
        let sample_weight: u32;
        let sample_word: &String;
        match sample {
            Sample::Word(w) => {
                sample_word = w;
                sample_weight = 1;
            },
            Sample::WordWeighted(w, n) => {
                sample_word = w;
                sample_weight = *n;
            },
            Sample::Tokens(_) => {
                return Err(
                    LearnError::new(
                        1,
                        String::from_str("Incorrect sample type. Must be Word"),
                        Some(sample.clone()),
                    ),
                );
            },
        }
        self.add_rule(Rule { name: clone_string(sample_word), weight: sample_weight });
        Ok(())
    }

    /// Fold a new entry into the list: merge the weight into an existing
    /// entry of the same word, else append a new entry, keeping the
    /// weight-one entries behind the cutoff.
    pub fn add_rule(&mut self, new_rule: Rule)
        requires
            old(self).wf(),
            new_rule.weight >= 1,
            old(self).total_weight + new_rule.weight < u32::MAX,
        ensures
            final(self).wf(),
            final(self).total_weight == old(self).total_weight + new_rule.weight,
            final(self).rules@.len() == old(self).rules@.len() + (
            if has_named(old(self).rules@, new_rule.name@) {
                0int
            } else {
                1
            }),
            forall|n: Seq<char>|
                weight_of(final(self).rules@, n) == weight_of(old(self).rules@, n) + (
                if n == new_rule.name@ {
                    new_rule.weight as int
                } else {
                    0
                }),
    {
        let ghost pre = self.rules@;
        let ghost named = new_rule.name@;
        proof {
            lemma_sum_take_bound(pre, self.one_cutoff_index as int);
        }
        let mut index = self.rules.len();
        let mut k: usize = 0;
        loop
            invariant_except_break
                index == pre.len(),
                forall|j: int| 0 <= j < k ==> pre[j].name@ != named,
            invariant
                self.rules@ == pre,
                k <= pre.len(),
                named == new_rule.name@,
            ensures
                (index == pre.len() && !has_named(pre, named)) || (index < pre.len()
                    && pre[index as int].name@ == named),
            decreases pre.len() - k,
        {
            if k >= self.rules.len() {
                assert(!has_named(pre, named));
                break ;
            }
            if string_eq(&self.rules[k].name, &new_rule.name) {
                index = k;
                break ;
            }
            k = k + 1;
        }
        if index == self.rules.len() {
            proof {
                assert(!has_named(pre, named));
                lemma_sum_snoc(pre.push(new_rule));
                assert(pre.push(new_rule).drop_last() =~= pre);
            }
            self.total_weight = self.total_weight + new_rule.weight;
            if new_rule.weight == 1 {
                self.rules.push(new_rule);
                proof {
                    assert(self.rules@.take(self.one_cutoff_index as int) =~= pre.take(
                        self.one_cutoff_index as int,
                    ));
                    lemma_weight_of_append(pre, self.rules@, named);
                }
            } else {
                let last_index = self.rules.len();
                self.one_cutoff_weight = self.one_cutoff_weight + new_rule.weight;
                self.rules.push(new_rule);
                let n_after = self.rules.len();
                let ghost pushed = self.rules@;
                if self.one_cutoff_index < last_index {
                    let ci = self.one_cutoff_index;
                    swap_rules(&mut self.rules, ci, last_index);
                }
                self.one_cutoff_index = self.one_cutoff_index + 1;
                proof {
                    let ci = (self.one_cutoff_index - 1) as int;
                    lemma_weight_of_append(pre, pushed, named);
                    if ci < last_index as int {
                        assert(self.rules@ =~= pushed.update(ci, pushed[last_index as int]).update(
                            last_index as int,
                            pushed[ci],
                        ));
                        lemma_weight_of_swap(pushed, ci, last_index as int);
                        lemma_sum_swap(pushed, ci, last_index as int);
                    } else {
                        assert(self.rules@ =~= pushed);
                    }
                    assert forall|n: Seq<char>|
                        weight_of(self.rules@, n) == weight_of(pre, n) + (if n == named {
                            new_rule.weight as int
                        } else {
                            0
                        }) by {
                        assert(weight_of(self.rules@, n) == weight_of(pushed, n));
                    }
                    assert(self.rules@.take(ci + 1) =~= pre.take(ci).push(new_rule));
                    lemma_sum_snoc(pre.take(ci).push(new_rule));
                    assert(pre.take(ci).push(new_rule).drop_last() =~= pre.take(ci));
                }
            }
        } else {
            proof {
                assert(has_named(pre, named));
            }
            proof {
                lemma_sum_element_bound(pre, index as int);
            }
            let merged = self.rules[index].weight + new_rule.weight;
            let name_keep = clone_string(&self.rules[index].name);
            if self.rules[index].weight > 1 {
                proof {
                    if index >= self.one_cutoff_index {
                        assert(pre[index as int].weight == 1);
                        assert(false);
                    }
                }
                self.rules.set(index, Rule { name: name_keep, weight: merged });
                self.total_weight = self.total_weight + new_rule.weight;
                self.one_cutoff_weight = self.one_cutoff_weight + new_rule.weight;
                proof {
                    lemma_sum_update_one(pre, index as int, self.rules@[index as int]);
                    lemma_weight_of_update_weight(pre, index as int, self.rules@[index as int]);
                    assert(self.rules@ =~= pre.update(index as int, self.rules@[index as int]));
                    assert(self.rules@.take(self.one_cutoff_index as int) =~= pre.take(
                        self.one_cutoff_index as int,
                    ).update(index as int, self.rules@[index as int]));
                    lemma_sum_update_one(
                        pre.take(self.one_cutoff_index as int),
                        index as int,
                        self.rules@[index as int],
                    );
                }
            } else {
                proof {
                    assert(pre[index as int].weight == 1);
                    assert(index >= self.one_cutoff_index);
                }
                let last_index = self.rules.len() - 1;
                self.rules.set(index, Rule { name: name_keep, weight: merged });
                let ghost upd = self.rules@;
                if self.one_cutoff_index < last_index && self.one_cutoff_index < index {
                    let ci = self.one_cutoff_index;
                    swap_rules(&mut self.rules, ci, index);
                }
                self.one_cutoff_index = self.one_cutoff_index + 1;
                self.one_cutoff_weight = self.one_cutoff_weight + new_rule.weight + 1;
                self.total_weight = self.total_weight + new_rule.weight;
                proof {
                    let ci = (self.one_cutoff_index - 1) as int;
                    lemma_sum_update_one(pre, index as int, upd[index as int]);
                    lemma_weight_of_update_weight(pre, index as int, upd[index as int]);
                    assert(upd =~= pre.update(index as int, upd[index as int]));
                    if ci < last_index as int && ci != index as int {
                        assert(self.rules@ =~= upd.update(ci, upd[index as int]).update(
                            index as int,
                            upd[ci],
                        ));
                        lemma_weight_of_swap(upd, ci, index as int);
                        lemma_sum_swap(upd, ci, index as int);
                        assert(self.rules@.take(ci + 1) =~= pre.take(ci).push(upd[index as int]));
                    } else {
                        assert(self.rules@ =~= upd);
                        assert(ci == index as int);
                        assert(self.rules@.take(ci + 1) =~= pre.take(ci).push(upd[index as int]));
                    }
                    lemma_sum_snoc(pre.take(ci).push(upd[index as int]));
                    assert(pre.take(ci).push(upd[index as int]).drop_last() =~= pre.take(ci));
                    assert forall|n: Seq<char>|
                        weight_of(self.rules@, n) == weight_of(pre, n) + (if n == named {
                            new_rule.weight as int
                        } else {
                            0
                        }) by {
                        assert(weight_of(upd, n) == weight_of(pre, n) + (if n == named {
                            new_rule.weight as int
                        } else {
                            0
                        }));
                        assert(weight_of(self.rules@, n) == weight_of(upd, n));
                    }
                }
            }
        }
    }

    /// Report the first broken bookkeeping invariant, if any. Success means
    /// exactly that `wf` holds.
    pub fn validate(&self) -> (r: Result<(), ValidationError>)
        ensures
            r.is_ok() <==> self.wf(),
            r is Err ==> r->Err_0.kind@ == "parts::WordList"@,
    {
        if self.one_cutoff_index > self.rules.len() {
            return Err(ValidationError::new("parts::WordList", "cutoff index out of range."));
        }
        let n_rules = self.rules.len();
        let mut i: usize = 0;
        let mut total: u128 = 0;
        let mut cut: u128 = 0;
        while i < self.rules.len()
            invariant
                n_rules == self.rules@.len(),
                i <= n_rules,
                self.one_cutoff_index <= self.rules@.len(),
                total == sum_weights(self.rules@.take(i as int)),
                cut == sum_weights(
                    self.rules@.take(
                        if i < self.one_cutoff_index {
                            i as int
                        } else {
                            self.one_cutoff_index as int
                        },
                    ),
                ),
                total <= i * (u32::MAX as int),
                forall|j: int| 0 <= j < i ==> self.rules@[j].weight >= 1,
                forall|j: int| self.one_cutoff_index <= j < i ==> self.rules@[j].weight == 1,
                forall|j: int| 0 <= j < i && j < self.one_cutoff_index ==> self.rules@[j].weight >= 2,
            decreases self.rules@.len() - i,
        {
            let w = self.rules[i].weight;
            if w == 0 {
                return Err(ValidationError::new("parts::WordList", "rule has zero weight."));
            }
            if i >= self.one_cutoff_index && w != 1 {
                return Err(
                    ValidationError::new(
                        "parts::WordList",
                        "rule behind the cutoff must have weight one.",
                    ),
                );
            }
            if i < self.one_cutoff_index && w < 2 {
                return Err(
                    ValidationError::new(
                        "parts::WordList",
                        "rule before the cutoff must have weight at least two.",
                    ),
                );
            }
            proof {
                assert(self.rules@.take(i as int + 1).drop_last() =~= self.rules@.take(i as int));
                lemma_sum_snoc(self.rules@.take(i as int + 1));
                lemma_mul_le(i as int, self.rules@.len() as int, u32::MAX as int);
            }
            total = total + (w as u128);
            if i < self.one_cutoff_index {
                cut = cut + (w as u128);
            }
            i = i + 1;
        }
        proof {
            assert(self.rules@.take(self.rules@.len() as int) =~= self.rules@);
        }
        if total != (self.total_weight as u128) {
            return Err(ValidationError::new("parts::WordList", "total_weight is not accurate."));
        }
        if cut != (self.one_cutoff_weight as u128) {
            return Err(
                ValidationError::new("parts::WordList", "one_cutoff_weight is not accurate."),
            );
        }
        let mut a: usize = 0;
        while a < self.rules.len()
            invariant
                a <= self.rules@.len(),
                forall|x: int, y: int|
                    0 <= x < y < self.rules@.len() && x < a ==> self.rules@[x].name@
                        != self.rules@[y].name@,
            decreases self.rules@.len() - a,
        {
            let mut b: usize = a + 1;
            while b < self.rules.len()
                invariant
                    a < self.rules@.len(),
                    a + 1 <= b <= self.rules@.len(),
                    forall|y: int| a < y < b ==> self.rules@[a as int].name@ != self.rules@[y].name@,
                decreases self.rules@.len() - b,
            {
                if string_eq(&self.rules[a].name, &self.rules[b].name) {
                    return Err(ValidationError::new("parts::WordList", "duplicate word entry."));
                }
                b = b + 1;
            }
            a = a + 1;
        }
        Ok(())
    }

    /// A deep copy whose observable state equals this one's.
    fn snapshot(&self) -> (r: WordList)
        ensures
            r.rules@ == self.rules@,
            r.one_cutoff_index == self.one_cutoff_index,
            r.one_cutoff_weight == self.one_cutoff_weight,
            r.total_weight == self.total_weight,
    {
        let mut rules_copy: Vec<Rule> = Vec::new();
        let mut i: usize = 0;
        while i < self.rules.len()
            invariant
                i <= self.rules@.len(),
                rules_copy@.len() == i,
                forall|j: int| 0 <= j < i ==> rules_copy@[j] == self.rules@[j],
            decreases self.rules@.len() - i,
        {
            rules_copy.push(
                Rule { name: clone_string(&self.rules[i].name), weight: self.rules[i].weight },
            );
            i = i + 1;
        }
        proof {
            assert(rules_copy@ =~= self.rules@);
        }
        WordList {
            rules: rules_copy,
            one_cutoff_index: self.one_cutoff_index,
            one_cutoff_weight: self.one_cutoff_weight,
            total_weight: self.total_weight,
        }
    }

    pub fn new() -> (r: WordList)
        ensures
            r.wf(),
            r.rules@.len() == 0,
            r.total_weight == 0,
            r.one_cutoff_index == 0,
            r.one_cutoff_weight == 0,
    {
        let r = WordList {
            rules: Vec::new(),
            one_cutoff_weight: 0,
            one_cutoff_index: 0,
            total_weight: 0,
        };
        proof {
            assert(r.rules@.take(0) =~= Seq::<Rule>::empty());
        }
        r
    }
}

/// The word a sample carries, empty for a `Tokens` sample.
pub open spec fn sample_name(s: Sample) -> Seq<char> {
    match s {
        Sample::Word(w) => w@,
        Sample::WordWeighted(w, _) => w@,
        Sample::Tokens(_) => Seq::empty(),
    }
}

/// Exchange two entries of a rule vector.
fn swap_rules(v: &mut Vec<Rule>, i: usize, j: usize)
    requires
        i < j < old(v)@.len(),
    ensures
        final(v)@ == old(v)@.update(i as int, old(v)@[j as int]).update(
            j as int,
            old(v)@[i as int],
        ),
{
    let rj = v.remove(j);
    let ri = v.remove(i);
    v.insert(i, rj);
    v.insert(j, ri);
    proof {
        assert(v@ =~= old(v)@.update(i as int, old(v)@[j as int]).update(
            j as int,
            old(v)@[i as int],
        ));
    }
}

/// Relies on std's `String` equality, which vstd specifies as equality of
/// the character sequences.
pub fn string_eq(a: &String, b: &String) -> (r: bool)
    ensures
        r == (a@ == b@),
{
    <String as PartialEq>::eq(a, b)
}

/// Relies on vstd's specification of `String::clone`.
pub fn clone_string(s: &String) -> (r: String)
    ensures
        r == *s,
{
    s.clone()
}

proof fn lemma_sum_nonneg(rs: Seq<Rule>)
    ensures
        sum_weights(rs) >= 0,
    decreases rs.len(),
{
    if rs.len() > 0 {
        lemma_sum_nonneg(rs.drop_first());
    }
}

proof fn lemma_sum_snoc(rs: Seq<Rule>)
    requires
        rs.len() > 0,
    ensures
        sum_weights(rs) == sum_weights(rs.drop_last()) + rs.last().weight,
    decreases rs.len(),
{
    if rs.len() == 1 {
        assert(rs.drop_last() =~= Seq::empty());
        assert(rs.drop_first() =~= Seq::empty());
    } else {
        lemma_sum_snoc(rs.drop_first());
        assert(rs.drop_first().drop_last() =~= rs.drop_last().drop_first());
        assert(rs.drop_first().last() == rs.last());
        assert(rs.drop_last()[0] == rs[0]);
        assert(rs.drop_last().len() > 0);
    }
}

proof fn lemma_sum_split(rs: Seq<Rule>, k: int)
    requires
        0 <= k <= rs.len(),
    ensures
        sum_weights(rs) == sum_weights(rs.take(k)) + sum_weights(rs.skip(k)),
    decreases k,
{
    if k == 0 {
        assert(rs.take(0) =~= Seq::empty());
        assert(rs.skip(0) =~= rs);
    } else {
        lemma_sum_split(rs, k - 1);
        assert(rs.take(k).drop_last() =~= rs.take(k - 1));
        lemma_sum_snoc(rs.take(k));
        assert(rs.skip(k - 1).drop_first() =~= rs.skip(k));
        assert(rs.skip(k - 1).len() > 0);
        assert(rs.skip(k - 1)[0] == rs[k - 1]);
        assert(rs.take(k).last() == rs[k - 1]);
    }
}

proof fn lemma_sum_take_bound(rs: Seq<Rule>, k: int)
    requires
        0 <= k <= rs.len(),
    ensures
        sum_weights(rs.take(k)) <= sum_weights(rs),
        sum_weights(rs.take(k)) >= 0,
{
    lemma_sum_split(rs, k);
    lemma_sum_nonneg(rs.skip(k));
    lemma_sum_nonneg(rs.take(k));
}

/// One entry's weight never exceeds the total.
proof fn lemma_sum_element_bound(rs: Seq<Rule>, i: int)
    requires
        0 <= i < rs.len(),
    ensures
        rs[i].weight <= sum_weights(rs),
    decreases rs.len(),
{
    lemma_sum_nonneg(rs.drop_first());
    if i == 0 {
    } else {
        lemma_sum_element_bound(rs.drop_first(), i - 1);
    }
}

proof fn lemma_sum_update_one(rs: Seq<Rule>, i: int, r2: Rule)
    requires
        0 <= i < rs.len(),
    ensures
        sum_weights(rs.update(i, r2)) == sum_weights(rs) - rs[i].weight + r2.weight,
    decreases rs.len(),
{
    if i == 0 {
        assert(rs.update(0, r2).drop_first() =~= rs.drop_first());
        assert(rs.update(0, r2)[0] == r2);
    } else {
        lemma_sum_update_one(rs.drop_first(), i - 1, r2);
        assert(rs.update(i, r2).drop_first() =~= rs.drop_first().update(i - 1, r2));
        assert(rs.update(i, r2)[0] == rs[0]);
    }
}

/// Swapping two entries leaves the total weight unchanged.
proof fn lemma_sum_swap(rs: Seq<Rule>, i: int, j: int)
    requires
        0 <= i < j < rs.len(),
    ensures
        sum_weights(rs.update(i, rs[j]).update(j, rs[i])) == sum_weights(rs),
{
    lemma_sum_update_one(rs, i, rs[j]);
    lemma_sum_update_one(rs.update(i, rs[j]), j, rs[i]);
}

/// All entries past `k` weigh one, so the tail sums to its length.
proof fn lemma_sum_split_ones(rs: Seq<Rule>, k: int)
    requires
        0 <= k <= rs.len(),
        forall|i: int| k <= i < rs.len() ==> rs[i].weight == 1,
    ensures
        sum_weights(rs) == sum_weights(rs.take(k)) + (rs.len() - k),
{
    lemma_sum_split(rs, k);
    lemma_sum_ones(rs.skip(k));
}

proof fn lemma_sum_ones(rs: Seq<Rule>)
    requires
        forall|i: int| 0 <= i < rs.len() ==> rs[i].weight == 1,
    ensures
        sum_weights(rs) == rs.len(),
    decreases rs.len(),
{
    if rs.len() > 0 {
        lemma_sum_ones(rs.drop_first());
    }
}

proof fn lemma_sum_first(rs: Seq<Rule>)
    requires
        rs.len() > 0,
    ensures
        sum_weights(rs) == rs[0].weight + sum_weights(rs.drop_first()),
{
}

proof fn lemma_cum_pick_skip(rs: Seq<Rule>, k: int, roll: int)
    requires
        0 <= k <= rs.len(),
        roll >= sum_weights(rs.take(k)),
        0 <= roll,
    ensures
        cum_pick(rs, roll) == k + cum_pick(rs.skip(k), roll - sum_weights(rs.take(k))),
    decreases k,
{
    if k == 0 {
        assert(rs.take(0) =~= Seq::empty());
        assert(rs.skip(0) =~= rs);
    } else {
        assert(rs.take(k)[0] == rs[0]);
        assert(rs.take(k).drop_first() =~= rs.drop_first().take(k - 1));
        lemma_sum_first(rs.take(k));
        lemma_sum_nonneg(rs.drop_first().take(k - 1));
        assert(roll >= rs[0].weight);
        lemma_cum_pick_skip(rs.drop_first(), k - 1, roll - rs[0].weight);
        assert(rs.drop_first().skip(k - 1) =~= rs.skip(k));
    }
}

proof fn lemma_cum_pick_ones(rs: Seq<Rule>, roll: int)
    requires
        forall|i: int| 0 <= i < rs.len() ==> rs[i].weight == 1,
        0 <= roll < rs.len(),
    ensures
        cum_pick(rs, roll) == roll,
    decreases roll,
{
    if roll > 0 {
        lemma_cum_pick_ones(rs.drop_first(), roll - 1);
    }
}

proof fn lemma_batch_weight_take_bounds(samples: Seq<Sample>, i: int)
    requires
        0 <= i < samples.len(),
        batch_weights_positive(samples),
    ensures
        batch_weight(samples.take(i)) + sample_weight(samples[i]) <= batch_weight(samples),
        batch_weight(samples.take(i)) >= 0,
{
    lemma_batch_weight_split(samples, i + 1);
    lemma_batch_weight_split(samples, i);
    assert(batch_weights_positive(samples.skip(i + 1))) by {
        assert(forall|j: int|
            0 <= j < samples.skip(i + 1).len() ==> #[trigger] samples.skip(i + 1)[j] == samples[j
                + i + 1]);
    }
    assert(batch_weights_positive(samples.take(i))) by {
        assert(forall|j: int|
            0 <= j < samples.take(i).len() ==> #[trigger] samples.take(i)[j] == samples[j]);
    }
    lemma_batch_weight_nonneg(samples.skip(i + 1));
    lemma_batch_weight_nonneg(samples.take(i));
    lemma_batch_take_snoc_total(samples, i);
}

proof fn lemma_batch_weight_nonneg(samples: Seq<Sample>)
    requires
        batch_weights_positive(samples),
    ensures
        batch_weight(samples) >= 0,
    decreases samples.len(),
{
    if samples.len() > 0 {
        assert(batch_weights_positive(samples.drop_first())) by {
            assert(forall|i: int|
                0 <= i < samples.drop_first().len() ==> #[trigger] samples.drop_first()[i]
                    == samples[i + 1]);
        }
        lemma_batch_weight_nonneg(samples.drop_first());
        assert(sample_weight(samples[0]) >= 0);
    }
}

proof fn lemma_batch_weight_split(samples: Seq<Sample>, k: int)
    requires
        0 <= k <= samples.len(),
    ensures
        batch_weight(samples) == batch_weight(samples.take(k)) + batch_weight(samples.skip(k)),
    decreases k,
{
    if k == 0 {
        assert(samples.take(0) =~= Seq::empty());
        assert(samples.skip(0) =~= samples);
    } else {
        lemma_batch_weight_split(samples, k - 1);
        lemma_batch_take_snoc_total(samples, k - 1);
        assert(samples.skip(k - 1).drop_first() =~= samples.skip(k));
        assert(samples.skip(k - 1)[0] == samples[k - 1]);
    }
}

/// Extending the learned prefix by one sample adds that sample's weight,
/// both in total and per word.
proof fn lemma_batch_take_snoc(samples: Seq<Sample>, i: int)
    requires
        0 <= i < samples.len(),
    ensures
        batch_weight(samples.take(i + 1)) == batch_weight(samples.take(i)) + sample_weight(
            samples[i],
        ),
        forall|n: Seq<char>|
            added_weight(samples.take(i + 1), n) == added_weight(samples.take(i), n) + (
            if n == sample_name(samples[i]) {
                sample_weight(samples[i])
            } else {
                0
            }),
{
    lemma_batch_take_snoc_total(samples, i);
    assert forall|n: Seq<char>|
        added_weight(samples.take(i + 1), n) == added_weight(samples.take(i), n) + (
        if n == sample_name(samples[i]) {
            sample_weight(samples[i])
        } else {
            0
        }) by {
        lemma_added_weight_snoc(samples.take(i + 1), n);
        assert(samples.take(i + 1).drop_last() =~= samples.take(i));
        assert(samples.take(i + 1).last() == samples[i]);
    }
}

proof fn lemma_batch_take_snoc_total(samples: Seq<Sample>, i: int)
    requires
        0 <= i < samples.len(),
    ensures
        batch_weight(samples.take(i + 1)) == batch_weight(samples.take(i)) + sample_weight(
            samples[i],
        ),
{
    lemma_batch_weight_last(samples.take(i + 1));
    assert(samples.take(i + 1).drop_last() =~= samples.take(i));
    assert(samples.take(i + 1).last() == samples[i]);
}

proof fn lemma_batch_weight_last(samples: Seq<Sample>)
    requires
        samples.len() > 0,
    ensures
        batch_weight(samples) == batch_weight(samples.drop_last()) + sample_weight(samples.last()),
    decreases samples.len(),
{
    if samples.len() == 1 {
        assert(samples.drop_last() =~= Seq::empty());
        assert(samples.drop_first() =~= Seq::empty());
    } else {
        lemma_batch_weight_last(samples.drop_first());
        assert(samples.drop_first().drop_last() =~= samples.drop_last().drop_first());
        assert(samples.drop_first().last() == samples.last());
        assert(samples.drop_last()[0] == samples[0]);
        assert(samples.drop_last().len() > 0);
    }
}

proof fn lemma_added_weight_snoc(samples: Seq<Sample>, n: Seq<char>)
    requires
        samples.len() > 0,
    ensures
        added_weight(samples, n) == added_weight(samples.drop_last(), n) + (
        if n == sample_name(samples.last()) {
            sample_weight(samples.last())
        } else {
            0
        }),
    decreases samples.len(),
{
    if samples.len() == 1 {
        assert(samples.drop_last() =~= Seq::empty());
        assert(samples.drop_first() =~= Seq::empty());
    } else {
        lemma_added_weight_snoc(samples.drop_first(), n);
        assert(samples.drop_first().drop_last() =~= samples.drop_last().drop_first());
        assert(samples.drop_first().last() == samples.last());
        assert(samples.drop_last()[0] == samples[0]);
        assert(samples.drop_last().len() > 0);
    }
}

/// `weight_of` reads through any position that holds the name, as long as
/// names are unique.
proof fn lemma_weight_of_witness(rs: Seq<Rule>, n: Seq<char>, i: int)
    requires
        0 <= i < rs.len(),
        rs[i].name@ == n,
        distinct_names(rs),
    ensures
        weight_of(rs, n) == rs[i].weight,
{
    assert(has_named(rs, n));
    let j = choose|j: int| 0 <= j < rs.len() && rs[j].name@ == n;
    if i < j {
        assert(rs[i].name@ != rs[j].name@);
    } else if j < i {
        assert(rs[j].name@ != rs[i].name@);
    }
}

/// Appending an entry of a fresh word adds exactly that word's weight.
proof fn lemma_weight_of_append(pre: Seq<Rule>, post: Seq<Rule>, named: Seq<char>)
    requires
        distinct_names(pre),
        !has_named(pre, named),
        post == pre.push(post.last()),
        post.len() == pre.len() + 1,
        post.last().name@ == named,
    ensures
        distinct_names(post),
        forall|n: Seq<char>|
            weight_of(post, n) == weight_of(pre, n) + (if n == named {
                post.last().weight as int
            } else {
                0
            }),
{
    assert forall|x: int, y: int| 0 <= x < y < post.len() implies post[x].name@ != post[y].name@ by {
        if y == pre.len() as int {
            assert(post[x] == pre[x]);
        } else {
            assert(post[x] == pre[x]);
            assert(post[y] == pre[y]);
        }
    }
    assert forall|n: Seq<char>|
        weight_of(post, n) == weight_of(pre, n) + (if n == named {
            post.last().weight as int
        } else {
            0
        }) by {
        if n == named {
            lemma_weight_of_witness(post, n, pre.len() as int);
        } else {
            if has_named(pre, n) {
                let i = choose|i: int| 0 <= i < pre.len() && pre[i].name@ == n;
                lemma_weight_of_witness(pre, n, i);
                assert(post[i] == pre[i]);
                lemma_weight_of_witness(post, n, i);
            } else {
                assert(!has_named(post, n)) by {
                    if has_named(post, n) {
                        let i = choose|i: int| 0 <= i < post.len() && post[i].name@ == n;
                        assert(i < pre.len());
                        assert(pre[i].name@ == n);
                    }
                }
            }
        }
    }
}

/// Raising one entry's weight in place changes only that word's weight.
proof fn lemma_weight_of_update_weight(pre: Seq<Rule>, i: int, r2: Rule)
    requires
        distinct_names(pre),
        0 <= i < pre.len(),
        r2.name@ == pre[i].name@,
    ensures
        distinct_names(pre.update(i, r2)),
        forall|n: Seq<char>|
            weight_of(pre.update(i, r2), n) == weight_of(pre, n) + (if n == pre[i].name@ {
                r2.weight - pre[i].weight
            } else {
                0
            }),
{
    let post = pre.update(i, r2);
    assert forall|x: int, y: int| 0 <= x < y < post.len() implies post[x].name@ != post[y].name@ by {
        assert(post[x].name@ == pre[x].name@);
        assert(post[y].name@ == pre[y].name@);
    }
    assert forall|n: Seq<char>|
        weight_of(post, n) == weight_of(pre, n) + (if n == pre[i].name@ {
            r2.weight - pre[i].weight
        } else {
            0
        }) by {
        if n == pre[i].name@ {
            lemma_weight_of_witness(pre, n, i);
            lemma_weight_of_witness(post, n, i);
        } else {
            if has_named(pre, n) {
                let j = choose|j: int| 0 <= j < pre.len() && pre[j].name@ == n;
                assert(j != i);
                lemma_weight_of_witness(pre, n, j);
                assert(post[j].name@ == n);
                lemma_weight_of_witness(post, n, j);
            } else {
                assert(!has_named(post, n)) by {
                    if has_named(post, n) {
                        let j = choose|j: int| 0 <= j < post.len() && post[j].name@ == n;
                        assert(j != i);
                        assert(pre[j].name@ == n);
                    }
                }
            }
        }
    }
}

/// Swapping two positions changes no word's weight.
proof fn lemma_weight_of_swap(s: Seq<Rule>, i: int, j: int)
    requires
        distinct_names(s),
        0 <= i < j < s.len(),
    ensures
        distinct_names(s.update(i, s[j]).update(j, s[i])),
        forall|n: Seq<char>| weight_of(s.update(i, s[j]).update(j, s[i]), n) == weight_of(s, n),
{
    let post = s.update(i, s[j]).update(j, s[i]);
    assert forall|x: int, y: int| 0 <= x < y < post.len() implies post[x].name@ != post[y].name@ by {
        let px = if x == i {
            j
        } else if x == j {
            i
        } else {
            x
        };
        let py = if y == i {
            j
        } else if y == j {
            i
        } else {
            y
        };
        assert(post[x] == s[px]);
        assert(post[y] == s[py]);
        if px < py {
            assert(s[px].name@ != s[py].name@);
        } else {
            assert(s[py].name@ != s[px].name@);
        }
    }
    assert forall|n: Seq<char>| weight_of(post, n) == weight_of(s, n) by {
        if has_named(s, n) {
            let k = choose|k: int| 0 <= k < s.len() && s[k].name@ == n;
            lemma_weight_of_witness(s, n, k);
            let pk = if k == i {
                j
            } else if k == j {
                i
            } else {
                k
            };
            assert(post[pk] == s[k]);
            lemma_weight_of_witness(post, n, pk);
        } else {
            assert(!has_named(post, n)) by {
                if has_named(post, n) {
                    let k = choose|k: int| 0 <= k < post.len() && post[k].name@ == n;
                    let pk = if k == i {
                        j
                    } else if k == j {
                        i
                    } else {
                        k
                    };
                    assert(s[pk] == post[k]);
                }
            }
        }
    }
}

proof fn lemma_mul_le(a: int, b: int, c: int)
    requires
        0 <= a <= b,
        0 <= c,
    ensures
        a * c <= b * c,
{
    broadcast use vstd::arithmetic::mul::lemma_mul_inequality;

}

} // verus!
