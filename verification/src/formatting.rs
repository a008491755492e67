use vstd::prelude::*;
use crate::base::WorkingSet;

verus! {

/// A post-processing rule applied to a generated part: capitalization
/// first, then character replacement and removal.
#[derive(Eq, PartialEq, Clone, Copy, Debug)]
pub enum FormattingRule {
    CapitalizeFirst,
    CapitalizeDefault,
    CapitalizeAfter(char),
    RemoveChar(char),
    ReplaceChar { from: char, to: char },
}

/// The uppercase expansion of one character. One character may expand to
/// several.
pub uninterp spec fn upper_of(c: char) -> Seq<char>;

/// Relies on std's `char::to_uppercase`: its result depends on the
/// character alone and holds at least one character.
#[verifier::external_body]
fn to_upper_chars(c: char) -> (r: Vec<char>)
    ensures
        r@ == upper_of(c),
        r@.len() >= 1,
{
    c.to_uppercase().collect()
}

/// The sequence with the character at `offset` replaced by its uppercase
/// expansion.
pub open spec fn capitalized_at(v: Seq<char>, offset: int) -> Seq<char> {
    v.take(offset) + upper_of(v[offset]) + v.skip(offset + 1)
}

/// The width a capitalization step advances by: the expansion length, and
/// at least one position.
pub open spec fn upper_step(c: char) -> int {
    if upper_of(c).len() >= 1 {
        upper_of(c).len() as int
    } else {
        1
    }
}

/// Every position from `i` on capitalized, left to right, skipping the
/// characters an expansion inserted.
pub open spec fn cap_all_from(v: Seq<char>, i: int) -> Seq<char>
    decreases (if i < v.len() {
        v.len() - i
    } else {
        0
    }),
{
    if i < 0 || i >= v.len() {
        v
    } else {
        cap_all_from(capitalized_at(v, i), i + upper_step(v[i]))
    }
}

/// Every position whose predecessor holds `ch` capitalized, left to right.
pub open spec fn cap_after_from(v: Seq<char>, ch: char, i: int) -> Seq<char>
    decreases (if i < v.len() {
        v.len() - i
    } else {
        0
    }),
{
    if i < 1 || i >= v.len() {
        v
    } else if v[i - 1] == ch {
        cap_after_from(capitalized_at(v, i), ch, i + upper_step(v[i]))
    } else {
        cap_after_from(v, ch, i + 1)
    }
}

/// Every `from` replaced by `to`.
pub open spec fn replace_char(v: Seq<char>, from: char, to: char) -> Seq<char> {
    v.map_values(
        |c: char|
            if c == from {
                to
            } else {
                c
            },
    )
}

/// Every `ch` removed.
pub open spec fn remove_char(v: Seq<char>, ch: char) -> Seq<char>
    decreases v.len(),
{
    if v.len() == 0 {
        Seq::empty()
    } else {
        (if v[0] == ch {
            Seq::empty()
        } else {
            seq![v[0]]
        }) + remove_char(v.drop_first(), ch)
    }
}

/// One step of the capitalization pass: the new text and whether the first
/// character has been capitalized by now.
pub open spec fn caps_rule(v: Seq<char>, capped: bool, rule: FormattingRule) -> (Seq<char>, bool) {
    match rule {
        FormattingRule::CapitalizeFirst => (capitalized_at(v, 0), true),
        FormattingRule::CapitalizeDefault => (
            cap_all_from(
                v,
                if capped {
                    1int
                } else {
                    0
                },
            ),
            capped,
        ),
        FormattingRule::CapitalizeAfter(ch) => (cap_after_from(v, ch, 1), capped),
        _ => (v, capped),
    }
}

/// The capitalization pass over the rules from `i` on.
pub open spec fn caps_pass(v: Seq<char>, capped: bool, rules: Seq<FormattingRule>, i: int) -> Seq<
    char,
>
    decreases rules.len() - i,
{
    if i < 0 || i >= rules.len() {
        v
    } else {
        caps_pass(caps_rule(v, capped, rules[i]).0, caps_rule(v, capped, rules[i]).1, rules, i + 1)
    }
}

/// One step of the replacement pass.
pub open spec fn last_rule(v: Seq<char>, rule: FormattingRule) -> Seq<char> {
    match rule {
        FormattingRule::ReplaceChar { from, to } => replace_char(v, from, to),
        FormattingRule::RemoveChar(ch) => remove_char(v, ch),
        _ => v,
    }
}

/// The replacement pass over the rules from `i` on.
pub open spec fn last_pass(v: Seq<char>, rules: Seq<FormattingRule>, i: int) -> Seq<char>
    decreases rules.len() - i,
{
    if i < 0 || i >= rules.len() {
        v
    } else {
        last_pass(last_rule(v, rules[i]), rules, i + 1)
    }
}

/// What formatting a text with a rule list yields: the capitalization
/// rules applied in order, then the replacement and removal rules in
/// order. An empty text or an empty rule list is left as it is.
pub open spec fn formatted(v: Seq<char>, rules: Seq<FormattingRule>) -> Seq<char> {
    if v.len() == 0 || rules.len() == 0 {
        v
    } else {
        last_pass(caps_pass(v, false, rules, 0), rules, 0)
    }
}

/// Replace the character at `offset` by its uppercase expansion, in place.
/// Returns how many extra characters the expansion inserted.
pub fn capitalize(v: &mut Vec<char>, offset: usize) -> (extra: usize)
    requires
        offset < old(v)@.len(),
    ensures
        final(v)@ == capitalized_at(old(v)@, offset as int),
        extra == upper_step(old(v)@[offset as int]) - 1,
        final(v)@.len() == old(v)@.len() + extra,
{
    let ghost v0 = v@;
    let c = v[offset];
    let ups = to_upper_chars(c);
    let n_ups = ups.len();
    v.set(offset, ups[0]);
    proof {
        assert(v@ =~= v0.take(offset as int) + ups@.take(1) + v0.skip(offset as int + 1));
    }
    let mut k: usize = 1;
    while k < n_ups
        invariant
            1 <= k <= n_ups == ups@.len(),
            ups@ == upper_of(v0[offset as int]),
            offset < v0.len(),
            v@ == v0.take(offset as int) + ups@.take(k as int) + v0.skip(offset as int + 1),
        decreases n_ups - k,
    {
        let nl = v.len();
        proof {
            assert(nl == v0.len() + k - 1);
            assert(offset + k <= nl);
        }
        v.insert(offset + k, ups[k]);
        proof {
            assert(v@ =~= v0.take(offset as int) + ups@.take(k as int + 1) + v0.skip(
                offset as int + 1,
            ));
        }
        k = k + 1;
    }
    proof {
        assert(v@ =~= v0.take(offset as int) + ups@ + v0.skip(offset as int + 1)) by {
            assert(ups@.take(n_ups as int) =~= ups@);
        }
    }
    n_ups - 1
}

/// Format the text in place: capitalization rules first, then replacement
/// and removal rules.
pub fn format_vec(v: &mut Vec<char>, rules: &[FormattingRule])
    ensures
        final(v)@ == formatted(old(v)@, rules@),
{
    if v.len() == 0 || rules.len() == 0 {
        return ;
    }
    let ghost v0 = v@;
    let n_rules = rules.len();
    let mut capitalized_first = false;
    let mut ri: usize = 0;
    while ri < n_rules
        invariant
            ri <= n_rules == rules@.len(),
            v@.len() >= v0.len() > 0,
            caps_pass(v@, capitalized_first, rules@, ri as int) == caps_pass(v0, false, rules@, 0),
        decreases n_rules - ri,
    {
        match rules[ri] {
            FormattingRule::CapitalizeFirst => {
                capitalize(v, 0);
                capitalized_first = true;
            },
            FormattingRule::CapitalizeDefault => {
                let mut i: usize = if capitalized_first {
                    1
                } else {
                    0
                };
                let ghost vin = v@;
                let ghost iin = i as int;
                while i < v.len()
                    invariant
                        v@.len() >= v0.len(),
                        cap_all_from(v@, i as int) == cap_all_from(vin, iin),
                    decreases v@.len() - i,
                {
                    let extra = capitalize(v, i);
                    let nl = v.len();
                    proof {
                        assert(i + 1 + extra <= nl);
                    }
                    i = i + 1 + extra;
                }
            },
            FormattingRule::CapitalizeAfter(ch) => {
                let mut i: usize = 1;
                let ghost vin = v@;
                while i < v.len()
                    invariant
                        i >= 1,
                        v@.len() >= v0.len(),
                        cap_after_from(v@, ch, i as int) == cap_after_from(vin, ch, 1),
                    decreases v@.len() - i,
                {
                    if v[i - 1] == ch {
                        let extra = capitalize(v, i);
                        let nl = v.len();
                        proof {
                            assert(i + 1 + extra <= nl);
                        }
                        i = i + 1 + extra;
                    } else {
                        i = i + 1;
                    }
                }
            },
            _ => {},
        }
        ri = ri + 1;
    }
    let ghost vmid = v@;
    let mut ri2: usize = 0;
    while ri2 < n_rules
        invariant
            ri2 <= n_rules == rules@.len(),
            last_pass(v@, rules@, ri2 as int) == last_pass(vmid, rules@, 0),
        decreases n_rules - ri2,
    {
        match rules[ri2] {
            FormattingRule::ReplaceChar { from, to } => {
                let ghost vin = v@;
                let n_now = v.len();
                let mut i: usize = 0;
                while i < n_now
                    invariant
                        i <= n_now == v@.len() == vin.len(),
                        forall|j: int| i <= j < vin.len() ==> v@[j] == vin[j],
                        forall|j: int|
                            0 <= j < i ==> v@[j] == (if vin[j] == from {
                                to
                            } else {
                                vin[j]
                            }),
                    decreases n_now - i,
                {
                    if v[i] == from {
                        v.set(i, to);
                    }
                    i = i + 1;
                }
                proof {
                    assert(v@ =~= replace_char(vin, from, to));
                }
            },
            FormattingRule::RemoveChar(ch) => {
                let ghost vin = v@;
                let mut i: usize = 0;
                let ghost j: int = 0;
                while i < v.len()
                    invariant
                        0 <= j <= vin.len(),
                        i == remove_char(vin.take(j), ch).len(),
                        v@ == remove_char(vin.take(j), ch) + vin.skip(j),
                        i <= v@.len(),
                    decreases vin.len() - j,
                {
                    proof {
                        assert(j < vin.len()) by {
                            if j == vin.len() {
                                assert(vin.skip(j) =~= Seq::empty());
                            }
                        }
                        assert(v@[i as int] == vin[j]);
                        lemma_remove_char_snoc(vin, j, ch);
                        assert(vin.take(j + 1).drop_last() =~= vin.take(j));
                    }
                    if v[i] == ch {
                        v.remove(i);
                        proof {
                            assert(v@ =~= remove_char(vin.take(j + 1), ch) + vin.skip(j + 1));
                        }
                    } else {
                        proof {
                            assert(v@ =~= remove_char(vin.take(j + 1), ch) + vin.skip(j + 1));
                        }
                        i = i + 1;
                    }
                    proof {
                        j = j + 1;
                    }
                }
                proof {
                    assert(vin.take(j) =~= vin) by {
                        if j < vin.len() {
                            assert(v@.len() == i + (vin.len() - j));
                        }
                    }
                    assert(v@ =~= remove_char(vin, ch)) by {
                        assert(vin.skip(vin.len() as int) =~= Seq::empty());
                    }
                }
            },
            _ => {},
        }
        ri2 = ri2 + 1;
    }
}

/// Format a borrowed text, returning a fresh string.
pub fn format_string(s: &str, rules: &[FormattingRule]) -> (r: String)
    ensures
        r@ == formatted(s@, rules@),
{
    let mut chars = str_to_chars(s);
    format_vec(&mut chars, rules);
    string_from_chars(&chars)
}

/// Format the rendered output of a working set in place.
pub fn format_ws(ws: &mut WorkingSet, rules: &[FormattingRule])
    ensures
        final(ws).result_str@ == formatted(old(ws).result_str@, rules@),
        final(ws).result_chars@ == formatted(old(ws).result_str@, rules@),
        final(ws).result == old(ws).result,
        final(ws).result_total == old(ws).result_total,
        final(ws).stack == old(ws).stack,
        final(ws).stack_pos == old(ws).stack_pos,
        final(ws).stack_weight == old(ws).stack_weight,
        final(ws).subtokens == old(ws).subtokens,
{
    let chars = str_to_chars(ws.result_str.as_str());
    ws.result_chars = chars;
    format_vec(&mut ws.result_chars, rules);
    ws.result_str = string_from_chars(&ws.result_chars);
}

/// The characters of a borrowed text, one by one.
pub fn str_to_chars(s: &str) -> (v: Vec<char>)
    ensures
        v@ == s@,
{
    let n = s.unicode_len();
    let mut v: Vec<char> = Vec::new();
    let mut i: usize = 0;
    while i < n
        invariant
            i <= n == s@.len(),
            v@ == s@.take(i as int),
        decreases n - i,
    {
        v.push(s.get_char(i));
        proof {
            assert(v@ =~= s@.take(i as int + 1));
        }
        i = i + 1;
    }
    proof {
        assert(s@.take(n as int) =~= s@);
    }
    v
}

/// Relies on std's `FromIterator` for `String` over characters: the string
/// of exactly these characters.
#[verifier::external_body]
pub(crate) fn string_from_chars(v: &Vec<char>) -> (s: String)
    ensures
        s@ == v@,
{
    v.iter().collect()
}

proof fn lemma_remove_char_snoc(v: Seq<char>, j: int, ch: char)
    requires
        0 <= j < v.len(),
    ensures
        remove_char(v.take(j + 1), ch) == remove_char(v.take(j), ch) + (if v[j] == ch {
            Seq::<char>::empty()
        } else {
            seq![v[j]]
        }),
{
    lemma_remove_char_last(v.take(j + 1), ch);
    assert(v.take(j + 1).drop_last() =~= v.take(j));
    assert(v.take(j + 1).last() == v[j]);
}

proof fn lemma_remove_char_last(v: Seq<char>, ch: char)
    requires
        v.len() > 0,
    ensures
        remove_char(v, ch) == remove_char(v.drop_last(), ch) + (if v.last() == ch {
            Seq::<char>::empty()
        } else {
            seq![v.last()]
        }),
    decreases v.len(),
{
    if v.len() == 1 {
        assert(v.drop_last() =~= Seq::empty());
        assert(v.drop_first() =~= Seq::empty());
        assert(remove_char(v, ch) =~= (if v[0] == ch {
            Seq::<char>::empty()
        } else {
            seq![v[0]]
        }));
    } else {
        lemma_remove_char_last(v.drop_first(), ch);
        assert(v.drop_first().drop_last() =~= v.drop_last().drop_first());
        assert(v.drop_first().last() == v.last());
        assert(v.drop_last()[0] == v[0]);
        assert(v.drop_last().len() > 0);
        assert(remove_char(v, ch) =~= remove_char(v.drop_last(), ch) + (if v.last() == ch {
            Seq::<char>::empty()
        } else {
            seq![v.last()]
        }));
    }
}

} // verus!
