use vstd::prelude::*;
use crate::base::{LearnError, ValidationError, WorkingSet};
use crate::formatting::{str_to_chars, string_from_chars};
use crate::part::{generator_learn_post, NamePart};
use crate::rng::Prng;
use crate::sample::SampleSet;

verus! {

/// One piece of a format: literal text, a part to generate, another
/// format to expand, or a uniform choice among alternatives.
pub enum FormatPart {
    Text(String),
    Part(usize),
    Format(usize),
    Random(Vec<FormatPart>),
}

/// A named format: the pieces that make up one full name.
pub struct NameFormat {
    pub name: String,
    pub parts: Vec<FormatPart>,
}

impl NameFormat {
    pub fn name(&self) -> (r: &str)
        ensures
            r@ == self.name@,
    {
        self.name.as_str()
    }
}

/// A piece that stands on its own: no nested choice.
pub open spec fn fp_plain_ok(fp: FormatPart, n_parts: int, fmt_bound: int) -> bool {
    match fp {
        FormatPart::Text(_) => true,
        FormatPart::Part(p) => p < n_parts,
        FormatPart::Format(f) => f < fmt_bound,
        FormatPart::Random(_) => false,
    }
}

/// A well-formed piece: references stay in range, a choice list is
/// nonempty and holds only plain pieces, and a format reference points
/// strictly backwards (`fmt_bound` is the index of the format that holds
/// the piece).
pub open spec fn fp_ok(fp: FormatPart, n_parts: int, fmt_bound: int) -> bool {
    match fp {
        FormatPart::Text(_) => true,
        FormatPart::Part(p) => p < n_parts,
        FormatPart::Format(f) => f < fmt_bound,
        FormatPart::Random(list) => list@.len() >= 1 && forall|k: int|
            0 <= k < list@.len() ==> fp_plain_ok(#[trigger] list@[k], n_parts, fmt_bound),
    }
}

/// The piece checks `validate` performs: as `fp_ok`, but a format may
/// reference any format of the list, later ones included.
pub open spec fn fp_valid(fp: FormatPart, n_parts: int, n_formats: int) -> bool {
    match fp {
        FormatPart::Text(_) => true,
        FormatPart::Part(p) => p < n_parts,
        FormatPart::Format(f) => f < n_formats,
        FormatPart::Random(list) => forall|k: int|
            0 <= k < list@.len() ==> fp_plain_ok(#[trigger] list@[k], n_parts, n_formats),
    }
}

/// The composed generator: named parts and the formats that assemble
/// them.
pub struct Name {
    pub parts: Vec<NamePart>,
    pub formats: Vec<NameFormat>,
}

/// The first part carrying this name, or the length of the list.
pub open spec fn part_key_index(parts: Seq<NamePart>, name: Seq<char>) -> int
    decreases parts.len(),
{
    if parts.len() == 0 {
        0
    } else if parts[0].name@ == name {
        0
    } else {
        1 + part_key_index(parts.drop_first(), name)
    }
}

/// `post` begins with all of `pre`, in order.
pub open spec fn chars_extended(pre: Seq<char>, post: Seq<char>) -> bool {
    pre.len() <= post.len() && post.subrange(0, pre.len() as int) == pre
}

impl Name {
    /// The composed invariant: every part's engine is well formed and
    /// every format references existing parts and strictly earlier
    /// formats.
    pub open spec fn wf(self) -> bool {
        &&& forall|j: int| 0 <= j < self.parts@.len() ==> (#[trigger] self.parts@[j]).wf()
        &&& forall|i: int, k: int|
            0 <= i < self.formats@.len() && 0 <= k < self.formats@[i].parts@.len() ==> fp_ok(
                #[trigger] self.formats@[i].parts@[k],
                self.parts@.len() as int,
                i,
            )
    }

    /// The checks `validate` performs, as a predicate.
    pub open spec fn validate_ok(self) -> bool {
        &&& forall|j: int|
            0 <= j < self.parts@.len() ==> (#[trigger] self.parts@[j]).generator.validate_ok()
        &&& forall|i: int, k: int|
            0 <= i < self.formats@.len() && 0 <= k < self.formats@[i].parts@.len() ==> fp_valid(
                #[trigger] self.formats@[i].parts@[k],
                self.parts@.len() as int,
                self.formats@.len() as int,
            )
    }

    /// A well-formed generator passes every check of `validate`.
    pub proof fn lemma_wf_validates(self)
        requires
            self.wf(),
        ensures
            self.validate_ok(),
    {
        assert forall|j: int|
            0 <= j < self.parts@.len() implies (
        #[trigger] self.parts@[j]).generator.validate_ok() by {
            self.parts@[j].generator.lemma_wf_validates();
        }
        assert forall|i: int, k: int|
            0 <= i < self.formats@.len() && 0 <= k < self.formats@[i].parts@.len() implies fp_valid(
            #[trigger] self.formats@[i].parts@[k],
            self.parts@.len() as int,
            self.formats@.len() as int,
        ) by {
            assert(fp_ok(self.formats@[i].parts@[k], self.parts@.len() as int, i));
            match self.formats@[i].parts@[k] {
                FormatPart::Random(list) => {
                    assert forall|k2: int|
                        0 <= k2 < list@.len() implies fp_plain_ok(
                        #[trigger] list@[k2],
                        self.parts@.len() as int,
                        self.formats@.len() as int,
                    ) by {
                        assert(fp_plain_ok(list@[k2], self.parts@.len() as int, i));
                    }
                },
                _ => {},
            }
        }
    }

    pub fn new() -> (r: Name)
        ensures
            r.wf(),
            r.parts@.len() == 0,
            r.formats@.len() == 0,
    {
        Name { parts: Vec::new(), formats: Vec::new() }
    }

    /// Add a part. Formats may refer to it from then on.
    pub fn add_part(&mut self, part: NamePart)
        requires
            old(self).wf(),
            part.wf(),
        ensures
            final(self).wf(),
            final(self).parts@ == old(self).parts@.push(part),
            final(self).formats == old(self).formats,
    {
        self.parts.push(part);
        proof {
            assert forall|i: int, k: int|
                0 <= i < self.formats@.len() && 0 <= k < self.formats@[i].parts@.len() implies fp_ok(
                #[trigger] self.formats@[i].parts@[k],
                self.parts@.len() as int,
                i,
            ) by {
                assert(fp_ok(self.formats@[i].parts@[k], old(self).parts@.len() as int, i));
                match self.formats@[i].parts@[k] {
                    FormatPart::Random(list) => {
                        assert forall|k2: int|
                            0 <= k2 < list@.len() implies fp_plain_ok(
                            #[trigger] list@[k2],
                            self.parts@.len() as int,
                            i,
                        ) by {
                            assert(fp_plain_ok(list@[k2], old(self).parts@.len() as int, i));
                        }
                    },
                    _ => {},
                }
            }
        }
    }

    /// Learn a set with the named part. An unknown part name is reported;
    /// otherwise the named part's engine steps by its own full learn
    /// contract and its outcome is returned.
    pub fn learn(&mut self, part_name: &str, sample_set: &SampleSet) -> (r: Result<
        (),
        LearnError,
    >)
        requires
            old(self).wf(),
            forall|j: int|
                0 <= j < old(self).parts@.len() && (#[trigger] old(self).parts@[j]).name@
                    == part_name@ ==> old(self).parts@[j].generator.learn_room(*sample_set),
        ensures
            final(self).wf(),
            final(self).formats == old(self).formats,
            final(self).parts@.len() == old(self).parts@.len(),
            ({
                let fi = part_key_index(old(self).parts@, part_name@);
                if fi < old(self).parts@.len() {
                    &&& (r.is_ok() <==> old(self).parts@[fi].generator.learn_ok(*sample_set))
                    &&& forall|j: int|
                        0 <= j < old(self).parts@.len() && j != fi ==> final(self).parts@[j]
                            == old(self).parts@[j]
                    &&& final(self).parts@[fi].name == old(self).parts@[fi].name
                    &&& generator_learn_post(
                        old(self).parts@[fi].generator,
                        final(self).parts@[fi].generator,
                        *sample_set,
                        r,
                    )
                } else {
                    &&& r is Err
                    &&& r->Err_0.code == 100
                    &&& r->Err_0.desc@ == "Part "@ + part_name@ + " not found"@
                    &&& r->Err_0.sample is None
                    &&& *final(self) == *old(self)
                }
            }),
    {
        let n_parts = self.parts.len();
        let mut j: usize = 0;
        loop
            invariant_except_break
                j <= n_parts,
                forall|j2: int| 0 <= j2 < j ==> (#[trigger] self.parts@[j2]).name@ != part_name@,
            invariant
                n_parts == self.parts@.len(),
                *self == *old(self),
            ensures
                j as int == part_key_index(self.parts@, part_name@),
                j < n_parts ==> self.parts@[j as int].name@ == part_name@,
            decreases n_parts - j,
        {
            if j >= n_parts {
                proof {
                    lemma_part_key_from_scan(self.parts@, part_name@, j as int);
                }
                break ;
            }
            if str_eq_string(&self.parts[j].name, part_name) {
                proof {
                    lemma_part_key_from_scan(self.parts@, part_name@, j as int);
                }
                break ;
            }
            j = j + 1;
        }
        if j >= n_parts {
            let mut desc = String::from_str("Part ");
            crate::markov::string_append(&mut desc, part_name);
            crate::markov::string_append(&mut desc, " not found");
            proof {
                assert(desc@ =~= "Part "@ + part_name@ + " not found"@);
            }
            return Err(LearnError::new(100, desc, None));
        }
        let r = learn_part_at(&mut self.parts, j, sample_set);
        proof {
            assert forall|j2: int|
                0 <= j2 < self.parts@.len() implies (#[trigger] self.parts@[j2]).wf() by {
                if j2 != j as int {
                    assert(self.parts@[j2] == old(self).parts@[j2]);
                }
            }
        }
        r
    }

    /// Parse a format string and append it as a new named format. Inside
    /// braces, alternatives are separated by bars: a leading `=` makes
    /// the alternative literal text, a leading `:` refers to an earlier
    /// format, anything else names a part. Unmatched references vanish; a
    /// brace group nothing matched is kept as literal text.
    pub fn add_format(&mut self, name: &str, source: &str)
        requires
            old(self).wf(),
        ensures
            final(self).wf(),
            final(self).parts == old(self).parts,
            final(self).formats@.len() == old(self).formats@.len() + 1,
            forall|i: int|
                0 <= i < old(self).formats@.len() ==> final(self).formats@[i] == old(
                    self,
                ).formats@[i],
            final(self).formats@[old(self).formats@.len() as int].name@ == name@,
    {
        let chars = str_to_chars(source);
        let n = chars.len();
        let n_parts_now = self.parts.len();
        let n_formats_now = self.formats.len();
        let mut built: Vec<FormatPart> = Vec::new();
        let mut pos: usize = 0;
        while pos < n
            invariant
                n == chars@.len(),
                n_parts_now == self.parts@.len(),
                n_formats_now == self.formats@.len(),
                *self == *old(self),
                forall|k: int|
                    0 <= k < built@.len() ==> fp_ok(
                        #[trigger] built@[k],
                        n_parts_now as int,
                        n_formats_now as int,
                    ),
            decreases n - pos,
        {
            let (start, end) = next_bracket(&chars, pos);
            if start > pos {
                let text = chars_to_string_range(&chars, pos, start);
                built.push(FormatPart::Text(text));
            }
            if start == end {
                // no further bracket group: the rest was taken as text
                break ;
            }
            let mut subparts: Vec<FormatPart> = Vec::new();
            let mut a = start + 1;
            while a <= end
                invariant
                    n == chars@.len(),
                    n_parts_now == self.parts@.len(),
                    n_formats_now == self.formats@.len(),
                    *self == *old(self),
                    start < end < n,
                    start + 1 <= a <= end + 1,
                    forall|k: int|
                        0 <= k < subparts@.len() ==> fp_plain_ok(
                            #[trigger] subparts@[k],
                            n_parts_now as int,
                            n_formats_now as int,
                        ),
                decreases end + 1 - a,
            {
                // the current alternative runs to the next bar or the
                // closing brace
                let mut b = a;
                while b < end
                    invariant
                        a <= b <= end < n == chars@.len(),
                    decreases end - b,
                {
                    if chars[b] == '|' {
                        break ;
                    }
                    b = b + 1;
                }
                if a < b && chars[a] == '=' {
                    let text = chars_to_string_range(&chars, a + 1, b);
                    subparts.push(FormatPart::Text(text));
                } else if a < b && chars[a] == ':' {
                    let mut fi: usize = 0;
                    while fi < n_formats_now
                        invariant
                            n == chars@.len(),
                            n_formats_now == self.formats@.len(),
                            fi <= n_formats_now,
                            a < b <= end < n,
                            *self == *old(self),
                            forall|k: int|
                                0 <= k < subparts@.len() ==> fp_plain_ok(
                                    #[trigger] subparts@[k],
                                    n_parts_now as int,
                                    n_formats_now as int,
                                ),
                        decreases n_formats_now - fi,
                    {
                        if string_matches_range(&self.formats[fi].name, &chars, a + 1, b) {
                            subparts.push(FormatPart::Format(fi));
                        }
                        fi = fi + 1;
                    }
                } else {
                    let mut pi: usize = 0;
                    while pi < n_parts_now
                        invariant
                            n == chars@.len(),
                            n_parts_now == self.parts@.len(),
                            pi <= n_parts_now,
                            a <= b <= end < n,
                            *self == *old(self),
                            forall|k: int|
                                0 <= k < subparts@.len() ==> fp_plain_ok(
                                    #[trigger] subparts@[k],
                                    n_parts_now as int,
                                    n_formats_now as int,
                                ),
                        decreases n_parts_now - pi,
                    {
                        if string_matches_range(&self.parts[pi].name, &chars, a, b) {
                            subparts.push(FormatPart::Part(pi));
                        }
                        pi = pi + 1;
                    }
                }
                a = b + 1;
            }
            if subparts.len() > 1 {
                built.push(FormatPart::Random(subparts));
            } else if subparts.len() == 1 {
                let single = subparts.pop();
                match single {
                    Some(fp) => {
                        built.push(fp);
                    },
                    None => {},
                }
            } else {
                let text = chars_to_string_range(&chars, start, end + 1);
                built.push(FormatPart::Text(text));
            }
            pos = end + 1;
        }
        self.formats.push(NameFormat { name: name.to_owned(), parts: built });
        proof {
            assert forall|i: int, k: int|
                0 <= i < self.formats@.len() && 0 <= k < self.formats@[i].parts@.len() implies fp_ok(
                #[trigger] self.formats@[i].parts@[k],
                self.parts@.len() as int,
                i,
            ) by {
                if i < old(self).formats@.len() {
                    assert(self.formats@[i] == old(self).formats@[i]);
                    assert(fp_ok(old(self).formats@[i].parts@[k], self.parts@.len() as int, i));
                }
            }
        }
    }

    /// The name of the first format, if any format exists.
    pub fn first_format_name(&self) -> (r: Option<&str>)
        ensures
            match r {
                Some(s) => self.formats@.len() > 0 && s@ == self.formats@[0].name@,
                None => self.formats@.len() == 0,
            },
    {
        if self.formats.len() > 0 {
            Some(self.formats[0].name.as_str())
        } else {
            None
        }
    }

    /// The parts, in the order they were added.
    pub fn parts(&self) -> (r: &[NamePart])
        ensures
            r@ == self.parts@,
    {
        self.parts.as_slice()
    }

    /// The formats, in the order they were added.
    pub fn formats(&self) -> (r: &[NameFormat])
        ensures
            r@ == self.formats@,
    {
        self.formats.as_slice()
    }

    /// Whether some part carries this name.
    pub fn has_part_name(&self, name: &str) -> (r: bool)
        ensures
            r == exists|j: int|
                0 <= j < self.parts@.len() && (#[trigger] self.parts@[j]).name@ == name@,
    {
        let n = self.parts.len();
        let mut j: usize = 0;
        while j < n
            invariant
                j <= n == self.parts@.len(),
                forall|j2: int| 0 <= j2 < j ==> (#[trigger] self.parts@[j2]).name@ != name@,
            decreases n - j,
        {
            if str_eq_string(&self.parts[j].name, name) {
                return true;
            }
            j = j + 1;
        }
        false
    }

    /// Whether some format carries this name.
    pub fn has_format_name(&self, name: &str) -> (r: bool)
        ensures
            r == exists|i: int|
                0 <= i < self.formats@.len() && (#[trigger] self.formats@[i]).name@ == name@,
    {
        let n = self.formats.len();
        let mut i: usize = 0;
        while i < n
            invariant
                i <= n == self.formats@.len(),
                forall|i2: int| 0 <= i2 < i ==> (#[trigger] self.formats@[i2]).name@ != name@,
            decreases n - i,
        {
            if str_eq_string(&self.formats[i].name, name) {
                return true;
            }
            i = i + 1;
        }
        false
    }

    /// Check every part's engine and every format reference, reporting
    /// the first violation. Success means exactly that the checks hold; a
    /// well-formed generator always passes. A report carries the name of
    /// the part, or of the format whose reference broke.
    pub fn validate(&self) -> (r: Result<(), ValidationError>)
        ensures
            r.is_ok() <==> self.validate_ok(),
            r is Err ==> (exists|j: int|
                0 <= j < self.parts@.len() && (#[trigger] self.parts@[j]).name@ == r->Err_0.name@
                    && !self.parts@[j].generator.validate_ok()) || (exists|i: int, k: int|
                #![trigger self.formats@[i].parts@[k]]
                0 <= i < self.formats@.len() && self.formats@[i].name@ == r->Err_0.name@ && 0 <= k
                    < self.formats@[i].parts@.len() && !fp_valid(
                    self.formats@[i].parts@[k],
                    self.parts@.len() as int,
                    self.formats@.len() as int,
                )),
    {
        let n_parts = self.parts.len();
        let n_formats = self.formats.len();
        let mut j: usize = 0;
        while j < n_parts
            invariant
                j <= n_parts == self.parts@.len(),
                forall|j2: int|
                    0 <= j2 < j ==> (#[trigger] self.parts@[j2]).generator.validate_ok(),
            decreases n_parts - j,
        {
            let res = self.parts[j].validate();
            match res {
                Ok(_) => {},
                Err(e) => {
                    return Err(e);
                },
            }
            j = j + 1;
        }
        let mut i: usize = 0;
        while i < n_formats
            invariant
                i <= n_formats == self.formats@.len(),
                n_parts == self.parts@.len(),
                forall|i2: int, k: int|
                    0 <= i2 < i && 0 <= k < self.formats@[i2].parts@.len() ==> fp_valid(
                        #[trigger] self.formats@[i2].parts@[k],
                        self.parts@.len() as int,
                        self.formats@.len() as int,
                    ),
            decreases n_formats - i,
        {
            let n_fp = self.formats[i].parts.len();
            let mut k: usize = 0;
            while k < n_fp
                invariant
                    i < self.formats@.len(),
                    k <= n_fp == self.formats@[i as int].parts@.len(),
                    n_parts == self.parts@.len(),
                    n_formats == self.formats@.len(),
                    forall|k2: int|
                        0 <= k2 < k ==> fp_valid(
                            #[trigger] self.formats@[i as int].parts@[k2],
                            self.parts@.len() as int,
                            self.formats@.len() as int,
                        ),
                decreases n_fp - k,
            {
                let ok = validate_format_part(&self.formats[i].parts[k], n_parts, n_formats);
                if !ok {
                    let e = ValidationError::new(
                        "ngen::NameFormat",
                        "Name format references invalid part or format.",
                    );
                    return Err(e.with_name(self.formats[i].name.as_str()));
                }
                k = k + 1;
            }
            i = i + 1;
        }
        Ok(())
    }

    /// Expand one format into the cross-part accumulation buffer: literal
    /// text and generated parts are appended, format references expand
    /// recursively, and a choice picks one alternative uniformly.
    pub fn run_generate(&self, ws: &mut WorkingSet, rng: &mut Prng, format_index: usize)
        requires
            self.wf(),
            format_index < self.formats@.len(),
        ensures
            chars_extended(old(ws).result_total@, final(ws).result_total@),
        decreases format_index,
    {
        let n_fp = self.formats[format_index].parts.len();
        let mut k: usize = 0;
        proof {
            lemma_chars_extended_refl(ws.result_total@);
        }
        while k < n_fp
            invariant
                self.wf(),
                format_index < self.formats@.len(),
                k <= n_fp == self.formats@[format_index as int].parts@.len(),
                chars_extended(old(ws).result_total@, ws.result_total@),
            decreases n_fp - k,
        {
            let ghost mid = ws.result_total@;
            let fp = &self.formats[format_index].parts[k];
            proof {
                assert(fp_ok(
                    self.formats@[format_index as int].parts@[k as int],
                    self.parts@.len() as int,
                    format_index as int,
                ));
            }
            match fp {
                FormatPart::Text(text) => {
                    crate::markov::string_append(&mut ws.result_total, text.as_str());
                    proof {
                        assert(ws.result_total@.subrange(0, mid.len() as int) =~= mid);
                    }
                },
                FormatPart::Part(part_index) => {
                    self.parts[*part_index].generate(ws, rng);
                    let rendered = crate::wordlist::clone_string(&ws.result_str);
                    crate::markov::string_append(&mut ws.result_total, rendered.as_str());
                    proof {
                        assert(ws.result_total@.subrange(0, mid.len() as int) =~= mid);
                    }
                },
                FormatPart::Format(fi) => {
                    self.run_generate(ws, rng, *fi);
                },
                FormatPart::Random(list) => {
                    let picked = rng.below_usize(list.len());
                    let inner = &list[picked];
                    proof {
                        assert(fp_plain_ok(
                            list@[picked as int],
                            self.parts@.len() as int,
                            format_index as int,
                        ));
                    }
                    match inner {
                        FormatPart::Text(text) => {
                            crate::markov::string_append(&mut ws.result_total, text.as_str());
                            proof {
                                assert(ws.result_total@.subrange(0, mid.len() as int) =~= mid);
                            }
                        },
                        FormatPart::Part(part_index) => {
                            self.parts[*part_index].generate(ws, rng);
                            let rendered = crate::wordlist::clone_string(&ws.result_str);
                            crate::markov::string_append(&mut ws.result_total, rendered.as_str());
                            proof {
                                assert(ws.result_total@.subrange(0, mid.len() as int) =~= mid);
                            }
                        },
                        FormatPart::Format(fi) => {
                            self.run_generate(ws, rng, *fi);
                        },
                        FormatPart::Random(_) => {
                            proof {
                                lemma_chars_extended_refl(ws.result_total@);
                            }
                        },
                    }
                },
            }
            proof {
                lemma_chars_extended_trans(old(ws).result_total@, mid, ws.result_total@);
            }
            k = k + 1;
        }
    }

    /// Expand the named format once, appending the composed name to the
    /// accumulation buffer. Yields whether the format exists; nothing is
    /// generated when it does not.
    pub fn generate_into(&self, ws: &mut WorkingSet, rng: &mut Prng, format_name: &str) -> (r:
        bool)
        requires
            self.wf(),
        ensures
            r == exists|i: int|
                0 <= i < self.formats@.len() && (#[trigger] self.formats@[i]).name@
                    == format_name@,
            chars_extended(old(ws).result_total@, final(ws).result_total@),
    {
        let n = self.formats.len();
        let mut i: usize = 0;
        proof {
            lemma_chars_extended_refl(ws.result_total@);
        }
        while i < n
            invariant
                self.wf(),
                i <= n == self.formats@.len(),
                forall|i2: int| 0 <= i2 < i ==> (#[trigger] self.formats@[i2]).name@ != format_name@,
                *ws == *old(ws),
            decreases n - i,
        {
            if str_eq_string(&self.formats[i].name, format_name) {
                self.run_generate(ws, rng, i);
                proof {
                    assert(self.formats@[i as int].name@ == format_name@);
                }
                return true;
            }
            i = i + 1;
        }
        proof {
            lemma_chars_extended_refl(ws.result_total@);
        }
        false
    }
}

/// Whether a piece references only existing parts and formats; a choice
/// list is checked one level deep.
fn validate_format_part(fp: &FormatPart, n_parts: usize, n_formats: usize) -> (r: bool)
    ensures
        r == fp_valid(*fp, n_parts as int, n_formats as int),
{
    match fp {
        FormatPart::Text(_) => true,
        FormatPart::Part(p) => *p < n_parts,
        FormatPart::Format(f) => *f < n_formats,
        FormatPart::Random(list) => {
            let n = list.len();
            let mut k: usize = 0;
            while k < n
                invariant
                    k <= n == list@.len(),
                    *fp == FormatPart::Random(*list),
                    forall|k2: int|
                        0 <= k2 < k ==> fp_plain_ok(
                            #[trigger] list@[k2],
                            n_parts as int,
                            n_formats as int,
                        ),
                decreases n - k,
            {
                let ok = match &list[k] {
                    FormatPart::Text(_) => true,
                    FormatPart::Part(p) => *p < n_parts,
                    FormatPart::Format(f) => *f < n_formats,
                    FormatPart::Random(_) => false,
                };
                if !ok {
                    proof {
                        assert(*fp == FormatPart::Random(*list));
                        assert((*fp)->Random_0 == *list);
                        assert(!fp_plain_ok(
                            (*fp)->Random_0@[k as int],
                            n_parts as int,
                            n_formats as int,
                        ));
                        assert(!fp_valid(*fp, n_parts as int, n_formats as int));
                    }
                    return false;
                }
                k = k + 1;
            }
            true
        },
    }
}

/// Learn a set with the part at one index, leaving every other part as
/// it was.
fn learn_part_at(parts: &mut Vec<NamePart>, j: usize, sample_set: &SampleSet) -> (r: Result<
    (),
    LearnError,
>)
    requires
        j < old(parts)@.len(),
        old(parts)@[j as int].wf(),
        old(parts)@[j as int].generator.learn_room(*sample_set),
    ensures
        final(parts)@.len() == old(parts)@.len(),
        forall|j2: int|
            0 <= j2 < old(parts)@.len() && j2 != j ==> final(parts)@[j2] == old(parts)@[j2],
        final(parts)@[j as int].wf(),
        final(parts)@[j as int].name == old(parts)@[j as int].name,
        r.is_ok() <==> old(parts)@[j as int].generator.learn_ok(*sample_set),
        generator_learn_post(
            old(parts)@[j as int].generator,
            final(parts)@[j as int].generator,
            *sample_set,
            r,
        ),
{
    let mut tmp = NamePart {
        name: String::new(),
        generator: crate::part::PartGenerator::WordList(crate::wordlist::WordList::new()),
        format_rules: Vec::new(),
    };
    parts.set_and_swap(j, &mut tmp);
    let r = tmp.learn(sample_set);
    parts.set_and_swap(j, &mut tmp);
    r
}

/// The first brace group at or after `from`: the index of the first
/// opening brace and of the first closing brace after it. A missing
/// group yields the text length twice.
fn next_bracket(chars: &Vec<char>, from: usize) -> (r: (usize, usize))
    requires
        from <= chars@.len(),
    ensures
        ({
            let (start, end) = r;
            &&& (start == end == chars@.len()) || (from <= start < end < chars@.len()
                && chars@[start as int] == '{' && chars@[end as int] == '}')
            &&& (start < chars@.len() ==> forall|p: int|
                from <= p < start ==> chars@[p] != '{')
            &&& (start < end ==> forall|q: int| start < q < end ==> chars@[q] != '}')
        }),
{
    let n = chars.len();
    let mut i = from;
    let mut start: usize = n;
    loop
        invariant_except_break
            start == n,
        invariant
            from <= i <= n == chars@.len(),
            forall|p: int| from <= p < i ==> chars@[p] != '{',
        ensures
            forall|p: int| from <= p < i ==> chars@[p] != '{',
            start == n || (from <= start == i < n && chars@[start as int] == '{'),
        decreases n - i,
    {
        if i >= n {
            break ;
        }
        if chars[i] == '{' {
            start = i;
            break ;
        }
        i = i + 1;
    }
    if start == n {
        return (n, n);
    }
    let mut e = start + 1;
    while e < n
        invariant
            from <= start < e <= n == chars@.len(),
            start < n,
            chars@[start as int] == '{',
            forall|p: int| from <= p < start ==> chars@[p] != '{',
            forall|q: int| start < q < e ==> chars@[q] != '}',
        decreases n - e,
    {
        if chars[e] == '}' {
            return (start, e);
        }
        e = e + 1;
    }
    (n, n)
}

/// The text of a character range, as a fresh string.
fn chars_to_string_range(chars: &Vec<char>, a: usize, b: usize) -> (r: String)
    requires
        a <= b <= chars@.len(),
    ensures
        r@ == chars@.subrange(a as int, b as int),
{
    let mut piece: Vec<char> = Vec::new();
    let mut i = a;
    while i < b
        invariant
            a <= i <= b <= chars@.len(),
            piece@ == chars@.subrange(a as int, i as int),
        decreases b - i,
    {
        proof {
            assert(chars@.subrange(a as int, i as int + 1) =~= chars@.subrange(
                a as int,
                i as int,
            ).push(chars@[i as int]));
        }
        piece.push(chars[i]);
        i = i + 1;
    }
    string_from_chars(&piece)
}

/// Whether a stored name equals the characters of a range.
fn string_matches_range(s: &String, chars: &Vec<char>, a: usize, b: usize) -> (r: bool)
    requires
        a <= b <= chars@.len(),
    ensures
        r == (s@ == chars@.subrange(a as int, b as int)),
{
    let sl = s.as_str().unicode_len();
    if sl != b - a {
        proof {
            if s@ == chars@.subrange(a as int, b as int) {
                assert(s@.len() == b - a);
            }
        }
        return false;
    }
    let mut k: usize = 0;
    while k < sl
        invariant
            k <= sl == s@.len(),
            a + sl <= b <= chars@.len(),
            sl == b - a,
            forall|j: int| 0 <= j < k ==> s@[j] == chars@[a + j],
        decreases sl - k,
    {
        if s.as_str().get_char(k) != chars[a + k] {
            proof {
                if s@ == chars@.subrange(a as int, b as int) {
                    assert(s@[k as int] == chars@.subrange(a as int, b as int)[k as int]);
                }
            }
            return false;
        }
        k = k + 1;
    }
    proof {
        assert(s@ =~= chars@.subrange(a as int, b as int));
    }
    true
}

/// Whether a stored string equals a borrowed one.
fn str_eq_string(a: &String, b: &str) -> (r: bool)
    ensures
        r == (a@ == b@),
{
    let al = a.as_str().unicode_len();
    let bl = b.unicode_len();
    if al != bl {
        proof {
            if a@ == b@ {
                assert(a@.len() == b@.len());
            }
        }
        return false;
    }
    let mut k: usize = 0;
    while k < al
        invariant
            k <= al == a@.len() == b@.len(),
            forall|j: int| 0 <= j < k ==> a@[j] == b@[j],
        decreases al - k,
    {
        if a.as_str().get_char(k) != b.get_char(k) {
            return false;
        }
        k = k + 1;
    }
    proof {
        assert(a@ =~= b@);
    }
    true
}

proof fn lemma_chars_extended_refl(s: Seq<char>)
    ensures
        chars_extended(s, s),
{
    assert(s.subrange(0, s.len() as int) =~= s);
}

proof fn lemma_chars_extended_trans(a: Seq<char>, b: Seq<char>, c: Seq<char>)
    requires
        chars_extended(a, b),
        chars_extended(b, c),
    ensures
        chars_extended(a, c),
{
    assert(c.subrange(0, a.len() as int) =~= a) by {
        assert(forall|i: int| 0 <= i < a.len() ==> c.subrange(0, b.len() as int)[i] == #[trigger] c[i]);
        assert(forall|i: int| 0 <= i < a.len() ==> b.subrange(0, a.len() as int)[i] == #[trigger] b[i]);
    }
}

/// A scan position that matched nothing earlier pins the key index down.
proof fn lemma_part_key_from_scan(parts: Seq<NamePart>, name: Seq<char>, j: int)
    requires
        0 <= j <= parts.len(),
        forall|j2: int| 0 <= j2 < j ==> (#[trigger] parts[j2]).name@ != name,
        j == parts.len() || parts[j].name@ == name,
    ensures
        part_key_index(parts, name) == j,
    decreases j,
{
    if j == 0 {
    } else {
        assert(parts[0].name@ != name);
        assert forall|j2: int|
            0 <= j2 < j - 1 implies (#[trigger] parts.drop_first()[j2]).name@ != name by {
            assert(parts.drop_first()[j2] == parts[j2 + 1]);
        }
        assert(j - 1 == parts.drop_first().len() || parts.drop_first()[j - 1].name@ == name);
        lemma_part_key_from_scan(parts.drop_first(), name, j - 1);
    }
}

} // verus!
