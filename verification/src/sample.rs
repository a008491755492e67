use vstd::prelude::*;

verus! {

/// One training input: a whole word, a weighted word, or an ordered list of
/// column tokens.
#[derive(Clone, Debug)]
pub enum Sample {
    Word(String),
    WordWeighted(String, u32),
    Tokens(Vec<String>),
}

/// The observable value of a sample: which kind it is, its word text, its
/// weight, and its token row.
pub open spec fn sample_model(s: Sample) -> (int, Seq<char>, u32, Seq<Seq<char>>) {
    match s {
        Sample::Word(w) => (0, w@, 0, Seq::empty()),
        Sample::WordWeighted(w, x) => (1, w@, x, Seq::empty()),
        Sample::Tokens(v) => (2, Seq::empty(), 0, v@.map_values(|t: String| t@)),
    }
}

impl Sample {
    /// A copy carrying the same observable value.
    pub fn duplicate(&self) -> (r: Sample)
        ensures
            sample_model(r) == sample_model(*self),
    {
        match self {
            Sample::Word(s) => Sample::Word(s.clone()),
            Sample::WordWeighted(s, w) => Sample::WordWeighted(s.clone(), *w),
            Sample::Tokens(v) => {
                let mut out: Vec<String> = Vec::new();
                let mut i: usize = 0;
                while i < v.len()
                    invariant
                        i <= v@.len(),
                        out@.len() == i,
                        forall|j: int| 0 <= j < i ==> out@[j] == v@[j],
                    decreases v@.len() - i,
                {
                    out.push(v[i].clone());
                    i = i + 1;
                }
                proof {
                    assert(out@.map_values(|t: String| t@) =~= v@.map_values(|t: String| t@));
                }
                Sample::Tokens(out)
            },
        }
    }
}

/// An ordered batch of samples, with optional column labels used by the
/// grammar engine.
#[derive(Clone, Debug)]
pub struct SampleSet {
    pub labels: Vec<String>,
    pub samples: Vec<Sample>,
}

impl SampleSet {
    pub fn labels(&self) -> (r: &[String])
        ensures
            r@ == self.labels@,
    {
        self.labels.as_slice()
    }

    pub fn samples(&self) -> (r: &[Sample])
        ensures
            r@ == self.samples@,
    {
        self.samples.as_slice()
    }

    pub fn add_sample(&mut self, sample: Sample)
        ensures
            final(self).samples@ == old(self).samples@.push(sample),
            final(self).labels@ == old(self).labels@,
    {
        self.samples.push(sample);
    }

    pub fn new() -> (r: SampleSet)
        ensures
            r.labels@.len() == 0,
            r.samples@.len() == 0,
    {
        SampleSet { samples: Vec::new(), labels: Vec::new() }
    }

    pub fn with_labels(labels: &[&str]) -> (r: SampleSet)
        ensures
            r.samples@.len() == 0,
            r.labels@.len() == labels@.len(),
            forall|i: int| 0 <= i < labels@.len() ==> r.labels@[i]@ == labels@[i]@,
    {
        let mut owned: Vec<String> = Vec::new();
        let mut i: usize = 0;
        while i < labels.len()
            invariant
                i <= labels@.len(),
                owned@.len() == i,
                forall|j: int| 0 <= j < i ==> owned@[j]@ == labels@[j]@,
            decreases labels@.len() - i,
        {
            owned.push(labels[i].to_owned());
            i = i + 1;
        }
        SampleSet { samples: Vec::new(), labels: owned }
    }
}

} // verus!
