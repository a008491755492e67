use vstd::prelude::*;
use crate::sample::Sample;

verus! {

/// All local scratch state needed to generate one name. Reusing one
/// `WorkingSet` across calls lets the generators run without fresh
/// allocations once the buffers have grown to a steady size; one
/// `WorkingSet` per generating caller keeps concurrent generation safe.
///
/// The fields are plain buffers with no invariant of their own; every
/// generator clears what it uses on entry.
pub struct WorkingSet {
    pub result: Vec<usize>,
    pub result_str: String,
    pub result_chars: Vec<char>,
    pub result_total: String,
    pub stack: Vec<usize>,
    pub stack_pos: Vec<usize>,
    pub stack_weight: Vec<u128>,
    pub subtokens: Vec<usize>,
}

impl WorkingSet {
    /// The rendered output of the last generator call. Copy it out if it must
    /// survive the next call on this working set.
    pub fn get_result(&self) -> (r: &str)
        ensures
            r@ == self.result_str@,
    {
        self.result_str.as_str()
    }

    pub fn new() -> (ws: WorkingSet)
        ensures
            ws.result@.len() == 0,
            ws.result_str@.len() == 0,
            ws.result_chars@.len() == 0,
            ws.result_total@.len() == 0,
            ws.stack@.len() == 0,
            ws.stack_pos@.len() == 0,
            ws.stack_weight@.len() == 0,
            ws.subtokens@.len() == 0,
    {
        WorkingSet {
            result: Vec::new(),
            result_str: String::new(),
            result_chars: Vec::new(),
            result_total: String::new(),
            stack: Vec::new(),
            stack_pos: Vec::new(),
            stack_weight: Vec::new(),
            subtokens: Vec::new(),
        }
    }
}

/// A failed `learn` call: a numeric code, a human-readable description, and
/// the offending sample where one exists.
#[derive(Debug)]
pub struct LearnError {
    pub sample: Option<Sample>,
    pub code: usize,
    pub desc: String,
}

impl LearnError {
    pub fn new(code: usize, desc: String, sample: Option<Sample>) -> (e: LearnError)
        ensures
            e.code == code,
            e.desc == desc,
            e.sample == sample,
    {
        LearnError { code, desc, sample }
    }
}

/// A violated internal invariant reported by `validate`: which kind of
/// component found it, the name of the part it sits in, and a message.
#[derive(Debug)]
pub struct ValidationError {
    pub kind: &'static str,
    pub name: String,
    pub message: &'static str,
}

impl ValidationError {
    pub fn with_name(&self, name: &str) -> (e: ValidationError)
        ensures
            e.kind == self.kind,
            e.message == self.message,
            e.name@ == name@,
    {
        ValidationError { kind: self.kind, message: self.message, name: name.to_owned() }
    }

    pub fn new(kind: &'static str, message: &'static str) -> (e: ValidationError)
        ensures
            e.kind == kind,
            e.message == message,
            e.name@.len() == 0,
    {
        ValidationError { kind, message, name: String::new() }
    }
}

} // verus!
