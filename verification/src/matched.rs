//! A single marker hit inside one file: the 1-based line number and the
//! trimmed marker payload captured from that line.

use vstd::prelude::*;

verus! {

/// Path of a scanned file, used as the stable identity key of its matches.
pub type File = String;

/// One matched marker line: `line_num` is the 1-based position of the line
/// in its file at scan time, `line` the captured payload text.
#[derive(Debug, Clone)]
pub struct MatchedLine {
    pub line_num: usize,
    pub line: String,
}

/// The abstract content of a matched line.
pub struct MatchedModel {
    pub line_num: nat,
    pub line: Seq<char>,
}

impl View for MatchedLine {
    type V = MatchedModel;

    open spec fn view(&self) -> MatchedModel {
        MatchedModel { line_num: self.line_num as nat, line: self.line@ }
    }
}

impl MatchedLine {
    pub fn new(line_num: usize, line: &str) -> (m: Self)
        ensures
            m.line_num == line_num,
            m.line@ == line@,
    {
        MatchedLine { line_num, line: line.to_owned() }
    }

    pub fn get_line(&self) -> (r: String)
        ensures
            r@ == self.line@,
    {
        self.line.clone()
    }

    pub fn get_line_num(&self) -> (r: usize)
        ensures
            r == self.line_num,
    {
        self.line_num
    }
}

} // verus!
