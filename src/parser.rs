//! The record-recognition state machine and the two parsers built on it.
use vstd::prelude::*;
use vstd::string::*;
use crate::errors::FastaError;
use crate::record::{empty_record, opened_by, Record, RecordView};
use crate::text::{chars_of, classify, kind_of, trim, trim_bounds, LineKind};

verus! {

/// The state of the state machine: whether a record is open, and that record.
pub struct ParserView {
    pub active: bool,
    pub record: RecordView,
}

/// The state in which no record is open.
pub open spec fn idle() -> ParserView {
    ParserView { active: false, record: empty_record() }
}

/// One step of the state machine on a trimmed line `t`: the record it emits,
/// if any, and the next state. A header met while a record is open emits that
/// record and leaves the line to be fed again; every other line is consumed.
pub open spec fn step(st: ParserView, t: Seq<char>) -> (Option<RecordView>, ParserView) {
    match kind_of(t) {
        LineKind::Skip => (None, st),
        LineKind::Header => if st.active {
            (Some(st.record), idle())
        } else {
            (None, ParserView { active: true, record: opened_by(t) })
        },
        LineKind::Residues => if st.active {
            (
                None,
                ParserView {
                    active: true,
                    record: RecordView { sequence: st.record.sequence + t, ..st.record },
                },
            )
        } else {
            (None, st)
        },
    }
}

/// The records that the lines `ls` give, from state `st`, at the end of input.
pub open spec fn records_from(st: ParserView, ls: Seq<Seq<char>>) -> Seq<RecordView>
    decreases ls.len(), if st.active { 1int } else { 0int },
{
    if ls.len() == 0 {
        if st.active {
            seq![st.record]
        } else {
            Seq::empty()
        }
    } else {
        let (e, next) = step(st, trim(ls[0]));
        match e {
            Some(r) => seq![r] + records_from(next, ls),
            None => records_from(next, ls.drop_first()),
        }
    }
}

/// The records of a whole input, given as lines.
pub open spec fn parse_lines(ls: Seq<Seq<char>>) -> Seq<RecordView> {
    records_from(idle(), ls)
}

/// The text of a line that was read; an unreadable line counts as empty.
pub open spec fn line_text(l: Result<String, FastaError>) -> Seq<char> {
    match l {
        Ok(s) => s@,
        Err(_) => Seq::empty(),
    }
}

/// The texts of the lines `ls`.
pub open spec fn texts(ls: Seq<Result<String, FastaError>>) -> Seq<Seq<char>> {
    ls.map_values(|l: Result<String, FastaError>| line_text(l))
}

/// Every line of `ls` was read.
pub open spec fn all_read(ls: Seq<Result<String, FastaError>>) -> bool {
    forall|i: int| 0 <= i < ls.len() ==> (#[trigger] ls[i]) is Ok
}

/// The views of a list of records.
pub open spec fn views(rs: Seq<Record>) -> Seq<RecordView> {
    rs.map_values(|r: Record| r@)
}

/// The state machine over lines: one open record or none.
pub struct Parser {
    active: bool,
    rec: Record,
}

impl View for Parser {
    type V = ParserView;

    closed spec fn view(&self) -> ParserView {
        ParserView { active: self.active, record: self.rec@ }
    }
}

impl Parser {
    /// A parser with no open record.
    pub fn new() -> (r: Parser)
        ensures
            r@ == idle(),
    {
        Parser { active: false, rec: Record::new() }
    }

    /// Feeds one line (see `step`). A returned record means that the line was
    /// not consumed: the parser is then idle, and the line is to be fed again.
    pub fn feed(&mut self, line: &str) -> (r: Option<Record>)
        ensures
            ({
                let (e, next) = step(old(self)@, trim(line@));
                &&& final(self)@ == next
                &&& match r {
                    Some(x) => e == Some(x@),
                    None => e is None,
                }
            }),
    {
        let v = chars_of(line);
        let (a, b) = trim_bounds(&v);
        let kind = classify(&v, a, b);
        match kind {
            LineKind::Skip => None,
            LineKind::Header => {
                if self.active {
                    let mut done = Record::new();
                    core::mem::swap(&mut self.rec, &mut done);
                    self.active = false;
                    Some(done)
                } else {
                    let mut rec = Record::new();
                    rec.set_header(line.substring_char(a, b));
                    self.rec = rec;
                    self.active = true;
                    None
                }
            },
            LineKind::Residues => {
                if self.active {
                    self.rec.sequence.append(line.substring_char(a, b));
                    assert(self@.record =~= RecordView {
                        sequence: old(self)@.record.sequence + trim(line@),
                        ..old(self)@.record
                    });
                }
                None
            },
        }
    }

    /// Ends the input: the open record, if any, and the parser is idle.
    pub fn finish(&mut self) -> (r: Option<Record>)
        ensures
            final(self)@ == idle(),
            match r {
                Some(x) => old(self)@.active && x@ == old(self)@.record,
                None => !old(self)@.active,
            },
    {
        let mut done = Record::new();
        core::mem::swap(&mut self.rec, &mut done);
        if self.active {
            self.active = false;
            Some(done)
        } else {
            None
        }
    }
}

/// Reads all of `lines` into records. The first line that could not be read
/// makes the whole parse fail.
pub fn parse(lines: &Vec<Result<String, FastaError>>) -> (r: Result<Vec<Record>, FastaError>)
    ensures
        r is Ok <==> all_read(lines@),
        r is Ok ==> views(r->Ok_0@) == parse_lines(texts(lines@)),
{
    let mut p = Parser::new();
    let mut out: Vec<Record> = Vec::new();
    let n = lines.len();
    let mut i: usize = 0;
    assert(texts(lines@).skip(0) =~= texts(lines@));
    while i < n
        invariant
            i <= n == lines.len(),
            forall|j: int| 0 <= j < i ==> (#[trigger] lines@[j]) is Ok,
            views(out@) + records_from(p@, texts(lines@).skip(i as int)) == parse_lines(
                texts(lines@),
            ),
        decreases n - i,
    {
        let ghost ls = texts(lines@).skip(i as int);
        match &lines[i] {
            Err(_) => {
                return Err(FastaError);
            },
            Ok(s) => {
                assert(ls[0] == s@);
                assert(ls.drop_first() =~= texts(lines@).skip(i + 1));
                let ghost st0 = p@;
                let e = p.feed(s.as_str());
                match e {
                    Some(rec) => {
                        let ghost before = views(out@);
                        let ghost st1 = p@;
                        assert(records_from(st0, ls) == seq![rec@] + records_from(st1, ls));
                        let again = p.feed(s.as_str());
                        assert(again is None);
                        assert(records_from(st1, ls) == records_from(p@, ls.drop_first()));
                        out.push(rec);
                        assert(views(out@) =~= before.push(rec@));
                        assert(views(out@) + records_from(p@, ls.drop_first()) =~= before + (
                        seq![rec@] + records_from(st1, ls)));
                    },
                    None => {
                        assert(records_from(st0, ls) == records_from(p@, ls.drop_first()));
                    },
                }
            },
        }
        i = i + 1;
    }
    let last = p.finish();
    match last {
        Some(rec) => out.push(rec),
        None => {},
    }
    Ok(out)
}

} // verus!
