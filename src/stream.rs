//! The lazy parser: a line source with lookahead, and records pulled one at a time.
use vstd::prelude::*;
use crate::errors::FastaError;
use crate::parser::{all_read, idle, parse_lines, line_text, records_from, step, texts, Parser, ParserView};
use crate::record::{Record, RecordView};
use crate::text::trim;

verus! {

/// What one pull of records yields.
pub enum Pulled {
    /// A record.
    Rec(RecordView),
    /// A line that could not be read.
    Failed,
    /// The end of input, with no record open.
    End,
}

/// One pull from state `st` over the remaining lines `ls`: what it yields, the
/// state after it, and how many lines it consumes. An unreadable line is
/// consumed and reported; the open record is kept.
pub open spec fn pull(st: ParserView, ls: Seq<Result<String, FastaError>>) -> (Pulled, ParserView, nat)
    decreases ls.len(),
{
    if ls.len() == 0 {
        if st.active {
            (Pulled::Rec(st.record), idle(), 0)
        } else {
            (Pulled::End, idle(), 0)
        }
    } else {
        match ls[0] {
            Err(_) => (Pulled::Failed, st, 1),
            Ok(s) => {
                let (e, next) = step(st, trim(s@));
                match e {
                    Some(r) => (Pulled::Rec(r), next, 0),
                    None => {
                        let (o, last, used) = pull(next, ls.drop_first());
                        (o, last, used + 1)
                    },
                }
            },
        }
    }
}

/// `r` is what the outcome `o` describes.
pub open spec fn yields(r: Option<Result<Record, FastaError>>, o: Pulled) -> bool {
    match o {
        Pulled::Rec(v) => r is Some && r->Some_0 is Ok && r->Some_0->Ok_0@ == v,
        Pulled::Failed => r is Some && r->Some_0 is Err,
        Pulled::End => r is None,
    }
}

/// A list of line results, read front to back, with a look at the next one.
pub struct PeekableLines {
    lines: Vec<Result<String, FastaError>>,
    pos: usize,
}

impl PeekableLines {
    /// The lines not consumed yet.
    pub closed spec fn remaining(&self) -> Seq<Result<String, FastaError>> {
        self.lines@.skip(self.pos as int)
    }

    /// The position lies within the lines.
    pub closed spec fn wf(&self) -> bool {
        self.pos <= self.lines.len()
    }

    /// A source over `lines`, at the first.
    pub fn from(lines: Vec<Result<String, FastaError>>) -> (r: PeekableLines)
        ensures
            r.wf(),
            r.remaining() == lines@,
    {
        let r = PeekableLines { lines, pos: 0 };
        assert(r.lines@.skip(0) =~= r.lines@);
        r
    }

    /// The next line, not consumed; `None` once all are consumed.
    pub fn peekline(&self) -> (r: Option<&Result<String, FastaError>>)
        requires
            self.wf(),
        ensures
            self.remaining().len() == 0 ==> r is None,
            self.remaining().len() > 0 ==> r == Some(&self.remaining()[0]),
    {
        if self.pos < self.lines.len() {
            Some(&self.lines[self.pos])
        } else {
            None
        }
    }

    /// Consumes the next line, if there is one.
    fn skip_line(&mut self)
        requires
            old(self).wf(),
        ensures
            final(self).wf(),
            old(self).remaining().len() == 0 ==> final(self).remaining() == old(self).remaining(),
            old(self).remaining().len() > 0 ==> final(self).remaining() == old(
                self,
            ).remaining().drop_first(),
    {
        if self.pos < self.lines.len() {
            assert(self.lines@.skip(self.pos + 1) =~= self.lines@.skip(self.pos as int).drop_first());
            self.pos = self.pos + 1;
        }
    }

    /// Consumes the next line and hands back a copy of it; `None` once all are
    /// consumed.
    pub fn advanceline(&mut self) -> (r: Option<Result<String, FastaError>>)
        requires
            old(self).wf(),
        ensures
            final(self).wf(),
            old(self).remaining().len() == 0 ==> r is None && final(self).remaining() == old(
                self,
            ).remaining(),
            old(self).remaining().len() > 0 ==> r is Some && line_text(r->Some_0) == line_text(
                old(self).remaining()[0],
            ) && (r->Some_0 is Ok <==> old(self).remaining()[0] is Ok) && final(self).remaining()
                == old(self).remaining().drop_first(),
    {
        if self.pos < self.lines.len() {
            let line = match &self.lines[self.pos] {
                Ok(s) => Ok(s.clone()),
                Err(e) => Err(*e),
            };
            self.skip_line();
            Some(line)
        } else {
            None
        }
    }
}

/// Records pulled one at a time from a list of line results.
pub struct FastaBuffer {
    source: PeekableLines,
    state: Parser,
}

impl FastaBuffer {
    /// The lines not consumed yet.
    pub closed spec fn remaining(&self) -> Seq<Result<String, FastaError>> {
        self.source.remaining()
    }

    /// The state of the state machine.
    pub closed spec fn state(&self) -> ParserView {
        self.state@
    }

    /// The line source is well formed.
    pub closed spec fn wf(&self) -> bool {
        self.source.wf()
    }

    /// The records still to come, where every remaining line can be read.
    pub open spec fn pending(&self) -> Seq<RecordView> {
        records_from(self.state(), texts(self.remaining()))
    }

    /// A buffer over `lines`, with no record open.
    pub fn from(lines: Vec<Result<String, FastaError>>) -> (r: FastaBuffer)
        ensures
            r.wf(),
            r.remaining() == lines@,
            r.state() == idle(),
            r.pending() == parse_lines(texts(lines@)),
    {
        FastaBuffer { source: PeekableLines::from(lines), state: Parser::new() }
    }

    /// Pulls the next record (see `pull`): `None` at the end of input, an
    /// error for a line that could not be read.
    pub fn next(&mut self) -> (r: Option<Result<Record, FastaError>>)
        requires
            old(self).wf(),
        ensures
            final(self).wf(),
            ({
                let (o, st, used) = pull(old(self).state(), old(self).remaining());
                &&& yields(r, o)
                &&& final(self).state() == st
                &&& used <= old(self).remaining().len()
                &&& final(self).remaining() == old(self).remaining().skip(used as int)
            }),
            all_read(old(self).remaining()) ==> {
                &&& r is None <==> old(self).pending().len() == 0
                &&& r is Some ==> r->Some_0 is Ok && r->Some_0->Ok_0@ == old(self).pending()[0]
                    && final(self).pending() == old(self).pending().drop_first()
                &&& all_read(final(self).remaining())
            },
    {
        let ghost st0 = self.state();
        let ghost ls0 = self.remaining();
        loop
            invariant
                self.wf(),
                ls0 == old(self).remaining(),
                st0 == old(self).state(),
                ls0.len() - self.remaining().len() >= 0,
                self.remaining() == ls0.skip(ls0.len() - self.remaining().len()),
                ({
                    let (o0, s0, u0) = pull(st0, ls0);
                    let (o, s, u) = pull(self.state(), self.remaining());
                    &&& o == o0
                    &&& s == s0
                    &&& u0 == u + (ls0.len() - self.remaining().len())
                }),
            decreases self.remaining().len(),
        {
            proof {
                if all_read(ls0) {
                    lemma_pull_follows_records(st0, ls0);
                }
            }
            let ghost rem = self.remaining();
            let ghost k = ls0.len() - rem.len();
            let line = self.source.peekline();
            match line {
                None => {
                    let last = self.state.finish();
                    return match last {
                        Some(rec) => Some(Ok(rec)),
                        None => None,
                    };
                },
                Some(Err(_)) => {
                    assert(ls0[k] == rem[0]);
                    assert(ls0.skip(k + 1) =~= rem.drop_first());
                    self.source.skip_line();
                    return Some(Err(FastaError));
                },
                Some(Ok(s)) => {
                    let e = self.state.feed(s.as_str());
                    match e {
                        Some(rec) => {
                            return Some(Ok(rec));
                        },
                        None => {
                            self.source.skip_line();
                            assert(ls0.skip(k + 1) =~= rem.drop_first());
                        },
                    }
                },
            }
        }
    }
}

/// Pulling records one at a time gives the records of the batch parse, in
/// order: where every line can be read, a pull from state `st` ends the
/// input exactly when no record is left, and otherwise yields the first
/// record left, after which the rest are left.
pub proof fn lemma_pull_follows_records(st: ParserView, ls: Seq<Result<String, FastaError>>)
    requires
        all_read(ls),
    ensures
        ({
            let (o, next, used) = pull(st, ls);
            let rs = records_from(st, texts(ls));
            &&& used <= ls.len()
            &&& all_read(ls.skip(used as int))
            &&& o is Failed ==> false
            &&& o is End <==> rs.len() == 0
            &&& o is Rec ==> rs.len() > 0 && o->Rec_0 == rs[0] && records_from(
                next,
                texts(ls.skip(used as int)),
            ) == rs.drop_first()
        }),
    decreases ls.len(),
{
    assert(ls.skip(0) =~= ls);
    if ls.len() > 0 {
        assert(ls[0] is Ok);
        let s = ls[0]->Ok_0;
        let (e, next) = step(st, trim(s@));
        assert(texts(ls)[0] == s@);
        assert(texts(ls).drop_first() =~= texts(ls.drop_first()));
        if e is None {
            lemma_pull_follows_records(next, ls.drop_first());
            let (o, last, used) = pull(next, ls.drop_first());
            assert(ls.skip((used + 1) as int) =~= ls.drop_first().skip(used as int));
        } else {
            assert(records_from(st, texts(ls)) == seq![e->Some_0] + records_from(next, texts(ls)));
            assert((seq![e->Some_0] + records_from(next, texts(ls))).drop_first() =~= records_from(
                next,
                texts(ls),
            ));
        }
    } else {
        assert(texts(ls).len() == 0);
    }
}

} // verus!
