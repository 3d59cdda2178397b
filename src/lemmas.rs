//! Laws of the parser and of rendering.
use vstd::prelude::*;
use crate::parser::{idle, parse_lines, records_from, step, ParserView};
use crate::record::{opened_by, rendered, wrapped, RecordView, LINE_WIDTH};
use crate::text::{header_description, header_id, is_space, kind_of, strip_marker, trim, trim_end, trim_start, word_len, LineKind};

verus! {

/// Input in which no line is a header gives no record.
pub proof fn lemma_no_header_no_records(ls: Seq<Seq<char>>)
    requires
        forall|i: int| 0 <= i < ls.len() ==> kind_of(trim(#[trigger] ls[i])) != LineKind::Header,
    ensures
        parse_lines(ls) == Seq::<RecordView>::empty(),
{
    lemma_idle_without_header(idle(), ls);
}

proof fn lemma_idle_without_header(st: ParserView, ls: Seq<Seq<char>>)
    requires
        !st.active,
        forall|i: int| 0 <= i < ls.len() ==> kind_of(trim(#[trigger] ls[i])) != LineKind::Header,
    ensures
        records_from(st, ls) == Seq::<RecordView>::empty(),
    decreases ls.len(),
{
    if ls.len() > 0 {
        assert(kind_of(trim(ls[0])) != LineKind::Header);
        lemma_idle_without_header(st, ls.drop_first());
    }
}

/// A comment line or a blank line, wherever it stands, changes nothing: the
/// records are those of the input without it.
pub proof fn lemma_skip_line_ignored(pre: Seq<Seq<char>>, l: Seq<char>, post: Seq<Seq<char>>)
    requires
        kind_of(trim(l)) == LineKind::Skip,
    ensures
        parse_lines(pre + seq![l] + post) == parse_lines(pre + post),
{
    lemma_skip_line_ignored_from(idle(), pre, l, post);
}

proof fn lemma_skip_line_ignored_from(
    st: ParserView,
    pre: Seq<Seq<char>>,
    l: Seq<char>,
    post: Seq<Seq<char>>,
)
    requires
        kind_of(trim(l)) == LineKind::Skip,
    ensures
        records_from(st, pre + seq![l] + post) == records_from(st, pre + post),
    decreases pre.len(), if st.active { 1int } else { 0int },
{
    let a = pre + seq![l] + post;
    let b = pre + post;
    if pre.len() == 0 {
        assert(a[0] == l);
        assert(a.drop_first() =~= b);
    } else {
        assert(a[0] == pre[0]);
        assert(b[0] == pre[0]);
        let (e, next) = step(st, trim(pre[0]));
        if e is Some {
            lemma_skip_line_ignored_from(next, pre, l, post);
        } else {
            assert(a.drop_first() =~= pre.drop_first() + seq![l] + post);
            assert(b.drop_first() =~= pre.drop_first() + post);
            lemma_skip_line_ignored_from(next, pre.drop_first(), l, post);
        }
    }
}

/// Input that ends with a header line ends with the record that header
/// opens, with an empty sequence.
pub proof fn lemma_trailing_header(ls: Seq<Seq<char>>, h: Seq<char>)
    requires
        kind_of(trim(h)) == LineKind::Header,
    ensures
        parse_lines(ls.push(h)).len() > 0,
        parse_lines(ls.push(h)).last() == opened_by(trim(h)),
        parse_lines(ls.push(h)).last().sequence.len() == 0,
{
    lemma_trailing_header_from(idle(), ls, h);
}

proof fn lemma_trailing_header_from(st: ParserView, ls: Seq<Seq<char>>, h: Seq<char>)
    requires
        kind_of(trim(h)) == LineKind::Header,
    ensures
        records_from(st, ls.push(h)).len() > 0,
        records_from(st, ls.push(h)).last() == opened_by(trim(h)),
    decreases ls.len(), if st.active { 1int } else { 0int },
{
    let a = ls.push(h);
    assert(a[0] == if ls.len() == 0 { h } else { ls[0] });
    let (e, next) = step(st, trim(a[0]));
    if e is Some {
        lemma_trailing_header_from(next, ls, h);
        let rest = records_from(next, a);
        assert(records_from(st, a) == seq![e->Some_0] + rest);
        assert((seq![e->Some_0] + rest).last() == rest.last());
    } else if ls.len() == 0 {
        assert(a.drop_first() =~= Seq::<Seq<char>>::empty());
        assert(next == ParserView { active: true, record: opened_by(trim(h)) });
        assert(records_from(next, a.drop_first()) == seq![next.record]);
    } else {
        assert(a.drop_first() =~= ls.drop_first().push(h));
        lemma_trailing_header_from(next, ls.drop_first(), h);
    }
}

/// The lines of a sequence wrapped at width `w` (see `wrapped`).
pub open spec fn chunks(s: Seq<char>, w: nat) -> Seq<Seq<char>>
    decreases s.len(),
{
    if w == 0 || s.len() < w {
        seq![s]
    } else {
        seq![s.take(w as int)] + chunks(s.skip(w as int), w)
    }
}

/// Lines, each followed by a newline.
pub open spec fn joined(ls: Seq<Seq<char>>) -> Seq<char>
    decreases ls.len(),
{
    if ls.len() == 0 {
        Seq::empty()
    } else {
        ls[0] + seq!['\n'] + joined(ls.drop_first())
    }
}

/// Lines, concatenated.
pub open spec fn concat(ls: Seq<Seq<char>>) -> Seq<char>
    decreases ls.len(),
{
    if ls.len() == 0 {
        Seq::empty()
    } else {
        ls[0] + concat(ls.drop_first())
    }
}

/// The header line of a record's text.
pub open spec fn header_line(r: RecordView) -> Seq<char> {
    seq!['>'] + r.id + seq![' '] + r.description
}

/// The lines of a record's text: the header, then the wrapped sequence.
pub open spec fn rendered_lines(r: RecordView) -> Seq<Seq<char>> {
    seq![header_line(r)] + chunks(r.sequence, LINE_WIDTH as nat)
}

/// A record whose text is read back as the same record: the id holds no
/// whitespace, the description none at either end, and each line of the
/// wrapped sequence is its own trim and is sequence data or empty.
pub open spec fn reads_back(r: RecordView) -> bool {
    &&& forall|i: int| 0 <= i < r.id.len() ==> !is_space(#[trigger] r.id[i])
    &&& trim(r.description) == r.description
    &&& forall|i: int|
        0 <= i < chunks(r.sequence, LINE_WIDTH as nat).len() ==> {
            let c = #[trigger] chunks(r.sequence, LINE_WIDTH as nat)[i];
            trim(c) == c && (c.len() == 0 || kind_of(c) == LineKind::Residues)
        }
}

/// Rendering a record and parsing its lines again gives the same record: the
/// wrapping of the sequence is gone. The text of `rendered` is the lines of
/// `rendered_lines`, each ended by a newline.
pub proof fn lemma_round_trip(r: RecordView)
    requires
        reads_back(r),
    ensures
        joined(rendered_lines(r)) == rendered(r),
        parse_lines(rendered_lines(r)) == seq![r],
{
    let w = LINE_WIDTH as nat;
    let ls = rendered_lines(r);
    lemma_wrapped_lines(r.sequence, w);
    assert(ls.drop_first() =~= chunks(r.sequence, w));
    assert(joined(ls) == header_line(r) + seq!['\n'] + joined(chunks(r.sequence, w)));
    assert(joined(ls) =~= rendered(r));
    let hl = header_line(r);
    lemma_header_reads_back(r);
    let st = ParserView { active: true, record: opened_by(trim(hl)) };
    assert(ls[0] == hl);
    assert(records_from(idle(), ls) == records_from(st, chunks(r.sequence, w)));
    lemma_residue_lines(st.record, chunks(r.sequence, w));
    lemma_concat_chunks(r.sequence, w);
    assert(RecordView { sequence: st.record.sequence + concat(chunks(r.sequence, w)), ..st.record }
        =~= r);
}

proof fn lemma_wrapped_lines(s: Seq<char>, w: nat)
    ensures
        wrapped(s, w) + seq!['\n'] == joined(chunks(s, w)),
    decreases s.len(),
{
    if w == 0 || s.len() < w {
        assert(chunks(s, w) == seq![s]);
        assert(chunks(s, w).drop_first() =~= Seq::<Seq<char>>::empty());
        assert(joined(Seq::<Seq<char>>::empty()) == Seq::<char>::empty());
        assert(joined(chunks(s, w)) =~= s + seq!['\n']);
    } else {
        lemma_wrapped_lines(s.skip(w as int), w);
        assert(chunks(s, w).drop_first() =~= chunks(s.skip(w as int), w));
        assert(wrapped(s, w) + seq!['\n'] =~= joined(chunks(s, w)));
    }
}

proof fn lemma_concat_chunks(s: Seq<char>, w: nat)
    ensures
        concat(chunks(s, w)) == s,
    decreases s.len(),
{
    if w == 0 || s.len() < w {
        assert(chunks(s, w) == seq![s]);
        assert(chunks(s, w).drop_first() =~= Seq::<Seq<char>>::empty());
        assert(concat(Seq::<Seq<char>>::empty()) == Seq::<char>::empty());
        assert(concat(chunks(s, w)) =~= s);
    } else {
        lemma_concat_chunks(s.skip(w as int), w);
        assert(chunks(s, w).drop_first() =~= chunks(s.skip(w as int), w));
        assert(concat(chunks(s, w)) =~= s);
    }
}

/// Lines that are their own trim and are sequence data or empty extend the
/// open record by their concatenation.
proof fn lemma_residue_lines(rv: RecordView, ls: Seq<Seq<char>>)
    requires
        forall|i: int|
            0 <= i < ls.len() ==> trim(#[trigger] ls[i]) == ls[i] && (ls[i].len() == 0 || kind_of(
                ls[i],
            ) == LineKind::Residues),
    ensures
        records_from(ParserView { active: true, record: rv }, ls) == seq![
            RecordView { sequence: rv.sequence + concat(ls), ..rv },
        ],
    decreases ls.len(),
{
    if ls.len() == 0 {
        assert(rv.sequence + concat(ls) =~= rv.sequence);
    } else {
        let c = ls[0];
        assert(trim(c) == c);
        let next_rv = if c.len() == 0 { rv } else { RecordView { sequence: rv.sequence + c, ..rv } };
        lemma_residue_lines(next_rv, ls.drop_first());
        assert(rv.sequence + concat(ls) =~= next_rv.sequence + concat(ls.drop_first()));
    }
}

proof fn lemma_trim_start_len(s: Seq<char>)
    ensures
        trim_start(s).len() <= s.len(),
        trim_start(s).len() == s.len() ==> trim_start(s) == s,
    decreases s.len(),
{
    if s.len() > 0 && is_space(s[0]) {
        lemma_trim_start_len(s.drop_first());
    }
}

proof fn lemma_trim_end_len(s: Seq<char>)
    ensures
        trim_end(s).len() <= s.len(),
        trim_end(s).len() == s.len() ==> trim_end(s) == s,
    decreases s.len(),
{
    if s.len() > 0 && is_space(s.last()) {
        lemma_trim_end_len(s.drop_last());
    }
}

/// A non-empty sequence that is its own trim has no whitespace at either end.
proof fn lemma_trimmed_ends(d: Seq<char>)
    requires
        trim(d) == d,
        d.len() > 0,
    ensures
        !is_space(d[0]),
        !is_space(d.last()),
{
    lemma_trim_start_len(d);
    lemma_trim_end_len(trim_start(d));
    if is_space(d[0]) {
        lemma_trim_start_len(d.drop_first());
        assert(false);
    }
    assert(trim_start(d) == d);
    if is_space(d.last()) {
        lemma_trim_end_len(d.drop_last());
        assert(false);
    }
}

proof fn lemma_word_len(id: Seq<char>, rest: Seq<char>)
    requires
        forall|i: int| 0 <= i < id.len() ==> !is_space(#[trigger] id[i]),
        rest.len() == 0 || is_space(rest[0]),
    ensures
        word_len(id + rest) == id.len(),
    decreases id.len(),
{
    if id.len() > 0 {
        assert((id + rest)[0] == id[0]);
        assert((id + rest).drop_first() =~= id.drop_first() + rest);
        lemma_word_len(id.drop_first(), rest);
    } else {
        assert(id + rest =~= rest);
    }
}

/// The header line of a record that reads back opens a record with its id
/// and description.
proof fn lemma_header_reads_back(r: RecordView)
    requires
        reads_back(r),
    ensures
        kind_of(trim(header_line(r))) == LineKind::Header,
        opened_by(trim(header_line(r))) == (RecordView {
            id: r.id,
            description: r.description,
            sequence: Seq::empty(),
        }),
{
    let hl = header_line(r);
    assert(hl[0] == '>');
    assert(trim_start(hl) == hl);
    let body = if r.description.len() == 0 { r.id } else { r.id + seq![' '] + r.description };
    let t = seq!['>'] + body;
    if r.description.len() == 0 {
        assert(hl.drop_last() =~= t);
        assert(hl.last() == ' ');
        assert(t.last() == if r.id.len() == 0 { '>' } else { r.id.last() });
        assert(trim_end(t) == t);
        assert(trim(hl) == t);
        assert(t.drop_first() =~= r.id + Seq::<char>::empty());
        lemma_word_len(r.id, Seq::empty());
        assert(strip_marker(t).skip(r.id.len() as int) =~= Seq::<char>::empty());
        assert(strip_marker(t).take(r.id.len() as int) =~= r.id);
        assert(header_id(t) == r.id);
        assert(trim_start(Seq::<char>::empty()) == Seq::<char>::empty());
        assert(header_description(t) == r.description);
    } else {
        lemma_trimmed_ends(r.description);
        assert(hl =~= t);
        assert(hl.last() == r.description.last());
        assert(trim_end(hl) == hl);
        assert(trim(hl) == t);
        let rest = seq![' '] + r.description;
        assert(t.drop_first() =~= r.id + rest);
        lemma_word_len(r.id, rest);
        assert(strip_marker(t).skip(r.id.len() as int) =~= rest);
        assert(strip_marker(t).take(r.id.len() as int) =~= r.id);
        assert(rest.drop_first() =~= r.description);
        assert(trim_start(r.description) == r.description);
        assert(header_description(t) == r.description);
    }
}

} // verus!
