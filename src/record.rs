//! Sequence records and their rendering as wrapped FASTA text.
use vstd::prelude::*;
use vstd::string::*;
use vstd::utf8::encode_utf8;
use crate::text::{chars_of, header_description, header_id, is_space, is_space_char, strip_marker, trim_start, word_len};

verus! {

/// The column at which `Record::as_string` wraps a sequence.
pub const LINE_WIDTH: usize = 80;

/// What a record holds, as character sequences.
pub struct RecordView {
    pub id: Seq<char>,
    pub description: Seq<char>,
    pub sequence: Seq<char>,
}

/// The record that a header line opens: its fields from the header, no sequence yet.
pub open spec fn opened_by(h: Seq<char>) -> RecordView {
    RecordView { id: header_id(h), description: header_description(h), sequence: Seq::empty() }
}

/// The record with no id, no description and no sequence.
pub open spec fn empty_record() -> RecordView {
    RecordView { id: Seq::empty(), description: Seq::empty(), sequence: Seq::empty() }
}

/// `s` cut into lines of `w` characters, each but the last followed by a
/// newline; the last holds what is left (it is empty where `w` divides the
/// length of `s` and `s` is not empty).
pub open spec fn wrapped(s: Seq<char>, w: nat) -> Seq<char>
    decreases s.len(),
{
    if w == 0 || s.len() < w {
        s
    } else {
        s.take(w as int) + seq!['\n'] + wrapped(s.skip(w as int), w)
    }
}

/// The FASTA text of a record: `>{id} {description}`, a newline, the sequence
/// wrapped at `LINE_WIDTH`, and a newline.
pub open spec fn rendered(r: RecordView) -> Seq<char> {
    seq!['>'] + r.id + seq![' '] + r.description + seq!['\n'] + wrapped(r.sequence, LINE_WIDTH as nat)
        + seq!['\n']
}

/// How many characters of the sequence `Record::summary` shows.
pub const SUMMARY_WIDTH: usize = 40;

/// The display text of a record (see `Record::summary`).
pub open spec fn summarized(r: RecordView) -> Seq<char> {
    let k = if r.sequence.len() < SUMMARY_WIDTH { r.sequence.len() as int } else { SUMMARY_WIDTH as int };
    seq!['>'] + r.id + seq![' '] + r.description + seq!['\n'] + r.sequence.take(k) + seq!['.', '.', '.']
}

/// A single FASTA record.
#[derive(Debug, Clone, Default)]
pub struct Record {
    pub id: String,
    pub description: String,
    pub sequence: String,
}

impl View for Record {
    type V = RecordView;

    open spec fn view(&self) -> RecordView {
        RecordView { id: self.id@, description: self.description@, sequence: self.sequence@ }
    }
}

/// Relies on `String: FromIterator<char>`: collecting characters gives the
/// string of exactly those characters, in order.
#[verifier::external_body]
fn string_from_chars(v: &Vec<char>) -> (r: String)
    ensures
        r@ == v@,
{
    v.iter().collect()
}

/// Appends `v@[a..b]` to `out`.
fn push_range(out: &mut Vec<char>, v: &Vec<char>, a: usize, b: usize)
    requires
        a <= b <= v.len(),
    ensures
        final(out)@ == old(out)@ + v@.subrange(a as int, b as int),
{
    let mut j: usize = a;
    while j < b
        invariant
            a <= j <= b <= v.len(),
            out@ == old(out)@ + v@.subrange(a as int, j as int),
        decreases b - j,
    {
        out.push(v[j]);
        assert(v@.subrange(a as int, j + 1) =~= v@.subrange(a as int, j as int).push(v@[j as int]));
        j = j + 1;
    }
}

/// `s` cut into lines of `w` characters (see `wrapped`).
pub fn wrap_string(s: &str, w: usize) -> (r: String)
    requires
        w > 0,
    ensures
        r@ == wrapped(s@, w as nat),
{
    let v = chars_of(s);
    let n = v.len();
    let mut out: Vec<char> = Vec::new();
    let mut i: usize = 0;
    assert(v@.skip(0) =~= v@);
    while n - i >= w
        invariant
            i <= n == v.len(),
            w > 0,
            out@ + wrapped(v@.skip(i as int), w as nat) == wrapped(s@, w as nat),
        decreases n - i,
    {
        let ghost rest = v@.skip(i as int);
        push_range(&mut out, &v, i, i + w);
        out.push('\n');
        assert(rest.take(w as int) =~= v@.subrange(i as int, i + w));
        assert(rest.skip(w as int) =~= v@.skip(i + w));
        i = i + w;
    }
    let ghost rest = v@.skip(i as int);
    push_range(&mut out, &v, i, n);
    assert(v@.subrange(i as int, n as int) =~= rest);
    string_from_chars(&out)
}

impl Record {
    /// A record with an empty id, description and sequence.
    pub fn new() -> (r: Record)
        ensures
            r@ == empty_record(),
    {
        Record { id: String::new(), description: String::new(), sequence: String::new() }
    }

    /// Sets the id and description from a header line, with or without its
    /// leading `>`: the id runs up to the first whitespace, the description
    /// is what follows that whitespace run. The sequence is kept.
    pub fn set_header(&mut self, s: &str)
        ensures
            final(self)@.id == header_id(s@),
            final(self)@.description == header_description(s@),
            final(self)@.sequence == old(self)@.sequence,
    {
        let v = chars_of(s);
        let n = v.len();
        let st: usize = if n > 0 && v[0] == '>' { 1 } else { 0 };
        let ghost g = v@.subrange(st as int, n as int);
        assert(g =~= strip_marker(s@));
        let mut k: usize = st;
        assert(v@.subrange(k as int, n as int) =~= g);
        while k < n && !is_space_char(v[k])
            invariant
                st <= k <= n == v.len(),
                g == v@.subrange(st as int, n as int),
                word_len(g) == (k - st) + word_len(v@.subrange(k as int, n as int)),
                forall|i: int| st <= i < k ==> !is_space(#[trigger] v@[i]),
            decreases n - k,
        {
            assert(v@.subrange(k as int, n as int).drop_first() =~= v@.subrange(k + 1, n as int));
            k = k + 1;
        }
        let ghost wl = word_len(g);
        assert(wl == k - st);
        let mut d: usize = k;
        assert(g.skip(wl as int) =~= v@.subrange(k as int, n as int));
        while d < n && is_space_char(v[d])
            invariant
                k <= d <= n == v.len(),
                trim_start(g.skip(wl as int)) == trim_start(v@.subrange(d as int, n as int)),
            decreases n - d,
        {
            assert(v@.subrange(d as int, n as int).drop_first() =~= v@.subrange(d + 1, n as int));
            d = d + 1;
        }
        assert(trim_start(v@.subrange(d as int, n as int)) == v@.subrange(d as int, n as int));
        assert(g.take(wl as int) =~= v@.subrange(st as int, k as int));
        self.id = s.substring_char(st, k).to_owned();
        self.description = s.substring_char(d, n).to_owned();
    }

    /// The record as FASTA text (see `rendered`).
    pub fn as_string(&self) -> (r: String)
        ensures
            r@ == rendered(self@),
    {
        let wrapped_seq = wrap_string(self.sequence.as_str(), LINE_WIDTH);
        let mut r = ">".to_owned();
        r.append(self.id.as_str());
        r.append(" ");
        r.append(self.description.as_str());
        r.append("\n");
        r.append(wrapped_seq.as_str());
        r.append("\n");
        proof {
            reveal_strlit(">");
            reveal_strlit(" ");
            reveal_strlit("\n");
        }
        assert(r@ =~= rendered(self@));
        r
    }

    /// A short text for display: `>{id} {description}`, a newline, the first
    /// `SUMMARY_WIDTH` characters of the sequence (all of it if shorter), and
    /// `...`.
    pub fn summary(&self) -> (r: String)
        ensures
            r@ == summarized(self@),
    {
        let v = chars_of(self.sequence.as_str());
        let k: usize = if v.len() < SUMMARY_WIDTH { v.len() } else { SUMMARY_WIDTH };
        let mut r = ">".to_owned();
        r.append(self.id.as_str());
        r.append(" ");
        r.append(self.description.as_str());
        r.append("\n");
        r.append(self.sequence.as_str().substring_char(0, k));
        r.append("...");
        proof {
            reveal_strlit(">");
            reveal_strlit(" ");
            reveal_strlit("\n");
            reveal_strlit("...");
        }
        assert(r@ =~= summarized(self@));
        r
    }

    /// Appends the UTF-8 bytes of the record's FASTA text to `w`.
    pub fn write(&self, w: &mut Vec<u8>)
        ensures
            final(w)@ == old(w)@ + encode_utf8(rendered(self@)),
    {
        let s = self.as_string();
        w.extend_from_slice(s.as_str().as_bytes());
    }
}

} // verus!
