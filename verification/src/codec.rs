//! The line-stream codec: lossless decomposition of a byte buffer into line
//! records (content plus terminating delimiter, if any), classification of
//! the delimiter kinds present, and re-serialization with a uniform target
//! delimiter.

use vstd::prelude::*;

use crate::delim::{delim_bytes, Delim, DelimSet, CR_BYTE, LF_BYTE};

verus! {

/// Model of one line record: its content bytes and its terminator, if any.
///
/// A `None` terminator is possible only for the last record of a buffer's
/// decomposition, and marks a buffer that does not end with a delimiter.
#[verifier::ext_equal]
pub struct Rec {
    pub text: Seq<u8>,
    pub end: Option<Delim>,
}

/// `rs` with `t` prepended to the content of its first record.
pub open spec fn prepend_text(t: Seq<u8>, rs: Seq<Rec>) -> Seq<Rec>
    recommends
        rs.len() > 0,
{
    rs.update(0, Rec { text: t + rs[0].text, end: rs[0].end })
}

/// Decomposition of a byte buffer into line records, scanning left to right
/// with longest-match-first recognition: `\r\n` is one CRLF terminator, never
/// a CR followed by an LF. The in-progress line is always closed with a
/// `None` terminator at the end of the buffer, so an empty buffer yields one
/// record with empty content.
pub open spec fn parse(b: Seq<u8>) -> Seq<Rec>
    decreases b.len(),
{
    if b.len() == 0 {
        seq![Rec { text: Seq::empty(), end: None }]
    } else if b.len() >= 2 && b[0] == CR_BYTE && b[1] == LF_BYTE {
        seq![Rec { text: Seq::empty(), end: Some(Delim::CRLF) }] + parse(b.skip(2))
    } else if b[0] == LF_BYTE {
        seq![Rec { text: Seq::empty(), end: Some(Delim::LF) }] + parse(b.skip(1))
    } else if b[0] == CR_BYTE {
        seq![Rec { text: Seq::empty(), end: Some(Delim::CR) }] + parse(b.skip(1))
    } else {
        prepend_text(seq![b[0]], parse(b.skip(1)))
    }
}

/// The bytes one record contributes when re-serialized with the uniform
/// target delimiter `d`: its content, then `d`'s encoding if the record had
/// any terminator at all, nothing more if it had none.
pub open spec fn rec_bytes(r: Rec, d: Delim) -> Seq<u8> {
    r.text + (match r.end {
        Some(_) => delim_bytes(d),
        None => Seq::empty(),
    })
}

/// Re-serialization of a record sequence with the uniform target delimiter
/// `d`: every record that had some terminator gets `d`'s encoding instead,
/// and a record without one stays without one.
pub open spec fn serialize(rs: Seq<Rec>, d: Delim) -> Seq<u8>
    decreases rs.len(),
{
    if rs.len() == 0 {
        Seq::empty()
    } else {
        rec_bytes(rs[0], d) + serialize(rs.skip(1), d)
    }
}

/// The bytes one record stood for in the source buffer: its content, then
/// its own terminator's encoding, if it had one.
pub open spec fn orig_rec_bytes(r: Rec) -> Seq<u8> {
    r.text + (match r.end {
        Some(e) => delim_bytes(e),
        None => Seq::empty(),
    })
}

/// Reassembly of a record sequence with each record's own terminator: the
/// source buffer the records were decomposed from.
pub open spec fn unparse(rs: Seq<Rec>) -> Seq<u8>
    decreases rs.len(),
{
    if rs.len() == 0 {
        Seq::empty()
    } else {
        orig_rec_bytes(rs[0]) + unparse(rs.skip(1))
    }
}

/// The set of delimiter kinds appearing as terminators across `rs`; `None`
/// terminators contribute nothing.
pub open spec fn delims_of(rs: Seq<Rec>) -> Set<Delim> {
    Set::new(|d: Delim| exists|i: int| 0 <= i < rs.len() && rs[i].end == Some(d))
}

/// Content bytes free of both delimiter bytes: what a record's content may
/// hold, since any `\n` or `\r` would have been consumed as a terminator.
pub open spec fn text_clean(t: Seq<u8>) -> bool {
    forall|i: int| 0 <= i < t.len() ==> t[i] != LF_BYTE && t[i] != CR_BYTE
}

/// Well-formedness of a decomposition: at least one record, every record but
/// the last terminated, the last unterminated, and every content free of
/// delimiter bytes.
pub open spec fn wf(rs: Seq<Rec>) -> bool {
    &&& rs.len() >= 1
    &&& rs.last().end is None
    &&& forall|i: int| 0 <= i < rs.len() - 1 ==> (#[trigger] rs[i]).end is Some
    &&& forall|i: int| 0 <= i < rs.len() ==> text_clean((#[trigger] rs[i]).text)
}

/// One logical line as found in a source buffer: its content bytes and the
/// delimiter that terminated it, if any.
#[derive(Debug, PartialEq)]
pub struct Line {
    pub text: Vec<u8>,
    pub line_end: Option<Delim>,
}

impl View for Line {
    type V = Rec;

    open spec fn view(&self) -> Rec {
        Rec { text: self.text@, end: self.line_end }
    }
}

impl Line {
    /// An empty, unterminated line.
    pub fn new() -> (r: Line)
        ensures
            r.text@ == Seq::<u8>::empty(),
            r.line_end is None,
    {
        Line { text: Vec::new(), line_end: None }
    }

    /// Append to `out` the bytes this line contributes when re-serialized
    /// with the uniform target delimiter `delim`: its content verbatim, then
    /// `delim`'s encoding if the line had any terminator at all.
    pub fn write_to(&self, out: &mut Vec<u8>, delim: Delim)
        ensures
            final(out)@ == old(out)@ + rec_bytes(self@, delim),
    {
        let ghost entry = out@;
        let m = self.text.len();
        let mut j: usize = 0;
        while j < m
            invariant
                j <= m,
                m == self.text@.len(),
                out@ == entry + self.text@.take(j as int),
            decreases m - j,
        {
            out.push(self.text[j]);
            proof {
                assert(self.text@.take(j as int).push(self.text@[j as int]) =~= self.text@.take(
                    j as int + 1,
                ));
            }
            j = j + 1;
        }
        proof {
            assert(self.text@.take(m as int) =~= self.text@);
        }
        match self.line_end {
            Some(_) => {
                delim.write_to(out);
                proof {
                    assert(out@ =~= entry + rec_bytes(self@, delim));
                }
            },
            None => {
                proof {
                    assert(self.text@ + Seq::<u8>::empty() =~= self.text@);
                }
            },
        }
    }
}

/// The full decomposition of one file's bytes: an ordered sequence of line
/// records.
#[derive(Debug, PartialEq)]
pub struct FileContents {
    pub lines: Vec<Line>,
}

impl View for FileContents {
    type V = Seq<Rec>;

    open spec fn view(&self) -> Seq<Rec> {
        self.lines@.map_values(|l: Line| l@)
    }
}

impl FileContents {
    /// Decompose `bytes` into line records, as `parse` describes: scanning
    /// strictly left to right, recognizing `\r\n` before `\r`, and closing
    /// the final in-progress line with no terminator.
    pub fn from_bytes(bytes: &[u8]) -> (r: FileContents)
        ensures
            r@ == parse(bytes@),
    {
        let n = bytes.len();
        let mut lines: Vec<Line> = Vec::new();
        let mut cur = Line::new();
        let mut i: usize = 0;
        proof {
            assert(bytes@.skip(0) =~= bytes@);
            lemma_parse_nonempty(bytes@);
            lemma_prepend_empty(parse(bytes@));
            assert(lines@.map_values(|l: Line| l@) =~= Seq::<Rec>::empty());
            assert(Seq::<Rec>::empty() + parse(bytes@) =~= parse(bytes@));
        }
        while i < n
            invariant
                i <= n,
                n == bytes@.len(),
                cur.line_end is None,
                parse(bytes@) == lines@.map_values(|l: Line| l@) + prepend_text(
                    cur.text@,
                    parse(bytes@.skip(i as int)),
                ),
            decreases n - i,
        {
            let ghost prev_lines = lines@.map_values(|l: Line| l@);
            let ghost rest = bytes@.skip(i as int);
            proof {
                lemma_parse_nonempty(rest);
                assert(rest.len() == n - i);
                assert(rest[0] == bytes@[i as int]);
                if i + 1 < n {
                    assert(rest[1] == bytes@[i as int + 1]);
                }
            }
            if i + 1 < n && bytes[i] == CR_BYTE && bytes[i + 1] == LF_BYTE {
                cur.line_end = Some(Delim::CRLF);
                lines.push(cur);
                cur = Line::new();
                proof {
                    let ghost tail = bytes@.skip(i as int + 2);
                    assert(rest.skip(2) =~= tail);
                    assert(parse(rest) == seq![
                        Rec { text: Seq::empty(), end: Some(Delim::CRLF) },
                    ] + parse(tail));
                    lemma_parse_nonempty(tail);
                    let t = lines@[lines@.len() - 1]@.text;
                    assert(prepend_text(t, parse(rest)) =~~= seq![
                        Rec { text: t, end: Some(Delim::CRLF) },
                    ] + parse(tail));
                    lemma_prepend_empty(parse(tail));
                    assert(lines@.map_values(|l: Line| l@) =~= prev_lines.push(
                        Rec { text: t, end: Some(Delim::CRLF) },
                    ));
                    assert(prev_lines + prepend_text(t, parse(rest)) =~= lines@.map_values(
                        |l: Line| l@,
                    ) + prepend_text(cur.text@, parse(tail)));
                }
                i = i + 2;
            } else if bytes[i] == LF_BYTE {
                cur.line_end = Some(Delim::LF);
                lines.push(cur);
                cur = Line::new();
                proof {
                    let ghost tail = bytes@.skip(i as int + 1);
                    assert(rest.skip(1) =~= tail);
                    assert(!(rest.len() >= 2 && rest[0] == CR_BYTE && rest[1] == LF_BYTE));
                    assert(parse(rest) == seq![Rec { text: Seq::empty(), end: Some(Delim::LF) }]
                        + parse(tail));
                    lemma_parse_nonempty(tail);
                    let t = lines@[lines@.len() - 1]@.text;
                    assert(prepend_text(t, parse(rest)) =~~= seq![
                        Rec { text: t, end: Some(Delim::LF) },
                    ] + parse(tail));
                    lemma_prepend_empty(parse(tail));
                    assert(lines@.map_values(|l: Line| l@) =~= prev_lines.push(
                        Rec { text: t, end: Some(Delim::LF) },
                    ));
                    assert(prev_lines + prepend_text(t, parse(rest)) =~= lines@.map_values(
                        |l: Line| l@,
                    ) + prepend_text(cur.text@, parse(tail)));
                }
                i = i + 1;
            } else if bytes[i] == CR_BYTE {
                cur.line_end = Some(Delim::CR);
                lines.push(cur);
                cur = Line::new();
                proof {
                    let ghost tail = bytes@.skip(i as int + 1);
                    assert(rest.skip(1) =~= tail);
                    assert(!(rest.len() >= 2 && rest[0] == CR_BYTE && rest[1] == LF_BYTE));
                    assert(parse(rest) == seq![Rec { text: Seq::empty(), end: Some(Delim::CR) }]
                        + parse(tail));
                    lemma_parse_nonempty(tail);
                    let t = lines@[lines@.len() - 1]@.text;
                    assert(prepend_text(t, parse(rest)) =~~= seq![
                        Rec { text: t, end: Some(Delim::CR) },
                    ] + parse(tail));
                    lemma_prepend_empty(parse(tail));
                    assert(lines@.map_values(|l: Line| l@) =~= prev_lines.push(
                        Rec { text: t, end: Some(Delim::CR) },
                    ));
                    assert(prev_lines + prepend_text(t, parse(rest)) =~= lines@.map_values(
                        |l: Line| l@,
                    ) + prepend_text(cur.text@, parse(tail)));
                }
                i = i + 1;
            } else {
                let ghost old_text = cur.text@;
                cur.text.push(bytes[i]);
                proof {
                    let ghost tail = bytes@.skip(i as int + 1);
                    assert(rest.skip(1) =~= tail);
                    assert(parse(rest) == prepend_text(seq![rest[0]], parse(tail)));
                    lemma_parse_nonempty(tail);
                    lemma_prepend_prepend(old_text, seq![rest[0]], parse(tail));
                    assert(old_text + seq![rest[0]] =~= cur.text@);
                }
                i = i + 1;
            }
        }
        proof {
            assert(bytes@.skip(n as int) =~= Seq::<u8>::empty());
            assert(parse(bytes@.skip(n as int)) == seq![Rec { text: Seq::empty(), end: None }]);
            assert(prepend_text(cur.text@, seq![Rec { text: Seq::empty(), end: None }]) =~~= seq![
                Rec { text: cur.text@, end: None },
            ]);
        }
        let ghost prev_lines = lines@.map_values(|l: Line| l@);
        lines.push(cur);
        let r = FileContents { lines };
        proof {
            assert(r@ =~= prev_lines.push(Rec { text: r.lines@[r.lines@.len() - 1]@.text, end: None }));
            assert(r@ =~= parse(bytes@));
        }
        r
    }

    /// The set of distinct delimiter kinds appearing as terminators across
    /// this file's line records.
    pub fn delim_types(&self) -> (r: DelimSet)
        ensures
            r@ == delims_of(self@),
    {
        let mut r = DelimSet::empty();
        let n = self.lines.len();
        let mut k: usize = 0;
        while k < n
            invariant
                k <= n,
                n == self.lines@.len(),
                forall|d: Delim| #[trigger] r@.contains(d) <==> exists|i: int|
                    0 <= i < k && self.lines@[i]@.end == Some(d),
            decreases n - k,
        {
            let ghost prev = r@;
            match self.lines[k].line_end {
                Some(d) => {
                    r.insert(d);
                    proof {
                        assert forall|e: Delim| #[trigger] r@.contains(e) implies exists|i: int|
                            0 <= i < k + 1 && self.lines@[i]@.end == Some(e) by {
                            if e == d {
                                assert(self.lines@[k as int]@.end == Some(e));
                            } else {
                                let i = choose|i: int|
                                    0 <= i < k && self.lines@[i]@.end == Some(e);
                                assert(0 <= i < k + 1 && self.lines@[i]@.end == Some(e));
                            }
                        }
                        assert forall|e: Delim|
                            (exists|i: int|
                                0 <= i < k + 1 && self.lines@[i]@.end == Some(e)) implies #[trigger] r@.contains(e) by {
                            let i = choose|i: int|
                                0 <= i < k + 1 && self.lines@[i]@.end == Some(e);
                            if i < k {
                                assert(prev.contains(e));
                            } else {
                                assert(e == d);
                            }
                        }
                    }
                },
                None => {
                    proof {
                        assert forall|e: Delim|
                            (exists|i: int|
                                0 <= i < k + 1 && self.lines@[i]@.end == Some(e)) implies #[trigger] r@.contains(e) by {
                            let i = choose|i: int|
                                0 <= i < k + 1 && self.lines@[i]@.end == Some(e);
                            assert(0 <= i < k && self.lines@[i]@.end == Some(e));
                        }
                    }
                },
            }
            k = k + 1;
        }
        proof {
            assert(self@.len() == self.lines@.len());
            assert(forall|i: int| 0 <= i < self@.len() ==> #[trigger] self@[i] == self.lines@[i]@);
            assert forall|d: Delim| #[trigger] r@.contains(d) implies delims_of(self@).contains(
                d,
            ) by {
                let i = choose|i: int| 0 <= i < n && self.lines@[i]@.end == Some(d);
                assert(self@[i].end == Some(d));
            }
            assert forall|d: Delim| delims_of(self@).contains(d) implies #[trigger] r@.contains(
                d,
            ) by {
                let i = choose|i: int| 0 <= i < self@.len() && self@[i].end == Some(d);
                assert(self.lines@[i]@.end == Some(d));
            }
            assert(r@ =~= delims_of(self@));
        }
        r
    }

    /// Append to `out` the re-serialization of this file's records with the
    /// uniform target delimiter `delim`: every content verbatim and in order,
    /// every present terminator replaced by `delim`, an absent terminator
    /// (the trailing unterminated line) left absent.
    pub fn write_to(&self, out: &mut Vec<u8>, delim: Delim)
        ensures
            final(out)@ == old(out)@ + serialize(self@, delim),
    {
        let ghost entry = out@;
        let n = self.lines.len();
        let mut k: usize = 0;
        proof {
            assert(self@.take(0) =~= Seq::<Rec>::empty());
            assert(entry + Seq::<u8>::empty() =~= entry);
        }
        while k < n
            invariant
                k <= n,
                n == self.lines@.len(),
                out@ == entry + serialize(self@.take(k as int), delim),
            decreases n - k,
        {
            self.lines[k].write_to(out, delim);
            proof {
                assert(self@.take(k as int + 1) =~= self@.take(k as int).push(
                    self.lines@[k as int]@,
                ));
                lemma_serialize_push(self@.take(k as int), self.lines@[k as int]@, delim);
                assert(entry + serialize(self@.take(k as int), delim) + rec_bytes(
                    self.lines@[k as int]@,
                    delim,
                ) =~= entry + serialize(self@.take(k as int + 1), delim));
            }
            k = k + 1;
        }
        proof {
            assert(self@.take(n as int) =~= self@);
        }
    }
}

/// Re-serialization emits record by record: appending a record appends its
/// bytes.
pub proof fn lemma_serialize_push(rs: Seq<Rec>, r: Rec, d: Delim)
    ensures
        serialize(rs.push(r), d) == serialize(rs, d) + rec_bytes(r, d),
    decreases rs.len(),
{
    assert(serialize(rs.push(r), d) == rec_bytes(rs.push(r)[0], d) + serialize(
        rs.push(r).skip(1),
        d,
    ));
    if rs.len() == 0 {
        assert(rs.push(r)[0] == r);
        assert(rs.push(r).skip(1) =~= Seq::<Rec>::empty());
        assert(serialize(Seq::<Rec>::empty(), d) == Seq::<u8>::empty());
        assert(rec_bytes(r, d) + Seq::<u8>::empty() =~= rec_bytes(r, d));
        assert(Seq::<u8>::empty() + rec_bytes(r, d) =~= rec_bytes(r, d));
    } else {
        assert(rs.push(r).skip(1) =~= rs.skip(1).push(r));
        lemma_serialize_push(rs.skip(1), r, d);
        assert(rs.push(r)[0] == rs[0]);
        assert(serialize(rs, d) == rec_bytes(rs[0], d) + serialize(rs.skip(1), d));
        assert(rec_bytes(rs[0], d) + (serialize(rs.skip(1), d) + rec_bytes(r, d)) =~= (rec_bytes(
            rs[0],
            d,
        ) + serialize(rs.skip(1), d)) + rec_bytes(r, d));
    }
}

/// A decomposition is never empty: the in-progress line is always closed.
pub proof fn lemma_parse_nonempty(b: Seq<u8>)
    ensures
        parse(b).len() >= 1,
    decreases b.len(),
{
    if b.len() == 0 {
    } else if b.len() >= 2 && b[0] == CR_BYTE && b[1] == LF_BYTE {
        lemma_parse_nonempty(b.skip(2));
    } else if b[0] == LF_BYTE || b[0] == CR_BYTE {
        lemma_parse_nonempty(b.skip(1));
    } else {
        lemma_parse_nonempty(b.skip(1));
    }
}

/// Prepending no bytes changes nothing.
pub proof fn lemma_prepend_empty(rs: Seq<Rec>)
    requires
        rs.len() > 0,
    ensures
        prepend_text(Seq::empty(), rs) == rs,
{
    assert(Seq::<u8>::empty() + rs[0].text =~= rs[0].text);
    assert(prepend_text(Seq::empty(), rs) =~~= rs);
}

/// Two prepends collapse into one.
pub proof fn lemma_prepend_prepend(a: Seq<u8>, b: Seq<u8>, rs: Seq<Rec>)
    requires
        rs.len() > 0,
    ensures
        prepend_text(a, prepend_text(b, rs)) == prepend_text(a + b, rs),
{
    assert(a + (b + rs[0].text) =~= (a + b) + rs[0].text);
    assert(prepend_text(a, prepend_text(b, rs)) =~~= prepend_text(a + b, rs));
}

/// Invariant of every decomposition: at least one record, every record but
/// the last carrying some terminator, the last carrying none, and no content
/// holding a delimiter byte.
pub proof fn lemma_parse_wf(b: Seq<u8>)
    ensures
        wf(parse(b)),
    decreases b.len(),
{
    if b.len() == 0 {
        let rs = parse(b);
        assert(rs.len() == 1);
        assert(rs.last().end is None);
        assert(forall|i: int| 0 <= i < rs.len() ==> text_clean((#[trigger] rs[i]).text));
    } else if b.len() >= 2 && b[0] == CR_BYTE && b[1] == LF_BYTE {
        lemma_parse_wf(b.skip(2));
        lemma_parse_cons_wf(Rec { text: Seq::empty(), end: Some(Delim::CRLF) }, parse(b.skip(2)));
    } else if b[0] == LF_BYTE {
        lemma_parse_wf(b.skip(1));
        lemma_parse_cons_wf(Rec { text: Seq::empty(), end: Some(Delim::LF) }, parse(b.skip(1)));
    } else if b[0] == CR_BYTE {
        lemma_parse_wf(b.skip(1));
        lemma_parse_cons_wf(Rec { text: Seq::empty(), end: Some(Delim::CR) }, parse(b.skip(1)));
    } else {
        lemma_parse_wf(b.skip(1));
        let p = parse(b.skip(1));
        let rs = prepend_text(seq![b[0]], p);
        assert(rs.len() == p.len());
        assert(rs.last().end == p.last().end);
        assert forall|i: int| 0 <= i < rs.len() - 1 implies (#[trigger] rs[i]).end is Some by {
            assert(rs[i].end == p[i].end);
        }
        assert forall|i: int| 0 <= i < rs.len() implies text_clean((#[trigger] rs[i]).text) by {
            if i == 0 {
                let t = seq![b[0]] + p[0].text;
                assert forall|j: int| 0 <= j < t.len() implies t[j] != LF_BYTE && t[j]
                    != CR_BYTE by {
                    if j == 0 {
                        assert(t[0] == b[0]);
                    } else {
                        assert(t[j] == p[0].text[j - 1]);
                        assert(text_clean(p[0].text));
                    }
                }
            } else {
                assert(rs[i].text == p[i].text);
            }
        }
    }
}

/// Helper for `lemma_parse_wf`: prefixing a terminated, clean record onto a
/// well-formed decomposition keeps it well-formed.
proof fn lemma_parse_cons_wf(r: Rec, p: Seq<Rec>)
    requires
        wf(p),
        r.end is Some,
        text_clean(r.text),
    ensures
        wf(seq![r] + p),
{
    let rs = seq![r] + p;
    assert(rs.len() == p.len() + 1);
    assert(rs.last() == p.last());
    assert forall|i: int| 0 <= i < rs.len() - 1 implies (#[trigger] rs[i]).end is Some by {
        if i > 0 {
            assert(rs[i] == p[i - 1]);
        }
    }
    assert forall|i: int| 0 <= i < rs.len() implies text_clean((#[trigger] rs[i]).text) by {
        if i > 0 {
            assert(rs[i] == p[i - 1]);
        }
    }
}

/// Reassembly of a prepended decomposition: the prepended bytes come first.
pub proof fn lemma_unparse_prepend(t: Seq<u8>, rs: Seq<Rec>)
    requires
        rs.len() > 0,
    ensures
        unparse(prepend_text(t, rs)) == t + unparse(rs),
{
    let ps = prepend_text(t, rs);
    assert(ps.len() == rs.len());
    assert(ps.skip(1) =~= rs.skip(1));
    assert(unparse(ps) == orig_rec_bytes(ps[0]) + unparse(ps.skip(1)));
    assert(unparse(rs) == orig_rec_bytes(rs[0]) + unparse(rs.skip(1)));
    assert(orig_rec_bytes(ps[0]) =~= t + orig_rec_bytes(rs[0]));
    assert((t + orig_rec_bytes(rs[0])) + unparse(rs.skip(1)) =~= t + (orig_rec_bytes(rs[0])
        + unparse(rs.skip(1))));
}

/// Byte-exact losslessness of decomposition: reassembling every record with
/// its own terminator yields the source buffer back.
pub proof fn lemma_unparse_parse(b: Seq<u8>)
    ensures
        unparse(parse(b)) == b,
    decreases b.len(),
{
    if b.len() == 0 {
        let rs = parse(b);
        assert(rs.skip(1) =~= Seq::<Rec>::empty());
        assert(unparse(rs) == orig_rec_bytes(rs[0]) + unparse(rs.skip(1)));
        assert(unparse(rs) =~= b);
    } else if b.len() >= 2 && b[0] == CR_BYTE && b[1] == LF_BYTE {
        lemma_unparse_parse(b.skip(2));
        let e = Rec { text: Seq::empty(), end: Some(Delim::CRLF) };
        let p = parse(b.skip(2));
        assert((seq![e] + p).skip(1) =~= p);
        assert(unparse(seq![e] + p) == orig_rec_bytes(e) + unparse(p));
        assert(orig_rec_bytes(e) + b.skip(2) =~= b);
    } else if b[0] == LF_BYTE {
        lemma_unparse_parse(b.skip(1));
        let e = Rec { text: Seq::empty(), end: Some(Delim::LF) };
        let p = parse(b.skip(1));
        assert((seq![e] + p).skip(1) =~= p);
        assert(unparse(seq![e] + p) == orig_rec_bytes(e) + unparse(p));
        assert(orig_rec_bytes(e) + b.skip(1) =~= b);
    } else if b[0] == CR_BYTE {
        lemma_unparse_parse(b.skip(1));
        let e = Rec { text: Seq::empty(), end: Some(Delim::CR) };
        let p = parse(b.skip(1));
        assert((seq![e] + p).skip(1) =~= p);
        assert(unparse(seq![e] + p) == orig_rec_bytes(e) + unparse(p));
        assert(orig_rec_bytes(e) + b.skip(1) =~= b);
    } else {
        lemma_unparse_parse(b.skip(1));
        lemma_parse_nonempty(b.skip(1));
        lemma_unparse_prepend(seq![b[0]], parse(b.skip(1)));
        assert(seq![b[0]] + b.skip(1) =~= b);
    }
}

/// `rs` with every present terminator replaced by `d`: what decomposing a
/// re-serialization with uniform target `d` must yield.
pub open spec fn retarget(rs: Seq<Rec>, d: Delim) -> Seq<Rec> {
    rs.map_values(
        |r: Rec|
            Rec {
                text: r.text,
                end: (match r.end {
                    Some(_) => Some(d),
                    None => None,
                }),
            },
    )
}

/// Decomposing a buffer that starts with delimiter-free bytes puts those
/// bytes at the front of the first record's content.
pub proof fn lemma_parse_text_prefix(t: Seq<u8>, rest: Seq<u8>)
    requires
        text_clean(t),
    ensures
        parse(t + rest) == prepend_text(t, parse(rest)),
    decreases t.len(),
{
    if t.len() == 0 {
        assert(t + rest =~= rest);
        lemma_parse_nonempty(rest);
        lemma_prepend_empty(parse(rest));
    } else {
        let b = t + rest;
        assert(b[0] == t[0]);
        assert(t[0] != LF_BYTE && t[0] != CR_BYTE);
        assert(parse(b) == prepend_text(seq![b[0]], parse(b.skip(1))));
        let t1 = t.skip(1);
        assert(text_clean(t1)) by {
            assert(forall|j: int| 0 <= j < t1.len() ==> #[trigger] t1[j] == t[j + 1]);
        }
        assert(b.skip(1) =~= t1 + rest);
        lemma_parse_text_prefix(t1, rest);
        lemma_parse_nonempty(rest);
        lemma_parse_nonempty(t1 + rest);
        lemma_prepend_prepend(seq![b[0]], t1, parse(rest));
        assert(seq![t[0]] + t1 =~= t);
    }
}

/// Decomposing a buffer that starts with a delimiter's encoding closes an
/// empty record with that delimiter — provided a CR is not followed by an
/// LF, in which case longest-match recognition would read CRLF instead.
pub proof fn lemma_parse_delim_prefix(d: Delim, rest: Seq<u8>)
    requires
        d == Delim::CR ==> rest.len() == 0 || rest[0] != LF_BYTE,
    ensures
        parse(delim_bytes(d) + rest) == seq![Rec { text: Seq::empty(), end: Some(d) }] + parse(
            rest,
        ),
{
    let b = delim_bytes(d) + rest;
    match d {
        Delim::LF => {
            assert(b[0] == LF_BYTE);
            assert(b.skip(1) =~= rest);
        },
        Delim::CR => {
            assert(b[0] == CR_BYTE);
            if b.len() >= 2 {
                assert(b[1] == rest[0]);
                assert(b[1] != LF_BYTE);
            }
            assert(b.skip(1) =~= rest);
        },
        Delim::CRLF => {
            assert(b.len() >= 2);
            assert(b[0] == CR_BYTE && b[1] == LF_BYTE);
            assert(b.skip(2) =~= rest);
        },
    }
}

/// A re-serialization with uniform target CR never starts with an LF byte,
/// since contents are delimiter-free and every emitted terminator is `\r`.
proof fn lemma_serialize_cr_first_byte(rs: Seq<Rec>)
    requires
        forall|i: int| 0 <= i < rs.len() ==> text_clean((#[trigger] rs[i]).text),
    ensures
        serialize(rs, Delim::CR).len() == 0 || serialize(rs, Delim::CR)[0] != LF_BYTE,
    decreases rs.len(),
{
    if rs.len() > 0 {
        let s = serialize(rs, Delim::CR);
        let head = rec_bytes(rs[0], Delim::CR);
        assert(s == head + serialize(rs.skip(1), Delim::CR));
        if rs[0].text.len() > 0 {
            assert(head[0] == rs[0].text[0]);
            assert(text_clean(rs[0].text));
            assert(s[0] == head[0]);
        } else if rs[0].end is Some {
            assert(head =~= delim_bytes(Delim::CR));
            assert(s[0] == CR_BYTE);
        } else {
            assert(head =~= Seq::<u8>::empty());
            assert(s =~= serialize(rs.skip(1), Delim::CR));
            assert(forall|i: int|
                0 <= i < rs.skip(1).len() ==> #[trigger] rs.skip(1)[i] == rs[i + 1]);
            lemma_serialize_cr_first_byte(rs.skip(1));
        }
    }
}

/// Decomposing a re-serialization with uniform target `d` of a well-formed
/// record sequence yields the same records with every present terminator
/// replaced by `d`.
pub proof fn lemma_parse_serialize(rs: Seq<Rec>, d: Delim)
    requires
        wf(rs),
    ensures
        parse(serialize(rs, d)) == retarget(rs, d),
    decreases rs.len(),
{
    let s = serialize(rs, d);
    if rs.len() == 1 {
        assert(rs[0].end is None);
        assert(serialize(rs.skip(1), d) == Seq::<u8>::empty());
        assert(s =~= rs[0].text);
        assert(text_clean(rs[0].text));
        assert(rs[0].text + Seq::<u8>::empty() =~= rs[0].text);
        lemma_parse_text_prefix(rs[0].text, Seq::empty());
        assert(parse(Seq::<u8>::empty()) == seq![Rec { text: Seq::empty(), end: None }]);
        assert(parse(s) =~~= seq![Rec { text: rs[0].text, end: None }]);
        assert(retarget(rs, d) =~~= seq![Rec { text: rs[0].text, end: None }]);
    } else {
        let tail = rs.skip(1);
        assert(wf(tail)) by {
            assert(tail.last() == rs.last());
            assert(forall|i: int| 0 <= i < tail.len() ==> #[trigger] tail[i] == rs[i + 1]);
        }
        let s1 = serialize(tail, d);
        assert(rs[0].end is Some);
        assert(s == (rs[0].text + delim_bytes(d)) + s1);
        assert(s =~= rs[0].text + (delim_bytes(d) + s1));
        assert(text_clean(rs[0].text));
        lemma_parse_text_prefix(rs[0].text, delim_bytes(d) + s1);
        if d == Delim::CR {
            assert(forall|i: int| 0 <= i < tail.len() ==> #[trigger] tail[i] == rs[i + 1]);
            lemma_serialize_cr_first_byte(tail);
        }
        lemma_parse_delim_prefix(d, s1);
        lemma_parse_serialize(tail, d);
        lemma_parse_nonempty(delim_bytes(d) + s1);
        let inner = seq![Rec { text: Seq::empty(), end: Some(d) }] + retarget(tail, d);
        assert(parse(delim_bytes(d) + s1) == inner);
        assert(prepend_text(rs[0].text, inner) =~~= seq![Rec { text: rs[0].text, end: Some(d) }]
            + retarget(tail, d));
        assert(retarget(rs, d) =~~= seq![Rec { text: rs[0].text, end: Some(d) }] + retarget(
            tail,
            d,
        )) by {
            assert(retarget(rs, d).len() == rs.len());
            assert(forall|i: int|
                0 <= i < tail.len() ==> #[trigger] retarget(tail, d)[i] == retarget(rs, d)[i + 1]);
        }
    }
}

/// Round-trip with uniform target: re-serializing a decomposition with
/// target `d` and decomposing again yields records with the same contents,
/// and with every originally present terminator now equal to `d`.
pub proof fn lemma_round_trip(b: Seq<u8>, d: Delim)
    ensures
        parse(serialize(parse(b), d)) == retarget(parse(b), d),
        parse(serialize(parse(b), d)).len() == parse(b).len(),
        forall|i: int|
            0 <= i < parse(b).len() ==> (#[trigger] parse(serialize(parse(b), d))[i]).text
                == parse(b)[i].text,
        forall|i: int|
            0 <= i < parse(b).len() ==> ((#[trigger] parse(serialize(parse(b), d))[i]).end is Some
                <==> parse(b)[i].end is Some),
        forall|i: int|
            0 <= i < parse(b).len() && parse(b)[i].end is Some ==> (#[trigger] parse(
                serialize(parse(b), d),
            )[i]).end == Some(d),
{
    lemma_parse_wf(b);
    lemma_parse_serialize(parse(b), d);
    assert(retarget(parse(b), d).len() == parse(b).len());
}

/// When every present terminator is already `d`, re-serializing with target
/// `d` and reassembling with the original terminators agree.
proof fn lemma_serialize_eq_unparse(rs: Seq<Rec>, d: Delim)
    requires
        forall|i: int| 0 <= i < rs.len() ==> (#[trigger] rs[i]).end is None || rs[i].end == Some(d),
    ensures
        serialize(rs, d) == unparse(rs),
    decreases rs.len(),
{
    if rs.len() > 0 {
        assert(rec_bytes(rs[0], d) == orig_rec_bytes(rs[0]));
        assert(forall|i: int| 0 <= i < rs.skip(1).len() ==> #[trigger] rs.skip(1)[i] == rs[i + 1]);
        lemma_serialize_eq_unparse(rs.skip(1), d);
    }
}

/// Idempotence of conversion: a buffer whose delimiter set is a subset of
/// `{d}` — no delimiter at all, or already uniform in `d` — re-serializes
/// with target `d` to exactly its own bytes, so the decision policy's subset
/// check rightly leaves such a file untouched.
pub proof fn lemma_uniform_noop(b: Seq<u8>, d: Delim)
    requires
        delims_of(parse(b)).subset_of(Set::<Delim>::empty().insert(d)),
    ensures
        serialize(parse(b), d) == b,
{
    let rs = parse(b);
    assert forall|i: int| 0 <= i < rs.len() implies (#[trigger] rs[i]).end is None || rs[i].end
        == Some(d) by {
        match rs[i].end {
            Some(e) => {
                assert(0 <= i < rs.len() && rs[i].end == Some(e));
                assert(delims_of(rs).contains(e));
                assert(Set::<Delim>::empty().insert(d).contains(e));
                assert(e == d);
            },
            None => {},
        }
    }
    lemma_serialize_eq_unparse(rs, d);
    lemma_unparse_parse(b);
}

/// Whether a buffer ends with one of the recognized delimiters (ending with
/// `\r\n` implies ending with `\n`, so the last byte decides).
pub open spec fn ends_with_delim(b: Seq<u8>) -> bool {
    b.len() > 0 && (b.last() == LF_BYTE || b.last() == CR_BYTE)
}

/// Trailing state of the last record, stated for buffers that do not end
/// with a delimiter. (For a buffer that does end with one, the scan still
/// closes the final, empty, in-progress line with no terminator — see
/// `lemma_parse_wf` — so the equivalence below does not extend to it.)
pub proof fn lemma_trailing_state(b: Seq<u8>)
    requires
        !ends_with_delim(b),
    ensures
        parse(b).last().end is None <==> (b.len() == 0 || !ends_with_delim(b)),
{
    lemma_parse_wf(b);
}

} // verus!
