//! A MicroDVD document: parsing a whole text and access to its entries.
use vstd::prelude::*;
use crate::line::{MdvdLine, SubLine, lines_view, copy_chars};
use crate::grammar::{parse_line, parse_container_line};
use crate::frames::{frame_to_ms, ms_to_frame, frame_to_msecs, msecs_to_frame};
use crate::canon::{render_doc, render_lines};

verus! {

/// Why a text could not be read or entries could not be taken over.
#[derive(Debug, PartialEq, Eq)]
pub enum MdvdError {
    /// The physical line with this (0-based) number breaks the grammar.
    ErrorAtLine(usize),
    /// The number of entries given differs from the number of sub-lines:
    /// given, then held.
    EntryCountMismatch(usize, usize),
}

/// A timed entry as handed to and taken from callers.
#[derive(Debug)]
pub struct SubtitleEntry {
    pub start_ms: i64,
    pub end_ms: i64,
    pub line: Option<String>,
}

/// Relies on `str::chars`: the characters of a string, in order.
#[verifier::external_body]
fn chars_of(s: &str) -> (r: Vec<char>)
    ensures
        r@ == s@,
{
    s.chars().collect()
}

/// Relies on `String`'s `FromIterator<&char>`: the string of these characters.
#[verifier::external_body]
fn string_of(v: &Vec<char>) -> (r: String)
    ensures
        r@ == v@,
{
    v.iter().collect()
}

/// The pieces of a text between line feeds; `k` line feeds give `k + 1`
/// pieces.
pub open spec fn split_nl(s: Seq<char>) -> Seq<Seq<char>>
    decreases s.len(),
{
    if s.len() == 0 {
        seq![seq![]]
    } else {
        let r = split_nl(s.drop_last());
        if s.last() == '\n' {
            r.push(seq![])
        } else {
            r.update(r.len() - 1, r.last().push(s.last()))
        }
    }
}

proof fn lemma_split_nl_len(s: Seq<char>)
    ensures
        split_nl(s).len() >= 1,
    decreases s.len(),
{
    if s.len() > 0 {
        lemma_split_nl_len(s.drop_last());
    }
}

/// A line without the carriage return that ends it, if any.
pub open spec fn strip_cr(l: Seq<char>) -> Seq<char> {
    if l.len() > 0 && l.last() == '\r' {
        l.drop_last()
    } else {
        l
    }
}

/// The text without a leading byte-order mark.
pub open spec fn without_bom(s: Seq<char>) -> Seq<char> {
    if s.len() > 0 && s[0] == '\u{feff}' {
        s.drop_first()
    } else {
        s
    }
}

/// The physical lines of a text: pieces ended by `\n` or `\r\n`, and the
/// unterminated rest where it is not empty.
pub open spec fn physical_lines(s: Seq<char>) -> Seq<Seq<char>> {
    let p = split_nl(without_bom(s));
    let n = p.len() - 1;
    Seq::new(n as nat, |i: int| strip_cr(p[i])) + if p[n].len() > 0 {
        seq![p[n]]
    } else {
        seq![]
    }
}

/// The sub-lines of the physical lines from `k` on, or the number of the
/// first that breaks the grammar.
pub open spec fn parse_lines_from(ls: Seq<Seq<char>>, k: int) -> Result<Seq<SubLine>, int>
    decreases ls.len() - k,
{
    if k < 0 || k >= ls.len() {
        Ok(seq![])
    } else {
        match parse_line(ls[k]) {
            None => Err(k),
            Some(subs) => prepend(subs, parse_lines_from(ls, k + 1)),
        }
    }
}

pub open spec fn prepend(a: Seq<SubLine>, r: Result<Seq<SubLine>, int>) -> Result<Seq<SubLine>, int> {
    match r {
        Ok(x) => Ok(a + x),
        Err(e) => Err(e),
    }
}

/// What a text parses to: all sub-lines in order, or the number (from 0)
/// of the first physical line that breaks the grammar.
pub open spec fn parse_text(s: Seq<char>) -> Result<Seq<SubLine>, int> {
    parse_lines_from(physical_lines(s), 0)
}

/// Splits a text into physical lines.
fn split_lines(t: &Vec<char>) -> (r: Vec<Vec<char>>)
    ensures
        crate::line::tags_view(r@) == physical_lines(t@),
{
    let ghost s = without_bom(t@);
    let start: usize = if t.len() > 0 && t[0] == '\u{feff}' {
        1
    } else {
        0
    };
    assert(s == t@.subrange(start as int, t@.len() as int));
    let mut done: Vec<Vec<char>> = Vec::new();
    let mut cur: Vec<char> = Vec::new();
    let ghost mut raw: Seq<Seq<char>> = seq![];
    let mut i: usize = start;
    while i < t.len()
        invariant
            start <= i <= t.len(),
            s == t@.subrange(start as int, t@.len() as int),
            split_nl(s.take(i - start)) == raw.push(cur@),
            done@.len() == raw.len(),
            forall|k: int| 0 <= k < raw.len() ==> #[trigger] done@[k]@ == strip_cr(raw[k]),
        decreases t.len() - i,
    {
        let c = t[i];
        assert(s.take(i + 1 - start).drop_last() =~= s.take(i - start));
        assert(s.take(i + 1 - start).last() == c);
        if c == '\n' {
            let mut line = copy_chars(&cur);
            if line.len() > 0 && line[line.len() - 1] == '\r' {
                line.pop();
            }
            assert(line@ == strip_cr(cur@));
            let ghost old_raw = raw;
            let ghost old_done = done@;
            done.push(line);
            proof {
                raw = raw.push(cur@);
                assert forall|k: int| 0 <= k < raw.len() implies #[trigger] done@[k]@ == strip_cr(
                    raw[k],
                ) by {
                    if k < old_raw.len() {
                        assert(old_done[k] == done@[k]);
                    }
                }
            }
            cur = Vec::new();
            assert(split_nl(s.take(i + 1 - start)) =~= raw.push(cur@));
        } else {
            cur.push(c);
            assert(split_nl(s.take(i + 1 - start)) =~= raw.push(cur@));
        }
        i += 1;
    }
    assert(s.take(i - start) =~= s);
    let ghost p = split_nl(s);
    assert(p == raw.push(cur@));
    let ghost head = Seq::new(raw.len(), |k: int| strip_cr(p[k]));
    assert(head =~= Seq::new(raw.len(), |k: int| strip_cr(raw[k])));
    assert(crate::line::tags_view(done@) =~= head);
    if cur.len() > 0 {
        let ghost old_done = done@;
        done.push(cur);
        assert(crate::line::tags_view(done@) =~= head + seq![p[raw.len() as int]]) by {
            assert forall|k: int| 0 <= k < old_done.len() implies #[trigger] done@[k]@ == head[k] by {
                assert(old_done[k] == done@[k]);
            }
        }
    } else {
        assert(head + seq![] =~= head);
    }
    assert(crate::line::tags_view(done@) =~= physical_lines(t@));
    done
}

/// A parsed MicroDVD document: its frame rate, `num / den` frames per
/// second, and its sub-lines in order.
#[derive(Debug)]
pub struct MdvdFile {
    fps_num: u32,
    fps_den: u32,
    v: Vec<MdvdLine>,
}

/// A document as a mathematical value.
pub struct DocView {
    pub fps_num: int,
    pub fps_den: int,
    pub lines: Seq<SubLine>,
}

impl View for MdvdFile {
    type V = DocView;

    closed spec fn view(&self) -> DocView {
        DocView { fps_num: self.fps_num as int, fps_den: self.fps_den as int, lines: lines_view(self.v@) }
    }
}

/// The frame rate of a freshly parsed document: 25 frames per second.
pub const DEFAULT_FPS: u32 = 25;

impl MdvdFile {
    /// The frame rate is positive.
    pub open spec fn wf(&self) -> bool {
        self@.fps_num > 0 && self@.fps_den > 0
    }

    proof fn lemma_view(&self)
        ensures
            self@.fps_num == self.fps_num,
            self@.fps_den == self.fps_den,
            self@.lines == lines_view(self.v@),
    {
    }

    /// The sub-lines of one physical line, or the error that names it.
    fn get_line(line_num: usize, l: &Vec<char>) -> (r: Result<Vec<MdvdLine>, MdvdError>)
        ensures
            match parse_line(l@) {
                Some(subs) => r is Ok && lines_view(r->Ok_0@) == subs,
                None => r == Err::<Vec<MdvdLine>, MdvdError>(MdvdError::ErrorAtLine(line_num)),
            },
    {
        match parse_container_line(l) {
            Some(v) => Ok(v),
            None => Err(MdvdError::ErrorAtLine(line_num)),
        }
    }

    /// Parses a whole text; the first physical line that breaks the grammar
    /// fails the whole parse.
    pub fn parse_file(s: &str) -> (r: Result<MdvdFile, MdvdError>)
        ensures
            match parse_text(s@) {
                Ok(lines) => r is Ok && r->Ok_0@.lines == lines && r->Ok_0@.fps_num == DEFAULT_FPS
                    && r->Ok_0@.fps_den == 1,
                Err(k) => r == Err::<MdvdFile, MdvdError>(MdvdError::ErrorAtLine(k as usize)),
            },
    {
        let t = chars_of(s);
        let ls = split_lines(&t);
        let ghost pl = physical_lines(s@);
        assert(pl =~= crate::line::tags_view(ls@));
        let mut acc: Vec<MdvdLine> = Vec::new();
        let mut k: usize = 0;
        assert(prepend(seq![], parse_lines_from(pl, 0)) == parse_lines_from(pl, 0)) by {
            match parse_lines_from(pl, 0) {
                Ok(x) => assert(seq![] + x =~= x),
                Err(e) => {},
            }
        }
        while k < ls.len()
            invariant
                k <= ls.len(),
                pl == crate::line::tags_view(ls@),
                parse_text(s@) == prepend(lines_view(acc@), parse_lines_from(pl, k as int)),
            decreases ls.len() - k,
        {
            assert(pl[k as int] == ls@[k as int]@);
            let mut subs = match Self::get_line(k, &ls[k]) {
                Ok(v) => v,
                Err(e) => {
                    return Err(e);
                },
            };
            let ghost a = lines_view(acc@);
            let ghost b = lines_view(subs@);
            acc.append(&mut subs);
            assert(lines_view(acc@) =~= a + b);
            proof {
                match parse_lines_from(pl, k + 1) {
                    Ok(x) => assert(a + (b + x) =~= (a + b) + x),
                    Err(e) => {},
                }
            }
            k += 1;
        }
        assert(parse_lines_from(pl, k as int) == Ok::<Seq<SubLine>, int>(seq![]));
        assert(lines_view(acc@) + seq![] =~= lines_view(acc@));
        let f = MdvdFile { fps_num: DEFAULT_FPS, fps_den: 1, v: acc };
        proof {
            f.lemma_view();
        }
        Ok(f)
    }

    /// Parses a whole text, as `parse_file` does.
    pub fn parse_from_string(s: String) -> (r: Result<MdvdFile, MdvdError>)
        ensures
            match parse_text(s@) {
                Ok(lines) => r is Ok && r->Ok_0@.lines == lines && r->Ok_0@.fps_num == DEFAULT_FPS
                    && r->Ok_0@.fps_den == 1,
                Err(k) => r == Err::<MdvdFile, MdvdError>(MdvdError::ErrorAtLine(k as usize)),
            },
    {
        Self::parse_file(s.as_str())
    }

    /// The document as MicroDVD text, UTF-8 encoded: sub-lines with one
    /// frame range form one container line, ascending by frame range.
    pub fn to_data(&self) -> (r: Result<Vec<u8>, MdvdError>)
        ensures
            r is Ok && r->Ok_0@ == vstd::utf8::encode_utf8(render_doc(self@.lines)),
    {
        proof {
            self.lemma_view();
        }
        let out = render_lines(&self.v);
        let s = string_of(&out);
        Ok(vstd::slice::slice_to_vec(s.as_str().as_bytes()))
    }

    /// One entry per sub-line, in order, with its times in milliseconds.
    pub fn get_subtitle_entries(&self) -> (r: Result<Vec<SubtitleEntry>, MdvdError>)
        requires
            self.wf(),
        ensures
            r is Ok,
            r->Ok_0.len() == self@.lines.len(),
            forall|i: int|
                0 <= i < self@.lines.len() ==> entry_of(#[trigger] r->Ok_0@[i], self@, i),
    {
        proof {
            self.lemma_view();
        }
        let mut r: Vec<SubtitleEntry> = Vec::new();
        let mut i: usize = 0;
        while i < self.v.len()
            invariant
                i <= self.v.len(),
                self.wf(),
                self@.lines == lines_view(self.v@),
                self@.fps_num == self.fps_num,
                self@.fps_den == self.fps_den,
                r.len() == i,
                forall|j: int| 0 <= j < i ==> entry_of(#[trigger] r@[j], self@, j),
            decreases self.v.len() - i,
        {
            let l = &self.v[i];
            let e = l.to_subtitle_entry(self.fps_num, self.fps_den);
            assert(self@.lines[i as int] == l@);
            r.push(e);
            i += 1;
        }
        Ok(r)
    }

    /// Takes over the times and texts of `entries`, one per sub-line in
    /// order; a text of `None` keeps the sub-line's text. Tags are kept.
    /// Fails, changing nothing, unless there is exactly one entry per
    /// sub-line.
    pub fn update_subtitle_entries(&mut self, entries: &[SubtitleEntry]) -> (r: Result<(), MdvdError>)
        requires
            old(self).wf(),
        ensures
            final(self).wf(),
            entries@.len() != old(self)@.lines.len() ==> r == Err::<(), MdvdError>(
                MdvdError::EntryCountMismatch(entries@.len() as usize, old(self)@.lines.len() as usize),
            ) && final(self)@ == old(self)@,
            entries@.len() == old(self)@.lines.len() ==> r is Ok && final(self)@.fps_num == old(
                self,
            )@.fps_num && final(self)@.fps_den == old(self)@.fps_den && final(self)@.lines.len()
                == old(self)@.lines.len() && forall|i: int|
                0 <= i < old(self)@.lines.len() ==> updated(
                    #[trigger] final(self)@.lines[i],
                    old(self)@.lines[i],
                    entries@[i],
                    old(self)@,
                ),
    {
        proof {
            self.lemma_view();
        }
        if entries.len() != self.v.len() {
            return Err(MdvdError::EntryCountMismatch(entries.len(), self.v.len()));
        }
        let ghost d = self@;
        let mut nv: Vec<MdvdLine> = Vec::new();
        let mut i: usize = 0;
        while i < self.v.len()
            invariant
                i <= self.v.len() == entries@.len(),
                self.fps_num > 0 && self.fps_den > 0,
                d == self@,
                d.lines == lines_view(self.v@),
                d.fps_num == self.fps_num,
                d.fps_den == self.fps_den,
                nv.len() == i,
                forall|j: int| 0 <= j < i ==> updated(#[trigger] nv@[j]@, d.lines[j], entries@[j], d),
            decreases self.v.len() - i,
        {
            let l = &self.v[i];
            let e = &entries[i];
            let text = match &e.line {
                Some(t) => chars_of(t.as_str()),
                None => copy_chars(&l.text),
            };
            let nl = MdvdLine {
                start_frame: msecs_to_frame(e.start_ms, self.fps_num, self.fps_den),
                end_frame: msecs_to_frame(e.end_ms, self.fps_num, self.fps_den),
                formatting: crate::line::copy_tags(&l.formatting),
                text,
            };
            assert(d.lines[i as int] == l@);
            nv.push(nl);
            i += 1;
        }
        self.v = nv;
        proof {
            self.lemma_view();
            assert(self@.lines =~= lines_view(nv@)) by {
                assert(lines_view(self.v@).len() == lines_view(nv@).len());
            }
        }
        Ok(())
    }
}

impl MdvdLine {
    /// The entry of this sub-line at `num / den` frames per second.
    pub fn to_subtitle_entry(&self, num: u32, den: u32) -> (e: SubtitleEntry)
        requires
            num > 0,
            den > 0,
        ensures
            e.start_ms == frame_to_ms(self.start_frame as int, num as int, den as int),
            e.end_ms == frame_to_ms(self.end_frame as int, num as int, den as int),
            e.line is Some && e.line->0@ == self.text@,
    {
        SubtitleEntry {
            start_ms: frame_to_msecs(self.start_frame, num, den),
            end_ms: frame_to_msecs(self.end_frame, num, den),
            line: Some(string_of(&self.text)),
        }
    }
}

/// Entry `i` of a document: its frames in milliseconds and its text.
pub open spec fn entry_of(e: SubtitleEntry, d: DocView, i: int) -> bool {
    &&& e.start_ms == frame_to_ms(d.lines[i].start_frame, d.fps_num, d.fps_den)
    &&& e.end_ms == frame_to_ms(d.lines[i].end_frame, d.fps_num, d.fps_den)
    &&& e.line is Some
    &&& e.line->0@ == d.lines[i].text
}

/// Sub-line `n` is `o` with the times of entry `e`, and its text where it
/// has one.
pub open spec fn updated(n: SubLine, o: SubLine, e: SubtitleEntry, d: DocView) -> bool {
    &&& n.start_frame == ms_to_frame(e.start_ms as int, d.fps_num, d.fps_den)
    &&& n.end_frame == ms_to_frame(e.end_ms as int, d.fps_num, d.fps_den)
    &&& n.tags == o.tags
    &&& n.text == match e.line {
        Some(t) => t@,
        None => o.text,
    }
}

} // verus!
