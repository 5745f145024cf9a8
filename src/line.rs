//! One timed sub-line, as parsed and as written back.
use vstd::prelude::*;

verus! {

/// A sub-line as a mathematical value.
pub struct SubLine {
    pub start_frame: int,
    pub end_frame: int,
    /// Normalized tags: those of the whole physical line first, then the
    /// segment's own.
    pub tags: Seq<Seq<char>>,
    pub text: Seq<char>,
}

/// One displayable unit: a frame range, its formatting tags and its text.
#[derive(Debug)]
pub struct MdvdLine {
    pub start_frame: i64,
    pub end_frame: i64,
    pub formatting: Vec<Vec<char>>,
    pub text: Vec<char>,
}

impl View for MdvdLine {
    type V = SubLine;

    open spec fn view(&self) -> SubLine {
        SubLine {
            start_frame: self.start_frame as int,
            end_frame: self.end_frame as int,
            tags: tags_view(self.formatting@),
            text: self.text@,
        }
    }
}

/// The characters of each tag of a vector.
pub open spec fn tags_view(v: Seq<Vec<char>>) -> Seq<Seq<char>> {
    Seq::new(v.len(), |i: int| v[i]@)
}

/// The view of each line of a vector.
pub open spec fn lines_view(v: Seq<MdvdLine>) -> Seq<SubLine> {
    Seq::new(v.len(), |i: int| v[i]@)
}

/// A copy of `l[a..b]`.
pub fn copy_range(l: &Vec<char>, a: usize, b: usize) -> (r: Vec<char>)
    requires
        a <= b <= l.len(),
    ensures
        r@ == l@.subrange(a as int, b as int),
{
    let mut r: Vec<char> = Vec::new();
    let mut k: usize = a;
    while k < b
        invariant
            a <= k <= b <= l.len(),
            r@ == l@.subrange(a as int, k as int),
        decreases b - k,
    {
        r.push(l[k]);
        k += 1;
        assert(r@ == l@.subrange(a as int, k as int));
    }
    r
}

/// A copy of a character vector.
pub fn copy_chars(l: &Vec<char>) -> (r: Vec<char>)
    ensures
        r@ == l@,
{
    let r = copy_range(l, 0, l.len());
    assert(l@.subrange(0, l@.len() as int) =~= l@);
    r
}

/// A copy of a tag list.
pub fn copy_tags(ts: &Vec<Vec<char>>) -> (r: Vec<Vec<char>>)
    ensures
        tags_view(r@) == tags_view(ts@),
{
    let mut r: Vec<Vec<char>> = Vec::new();
    let mut k: usize = 0;
    while k < ts.len()
        invariant
            k <= ts.len(),
            r@.len() == k,
            forall|i: int| 0 <= i < k ==> #[trigger] r@[i]@ == ts@[i]@,
        decreases ts.len() - k,
    {
        let t = copy_chars(&ts[k]);
        r.push(t);
        k += 1;
    }
    assert(tags_view(r@) =~= tags_view(ts@));
    r
}

impl MdvdLine {
    /// A copy of the line.
    pub fn duplicate(&self) -> (r: MdvdLine)
        ensures
            r@ == self@,
    {
        MdvdLine {
            start_frame: self.start_frame,
            end_frame: self.end_frame,
            formatting: copy_tags(&self.formatting),
            text: copy_chars(&self.text),
        }
    }
}

} // verus!
