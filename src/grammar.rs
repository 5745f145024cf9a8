//! The grammar of one physical line:
//! `"{" INT "}" "{" INT "}" SEGMENT ("|" SEGMENT)*`, where a segment is any
//! number of tag blocks `"{" [^}]* "}"` followed by text up to the next `|`.
use vstd::prelude::*;
use crate::line::{MdvdLine, SubLine, lines_view, tags_view, copy_range, copy_chars};
use crate::tags::{is_group_scoped, normalized, lowercase_first_char, is_container_line_formatting};

verus! {

/// The first index at or after `i` holding `c`, or the length if none does.
pub open spec fn find_from(l: Seq<char>, i: int, c: char) -> int
    decreases l.len() - i,
{
    if i < 0 || i >= l.len() {
        l.len() as int
    } else if l[i] == c {
        i
    } else {
        find_from(l, i + 1, c)
    }
}

pub proof fn lemma_find_from(l: Seq<char>, i: int, c: char)
    requires
        0 <= i <= l.len(),
    ensures
        i <= find_from(l, i, c) <= l.len(),
        find_from(l, i, c) < l.len() ==> l[find_from(l, i, c)] == c,
        forall|k: int| i <= k < find_from(l, i, c) ==> l[k] != c,
    decreases l.len() - i,
{
    if i < l.len() && l[i] != c {
        lemma_find_from(l, i + 1, c);
    }
}

pub open spec fn is_digit(c: char) -> bool {
    '0' <= c <= '9'
}

/// The first index at or after `i` that holds no decimal digit.
pub open spec fn digits_end(l: Seq<char>, i: int) -> int
    decreases l.len() - i,
{
    if i < 0 || i >= l.len() {
        l.len() as int
    } else if is_digit(l[i]) {
        digits_end(l, i + 1)
    } else {
        i
    }
}

proof fn lemma_digits_end(l: Seq<char>, i: int)
    requires
        0 <= i <= l.len(),
    ensures
        i <= digits_end(l, i) <= l.len(),
        digits_end(l, i) < l.len() ==> !is_digit(l[digits_end(l, i)]),
        forall|k: int| i <= k < digits_end(l, i) ==> is_digit(l[k]),
    decreases l.len() - i,
{
    if i < l.len() && is_digit(l[i]) {
        lemma_digits_end(l, i + 1);
    }
}

/// The value of a run of decimal digits.
pub open spec fn digits_value(d: Seq<char>) -> int
    decreases d.len(),
{
    if d.len() == 0 {
        0
    } else {
        digits_value(d.drop_last()) * 10 + (d.last() as int - '0' as int)
    }
}

proof fn lemma_digits_value_grows(d: Seq<char>, k: int)
    requires
        0 <= k <= d.len(),
        forall|i: int| 0 <= i < d.len() ==> is_digit(d[i]),
    ensures
        0 <= digits_value(d.take(k)) <= digits_value(d),
    decreases d.len(),
{
    if k < d.len() {
        assert(d.drop_last().take(k) == d.take(k));
        lemma_digits_value_grows(d.drop_last(), k);
    } else {
        assert(d.take(k) == d);
        if d.len() > 0 {
            lemma_digits_value_grows(d.drop_last(), k - 1);
            assert(d.drop_last().take(k - 1) == d.drop_last());
        }
    }
}

/// An integer at `i`: an optional `-` and one or more decimal digits whose
/// value fits in `i64`; with the index after it.
pub open spec fn number_at(l: Seq<char>, i: int) -> Option<(int, int)> {
    let neg = 0 <= i < l.len() && l[i] == '-';
    let s = if neg { i + 1 } else { i };
    let e = digits_end(l, s);
    let v = digits_value(l.subrange(s, e));
    if e == s || v > i64::MAX {
        None
    } else {
        Some((if neg { -v } else { v }, e))
    }
}

/// The tag blocks from `i` on, with the index after the last of them.
pub open spec fn tag_blocks(l: Seq<char>, i: int) -> (Seq<Seq<char>>, int)
    decreases l.len() - i,
    via tag_blocks_decreases
{
    if 0 <= i < l.len() && l[i] == '{' && find_from(l, i + 1, '}') < l.len() {
        let j = find_from(l, i + 1, '}');
        let rest = tag_blocks(l, j + 1);
        (seq![l.subrange(i + 1, j)] + rest.0, rest.1)
    } else {
        (seq![], i)
    }
}

#[via_fn]
proof fn tag_blocks_decreases(l: Seq<char>, i: int) {
    if 0 <= i < l.len() {
        lemma_find_from(l, i + 1, '}');
    }
}

proof fn lemma_tag_blocks(l: Seq<char>, i: int)
    requires
        0 <= i <= l.len(),
    ensures
        i <= tag_blocks(l, i).1 <= l.len(),
    decreases l.len() - i,
{
    if 0 <= i < l.len() && l[i] == '{' && find_from(l, i + 1, '}') < l.len() {
        lemma_find_from(l, i + 1, '}');
        lemma_tag_blocks(l, find_from(l, i + 1, '}') + 1);
    }
}

/// The segments from `i` on: each its raw tags and its text.
pub open spec fn segments(l: Seq<char>, i: int) -> Seq<(Seq<Seq<char>>, Seq<char>)>
    decreases l.len() - i,
    via segments_decreases
{
    let tb = tag_blocks(l, i);
    let e = find_from(l, tb.1, '|');
    let seg = (tb.0, l.subrange(tb.1, e));
    if 0 <= i <= l.len() && e < l.len() {
        seq![seg] + segments(l, e + 1)
    } else {
        seq![seg]
    }
}

#[via_fn]
proof fn segments_decreases(l: Seq<char>, i: int) {
    if 0 <= i <= l.len() {
        lemma_tag_blocks(l, i);
        lemma_find_from(l, tag_blocks(l, i).1, '|');
    }
}

/// The frame range of a physical line, with the index where its segments
/// begin.
pub open spec fn header(l: Seq<char>) -> Option<(int, int, int)> {
    if l.len() > 0 && l[0] == '{' {
        match number_at(l, 1) {
            Some((a, p)) => if p + 1 < l.len() && l[p] == '}' && l[p + 1] == '{' {
                match number_at(l, p + 2) {
                    Some((b, q)) => if q < l.len() && l[q] == '}' {
                        Some((a, b, q + 1))
                    } else {
                        None
                    },
                    None => None,
                }
            } else {
                None
            },
            None => None,
        }
    } else {
        None
    }
}

/// The normalized group-scoped tags of a list, in order.
pub open spec fn group_part(ts: Seq<Seq<char>>) -> Seq<Seq<char>>
    decreases ts.len(),
{
    if ts.len() == 0 {
        seq![]
    } else if is_group_scoped(ts.last()) {
        group_part(ts.drop_last()).push(normalized(ts.last()))
    } else {
        group_part(ts.drop_last())
    }
}

/// The normalized line-scoped tags of a list, in order.
pub open spec fn line_part(ts: Seq<Seq<char>>) -> Seq<Seq<char>>
    decreases ts.len(),
{
    if ts.len() == 0 {
        seq![]
    } else if is_group_scoped(ts.last()) {
        line_part(ts.drop_last())
    } else {
        line_part(ts.drop_last()).push(normalized(ts.last()))
    }
}

/// The group-scoped tags of all segments of a physical line, in order.
pub open spec fn group_tags(segs: Seq<(Seq<Seq<char>>, Seq<char>)>) -> Seq<Seq<char>>
    decreases segs.len(),
{
    if segs.len() == 0 {
        seq![]
    } else {
        group_tags(segs.drop_last()) + group_part(segs.last().0)
    }
}

/// One sub-line per segment: the line's group-scoped tags, then the
/// segment's own.
pub open spec fn build_sublines(
    a: int,
    b: int,
    segs: Seq<(Seq<Seq<char>>, Seq<char>)>,
) -> Seq<SubLine> {
    Seq::new(
        segs.len(),
        |m: int|
            SubLine {
                start_frame: a,
                end_frame: b,
                tags: group_tags(segs) + line_part(segs[m].0),
                text: segs[m].1,
            },
    )
}

/// The sub-lines of a physical line, or `None` where it breaks the grammar.
pub open spec fn parse_line(l: Seq<char>) -> Option<Seq<SubLine>> {
    match header(l) {
        Some((a, b, p)) => Some(build_sublines(a, b, segments(l, p))),
        None => None,
    }
}

fn find_char(l: &Vec<char>, i: usize, c: char) -> (r: usize)
    requires
        i <= l.len(),
    ensures
        r == find_from(l@, i as int, c),
        i <= r <= l.len(),
{
    proof {
        lemma_find_from(l@, i as int, c);
    }
    let mut k: usize = i;
    while k < l.len() && l[k] != c
        invariant
            i <= k <= l.len(),
            find_from(l@, k as int, c) == find_from(l@, i as int, c),
        decreases l.len() - k,
    {
        k += 1;
    }
    k
}

/// Parses the integer at `i`, with the index after it.
fn parse_number(l: &Vec<char>, i: usize) -> (r: Option<(i64, usize)>)
    requires
        i <= l.len(),
    ensures
        match number_at(l@, i as int) {
            Some((v, e)) => r == Some((v as i64, e as usize)) && v == v as i64 && i < e <= l@.len(),
            None => r is None,
        },
{
    let neg = i < l.len() && l[i] == '-';
    let s: usize = if neg {
        i + 1
    } else {
        i
    };
    proof {
        lemma_digits_end(l@, s as int);
    }
    let mut k: usize = s;
    let mut v: i64 = 0;
    let mut fits = true;
    while k < l.len() && '0' <= l[k] && l[k] <= '9'
        invariant
            s <= k <= digits_end(l@, s as int) <= l.len(),
            digits_end(l@, k as int) == digits_end(l@, s as int),
            forall|j: int| s <= j < k ==> is_digit(l@[j]),
            fits ==> v == digits_value(l@.subrange(s as int, k as int)),
            0 <= v,
            !fits ==> digits_value(l@.subrange(s as int, k as int)) > i64::MAX,
        decreases l.len() - k,
    {
        let d: i64 = (l[k] as u32 - '0' as u32) as i64;
        let ghost old_k = k;
        assert(l@.subrange(s as int, k + 1).drop_last() == l@.subrange(s as int, k as int));
        proof {
            let d1 = l@.subrange(s as int, k + 1);
            assert forall|j: int| 0 <= j < d1.len() implies is_digit(d1[j]) by {}
            lemma_digits_value_grows(d1, k - s);
            assert(d1.take(k - s) == l@.subrange(s as int, k as int));
            lemma_digits_end(l@, k + 1);
        }
        if fits {
            if v > (i64::MAX - d) / 10 {
                fits = false;
            } else {
                v = v * 10 + d;
            }
        }
        k += 1;
    }
    if k == s || !fits {
        None
    } else {
        Some((if neg { -v } else { v }, k))
    }
}

/// Parses the tag blocks from `i` on.
fn parse_tag_blocks(l: &Vec<char>, i: usize) -> (r: (Vec<Vec<char>>, usize))
    requires
        i <= l.len(),
    ensures
        tags_view(r.0@) == tag_blocks(l@, i as int).0,
        r.1 == tag_blocks(l@, i as int).1,
        i <= r.1 <= l.len(),
{
    let mut ts: Vec<Vec<char>> = Vec::new();
    let mut k: usize = i;
    proof {
        lemma_tag_blocks(l@, i as int);
    }
    loop
        invariant
            i <= k <= l.len(),
            tags_view(ts@) + tag_blocks(l@, k as int).0 == tag_blocks(l@, i as int).0,
            tag_blocks(l@, k as int).1 == tag_blocks(l@, i as int).1,
        decreases l.len() - k,
    {
        proof {
            lemma_tag_blocks(l@, k as int);
        }
        if k < l.len() && l[k] == '{' {
            let j = find_char(l, k + 1, '}');
            if j < l.len() {
                let t = copy_range(l, k + 1, j);
                let ghost before = tags_view(ts@);
                ts.push(t);
                assert(tags_view(ts@) == before.push(t@));
                assert(tag_blocks(l@, k as int).0 == seq![t@] + tag_blocks(l@, j + 1).0);
                assert(before.push(t@) + tag_blocks(l@, j + 1).0 == before + (seq![t@]
                    + tag_blocks(l@, j + 1).0));
                k = j + 1;
            } else {
                assert(tag_blocks(l@, k as int).0 =~= seq![]);
                assert(tags_view(ts@) + seq![] == tags_view(ts@));
                return (ts, k);
            }
        } else {
            assert(tag_blocks(l@, k as int).0 =~= seq![]);
            assert(tags_view(ts@) + seq![] == tags_view(ts@));
            return (ts, k);
        }
    }
}

/// The raw tags and the text of each parsed segment.
pub open spec fn segs_view(v: Seq<(Vec<Vec<char>>, Vec<char>)>) -> Seq<(Seq<Seq<char>>, Seq<char>)> {
    Seq::new(v.len(), |m: int| (tags_view(v[m].0@), v[m].1@))
}

/// Parses the segments from `i` on: the rest of a physical line.
fn parse_segments(l: &Vec<char>, i: usize) -> (r: Vec<(Vec<Vec<char>>, Vec<char>)>)
    requires
        i <= l.len(),
    ensures
        segs_view(r@) == segments(l@, i as int),
{
    let mut acc: Vec<(Vec<Vec<char>>, Vec<char>)> = Vec::new();
    let mut k: usize = i;
    loop
        invariant
            k <= l.len(),
            segs_view(acc@) + segments(l@, k as int) == segments(l@, i as int),
        decreases l.len() - k,
    {
        let (ts, p) = parse_tag_blocks(l, k);
        let e = find_char(l, p, '|');
        let text = copy_range(l, p, e);
        let ghost seg = (tags_view(ts@), text@);
        let ghost before = segs_view(acc@);
        acc.push((ts, text));
        assert(segs_view(acc@) =~= before.push(seg));
        if e < l.len() {
            assert(segments(l@, k as int) == seq![seg] + segments(l@, e + 1));
            assert(before.push(seg) + segments(l@, e + 1) =~= before + (seq![seg] + segments(
                l@,
                e + 1,
            )));
            k = e + 1;
        } else {
            assert(segments(l@, k as int) == seq![seg]);
            assert(before.push(seg) =~= before + seq![seg]);
            return acc;
        }
    }
}

/// Appends the normalized group-scoped tags of `ts` (or its line-scoped ones).
fn push_scoped(out: &mut Vec<Vec<char>>, ts: &Vec<Vec<char>>, group: bool)
    ensures
        tags_view(final(out)@) == tags_view(old(out)@) + if group {
            group_part(tags_view(ts@))
        } else {
            line_part(tags_view(ts@))
        },
{
    let mut j: usize = 0;
    while j < ts.len()
        invariant
            j <= ts.len(),
            tags_view(out@) == tags_view(old(out)@) + if group {
                group_part(tags_view(ts@).take(j as int))
            } else {
                line_part(tags_view(ts@).take(j as int))
            },
        decreases ts.len() - j,
    {
        let ghost before = tags_view(out@);
        assert(tags_view(ts@).take(j + 1).drop_last() == tags_view(ts@).take(j as int));
        if is_container_line_formatting(&ts[j]) == group {
            let t = lowercase_first_char(&ts[j]);
            out.push(t);
            assert(tags_view(out@) =~= before.push(t@));
        }
        j += 1;
    }
    assert(tags_view(ts@).take(j as int) =~= tags_view(ts@));
}

/// Builds the sub-lines of a physical line from its frames and segments.
fn construct_mdvd_lines(
    start_frame: i64,
    end_frame: i64,
    segs: &Vec<(Vec<Vec<char>>, Vec<char>)>,
) -> (r: Vec<MdvdLine>)
    ensures
        lines_view(r@) == build_sublines(start_frame as int, end_frame as int, segs_view(segs@)),
{
    let ghost sv = segs_view(segs@);
    let mut group: Vec<Vec<char>> = Vec::new();
    let mut m: usize = 0;
    while m < segs.len()
        invariant
            m <= segs.len(),
            sv == segs_view(segs@),
            tags_view(group@) == group_tags(sv.take(m as int)),
        decreases segs.len() - m,
    {
        assert(sv.take(m + 1).drop_last() == sv.take(m as int));
        push_scoped(&mut group, &segs[m].0, true);
        m += 1;
    }
    assert(sv.take(m as int) =~= sv);
    let mut r: Vec<MdvdLine> = Vec::new();
    let mut n: usize = 0;
    while n < segs.len()
        invariant
            n <= segs.len(),
            sv == segs_view(segs@),
            tags_view(group@) == group_tags(sv),
            lines_view(r@) == build_sublines(start_frame as int, end_frame as int, sv).take(
                n as int,
            ),
        decreases segs.len() - n,
    {
        let mut tags = crate::line::copy_tags(&group);
        push_scoped(&mut tags, &segs[n].0, false);
        let line = MdvdLine { start_frame, end_frame, formatting: tags, text: copy_chars(&segs[n].1) };
        assert(sv[n as int].0 == tags_view(segs@[n as int].0@));
        assert(line@ == build_sublines(start_frame as int, end_frame as int, sv)[n as int]);
        let ghost before = lines_view(r@);
        r.push(line);
        assert(lines_view(r@) =~= before.push(line@));
        n += 1;
        assert(lines_view(r@) =~= build_sublines(start_frame as int, end_frame as int, sv).take(
            n as int,
        ));
    }
    assert(build_sublines(start_frame as int, end_frame as int, sv).take(n as int)
        =~= build_sublines(start_frame as int, end_frame as int, sv));
    r
}

/// Parses one physical line into its sub-lines; `None` where it breaks the
/// grammar.
pub fn parse_container_line(l: &Vec<char>) -> (r: Option<Vec<MdvdLine>>)
    ensures
        match parse_line(l@) {
            Some(subs) => r is Some && lines_view(r->0@) == subs,
            None => r is None,
        },
{
    if l.len() == 0 || l[0] != '{' {
        return None;
    }
    let (a, p) = match parse_number(l, 1) {
        Some(x) => x,
        None => { return None; },
    };
    if !(p < l.len() && l[p] == '}' && p + 1 < l.len() && l[p + 1] == '{') {
        return None;
    }
    let (b, q) = match parse_number(l, p + 2) {
        Some(x) => x,
        None => { return None; },
    };
    if !(q < l.len() && l[q] == '}') {
        return None;
    }
    let segs = parse_segments(l, q + 1);
    Some(construct_mdvd_lines(a, b, &segs))
}

} // verus!
