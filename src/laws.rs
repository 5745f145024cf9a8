//! Properties of parsing and writing, stated over the specifications and
//! proved.
use vstd::prelude::*;
use crate::line::SubLine;
use crate::tags::{is_group_scoped, normalized};
use crate::grammar::{
    header, segments, parse_line, group_part, group_tags, build_sublines, number_at, digits_end,
    digits_value, is_digit,
};
use crate::canon::{
    int_text, nat_text, digit_char, key_of, key_lt, strictly_ascending, has_key, is_key_order, key_order, members, in_all,
    is_common, dedup, keep, common_list, own_list,
};
use crate::document::{parse_text, parse_lines_from, physical_lines};

verus! {

/// The segments of a physical line, after its frame range.
pub open spec fn line_segments(l: Seq<char>) -> Seq<(Seq<Seq<char>>, Seq<char>)> {
    match header(l) {
        Some((_, _, p)) => segments(l, p),
        None => seq![],
    }
}

proof fn lemma_insert_key(ks: Seq<(int, int)>, k: (int, int)) -> (r: Seq<(int, int)>)
    requires
        strictly_ascending(ks),
    ensures
        strictly_ascending(r),
        forall|x: (int, int)| r.contains(x) <==> (ks.contains(x) || x == k),
    decreases ks.len(),
{
    if ks.len() == 0 {
        let r = seq![k];
        assert forall|x: (int, int)| r.contains(x) <==> (ks.contains(x) || x == k) by {
            if r.contains(x) {
                assert(r[0] == x);
            }
            if x == k {
                assert(r[0] == x);
            }
        }
        r
    } else if ks[0] == k {
        ks
    } else if key_lt(k, ks[0]) {
        let r = seq![k] + ks;
        assert forall|a: int, b: int| 0 <= a < b < r.len() implies key_lt(
            #[trigger] r[a],
            #[trigger] r[b],
        ) by {
            if a == 0 && b > 1 {
                assert(key_lt(ks[0], ks[b - 1]));
            }
            if a > 0 {
                assert(key_lt(ks[a - 1], ks[b - 1]));
            }
        }
        assert forall|x: (int, int)| r.contains(x) <==> (ks.contains(x) || x == k) by {
            if r.contains(x) {
                let q = choose|q: int| 0 <= q < r.len() && r[q] == x;
                if q > 0 {
                    assert(ks[q - 1] == x);
                }
            }
            if ks.contains(x) {
                let q = choose|q: int| 0 <= q < ks.len() && ks[q] == x;
                assert(r[q + 1] == x);
            }
            if x == k {
                assert(r[0] == x);
            }
        }
        r
    } else {
        let rest = ks.drop_first();
        assert forall|a: int, b: int| 0 <= a < b < rest.len() implies key_lt(
            #[trigger] rest[a],
            #[trigger] rest[b],
        ) by {
            assert(key_lt(ks[a + 1], ks[b + 1]));
        }
        let r1 = lemma_insert_key(rest, k);
        let r = seq![ks[0]] + r1;
        assert forall|q: int| 0 <= q < r1.len() implies key_lt(ks[0], #[trigger] r1[q]) by {
            assert(r1.contains(r1[q]));
            if r1[q] != k {
                let p = choose|p: int| 0 <= p < rest.len() && rest[p] == r1[q];
                assert(key_lt(ks[0], ks[p + 1]));
            }
        }
        assert forall|a: int, b: int| 0 <= a < b < r.len() implies key_lt(
            #[trigger] r[a],
            #[trigger] r[b],
        ) by {
            if a == 0 {
                assert(key_lt(ks[0], r1[b - 1]));
            } else {
                assert(key_lt(r1[a - 1], r1[b - 1]));
            }
        }
        assert forall|x: (int, int)| r.contains(x) <==> (ks.contains(x) || x == k) by {
            if r.contains(x) {
                let q = choose|q: int| 0 <= q < r.len() && r[q] == x;
                if q > 0 {
                    assert(r1.contains(x));
                    if x != k {
                        let p = choose|p: int| 0 <= p < rest.len() && rest[p] == x;
                        assert(ks[p + 1] == x);
                    }
                } else {
                    assert(ks[0] == x);
                }
            }
            if ks.contains(x) {
                let q = choose|q: int| 0 <= q < ks.len() && ks[q] == x;
                if q == 0 {
                    assert(r[0] == x);
                } else {
                    assert(rest[q - 1] == x);
                    assert(r1.contains(x));
                    let p = choose|p: int| 0 <= p < r1.len() && r1[p] == x;
                    assert(r[p + 1] == x);
                }
            }
            if x == k {
                assert(r1.contains(x));
                let p = choose|p: int| 0 <= p < r1.len() && r1[p] == x;
                assert(r[p + 1] == x);
            }
        }
        r
    }
}

/// Every sequence of sub-lines has its frame ranges in ascending order:
/// `key_order` lists each of them once.
pub proof fn lemma_key_order(lines: Seq<SubLine>)
    ensures
        is_key_order(lines, key_order(lines)),
{
    let ks = key_order_witness(lines);
    assert(is_key_order(lines, ks));
}

proof fn key_order_witness(lines: Seq<SubLine>) -> (ks: Seq<(int, int)>)
    ensures
        is_key_order(lines, ks),
    decreases lines.len(),
{
    if lines.len() == 0 {
        let ks: Seq<(int, int)> = seq![];
        assert forall|k: (int, int)| ks.contains(k) <==> has_key(lines, k) by {}
        ks
    } else {
        let init = lines.drop_last();
        let k0 = key_of(lines.last());
        let prev = key_order_witness(init);
        let ks = lemma_insert_key(prev, k0);
        assert forall|k: (int, int)| ks.contains(k) <==> has_key(lines, k) by {
            if has_key(lines, k) {
                let i = choose|i: int| 0 <= i < lines.len() && key_of(#[trigger] lines[i]) == k;
                if i < init.len() {
                    assert(init[i] == lines[i]);
                    assert(has_key(init, k));
                }
            }
            if has_key(init, k) {
                let i = choose|i: int| 0 <= i < init.len() && key_of(#[trigger] init[i]) == k;
                assert(lines[i] == init[i]);
            }
            if k == k0 {
                assert(key_of(lines[lines.len() - 1]) == k);
            }
        }
        ks
    }
}

/// Every member of the group of frame range `k` has that frame range.
pub proof fn lemma_members_have_key(lines: Seq<SubLine>, k: (int, int))
    ensures
        forall|m: int| 0 <= m < members(lines, k).len() ==> key_of(#[trigger] members(lines, k)[m]) == k,
    decreases lines.len(),
{
    if lines.len() > 0 {
        lemma_members_have_key(lines.drop_last(), k);
        let g0 = members(lines.drop_last(), k);
        let g = members(lines, k);
        assert forall|m: int| 0 <= m < g.len() implies key_of(#[trigger] g[m]) == k by {
            if m < g0.len() {
                assert(g[m] == g0[m]);
            }
        }
    }
}

/// Every sub-line with frame range `k` is a member of its group.
pub proof fn lemma_member_of_own_range(lines: Seq<SubLine>, i: int)
    requires
        0 <= i < lines.len(),
    ensures
        members(lines, key_of(lines[i])).contains(lines[i]),
    decreases lines.len(),
{
    let k = key_of(lines[i]);
    if i == lines.len() - 1 {
        assert(members(lines, k).last() == lines[i]);
    } else {
        lemma_member_of_own_range(lines.drop_last(), i);
        let g = members(lines.drop_last(), k);
        let p = choose|p: int| 0 <= p < g.len() && g[p] == lines[i];
        if key_of(lines.last()) == k {
            assert(members(lines, k)[p] == lines[i]);
        } else {
            assert(members(lines, k)[p] == lines[i]);
        }
    }
}

/// Two sub-lines with the same frame range are written in one container
/// line: the frame range appears once in the written order and its group
/// holds both.
pub proof fn lemma_same_range_merges(lines: Seq<SubLine>, i: int, j: int)
    requires
        0 <= i < lines.len(),
        0 <= j < lines.len(),
        key_of(lines[i]) == key_of(lines[j]),
    ensures
        key_order(lines).contains(key_of(lines[i])),
        forall|p: int, q: int|
            0 <= p < q < key_order(lines).len() ==> key_order(lines)[p] != key_order(lines)[q],
        members(lines, key_of(lines[i])).contains(lines[i]),
        members(lines, key_of(lines[i])).contains(lines[j]),
{
    lemma_key_order(lines);
    let ks = key_order(lines);
    assert(has_key(lines, key_of(lines[i])));
    assert forall|p: int, q: int| 0 <= p < q < ks.len() implies ks[p] != ks[q] by {
        assert(key_lt(ks[p], ks[q]));
    }
    lemma_member_of_own_range(lines, i);
    lemma_member_of_own_range(lines, j);
}

/// Two sub-lines with different frame ranges are never written in one
/// container line.
pub proof fn lemma_different_ranges_never_merge(lines: Seq<SubLine>, i: int, j: int, k: (int, int))
    requires
        0 <= i < lines.len(),
        0 <= j < lines.len(),
        key_of(lines[i]) != key_of(lines[j]),
    ensures
        !(members(lines, k).contains(lines[i]) && members(lines, k).contains(lines[j])),
{
    lemma_members_have_key(lines, k);
    let g = members(lines, k);
    if g.contains(lines[i]) && g.contains(lines[j]) {
        let p = choose|p: int| 0 <= p < g.len() && g[p] == lines[i];
        let q = choose|q: int| 0 <= q < g.len() && g[q] == lines[j];
        assert(key_of(g[p]) == k && key_of(g[q]) == k);
    }
}

proof fn lemma_dedup_contains(ts: Seq<Seq<char>>, t: Seq<char>)
    ensures
        dedup(ts).contains(t) <==> ts.contains(t),
        dedup(ts).no_duplicates(),
    decreases ts.len(),
{
    if ts.len() > 0 {
        let init = ts.drop_last();
        lemma_dedup_contains(init, t);
        lemma_dedup_contains(init, ts.last());
        assert(ts =~= init.push(ts.last()));
        if init.contains(t) {
            let p = choose|p: int| 0 <= p < init.len() && init[p] == t;
            assert(ts[p] == t);
        }
        if ts.contains(t) {
            let p = choose|p: int| 0 <= p < ts.len() && ts[p] == t;
            if p < init.len() {
                assert(init[p] == t);
            }
        }
        if !init.contains(ts.last()) {
            let d = dedup(init);
            assert(dedup(ts) == d.push(ts.last()));
            if d.push(ts.last()).contains(t) {
                let p = choose|p: int| 0 <= p < d.len() + 1 && d.push(ts.last())[p] == t;
                if p < d.len() {
                    assert(d[p] == t);
                }
            }
            if d.contains(t) {
                let p = choose|p: int| 0 <= p < d.len() && d[p] == t;
                assert(d.push(ts.last())[p] == t);
            }
            assert(d.push(ts.last())[d.len() as int] == ts.last());
            assert forall|a: int, b: int| 0 <= a < b < d.len() + 1 implies d.push(ts.last())[a]
                != d.push(ts.last())[b] by {
                if b == d.len() {
                    assert(d.contains(d[a]));
                }
            }
        }
    }
}

proof fn lemma_keep_contains(ts: Seq<Seq<char>>, g: Seq<SubLine>, common: bool, t: Seq<char>)
    ensures
        keep(ts, g, common).contains(t) <==> (ts.contains(t) && is_common(g, t) == common),
        ts.no_duplicates() ==> keep(ts, g, common).no_duplicates(),
    decreases ts.len(),
{
    if ts.len() > 0 {
        let init = ts.drop_last();
        let x = keep(init, g, common);
        lemma_keep_contains(init, g, common, t);
        lemma_keep_contains(init, g, common, ts.last());
        assert(ts =~= init.push(ts.last()));
        if init.contains(t) {
            let p = choose|p: int| 0 <= p < init.len() && init[p] == t;
            assert(ts[p] == t);
        }
        if ts.contains(t) {
            let p = choose|p: int| 0 <= p < ts.len() && ts[p] == t;
            if p < init.len() {
                assert(init[p] == t);
            }
        }
        if ts.no_duplicates() {
            assert(init.no_duplicates());
            assert(!init.contains(ts.last()));
        }
        if is_common(g, ts.last()) == common {
            if x.push(ts.last()).contains(t) {
                let p = choose|p: int| 0 <= p < x.len() + 1 && x.push(ts.last())[p] == t;
                if p < x.len() {
                    assert(x[p] == t);
                }
            }
            if x.contains(t) {
                let p = choose|p: int| 0 <= p < x.len() && x[p] == t;
                assert(x.push(ts.last())[p] == t);
            }
            assert(x.push(ts.last())[x.len() as int] == ts.last());
            if ts.no_duplicates() {
                assert forall|a: int, b: int| 0 <= a < b < x.len() + 1 implies x.push(ts.last())[a]
                    != x.push(ts.last())[b] by {
                    if b == x.len() {
                        assert(x.contains(x[a]));
                    }
                }
            }
        }
    }
}

proof fn lemma_keep_all(ts: Seq<Seq<char>>, g: Seq<SubLine>)
    requires
        g.len() <= 1,
    ensures
        keep(ts, g, false) == ts,
    decreases ts.len(),
{
    if ts.len() > 0 {
        lemma_keep_all(ts.drop_last(), g);
        assert(ts.drop_last().push(ts.last()) =~= ts);
    }
}

/// A container line of one sub-line writes no group-scoped tag: each of
/// its tags, once, is written line-scoped.
pub proof fn lemma_single_member_has_no_group_tags(g: Seq<SubLine>)
    requires
        g.len() == 1,
    ensures
        common_list(g) == Seq::<Seq<char>>::empty(),
        own_list(g, 0) == dedup(g[0].tags),
{
    lemma_keep_all(dedup(g[0].tags), g);
}

/// In a group of two or more, a tag is written once, group-scoped, exactly
/// when every member carries it; a member's tag that not all carry is
/// written with that member, line-scoped; no tag is written twice in one
/// place.
pub proof fn lemma_common_tags_hoisted(g: Seq<SubLine>, t: Seq<char>)
    requires
        g.len() > 1,
    ensures
        common_list(g).contains(t) <==> in_all(g, t),
        common_list(g).no_duplicates(),
        forall|m: int|
            0 <= m < g.len() ==> (#[trigger] own_list(g, m).contains(t) <==> (g[m].tags.contains(t)
                && !in_all(g, t))),
        forall|m: int| 0 <= m < g.len() ==> (#[trigger] own_list(g, m)).no_duplicates(),
{
    lemma_dedup_contains(g[0].tags, t);
    lemma_keep_contains(dedup(g[0].tags), g, true, t);
    assert forall|m: int| 0 <= m < g.len() implies (#[trigger] own_list(g, m)).no_duplicates()
        && (own_list(g, m).contains(t) <==> (g[m].tags.contains(t) && !in_all(g, t))) by {
        lemma_dedup_contains(g[m].tags, t);
        lemma_keep_contains(dedup(g[m].tags), g, false, t);
    }
}

proof fn lemma_group_part_contains(ts: Seq<Seq<char>>, raw: Seq<char>)
    requires
        ts.contains(raw),
        is_group_scoped(raw),
    ensures
        group_part(ts).contains(normalized(raw)),
    decreases ts.len(),
{
    let init = ts.drop_last();
    if ts.last() == raw {
        assert(group_part(ts).last() == normalized(raw));
    } else {
        let p = choose|p: int| 0 <= p < ts.len() && ts[p] == raw;
        assert(init[p] == raw);
        lemma_group_part_contains(init, raw);
        let x = group_part(init);
        let q = choose|q: int| 0 <= q < x.len() && x[q] == normalized(raw);
        if is_group_scoped(ts.last()) {
            assert(group_part(ts)[q] == normalized(raw));
        }
    }
}

proof fn lemma_group_tags_contains(
    segs: Seq<(Seq<Seq<char>>, Seq<char>)>,
    j: int,
    raw: Seq<char>,
)
    requires
        0 <= j < segs.len(),
        segs[j].0.contains(raw),
        is_group_scoped(raw),
    ensures
        group_tags(segs).contains(normalized(raw)),
    decreases segs.len(),
{
    let init = segs.drop_last();
    if j == segs.len() - 1 {
        lemma_group_part_contains(segs[j].0, raw);
        let x = group_part(segs[j].0);
        let q = choose|q: int| 0 <= q < x.len() && x[q] == normalized(raw);
        assert(group_tags(segs)[group_tags(init).len() + q] == normalized(raw));
    } else {
        assert(init[j] == segs[j]);
        lemma_group_tags_contains(init, j, raw);
        let x = group_tags(init);
        let q = choose|q: int| 0 <= q < x.len() && x[q] == normalized(raw);
        assert(group_tags(segs)[q] == normalized(raw));
    }
}

/// A tag written uppercase in any segment of a physical line is carried,
/// normalized, by every sub-line of that line.
pub proof fn lemma_group_tag_on_every_segment(l: Seq<char>, j: int, raw: Seq<char>)
    requires
        header(l) is Some,
        0 <= j < line_segments(l).len(),
        line_segments(l)[j].0.contains(raw),
        is_group_scoped(raw),
    ensures
        parse_line(l) is Some,
        forall|m: int|
            0 <= m < parse_line(l)->0.len() ==> (#[trigger] parse_line(l)->0[m]).tags.contains(
                normalized(raw),
            ),
{
    let h = header(l)->0;
    let segs = line_segments(l);
    lemma_group_tags_contains(segs, j, raw);
    let subs = build_sublines(h.0, h.1, segs);
    let x = group_tags(segs);
    let q = choose|q: int| 0 <= q < x.len() && x[q] == normalized(raw);
    assert forall|m: int| 0 <= m < subs.len() implies (#[trigger] subs[m]).tags.contains(
        normalized(raw),
    ) by {
        assert(subs[m].tags[q] == normalized(raw));
    }
}

/// When all sub-lines share one frame range they form one group, in order.
pub proof fn lemma_one_range_one_group(lines: Seq<SubLine>, k: (int, int))
    requires
        forall|m: int| 0 <= m < lines.len() ==> key_of(#[trigger] lines[m]) == k,
    ensures
        members(lines, k) == lines,
    decreases lines.len(),
{
    if lines.len() > 0 {
        lemma_one_range_one_group(lines.drop_last(), k);
        assert(lines.drop_last().push(lines.last()) =~= lines);
    }
}

/// A tag written uppercase in a physical line of two or more segments,
/// and alone at its frame range, is written back once, group-scoped, and
/// with no segment.
pub proof fn lemma_group_tag_written_once(l: Seq<char>, j: int, raw: Seq<char>)
    requires
        header(l) is Some,
        line_segments(l).len() > 1,
        0 <= j < line_segments(l).len(),
        line_segments(l)[j].0.contains(raw),
        is_group_scoped(raw),
    ensures
        parse_line(l) is Some,
        members(parse_line(l)->0, key_of(parse_line(l)->0[0])) == parse_line(l)->0,
        common_list(parse_line(l)->0).contains(normalized(raw)),
        common_list(parse_line(l)->0).no_duplicates(),
        forall|m: int|
            0 <= m < parse_line(l)->0.len() ==> !(#[trigger] own_list(parse_line(l)->0, m)).contains(
                normalized(raw),
            ),
{
    lemma_group_tag_on_every_segment(l, j, raw);
    let subs = parse_line(l)->0;
    let k = key_of(subs[0]);
    lemma_one_range_one_group(subs, k);
    lemma_common_tags_hoisted(subs, normalized(raw));
}

/// The number of segments of the physical lines from `k` on.
pub open spec fn segment_count(ls: Seq<Seq<char>>, k: int) -> int
    decreases ls.len() - k,
{
    if k < 0 || k >= ls.len() {
        0
    } else {
        line_segments(ls[k]).len() + segment_count(ls, k + 1)
    }
}

/// A text that parses gives one sub-line per segment of its physical lines.
pub proof fn lemma_one_sub_line_per_segment(s: Seq<char>)
    requires
        parse_text(s) is Ok,
    ensures
        parse_text(s)->Ok_0.len() == segment_count(physical_lines(s), 0),
{
    lemma_count_from(physical_lines(s), 0);
}

proof fn lemma_count_from(ls: Seq<Seq<char>>, k: int)
    requires
        0 <= k,
        parse_lines_from(ls, k) is Ok,
    ensures
        parse_lines_from(ls, k)->Ok_0.len() == segment_count(ls, k),
    decreases ls.len() - k,
{
    if k < ls.len() {
        lemma_count_from(ls, k + 1);
    }
}

proof fn lemma_keep_append(a: Seq<Seq<char>>, b: Seq<Seq<char>>, g: Seq<SubLine>, c: bool)
    ensures
        keep(a + b, g, c) == keep(a, g, c) + keep(b, g, c),
    decreases b.len(),
{
    if b.len() == 0 {
        assert(a + b =~= a);
        assert(keep(a, g, c) + keep(b, g, c) =~= keep(a, g, c));
    } else {
        lemma_keep_append(a, b.drop_last(), g, c);
        assert((a + b).drop_last() =~= a + b.drop_last());
        assert((a + b).last() == b.last());
        let x = keep(a, g, c);
        let y = keep(b.drop_last(), g, c);
        assert(x + y.push(b.last()) =~= (x + y).push(b.last()));
    }
}

proof fn lemma_keep_keep(x: Seq<Seq<char>>, g: Seq<SubLine>, c: bool, d: bool)
    ensures
        keep(keep(x, g, c), g, d) == if c == d {
            keep(x, g, c)
        } else {
            Seq::<Seq<char>>::empty()
        },
    decreases x.len(),
{
    if x.len() > 0 {
        lemma_keep_keep(x.drop_last(), g, c, d);
        let y = keep(x.drop_last(), g, c);
        if is_common(g, x.last()) == c {
            assert(y.push(x.last()).drop_last() =~= y);
        }
    }
}

proof fn lemma_keep_same_split(x: Seq<Seq<char>>, g: Seq<SubLine>, h: Seq<SubLine>, c: bool)
    requires
        forall|t: Seq<char>| is_common(g, t) == is_common(h, t),
    ensures
        keep(x, g, c) == keep(x, h, c),
    decreases x.len(),
{
    if x.len() > 0 {
        lemma_keep_same_split(x.drop_last(), g, h, c);
        assert(is_common(g, x.last()) == is_common(h, x.last()));
    }
}

proof fn lemma_dedup_distinct(x: Seq<Seq<char>>)
    requires
        x.no_duplicates(),
    ensures
        dedup(x) == x,
    decreases x.len(),
{
    if x.len() > 0 {
        let init = x.drop_last();
        assert(init.no_duplicates());
        lemma_dedup_distinct(init);
        if init.contains(x.last()) {
            let p = choose|p: int| 0 <= p < init.len() && init[p] == x.last();
            assert(x[p] == x[x.len() - 1]);
        }
        assert(init.push(x.last()) =~= x);
    }
}

/// A group as read back from its written container line: each member
/// carries the hoisted tags, then its own.
pub open spec fn regrouped(g: Seq<SubLine>) -> Seq<SubLine> {
    Seq::new(
        g.len(),
        |m: int|
            SubLine {
                start_frame: g[m].start_frame,
                end_frame: g[m].end_frame,
                tags: common_list(g) + own_list(g, m),
                text: g[m].text,
            },
    )
}

proof fn lemma_members_text_same(g: Seq<SubLine>, h: Seq<SubLine>, n: int)
    requires
        0 <= n <= g.len() == h.len(),
        forall|m: int| 0 <= m < n ==> crate::canon::member_text(g, m) == crate::canon::member_text(h, m),
    ensures
        crate::canon::members_text(g, n) == crate::canon::members_text(h, n),
    decreases n,
{
    if n > 1 {
        lemma_members_text_same(g, h, n - 1);
    }
}

/// Writing a group, reading the container line back as its members'
/// hoisted tags followed by their own, and writing again gives the same
/// container line: the same tags are hoisted and each member keeps the
/// same tags of its own.
pub proof fn lemma_written_group_is_stable(g: Seq<SubLine>, k: (int, int))
    ensures
        common_list(regrouped(g)) == common_list(g),
        forall|m: int| 0 <= m < g.len() ==> #[trigger] own_list(regrouped(g), m) == own_list(g, m),
        crate::canon::container(regrouped(g), k) == crate::canon::container(g, k),
{
    let h = regrouped(g);
    let c = common_list(g);
    if g.len() == 1 {
        lemma_single_member_has_no_group_tags(g);
        lemma_single_member_has_no_group_tags(h);
        lemma_dedup_contains(g[0].tags, seq![]);
        assert(h[0].tags =~= own_list(g, 0));
        lemma_dedup_distinct(dedup(g[0].tags));
    } else if g.len() > 1 {
        assert forall|t: Seq<char>| is_common(g, t) == is_common(h, t) by {
            lemma_common_tags_hoisted(g, t);
            if in_all(g, t) {
                assert forall|m: int| 0 <= m < h.len() implies (#[trigger] h[m]).tags.contains(t) by {
                    let p = choose|p: int| 0 <= p < c.len() && c[p] == t;
                    assert(h[m].tags[p] == t);
                }
            }
            if in_all(h, t) && !in_all(g, t) {
                assert(!c.contains(t));
                assert forall|m: int| 0 <= m < g.len() implies (#[trigger] g[m]).tags.contains(t) by {
                    assert(h[m].tags.contains(t));
                    let p = choose|p: int| 0 <= p < h[m].tags.len() && h[m].tags[p] == t;
                    if p >= c.len() {
                        assert(own_list(g, m)[p - c.len()] == t);
                        assert(own_list(g, m).contains(t));
                    } else {
                        assert(c[p] == t);
                    }
                }
            }
        }
        assert forall|m: int| 0 <= m < g.len() implies #[trigger] own_list(h, m) == own_list(g, m)
            && (m == 0 ==> common_list(h) == c) by {
            let o = own_list(g, m);
            lemma_common_tags_hoisted(g, seq![]);
            assert forall|a: int, b: int| 0 <= a < b < (c + o).len() implies (c + o)[a] != (c
                + o)[b] by {
                if a < c.len() && b >= c.len() {
                    let t = (c + o)[a];
                    assert(c.contains(t));
                    lemma_common_tags_hoisted(g, t);
                    assert(o.contains((c + o)[b]));
                    assert(o[b - c.len()] == (c + o)[b]);
                } else if a < c.len() {
                    assert(c[a] != c[b]);
                } else {
                    assert(o[a - c.len()] != o[b - c.len()]);
                }
            }
            assert(h[m].tags == c + o);
            lemma_dedup_distinct(c + o);
            lemma_keep_same_split(c + o, h, g, false);
            lemma_keep_same_split(c + o, h, g, true);
            lemma_keep_append(c, o, g, false);
            lemma_keep_append(c, o, g, true);
            lemma_keep_keep(dedup(g[0].tags), g, true, false);
            lemma_keep_keep(dedup(g[0].tags), g, true, true);
            lemma_keep_keep(dedup(g[m].tags), g, false, false);
            lemma_keep_keep(dedup(g[m].tags), g, false, true);
            assert(Seq::<Seq<char>>::empty() + o =~= o);
            assert(c + Seq::<Seq<char>>::empty() =~= c);
            if m == 0 {
                lemma_keep_keep(dedup(g[0].tags), g, false, true);
            }
        }
        assert(own_list(h, 0) == own_list(g, 0));
    }
    assert forall|m: int| 0 <= m < g.len() implies crate::canon::member_text(h, m)
        == crate::canon::member_text(g, m) by {
        if g.len() > 1 {
            assert(own_list(h, m) == own_list(g, m));
        }
    }
    lemma_members_text_same(h, g, g.len() as int);
}

proof fn lemma_digit_char(d: int)
    requires
        0 <= d < 10,
    ensures
        is_digit(digit_char(d)),
        digit_char(d) as int - '0' as int == d,
{
    let ds = seq!['0', '1', '2', '3', '4', '5', '6', '7', '8', '9'];
    assert(ds[0] == '0' && ds[1] == '1' && ds[2] == '2' && ds[3] == '3' && ds[4] == '4');
    assert(ds[5] == '5' && ds[6] == '6' && ds[7] == '7' && ds[8] == '8' && ds[9] == '9');
}

proof fn lemma_nat_text(n: nat)
    ensures
        nat_text(n).len() >= 1,
        forall|i: int| 0 <= i < nat_text(n).len() ==> is_digit(#[trigger] nat_text(n)[i]),
        digits_value(nat_text(n)) == n,
    decreases n,
{
    if n < 10 {
        lemma_digit_char(n as int);
        assert(nat_text(n).drop_last() =~= Seq::<char>::empty());
        assert(digits_value(Seq::<char>::empty()) == 0);
        assert(nat_text(n).last() == digit_char(n as int));
        assert(digits_value(nat_text(n)) == digits_value(nat_text(n).drop_last()) * 10 + (
        digit_char(n as int) as int - '0' as int));
    } else {
        lemma_nat_text(n / 10);
        lemma_digit_char((n % 10) as int);
        let x = nat_text(n / 10);
        assert(nat_text(n).drop_last() =~= x);
        assert(nat_text(n).last() == digit_char((n % 10) as int));
        assert((n / 10) * 10 + n % 10 == n) by (nonlinear_arith);
        assert(digits_value(nat_text(n)) == digits_value(x) * 10 + (n % 10));
        assert forall|i: int| 0 <= i < nat_text(n).len() implies is_digit(#[trigger] nat_text(n)[i]) by {
            if i < x.len() {
                assert(nat_text(n)[i] == x[i]);
            }
        }
    }
}

proof fn lemma_digits_end_over(l: Seq<char>, s: int, e: int)
    requires
        0 <= s <= e <= l.len(),
        forall|i: int| s <= i < e ==> is_digit(l[i]),
        e == l.len() || !is_digit(l[e]),
    ensures
        digits_end(l, s) == e,
    decreases e - s,
{
    if s < e {
        lemma_digits_end_over(l, s + 1, e);
    }
}

/// A frame number as written is read back: the integer written at any
/// position, followed by anything but a digit, parses to itself.
pub proof fn lemma_frame_number_read_back(pre: Seq<char>, v: int, rest: Seq<char>)
    requires
        -(i64::MAX as int) <= v <= i64::MAX,
        rest.len() == 0 || !is_digit(rest[0]),
    ensures
        number_at(pre + int_text(v) + rest, pre.len() as int) == Some(
            (v, pre.len() + int_text(v).len() as int),
        ),
{
    let l = pre + int_text(v) + rest;
    let mag: nat = if v < 0 {
        (-v) as nat
    } else {
        v as nat
    };
    let d = nat_text(mag);
    lemma_nat_text(mag);
    let s: int = if v < 0 {
        pre.len() as int + 1
    } else {
        pre.len() as int
    };
    let e = s + d.len();
    assert(e == pre.len() + int_text(v).len());
    assert forall|i: int| s <= i < e implies is_digit(l[i]) by {
        assert(l[i] == d[i - s]);
    }
    if e < l.len() {
        assert(l[e] == rest[0]);
    }
    lemma_digits_end_over(l, s, e);
    assert(l.subrange(s, e) =~= d);
    if v >= 0 {
        assert(!is_digit('-'));
        if pre.len() < l.len() {
            assert(l[pre.len() as int] == d[0]);
        }
    } else {
        assert(l[pre.len() as int] == '-');
    }
}

} // verus!
