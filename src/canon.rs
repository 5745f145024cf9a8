//! Writing sub-lines back as text: sub-lines with one frame range form one
//! container line, tags common to all of them are written once, uppercased.
use vstd::prelude::*;
use crate::line::{MdvdLine, SubLine, lines_view, tags_view};
use crate::tags::{rendered, push_tag_block};

verus! {

/// The frame range of a sub-line.
pub open spec fn key_of(l: SubLine) -> (int, int) {
    (l.start_frame, l.end_frame)
}

/// Frame ranges in ascending order: by start, then by end.
pub open spec fn key_lt(a: (int, int), b: (int, int)) -> bool {
    a.0 < b.0 || (a.0 == b.0 && a.1 < b.1)
}

pub open spec fn strictly_ascending(ks: Seq<(int, int)>) -> bool {
    forall|i: int, j: int| 0 <= i < j < ks.len() ==> key_lt(#[trigger] ks[i], #[trigger] ks[j])
}

/// Whether some sub-line has this frame range.
pub open spec fn has_key(lines: Seq<SubLine>, k: (int, int)) -> bool {
    exists|i: int| 0 <= i < lines.len() && key_of(#[trigger] lines[i]) == k
}

/// `ks` lists each frame range of `lines` once, ascending.
pub open spec fn is_key_order(lines: Seq<SubLine>, ks: Seq<(int, int)>) -> bool {
    &&& strictly_ascending(ks)
    &&& forall|k: (int, int)| ks.contains(k) <==> has_key(lines, k)
}

/// The frame ranges of the sub-lines, each once, ascending.
pub open spec fn key_order(lines: Seq<SubLine>) -> Seq<(int, int)> {
    choose|ks: Seq<(int, int)>| is_key_order(lines, ks)
}

/// The sub-lines with frame range `k`, in their order.
pub open spec fn members(lines: Seq<SubLine>, k: (int, int)) -> Seq<SubLine>
    decreases lines.len(),
{
    if lines.len() == 0 {
        seq![]
    } else if key_of(lines.last()) == k {
        members(lines.drop_last(), k).push(lines.last())
    } else {
        members(lines.drop_last(), k)
    }
}

/// Whether every member of the group carries the tag.
pub open spec fn in_all(g: Seq<SubLine>, t: Seq<char>) -> bool {
    forall|m: int| 0 <= m < g.len() ==> (#[trigger] g[m]).tags.contains(t)
}

/// A tag is common to a group of two or more that all carry it.
pub open spec fn is_common(g: Seq<SubLine>, t: Seq<char>) -> bool {
    g.len() > 1 && in_all(g, t)
}

/// The first occurrence of each tag, in order.
pub open spec fn dedup(ts: Seq<Seq<char>>) -> Seq<Seq<char>>
    decreases ts.len(),
{
    if ts.len() == 0 {
        seq![]
    } else if ts.drop_last().contains(ts.last()) {
        dedup(ts.drop_last())
    } else {
        dedup(ts.drop_last()).push(ts.last())
    }
}

/// The tags of `ts` that are common to `g` (or, with `common` false, those
/// that are not).
pub open spec fn keep(ts: Seq<Seq<char>>, g: Seq<SubLine>, common: bool) -> Seq<Seq<char>>
    decreases ts.len(),
{
    if ts.len() == 0 {
        seq![]
    } else if is_common(g, ts.last()) == common {
        keep(ts.drop_last(), g, common).push(ts.last())
    } else {
        keep(ts.drop_last(), g, common)
    }
}

/// The tags written once for the whole group, in the first member's order.
pub open spec fn common_list(g: Seq<SubLine>) -> Seq<Seq<char>> {
    if g.len() > 1 {
        keep(dedup(g[0].tags), g, true)
    } else {
        seq![]
    }
}

/// The tags written for member `m` alone, each once, in its order.
pub open spec fn own_list(g: Seq<SubLine>, m: int) -> Seq<Seq<char>> {
    keep(dedup(g[m].tags), g, false)
}

/// Tag blocks `{..}` for each tag, rendered group- or line-scoped.
pub open spec fn render_tags(ts: Seq<Seq<char>>, group_scoped: bool) -> Seq<char>
    decreases ts.len(),
{
    if ts.len() == 0 {
        seq![]
    } else {
        render_tags(ts.drop_last(), group_scoped) + seq!['{'] + rendered(ts.last(), group_scoped)
            + seq!['}']
    }
}

/// A member as written: its own tags, then its text.
pub open spec fn member_text(g: Seq<SubLine>, m: int) -> Seq<char> {
    render_tags(own_list(g, m), false) + g[m].text
}

/// The first `n` members, separated by `|`.
pub open spec fn members_text(g: Seq<SubLine>, n: int) -> Seq<char>
    decreases n,
{
    if n <= 0 {
        seq![]
    } else if n == 1 {
        member_text(g, 0)
    } else {
        members_text(g, n - 1) + seq!['|'] + member_text(g, n - 1)
    }
}

pub open spec fn digit_char(d: int) -> char {
    seq!['0', '1', '2', '3', '4', '5', '6', '7', '8', '9'][d]
}

/// The decimal digits of a natural number.
pub open spec fn nat_text(n: nat) -> Seq<char>
    decreases n,
{
    if n < 10 {
        seq![digit_char(n as int)]
    } else {
        nat_text(n / 10).push(digit_char((n % 10) as int))
    }
}

/// An integer in decimal, with `-` where negative.
pub open spec fn int_text(v: int) -> Seq<char> {
    if v < 0 {
        seq!['-'] + nat_text((-v) as nat)
    } else {
        nat_text(v as nat)
    }
}

/// The container line of a group with frame range `k`.
pub open spec fn container(g: Seq<SubLine>, k: (int, int)) -> Seq<char> {
    seq!['{'] + int_text(k.0) + seq!['}', '{'] + int_text(k.1) + seq!['}'] + render_tags(
        common_list(g),
        true,
    ) + members_text(g, g.len() as int)
}

/// The container lines of the first `n` frame ranges of `ks`, one per line.
pub open spec fn containers(lines: Seq<SubLine>, ks: Seq<(int, int)>, n: int) -> Seq<char>
    decreases n,
{
    if n <= 0 {
        seq![]
    } else if n == 1 {
        container(members(lines, ks[0]), ks[0])
    } else {
        containers(lines, ks, n - 1) + seq!['\n'] + container(members(lines, ks[n - 1]), ks[n - 1])
    }
}

/// The text of a document: one container line per frame range, ascending,
/// with no line feed after the last.
pub open spec fn render_doc(lines: Seq<SubLine>) -> Seq<char> {
    containers(lines, key_order(lines), key_order(lines).len() as int)
}

/// Two ascending lists of the same frame ranges are the same list.
pub proof fn lemma_key_order_unique(lines: Seq<SubLine>, a: Seq<(int, int)>, b: Seq<(int, int)>)
    requires
        is_key_order(lines, a),
        is_key_order(lines, b),
    ensures
        a == b,
{
    lemma_ascending_unique(a, b);
}

proof fn lemma_ascending_unique(a: Seq<(int, int)>, b: Seq<(int, int)>)
    requires
        strictly_ascending(a),
        strictly_ascending(b),
        forall|k: (int, int)| a.contains(k) <==> b.contains(k),
    ensures
        a == b,
    decreases a.len(),
{
    if a.len() == 0 {
        if b.len() > 0 {
            assert(b.contains(b[0]));
        }
        assert(a =~= b);
    } else {
        assert(a.contains(a[0]));
        let j = choose|j: int| 0 <= j < b.len() && b[j] == a[0];
        assert(b.contains(b[0]));
        let i = choose|i: int| 0 <= i < a.len() && a[i] == b[0];
        if j > 0 {
            assert(key_lt(b[0], b[j]));
            if i > 0 {
                assert(key_lt(a[0], a[i]));
            }
        }
        assert(a[0] == b[0]);
        let a1 = a.drop_first();
        let b1 = b.drop_first();
        assert forall|k: (int, int)| a1.contains(k) <==> b1.contains(k) by {
            if a1.contains(k) {
                let p = choose|p: int| 0 <= p < a1.len() && a1[p] == k;
                assert(key_lt(a[0], a[p + 1]));
                assert(a.contains(k));
                let q = choose|q: int| 0 <= q < b.len() && b[q] == k;
                assert(q != 0);
                assert(b1[q - 1] == k);
            }
            if b1.contains(k) {
                let p = choose|p: int| 0 <= p < b1.len() && b1[p] == k;
                assert(key_lt(b[0], b[p + 1]));
                assert(b.contains(k));
                let q = choose|q: int| 0 <= q < a.len() && a[q] == k;
                assert(q != 0);
                assert(a1[q - 1] == k);
            }
        }
        lemma_ascending_unique(a1, b1);
        assert(a =~= seq![a[0]] + a1);
        assert(b =~= seq![b[0]] + b1);
    }
}

/// The frame ranges of a vector of pairs.
pub open spec fn keys_view(ks: Seq<(i64, i64)>) -> Seq<(int, int)> {
    Seq::new(ks.len(), |i: int| (ks[i].0 as int, ks[i].1 as int))
}

/// The sub-lines at the given positions.
pub open spec fn pick(lines: Seq<SubLine>, idx: Seq<usize>) -> Seq<SubLine> {
    Seq::new(idx.len(), |m: int| lines[idx[m] as int])
}

fn key_less(a: (i64, i64), b: (i64, i64)) -> (r: bool)
    ensures
        r == key_lt((a.0 as int, a.1 as int), (b.0 as int, b.1 as int)),
{
    a.0 < b.0 || (a.0 == b.0 && a.1 < b.1)
}

/// The first position whose frame range is not below `k`.
fn key_position(ks: &Vec<(i64, i64)>, k: (i64, i64)) -> (p: usize)
    ensures
        p <= ks.len(),
        forall|q: int| 0 <= q < p ==> key_lt(#[trigger] keys_view(ks@)[q], (k.0 as int, k.1 as int)),
        p < ks.len() ==> !key_lt(keys_view(ks@)[p as int], (k.0 as int, k.1 as int)),
{
    let mut p: usize = 0;
    while p < ks.len()
        invariant
            p <= ks.len(),
            forall|q: int| 0 <= q < p ==> key_lt(#[trigger] keys_view(ks@)[q], (k.0 as int, k.1 as int)),
        decreases ks.len() - p,
    {
        if !key_less(ks[p], k) {
            return p;
        }
        p += 1;
    }
    p
}

/// The frame ranges of the lines, each once, ascending.
fn sorted_keys(v: &Vec<MdvdLine>) -> (ks: Vec<(i64, i64)>)
    ensures
        is_key_order(lines_view(v@), keys_view(ks@)),
{
    let ghost lines = lines_view(v@);
    let mut ks: Vec<(i64, i64)> = Vec::new();
    let mut i: usize = 0;
    while i < v.len()
        invariant
            i <= v.len(),
            lines == lines_view(v@),
            strictly_ascending(keys_view(ks@)),
            forall|k: (int, int)| keys_view(ks@).contains(k) <==> has_key(lines.take(i as int), k),
        decreases v.len() - i,
    {
        let k = (v[i].start_frame, v[i].end_frame);
        let ghost kk = (k.0 as int, k.1 as int);
        assert(key_of(lines[i as int]) == kk);
        let ghost old_kv = keys_view(ks@);
        let p = key_position(&ks, k);
        if p < ks.len() && ks[p].0 == k.0 && ks[p].1 == k.1 {
            assert(old_kv[p as int] == kk);
        } else {
            ks.insert(p, k);
            let ghost nkv = keys_view(ks@);
            assert(nkv =~= old_kv.insert(p as int, kk));
            assert forall|a: int, b: int| 0 <= a < b < nkv.len() implies key_lt(
                #[trigger] nkv[a],
                #[trigger] nkv[b],
            ) by {
                if p < old_kv.len() {
                    assert(!key_lt(old_kv[p as int], kk));
                    assert(old_kv[p as int] != kk);
                }
                if b > p && p < old_kv.len() && b - 1 > p {
                    assert(key_lt(old_kv[p as int], old_kv[b - 1]));
                }
                if a > p {
                    assert(key_lt(old_kv[a - 1], old_kv[b - 1]));
                }
            }
            assert forall|k2: (int, int)| nkv.contains(k2) <==> (old_kv.contains(k2) || k2 == kk) by {
                if nkv.contains(k2) {
                    let q = choose|q: int| 0 <= q < nkv.len() && nkv[q] == k2;
                    if q < p {
                        assert(old_kv[q] == k2);
                    } else if q > p {
                        assert(old_kv[q - 1] == k2);
                    }
                }
                if old_kv.contains(k2) {
                    let q = choose|q: int| 0 <= q < old_kv.len() && old_kv[q] == k2;
                    if q < p {
                        assert(nkv[q] == k2);
                    } else {
                        assert(nkv[q + 1] == k2);
                    }
                }
                if k2 == kk {
                    assert(nkv[p as int] == k2);
                }
            }
        }
        let ghost nkv = keys_view(ks@);
        assert forall|k2: (int, int)| nkv.contains(k2) <==> has_key(lines.take(i + 1), k2) by {
            if has_key(lines.take(i + 1), k2) {
                let q = choose|q: int|
                    0 <= q < lines.take(i + 1).len() && key_of(#[trigger] lines.take(i + 1)[q]) == k2;
                if q < i {
                    assert(lines.take(i as int)[q] == lines.take(i + 1)[q]);
                    assert(has_key(lines.take(i as int), k2));
                }
            }
            if has_key(lines.take(i as int), k2) {
                let q = choose|q: int|
                    0 <= q < lines.take(i as int).len() && key_of(#[trigger] lines.take(i as int)[q])
                        == k2;
                assert(lines.take(i as int)[q] == lines.take(i + 1)[q]);
            }
            if k2 == kk {
                assert(lines.take(i + 1)[i as int] == lines[i as int]);
            }
        }
        i += 1;
    }
    assert(lines.take(i as int) =~= lines);
    ks
}

/// The positions of the lines with frame range `k`, in order.
fn member_indices(v: &Vec<MdvdLine>, k: (i64, i64)) -> (idx: Vec<usize>)
    ensures
        forall|m: int| 0 <= m < idx.len() ==> idx@[m] < v.len(),
        pick(lines_view(v@), idx@) == members(lines_view(v@), (k.0 as int, k.1 as int)),
{
    let ghost lines = lines_view(v@);
    let ghost kk = (k.0 as int, k.1 as int);
    let mut idx: Vec<usize> = Vec::new();
    let mut i: usize = 0;
    while i < v.len()
        invariant
            i <= v.len(),
            lines == lines_view(v@),
            forall|m: int| 0 <= m < idx.len() ==> idx@[m] < i,
            kk == (k.0 as int, k.1 as int),
            pick(lines, idx@) == members(lines.take(i as int), kk),
        decreases v.len() - i,
    {
        assert(lines.take(i + 1).drop_last() =~= lines.take(i as int));
        assert(lines.take(i + 1).last() == lines[i as int]);
        assert(lines[i as int] == v@[i as int]@);
        let ghost before = pick(lines, idx@);
        let ki = (v[i].start_frame, v[i].end_frame);
        assert(key_of(lines[i as int]) == (ki.0 as int, ki.1 as int));
        if ki.0 == k.0 && ki.1 == k.1 {
            assert(key_of(lines[i as int]) == kk);
            idx.push(i);
            assert(pick(lines, idx@) =~= before.push(lines[i as int]));
        } else {
            assert(key_of(lines[i as int]) != kk);
        }
        i += 1;
    }
    assert(lines.take(i as int) =~= lines);
    idx
}

fn chars_eq(a: &Vec<char>, b: &Vec<char>) -> (r: bool)
    ensures
        r == (a@ == b@),
{
    if a.len() != b.len() {
        return false;
    }
    let mut i: usize = 0;
    while i < a.len()
        invariant
            i <= a.len() == b.len(),
            forall|j: int| 0 <= j < i ==> a@[j] == b@[j],
        decreases a.len() - i,
    {
        if a[i] != b[i] {
            return false;
        }
        i += 1;
    }
    assert(a@ =~= b@);
    true
}

/// Whether one of the first `n` tags equals `t`.
fn tags_contain(ts: &Vec<Vec<char>>, n: usize, t: &Vec<char>) -> (r: bool)
    requires
        n <= ts.len(),
    ensures
        r == tags_view(ts@).take(n as int).contains(t@),
{
    let ghost tv = tags_view(ts@).take(n as int);
    let mut i: usize = 0;
    while i < n
        invariant
            i <= n <= ts.len(),
            tv == tags_view(ts@).take(n as int),
            forall|j: int| 0 <= j < i ==> tv[j] != t@,
        decreases n - i,
    {
        if chars_eq(&ts[i], t) {
            assert(tv[i as int] == t@);
            return true;
        }
        i += 1;
    }
    false
}

/// Whether every line at the given positions carries the tag.
fn in_all_members(v: &Vec<MdvdLine>, idx: &Vec<usize>, t: &Vec<char>) -> (r: bool)
    requires
        forall|m: int| 0 <= m < idx.len() ==> idx@[m] < v.len(),
    ensures
        r == in_all(pick(lines_view(v@), idx@), t@),
{
    let ghost g = pick(lines_view(v@), idx@);
    let mut m: usize = 0;
    while m < idx.len()
        invariant
            m <= idx.len(),
            g == pick(lines_view(v@), idx@),
            forall|q: int| 0 <= q < idx.len() ==> idx@[q] < v.len(),
            forall|j: int| 0 <= j < m ==> (#[trigger] g[j]).tags.contains(t@),
        decreases idx.len() - m,
    {
        let ts = &v[idx[m]].formatting;
        assert(g[m as int] == v@[idx@[m as int] as int]@);
        if !tags_contain(ts, ts.len(), t) {
            assert(tags_view(ts@).take(ts@.len() as int) =~= g[m as int].tags);
            return false;
        }
        assert(tags_view(ts@).take(ts@.len() as int) =~= g[m as int].tags);
        m += 1;
    }
    true
}

/// Appends member `m`'s tags, each once, that are common to the group (or,
/// with `common` false, those that are not), rendered with that scope.
fn push_kept(out: &mut Vec<char>, v: &Vec<MdvdLine>, idx: &Vec<usize>, m: usize, common: bool)
    requires
        m < idx.len(),
        forall|q: int| 0 <= q < idx.len() ==> idx@[q] < v.len(),
    ensures
        final(out)@ == old(out)@ + render_tags(
            keep(dedup(pick(lines_view(v@), idx@)[m as int].tags), pick(lines_view(v@), idx@), common),
            common,
        ),
{
    let ghost g = pick(lines_view(v@), idx@);
    let ts = &v[idx[m]].formatting;
    let ghost tv = tags_view(ts@);
    assert(tv == g[m as int].tags);
    let mut j: usize = 0;
    while j < ts.len()
        invariant
            j <= ts.len(),
            tv == tags_view(ts@),
            g == pick(lines_view(v@), idx@),
            forall|q: int| 0 <= q < idx.len() ==> idx@[q] < v.len(),
            out@ == old(out)@ + render_tags(keep(dedup(tv.take(j as int)), g, common), common),
        decreases ts.len() - j,
    {
        assert(tv.take(j + 1).drop_last() =~= tv.take(j as int));
        assert(tv.take(j + 1).last() == ts@[j as int]@);
        let ghost t = tv[j as int];
        assert(ts@[j as int]@ == t);
        let seen = tags_contain(ts, j, &ts[j]);
        assert(tags_view(ts@).take(j as int) == tv.take(j as int));
        let ghost y = dedup(tv.take(j as int));
        if !seen {
            assert(dedup(tv.take(j + 1)) == y.push(t));
            let c = idx.len() > 1 && in_all_members(v, idx, &ts[j]);
            assert(c == is_common(g, t));
            let ghost x = keep(y, g, common);
            assert(y.push(t).drop_last() =~= y);
            if c == common {
                assert(keep(y.push(t), g, common) == x.push(t));
                assert(x.push(t).drop_last() =~= x);
                let ghost before = out@;
                push_tag_block(out, &ts[j], common);
                assert(out@ =~= old(out)@ + render_tags(x.push(t), common));
            } else {
                assert(keep(y.push(t), g, common) == x);
            }
        } else {
            assert(dedup(tv.take(j + 1)) == y);
        }
        j += 1;
    }
    assert(tv.take(j as int) =~= tv);
}

fn digit(d: u64) -> (c: char)
    requires
        d < 10,
    ensures
        c == digit_char(d as int),
{
    match d {
        0 => '0',
        1 => '1',
        2 => '2',
        3 => '3',
        4 => '4',
        5 => '5',
        6 => '6',
        7 => '7',
        8 => '8',
        _ => '9',
    }
}

fn push_nat(out: &mut Vec<char>, n: u64)
    ensures
        final(out)@ == old(out)@ + nat_text(n as nat),
    decreases n,
{
    if n >= 10 {
        push_nat(out, n / 10);
    }
    out.push(digit(n % 10));
}

/// Appends an integer in decimal.
fn push_int(out: &mut Vec<char>, x: i64)
    ensures
        final(out)@ == old(out)@ + int_text(x as int),
{
    if x < 0 {
        out.push('-');
        let m: u64 = if x == i64::MIN {
            0x8000_0000_0000_0000
        } else {
            (-x) as u64
        };
        push_nat(out, m);
    } else {
        push_nat(out, x as u64);
    }
}

/// Appends the container line of the lines at the given positions, which
/// all have frame range `k`.
fn push_container(out: &mut Vec<char>, v: &Vec<MdvdLine>, idx: &Vec<usize>, k: (i64, i64))
    requires
        forall|q: int| 0 <= q < idx.len() ==> idx@[q] < v.len(),
    ensures
        final(out)@ == old(out)@ + container(pick(lines_view(v@), idx@), (k.0 as int, k.1 as int)),
{
    let ghost g = pick(lines_view(v@), idx@);
    out.push('{');
    push_int(out, k.0);
    out.push('}');
    out.push('{');
    push_int(out, k.1);
    out.push('}');
    let ghost head = out@;
    if idx.len() > 1 {
        push_kept(out, v, idx, 0, true);
    } else {
        assert(render_tags(common_list(g), true) =~= seq![]);
    }
    let ghost base = out@;
    let mut m: usize = 0;
    while m < idx.len()
        invariant
            m <= idx.len(),
            g == pick(lines_view(v@), idx@),
            forall|q: int| 0 <= q < idx.len() ==> idx@[q] < v.len(),
            out@ == base + members_text(g, m as int),
        decreases idx.len() - m,
    {
        if m > 0 {
            out.push('|');
        }
        push_kept(out, v, idx, m, false);
        let text = &v[idx[m]].text;
        let mut c: usize = 0;
        let ghost mid = out@;
        while c < text.len()
            invariant
                c <= text.len(),
                out@ == mid + text@.take(c as int),
            decreases text.len() - c,
        {
            out.push(text[c]);
            c += 1;
            assert(out@ =~= mid + text@.take(c as int));
        }
        assert(text@.take(c as int) =~= g[m as int].text);
        m += 1;
        assert(out@ =~= base + members_text(g, m as int));
    }
    assert(out@ =~= old(out)@ + container(g, (k.0 as int, k.1 as int)));
}

/// The text of the lines: one container line per frame range, ascending.
pub fn render_lines(v: &Vec<MdvdLine>) -> (out: Vec<char>)
    ensures
        out@ == render_doc(lines_view(v@)),
{
    let ghost lines = lines_view(v@);
    let ks = sorted_keys(v);
    let ghost kv = keys_view(ks@);
    let mut out: Vec<char> = Vec::new();
    let mut n: usize = 0;
    while n < ks.len()
        invariant
            n <= ks.len(),
            lines == lines_view(v@),
            kv == keys_view(ks@),
            out@ == containers(lines, kv, n as int),
        decreases ks.len() - n,
    {
        if n > 0 {
            out.push('\n');
        }
        let idx = member_indices(v, ks[n]);
        let ghost before = out@;
        push_container(&mut out, v, &idx, ks[n]);
        assert(kv[n as int] == (ks@[n as int].0 as int, ks@[n as int].1 as int));
        n += 1;
        assert(out@ =~= containers(lines, kv, n as int));
    }
    proof {
        lemma_key_order_unique(lines, key_order(lines), kv);
    }
    out
}

} // verus!
