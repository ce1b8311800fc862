//! Laws of the managed-block update, and the facts about lines, normalization and
//! the block search that their proofs rest on.
use vstd::prelude::*;
use crate::hosts::{
    block_lines, block_of, lemma_closing_has_opening, canon, closing_line, collapse_blank, drop_leading_blank,
    drop_trailing_blank, lines, opening_line, placed, raw_lines, strip_cr, terminated,
    updated_content, updated_lines,
};
use crate::text::{is_blank, is_space, lemma_split_nonempty, lemma_split_without_sep, split};

verus! {

/// No piece of a split holds the separator.
pub proof fn lemma_split_pieces_lack_sep(s: Seq<char>, sep: char)
    ensures
        forall|k: int, i: int|
            0 <= k < split(s, sep).len() && 0 <= i < split(s, sep)[k].len() ==> #[trigger] split(s, sep)[k][i] != sep,
    decreases s.len(),
{
    if s.len() > 0 {
        lemma_split_pieces_lack_sep(s.drop_last(), sep);
        lemma_split_nonempty(s.drop_last(), sep);
        let rest = split(s.drop_last(), sep);
        let r = split(s, sep);
        assert forall|k: int, i: int| 0 <= k < r.len() && 0 <= i < r[k].len() implies #[trigger] r[k][i] != sep by {
            if s.last() == sep {
                if k < rest.len() {
                    assert(r[k] == rest[k]);
                }
            } else {
                if k < rest.len() - 1 {
                    assert(r[k] == rest[k]);
                } else {
                    assert(r[k] == rest.last().push(s.last()));
                    if i < rest.last().len() {
                        assert(r[k][i] == rest[rest.len() - 1][i]);
                    }
                }
            }
        }
    }
}

/// Splitting at a separator that stands between `u` and `v` splits each side.
pub proof fn lemma_split_concat(u: Seq<char>, v: Seq<char>, sep: char)
    ensures
        split(u + seq![sep] + v, sep) == split(u, sep) + split(v, sep),
    decreases v.len(),
{
    if v.len() == 0 {
        let s = u + seq![sep];
        assert(u + seq![sep] + v =~= s);
        assert(s.drop_last() =~= u);
        assert(split(v, sep) =~= seq![Seq::<char>::empty()]);
        assert(split(s, sep) =~= split(u, sep) + split(v, sep));
    } else {
        lemma_split_concat(u, v.drop_last(), sep);
        lemma_split_nonempty(v.drop_last(), sep);
        let s = u + seq![sep] + v;
        assert(s.drop_last() =~= u + seq![sep] + v.drop_last());
        assert(s.last() == v.last());
        assert(split(s, sep) =~= split(u, sep) + split(v, sep));
    }
}

/// Every line holds no line feed and does not end with a carriage return.
pub open spec fn clean_lines(q: Seq<Seq<char>>) -> bool {
    forall|k: int| 0 <= k < q.len() ==> #[trigger] clean_line(q[k])
}

pub open spec fn clean_line(l: Seq<char>) -> bool {
    &&& !l.contains('\n')
    &&& !(l.len() > 0 && l.last() == '\r')
}

proof fn lemma_split_terminated(p: Seq<Seq<char>>, l: Seq<char>)
    requires
        forall|k: int| 0 <= k < p.len() ==> !(#[trigger] p[k]).contains('\n'),
        !l.contains('\n'),
    ensures
        split(terminated(p) + l, '\n') == p.push(l),
    decreases p.len(),
{
    if p.len() == 0 {
        assert(terminated(p) + l =~= l);
        lemma_split_without_sep(l, '\n');
        assert(p.push(l) =~= seq![l]);
    } else {
        let q = p.drop_last();
        assert forall|k: int| 0 <= k < q.len() implies !(#[trigger] q[k]).contains('\n') by {
            assert(q[k] == p[k]);
        }
        assert(!p.last().contains('\n')) by {
            assert(p.last() == p[p.len() - 1]);
        }
        lemma_split_terminated(q, p.last());
        let u = terminated(q) + p.last();
        assert(terminated(p) + l =~= u + seq!['\n'] + l);
        lemma_split_concat(u, l, '\n');
        lemma_split_without_sep(l, '\n');
        assert(q.push(p.last()) =~= p);
        assert(split(terminated(p) + l, '\n') =~= p.push(l));
    }
}

proof fn lemma_strip_clean(q: Seq<Seq<char>>)
    requires
        clean_lines(q),
    ensures
        q.map_values(|l: Seq<char>| strip_cr(l)) == q,
{
    let m = q.map_values(|l: Seq<char>| strip_cr(l));
    assert forall|k: int| 0 <= k < q.len() implies #[trigger] m[k] == q[k] by {
        assert(clean_line(q[k]));
    }
    assert(m =~= q);
}

/// The lines of clean lines, each ended by a line feed, are those lines.
pub proof fn lemma_lines_of_terminated(q: Seq<Seq<char>>)
    requires
        clean_lines(q),
    ensures
        lines(terminated(q)) == q,
{
    assert forall|k: int| 0 <= k < q.len() implies !(#[trigger] q[k]).contains('\n') by {
        assert(clean_line(q[k]));
    }
    lemma_split_terminated(q, Seq::empty());
    assert(terminated(q) + Seq::<char>::empty() =~= terminated(q));
    let ps = q.push(Seq::<char>::empty());
    assert(ps.drop_last() =~= q);
    lemma_strip_clean(q);
}

/// No two blank lines follow each other.
pub open spec fn no_double_blank(x: Seq<Seq<char>>) -> bool {
    forall|i: int| 0 < i < x.len() ==> !(is_blank(x[i - 1]) && is_blank(#[trigger] x[i]))
}

proof fn lemma_collapse_fixed(x: Seq<Seq<char>>)
    requires
        no_double_blank(x),
    ensures
        collapse_blank(x) == x,
    decreases x.len(),
{
    if x.len() > 0 {
        let p = x.drop_last();
        assert(no_double_blank(p)) by {
            assert forall|i: int| 0 < i < p.len() implies !(is_blank(p[i - 1]) && is_blank(#[trigger] p[i])) by {
                assert(p[i] == x[i] && p[i - 1] == x[i - 1]);
            }
        }
        lemma_collapse_fixed(p);
        if p.len() > 0 {
            assert(x[x.len() - 1] == x.last() && p.last() == x[x.len() - 2]);
        }
        assert(p.push(x.last()) =~= x);
    }
}

proof fn lemma_collapse_no_double(k: Seq<Seq<char>>)
    ensures
        no_double_blank(collapse_blank(k)),
        k.len() > 0 ==> collapse_blank(k).len() > 0,
        forall|i: int| 0 <= i < collapse_blank(k).len() ==> k.contains(#[trigger] collapse_blank(k)[i]),
    decreases k.len(),
{
    if k.len() > 0 {
        let p = k.drop_last();
        lemma_collapse_no_double(p);
        let r = collapse_blank(p);
        let c = collapse_blank(k);
        assert forall|i: int| 0 <= i < c.len() implies k.contains(#[trigger] c[i]) by {
            if i < r.len() {
                assert(c[i] == r[i]);
                let j = choose|j: int| 0 <= j < p.len() && p[j] == r[i];
                assert(k[j] == p[j]);
            } else {
                assert(c[i] == k[k.len() - 1]);
            }
        }
        assert forall|i: int| 0 < i < c.len() implies !(is_blank(c[i - 1]) && is_blank(#[trigger] c[i])) by {
            if i < r.len() {
                assert(c[i] == r[i] && c[i - 1] == r[i - 1]);
            } else {
                assert(c[i - 1] == r.last());
            }
        }
    }
}

proof fn lemma_drop_trailing(x: Seq<Seq<char>>)
    ensures
        drop_trailing_blank(x).len() <= x.len(),
        drop_trailing_blank(x) == x.subrange(0, drop_trailing_blank(x).len() as int),
        drop_trailing_blank(x).len() > 0 ==> !is_blank(drop_trailing_blank(x).last()),
        no_double_blank(x) ==> no_double_blank(drop_trailing_blank(x)),
    decreases x.len(),
{
    if x.len() > 0 && is_blank(x.last()) {
        let p = x.drop_last();
        lemma_drop_trailing(p);
        let d = drop_trailing_blank(p);
        assert(d =~= x.subrange(0, d.len() as int));
        if no_double_blank(x) {
            assert(no_double_blank(p)) by {
                assert forall|i: int| 0 < i < p.len() implies !(is_blank(p[i - 1]) && is_blank(#[trigger] p[i])) by {
                    assert(p[i] == x[i] && p[i - 1] == x[i - 1]);
                }
            }
        }
    } else {
        assert(x.subrange(0, x.len() as int) =~= x);
    }
}

/// Collapsing `a + b` when `b` starts with a line that is not blank collapses each side.
proof fn lemma_collapse_concat(a: Seq<Seq<char>>, b: Seq<Seq<char>>)
    requires
        b.len() > 0,
        !is_blank(b[0]),
    ensures
        collapse_blank(a + b) == collapse_blank(a) + collapse_blank(b),
    decreases b.len(),
{
    if b.len() == 1 {
        assert((a + b).drop_last() =~= a);
        assert((a + b).last() == b[0]);
        assert(b.drop_last() =~= Seq::<Seq<char>>::empty());
        assert(collapse_blank(b.drop_last()) == Seq::<Seq<char>>::empty());
        assert(b.last() == b[0]);
        assert(collapse_blank(b) =~= seq![b[0]]);
        assert(collapse_blank(a + b) =~= collapse_blank(a) + collapse_blank(b));
    } else {
        let bp = b.drop_last();
        assert(bp[0] == b[0]);
        lemma_collapse_concat(a, bp);
        lemma_collapse_no_double(bp);
        assert((a + b).drop_last() =~= a + bp);
        assert((a + b).last() == b.last());
        let r = collapse_blank(a) + collapse_blank(bp);
        assert(r.last() == collapse_blank(bp).last());
        assert(collapse_blank(a + b) =~= collapse_blank(a) + collapse_blank(b));
    }
}

/// Clean, non-blank markers and clean domains give clean, non-blank block lines.
proof fn lemma_block_lines_clean(start: Seq<char>, end: Seq<char>, domains: Seq<Seq<char>>)
    requires
        clean_line(start),
        clean_line(end),
        !is_blank(start),
        !is_blank(end),
        forall|k: int| 0 <= k < domains.len() ==> #[trigger] clean_line(domains[k]),
    ensures
        clean_lines(block_lines(start, end, domains)),
        forall|k: int| 0 <= k < block_lines(start, end, domains).len() ==> !is_blank(#[trigger] block_lines(start, end, domains)[k]),
        block_lines(start, end, domains).len() > 0,
        block_lines(start, end, domains)[0] == start,
        block_lines(start, end, domains).last() == end,
{
    let pre = "127.0.0.1 "@;
    reveal_strlit("127.0.0.1 ");
    assert(pre.len() == 10);
    assert(pre[0] == '1' && pre[9] == ' ');
    assert(!pre.contains('\n')) by {
        if pre.contains('\n') {
            let i = choose|i: int| 0 <= i < pre.len() && pre[i] == '\n';
            assert(pre[i] == strslice_get_char("127.0.0.1 ", i));
        }
    }
    let bl = block_lines(start, end, domains);
    let m = domains.map_values(|d: Seq<char>| pre + d);
    assert forall|k: int| 0 <= k < bl.len() implies #[trigger] clean_line(bl[k]) by {
        if 0 < k < bl.len() - 1 {
            let d = domains[k - 1];
            assert(bl[k] == pre + d);
            assert(clean_line(d));
            let l = pre + d;
            assert(!l.contains('\n')) by {
                if l.contains('\n') {
                    let i = choose|i: int| 0 <= i < l.len() && l[i] == '\n';
                    if i < 10 {
                        assert(pre[i] == l[i]);
                        assert(pre.contains('\n'));
                    } else {
                        assert(d[i - 10] == '\n');
                        assert(d.contains('\n'));
                    }
                }
            }
            if d.len() > 0 {
                assert(l.last() == d.last());
            } else {
                assert(l.last() == pre[9]);
            }
        } else if k == 0 {
            assert(bl[k] == start);
        } else {
            assert(bl[k] == end);
        }
    }
    assert forall|k: int| 0 <= k < bl.len() implies !is_blank(#[trigger] bl[k]) by {
        if 0 < k < bl.len() - 1 {
            let l = pre + domains[k - 1];
            assert(bl[k] == l);
            assert(l[0] == '1');
            assert(!is_space(l[0]));
        } else if k == 0 {
            assert(bl[k] == start);
        } else {
            assert(bl[k] == end);
        }
    }
    assert forall|k: int| 0 <= k < bl.len() implies #[trigger] clean_line(bl[k]) && !is_blank(bl[k]) by {
        if k == 0 {
            assert(bl[k] == start);
        } else if k == bl.len() - 1 {
            assert(bl[k] == end);
        } else {
            let d = domains[k - 1];
            assert(bl[k] == pre + d);
            assert(clean_line(d));
            let l = pre + d;
            assert(!l.contains('\n')) by {
                if l.contains('\n') {
                    let i = choose|i: int| 0 <= i < l.len() && l[i] == '\n';
                    if i < 10 {
                        assert(pre.contains('\n'));
                    } else {
                        assert(d[i - 10] == '\n');
                        assert(d.contains('\n'));
                    }
                }
            }
            if d.len() > 0 {
                assert(l.last() == d.last());
            } else {
                assert(l.last() == pre[9]);
            }
            assert(!is_space(l[0]));
        }
    }
    assert(bl[0] == start);
    assert(bl.last() == end);
}

/// Dropping the carriage returns at the end of a line leaves a prefix of it that does not end
/// with one.
proof fn lemma_strip_prefix(l: Seq<char>)
    ensures
        strip_cr(l).len() <= l.len(),
        strip_cr(l) == l.subrange(0, strip_cr(l).len() as int),
        !(strip_cr(l).len() > 0 && strip_cr(l).last() == '\r'),
    decreases l.len(),
{
    if l.len() > 0 && l.last() == '\r' {
        lemma_strip_prefix(l.drop_last());
        assert(l.drop_last().subrange(0, strip_cr(l).len() as int) =~= l.subrange(0, strip_cr(l).len() as int));
    } else {
        assert(l.subrange(0, l.len() as int) =~= l);
    }
}

/// Every line of a text is clean: no line feed, no carriage return at its end.
pub proof fn lemma_lines_clean(x: Seq<char>)
    ensures
        clean_lines(lines(x)),
{
    let ps = split(x, '\n');
    lemma_split_nonempty(x, '\n');
    lemma_split_pieces_lack_sep(x, '\n');
    assert forall|k: int| 0 <= k < lines(x).len() implies #[trigger] clean_line(lines(x)[k]) by {
        let piece = ps[k];
        assert(raw_lines(x)[k] == piece);
        let l = lines(x)[k];
        assert(l == strip_cr(piece));
        lemma_strip_prefix(piece);
        assert(!l.contains('\n')) by {
            if l.contains('\n') {
                let i = choose|i: int| 0 <= i < l.len() && l[i] == '\n';
                assert(l[i] == piece.subrange(0, l.len() as int)[i]);
                assert(piece[i] == '\n');
            }
        }
    }
}

proof fn lemma_blank_lines_fixed(bl: Seq<Seq<char>>)
    requires
        forall|k: int| 0 <= k < bl.len() ==> !is_blank(#[trigger] bl[k]),
    ensures
        no_double_blank(bl),
{
    assert forall|i: int| 0 < i < bl.len() implies !(is_blank(bl[i - 1]) && is_blank(#[trigger] bl[i])) by {}
}

/// Collapsing `a + b` collapses each side, when what `a` collapses to ends in a line that is
/// not blank, or is empty.
proof fn lemma_collapse_concat_fresh(a: Seq<Seq<char>>, b: Seq<Seq<char>>)
    requires
        collapse_blank(a).len() == 0 || !is_blank(collapse_blank(a).last()),
    ensures
        collapse_blank(a + b) == collapse_blank(a) + collapse_blank(b),
    decreases b.len(),
{
    if b.len() == 0 {
        assert(a + b =~= a);
        assert(collapse_blank(b) =~= Seq::<Seq<char>>::empty());
        assert(collapse_blank(a) + collapse_blank(b) =~= collapse_blank(a));
    } else {
        let bp = b.drop_last();
        lemma_collapse_concat_fresh(a, bp);
        lemma_collapse_no_double(bp);
        assert((a + b).drop_last() =~= a + bp);
        assert((a + b).last() == b.last());
        if bp.len() == 0 {
            assert(collapse_blank(bp) =~= Seq::<Seq<char>>::empty());
            assert(collapse_blank(a + bp) =~= collapse_blank(a));
        }
        assert(collapse_blank(a + b) =~= collapse_blank(a) + collapse_blank(b));
    }
}

/// Dropping trailing blank lines of `x + y` touches `x` only when `y` is all blank.
proof fn lemma_drop_concat(x: Seq<Seq<char>>, y: Seq<Seq<char>>)
    ensures
        drop_trailing_blank(y).len() > 0 ==> drop_trailing_blank(x + y) == x + drop_trailing_blank(y),
        drop_trailing_blank(y).len() == 0 ==> drop_trailing_blank(x + y) == drop_trailing_blank(x),
    decreases y.len(),
{
    if y.len() == 0 {
        assert(x + y =~= x);
    } else if is_blank(y.last()) {
        lemma_drop_concat(x, y.drop_last());
        assert((x + y).drop_last() =~= x + y.drop_last());
        assert((x + y).last() == y.last());
    } else {
        assert((x + y).last() == y.last());
    }
}

proof fn lemma_collapse_one(l: Seq<char>)
    ensures
        collapse_blank(seq![l]) == seq![l],
{
    assert(seq![l].drop_last() =~= Seq::<Seq<char>>::empty());
    assert(collapse_blank(seq![l].drop_last()) == Seq::<Seq<char>>::empty());
    assert(seq![l].last() == l);
    assert(collapse_blank(seq![l]) =~= seq![l]);
}

proof fn lemma_collapse_first(x: Seq<Seq<char>>)
    requires
        x.len() > 0,
    ensures
        collapse_blank(x).len() > 0,
        collapse_blank(x)[0] == x[0],
    decreases x.len(),
{
    let p = x.drop_last();
    if p.len() > 0 {
        lemma_collapse_first(p);
        assert(p[0] == x[0]);
    } else {
        assert(collapse_blank(p) =~= Seq::<Seq<char>>::empty());
        assert(x.last() == x[0]);
    }
}

/// No start-marker line comes before an end-marker line.
pub open spec fn pairs_free(x: Seq<Seq<char>>, start: Seq<char>, end: Seq<char>) -> bool {
    forall|i: int, j: int| 0 <= i < j < x.len() ==> !(#[trigger] x[i] == start && #[trigger] x[j] == end)
}

/// A file holds at most one managed block when removing the one found leaves no other.
pub open spec fn at_most_one_block(ls: Seq<Seq<char>>, start: Seq<char>, end: Seq<char>) -> bool {
    match block_of(ls, start, end) {
        None => true,
        Some((p, q)) => pairs_free(ls.subrange(0, p) + ls.subrange(q + 1, ls.len() as int), start, end),
    }
}

proof fn lemma_closing_found(x: Seq<Seq<char>>, start: Seq<char>, end: Seq<char>, from: int, seen: bool)
    requires
        0 <= from,
        closing_line(x, start, end, from, seen) is Some,
    ensures
        ({
            let k = closing_line(x, start, end, from, seen)->Some_0;
            &&& from <= k < x.len()
            &&& x[k] == end
            &&& seen || exists|i: int| from <= i < k && x[i] == start
        }),
    decreases x.len() - from,
{
    if !(x[from] == end && seen) {
        lemma_closing_found(x, start, end, from + 1, seen || x[from] == start);
    }
}

proof fn lemma_pair_closes(x: Seq<Seq<char>>, start: Seq<char>, end: Seq<char>, from: int, seen: bool, j: int)
    requires
        0 <= from <= j < x.len(),
        x[j] == end,
        seen || exists|i: int| from <= i < j && x[i] == start,
    ensures
        closing_line(x, start, end, from, seen) is Some,
        closing_line(x, start, end, from, seen)->Some_0 <= j,
    decreases j - from,
{
    if !(x[from] == end && seen) {
        let seen2 = seen || x[from] == start;
        if !seen2 {
            let i = choose|i: int| from <= i < j && x[i] == start;
            assert(i != from);
        }
        assert(from < j) by {
            if from == j {
                if !seen {
                    let i = choose|i: int| from <= i < j && x[i] == start;
                }
            }
        }
        lemma_pair_closes(x, start, end, from + 1, seen2, j);
    }
}

/// Lines without a start-marker line before an end-marker line hold no block.
proof fn lemma_pairs_free_no_block(x: Seq<Seq<char>>, start: Seq<char>, end: Seq<char>)
    ensures
        pairs_free(x, start, end) <==> closing_line(x, start, end, 0, false) is None,
{
    if closing_line(x, start, end, 0, false) is Some {
        lemma_closing_found(x, start, end, 0, false);
        let k = closing_line(x, start, end, 0, false)->Some_0;
        let i = choose|i: int| 0 <= i < k && x[i] == start;
        assert(x[i] == start && x[k] == end);
    }
    if !pairs_free(x, start, end) {
        let (i, j) = choose|i: int, j: int| 0 <= i < j < x.len() && (x[i] == start && x[j] == end);
        lemma_pair_closes(x, start, end, 0, false, j);
    }
}

proof fn lemma_pairs_free_prefix(x: Seq<Seq<char>>, k: int, start: Seq<char>, end: Seq<char>)
    requires
        pairs_free(x, start, end),
        0 <= k <= x.len(),
    ensures
        pairs_free(x.subrange(0, k), start, end),
{
    let y = x.subrange(0, k);
    assert forall|i: int, j: int| 0 <= i < j < y.len() implies !(#[trigger] y[i] == start && #[trigger] y[j] == end) by {
        assert(y[i] == x[i] && y[j] == x[j]);
    }
}

proof fn lemma_collapse_pairs_free(x: Seq<Seq<char>>, start: Seq<char>, end: Seq<char>)
    requires
        pairs_free(x, start, end),
    ensures
        pairs_free(collapse_blank(x), start, end),
    decreases x.len(),
{
    if x.len() > 0 {
        let p = x.drop_last();
        lemma_pairs_free_prefix(x, x.len() - 1, start, end);
        assert(p =~= x.subrange(0, x.len() - 1));
        lemma_collapse_pairs_free(p, start, end);
        lemma_collapse_no_double(p);
        let r = collapse_blank(p);
        let c = collapse_blank(x);
        assert forall|i: int, j: int| 0 <= i < j < c.len() implies !(#[trigger] c[i] == start && #[trigger] c[j] == end) by {
            if j < r.len() {
                assert(c[i] == r[i] && c[j] == r[j]);
            } else {
                assert(c[j] == x[x.len() - 1]);
                assert(c[i] == r[i]);
                assert(p.contains(r[i]));
                let w = choose|w: int| 0 <= w < p.len() && p[w] == r[i];
                assert(x[w] == p[w]);
            }
        }
    }
}

proof fn lemma_canon_pairs_free(x: Seq<Seq<char>>, start: Seq<char>, end: Seq<char>)
    requires
        pairs_free(x, start, end),
    ensures
        pairs_free(canon(x), start, end),
{
    lemma_collapse_pairs_free(x, start, end);
    lemma_drop_trailing(collapse_blank(x));
    lemma_pairs_free_prefix(collapse_blank(x), canon(x).len() as int, start, end);
}

proof fn lemma_opening_at(x: Seq<Seq<char>>, start: Seq<char>, before: int, k: int)
    requires
        0 <= k < before <= x.len(),
        x[k] == start,
        forall|i: int| k < i < before ==> x[i] != start,
    ensures
        opening_line(x, start, before) == k,
    decreases before,
{
    if before - 1 != k {
        lemma_opening_at(x, start, before - 1, k);
    }
}

proof fn lemma_opening_bounds(x: Seq<Seq<char>>, start: Seq<char>, before: int)
    requires
        0 <= before,
    ensures
        opening_line(x, start, before) < before,
        opening_line(x, start, before) >= -1,
        opening_line(x, start, before) >= 0 ==> x[opening_line(x, start, before)] == start,
    decreases before,
{
    if 0 < before <= x.len() && x[before - 1] != start {
        lemma_opening_bounds(x, start, before - 1);
    }
}

/// The lines of a block meet what the laws need: clean, not blank, the start marker first,
/// the end marker last, and neither marker among the host lines.
pub open spec fn good_block(nb: Seq<Seq<char>>, start: Seq<char>, end: Seq<char>) -> bool {
    &&& nb.len() >= 2
    &&& nb[0] == start
    &&& nb.last() == end
    &&& clean_lines(nb)
    &&& forall|k: int| 0 <= k < nb.len() ==> !is_blank(#[trigger] nb[k])
    &&& forall|k: int| 0 < k < nb.len() - 1 ==> #[trigger] nb[k] != start && nb[k] != end
}

/// In kept lines free of blocks, followed by a block and more lines, the block is found.
proof fn lemma_block_found(a: Seq<Seq<char>>, nb: Seq<Seq<char>>, z: Seq<Seq<char>>, start: Seq<char>, end: Seq<char>)
    requires
        pairs_free(a, start, end),
        good_block(nb, start, end),
        start != end,
    ensures
        block_of(a + nb + z, start, end) == Some((a.len() as int, (a.len() + nb.len() - 1) as int)),
{
    let m = a + nb + z;
    let j = (a.len() + nb.len() - 1) as int;
    let i0 = a.len() as int;
    assert(m[i0] == nb[0]);
    assert(m[j] == nb[nb.len() - 1]);
    lemma_pair_closes(m, start, end, 0, false, j);
    lemma_closing_found(m, start, end, 0, false);
    let k = closing_line(m, start, end, 0, false)->Some_0;
    assert(k == j) by {
        if k < j {
            let i = choose|i: int| 0 <= i < k && m[i] == start;
            if k < i0 {
                assert(m[i] == a[i] && m[k] == a[k]);
            } else {
                assert(m[k] == nb[k - i0]);
                if k == i0 {
                    assert(nb[0] == start);
                }
            }
        }
    }
    assert forall|i: int| i0 < i < j implies m[i] != start by {
        assert(m[i] == nb[i - i0]);
    }
    lemma_opening_at(m, start, j, i0);
}

/// The kept lines of `pre`, a block and `post` laid out by `placed`: those of `pre` and a
/// blank line, the block, then those of a blank line and `post`.
proof fn lemma_canon_placed(pre: Seq<Seq<char>>, nb: Seq<Seq<char>>, post: Seq<Seq<char>>, start: Seq<char>, end: Seq<char>)
    requires
        good_block(nb, start, end),
    ensures
        ({
            let a = if pre.len() == 0 { Seq::<Seq<char>>::empty() } else { pre.push(Seq::<char>::empty()) };
            let z = if post.len() == 0 { Seq::<Seq<char>>::empty() } else { seq![Seq::<char>::empty()] + post };
            canon(placed(pre, nb, post)) == collapse_blank(a) + nb + drop_trailing_blank(collapse_blank(z))
        }),
{
    let a = if pre.len() == 0 { Seq::<Seq<char>>::empty() } else { pre.push(Seq::<char>::empty()) };
    let z = if post.len() == 0 { Seq::<Seq<char>>::empty() } else { seq![Seq::<char>::empty()] + post };
    assert(placed(pre, nb, post) =~= a + (nb + z));
    assert((nb + z)[0] == nb[0]);
    lemma_collapse_concat(a, nb + z);
    lemma_blank_lines_fixed(nb);
    lemma_collapse_fixed(nb);
    assert(!is_blank(nb[nb.len() - 1]));
    lemma_collapse_concat_fresh(nb, z);
    let ca = collapse_blank(a);
    let cz = collapse_blank(z);
    assert(collapse_blank(placed(pre, nb, post)) =~= (ca + nb) + cz);
    lemma_drop_concat(ca + nb, cz);
    assert(drop_trailing_blank(ca + nb) == ca + nb) by {
        assert((ca + nb).last() == nb[nb.len() - 1]);
    }
    if drop_trailing_blank(cz).len() == 0 {
        assert(ca + nb + drop_trailing_blank(cz) =~= ca + nb);
    }
}

proof fn lemma_collapse_last(x: Seq<Seq<char>>)
    requires
        x.len() > 0,
        !is_blank(x.last()),
    ensures
        collapse_blank(x).len() > 0,
        collapse_blank(x).last() == x.last(),
{
}

proof fn lemma_drop_trailing_fixed(x: Seq<Seq<char>>)
    ensures
        drop_trailing_blank(drop_trailing_blank(x)) == drop_trailing_blank(x),
{
    lemma_drop_trailing(x);
    let d = drop_trailing_blank(x);
    if d.len() > 0 {
        assert(!is_blank(d.last()));
    }
}

proof fn lemma_drop_leading_nonblank(x: Seq<Seq<char>>)
    ensures
        drop_leading_blank(x).len() == 0 || !is_blank(drop_leading_blank(x)[0]),
        forall|i: int| 0 <= i < drop_leading_blank(x).len() ==> x.contains(#[trigger] drop_leading_blank(x)[i]),
        exists|k: int| 0 <= k <= x.len() && drop_leading_blank(x) == x.subrange(k, x.len() as int),
    decreases x.len(),
{
    if x.len() > 0 && is_blank(x[0]) {
        let t = x.drop_first();
        lemma_drop_leading_nonblank(t);
        let d = drop_leading_blank(t);
        assert forall|i: int| 0 <= i < d.len() implies x.contains(#[trigger] d[i]) by {
            let w = choose|w: int| 0 <= w < t.len() && t[w] == d[i];
            assert(x[w + 1] == t[w]);
        }
        let k = choose|k: int| 0 <= k <= t.len() && d == t.subrange(k, t.len() as int);
        assert(d =~= x.subrange(k + 1, x.len() as int));
    } else {
        assert forall|i: int| 0 <= i < x.len() implies x.contains(#[trigger] x[i]) by {}
        assert(x =~= x.subrange(0, x.len() as int));
    }
}

/// Every line of `x` is clean when every line of `y` is, and each line of `x` is one of `y`.
proof fn lemma_clean_from(x: Seq<Seq<char>>, y: Seq<Seq<char>>)
    requires
        clean_lines(y),
        forall|i: int| 0 <= i < x.len() ==> y.contains(#[trigger] x[i]),
    ensures
        clean_lines(x),
{
    assert forall|i: int| 0 <= i < x.len() implies #[trigger] clean_line(x[i]) by {
        let w = choose|w: int| 0 <= w < y.len() && y[w] == x[i];
        assert(clean_line(y[w]));
    }
}

/// The kept lines of any lines are kept unchanged by a second normalization.
proof fn lemma_canon_fixed(x: Seq<Seq<char>>)
    ensures
        canon(canon(x)) == canon(x),
{
    lemma_collapse_no_double(x);
    lemma_drop_trailing(collapse_blank(x));
    lemma_collapse_fixed(canon(x));
    lemma_drop_trailing_fixed(collapse_blank(x));
}

/// The kept lines of a placed text, when they are read back and placed again with the same
/// block, are placed the same way.
#[verifier::rlimit(60)]
proof fn lemma_replaced_again(
    pre: Seq<Seq<char>>,
    nb: Seq<Seq<char>>,
    post: Seq<Seq<char>>,
    start: Seq<char>,
    end: Seq<char>,
)
    requires
        good_block(nb, start, end),
        start != end,
        pre.len() == 0 || !is_blank(pre.last()),
        post.len() == 0 || !is_blank(post[0]),
        pairs_free(pre, start, end),
        !is_blank(start),
    ensures
        ({
            let m = canon(placed(pre, nb, post));
            block_of(m, start, end) is Some
                && canon(placed(
                    drop_trailing_blank(m.subrange(0, block_of(m, start, end)->Some_0.0)),
                    nb,
                    drop_leading_blank(m.subrange(block_of(m, start, end)->Some_0.1 + 1, m.len() as int)),
                )) == m
        }),
{
    let e = Seq::<char>::empty();
    let a = if pre.len() == 0 { Seq::<Seq<char>>::empty() } else { pre.push(e) };
    let z = if post.len() == 0 { Seq::<Seq<char>>::empty() } else { seq![e] + post };
    lemma_canon_placed(pre, nb, post, start, end);
    let ca = collapse_blank(a);
    let pz = drop_trailing_blank(collapse_blank(z));
    let m = canon(placed(pre, nb, post));
    assert(m == ca + nb + pz);
    assert(is_blank(e));
    // the part before the block
    let pre2 = if pre.len() == 0 { Seq::<Seq<char>>::empty() } else { collapse_blank(pre) };
    lemma_collapse_no_double(pre);
    if pre.len() > 0 {
        lemma_collapse_last(pre);
        lemma_collapse_concat_fresh(pre, seq![e]);
        lemma_collapse_one(e);
        assert(a =~= pre + seq![e]);
        assert(ca == collapse_blank(pre) + seq![e]);
        assert(drop_trailing_blank(ca) == pre2) by {
            assert(ca.drop_last() =~= collapse_blank(pre));
            assert(ca.last() == e);
            let cpre = collapse_blank(pre);
            assert(cpre.last() == cpre[cpre.len() - 1]);
            assert(!is_blank(cpre.last()));
            assert(drop_trailing_blank(cpre) == cpre);
        }
        assert(pairs_free(a, start, end)) by {
            assert forall|i: int, j: int| 0 <= i < j < a.len() implies !(#[trigger] a[i] == start && #[trigger] a[j] == end) by {
                if j < pre.len() {
                    assert(a[i] == pre[i] && a[j] == pre[j]);
                } else {
                    assert(a[j] == e);
                    assert(!is_blank(end));
                }
            }
        }
    } else {
        assert(ca =~= Seq::<Seq<char>>::empty()) by {
            assert(a =~= Seq::<Seq<char>>::empty());
        }
        assert(pairs_free(a, start, end));
    }
    lemma_collapse_pairs_free(a, start, end);
    lemma_block_found(ca, nb, pz, start, end);
    let q = (ca.len() + nb.len() - 1) as int;
    assert(m.subrange(0, ca.len() as int) =~= ca);
    assert(m.subrange(q + 1, m.len() as int) =~= pz);
    // the part after the block
    let post2 = drop_leading_blank(pz);
    if post.len() > 0 {
        lemma_collapse_concat(seq![e], post);
        lemma_collapse_one(e);
        assert(collapse_blank(z) == seq![e] + collapse_blank(post));
        lemma_collapse_first(post);
        lemma_collapse_no_double(post);
        let cp = collapse_blank(post);
        assert(!is_blank(cp[0]));
        lemma_drop_concat(seq![e], cp);
        let q2 = drop_trailing_blank(cp);
        lemma_drop_trailing(cp);
        assert(q2.len() > 0) by {
            if q2.len() == 0 {
                assert(drop_trailing_blank(cp) == drop_trailing_blank(cp.drop_last()) || true);
                lemma_drop_keeps_first(cp);
            }
        }
        assert(pz == seq![e] + q2);
        assert(q2[0] == cp[0]);
        assert(post2 == q2) by {
            assert((seq![e] + q2).drop_first() =~= q2);
            assert((seq![e] + q2)[0] == e);
            assert(drop_leading_blank(q2) == q2);
        }
        // placing again gives the same lines after the block
        lemma_canon_placed(pre2, nb, post2, start, end);
        lemma_collapse_concat(seq![e], q2);
        assert(no_double_blank(q2));
        lemma_collapse_fixed(q2);
        lemma_drop_concat(seq![e], q2);
        lemma_drop_trailing_fixed(cp);
    } else {
        assert(z =~= Seq::<Seq<char>>::empty());
        assert(collapse_blank(z) =~= Seq::<Seq<char>>::empty());
        assert(pz =~= Seq::<Seq<char>>::empty());
        assert(post2 =~= Seq::<Seq<char>>::empty());
        lemma_canon_placed(pre2, nb, post2, start, end);
    }
    let a2 = if pre2.len() == 0 { Seq::<Seq<char>>::empty() } else { pre2.push(e) };
    let z2 = if post2.len() == 0 { Seq::<Seq<char>>::empty() } else { seq![e] + post2 };
    assert(collapse_blank(a2) == ca) by {
        if pre.len() > 0 {
            lemma_collapse_fixed(pre2);
            lemma_collapse_last(pre);
            assert(pre2.len() > 0);
            assert(!is_blank(pre2.last()));
            lemma_collapse_concat_fresh(pre2, seq![e]);
            assert(a2 =~= pre2 + seq![e]);
        } else {
            assert(a2 =~= Seq::<Seq<char>>::empty());
            assert(collapse_blank(a2) =~= Seq::<Seq<char>>::empty());
        }
    }
    assert(drop_trailing_blank(collapse_blank(z2)) == pz) by {
        if post.len() > 0 {
            let cp = collapse_blank(post);
            let q2 = drop_trailing_blank(cp);
            assert(z2 == seq![e] + q2);
            assert(collapse_blank(z2) == seq![e] + q2);
            assert(drop_trailing_blank(q2) == q2);
        } else {
            assert(z2 =~= Seq::<Seq<char>>::empty());
            assert(collapse_blank(z2) =~= Seq::<Seq<char>>::empty());
        }
    }
}

proof fn lemma_drop_keeps_first(x: Seq<Seq<char>>)
    requires
        x.len() > 0,
        !is_blank(x[0]),
    ensures
        drop_trailing_blank(x).len() > 0,
    decreases x.len(),
{
    if is_blank(x.last()) {
        assert(x.len() > 1) by {
            if x.len() == 1 {
                assert(x.last() == x[0]);
            }
        }
        assert(x.drop_last()[0] == x[0]);
        lemma_drop_keeps_first(x.drop_last());
    }
}


/// The block's lines, and the lines before and after it, as `updated_lines` takes them.
proof fn lemma_block_parts(ls: Seq<Seq<char>>, start: Seq<char>, end: Seq<char>)
    requires
        block_of(ls, start, end) is Some,
    ensures
        ({
            let (p, q) = block_of(ls, start, end)->Some_0;
            &&& 0 <= p < q < ls.len()
            &&& pairs_free(ls.subrange(0, p), start, end)
        }),
{
    lemma_closing_found(ls, start, end, 0, false);
    lemma_closing_has_opening(ls, start, end, 0, false);
    let q = closing_line(ls, start, end, 0, false)->Some_0;
    lemma_opening_bounds(ls, start, q);
    let p = opening_line(ls, start, q);
    let x = ls.subrange(0, p);
    assert forall|i: int, j: int| 0 <= i < j < x.len() implies !(#[trigger] x[i] == start && #[trigger] x[j] == end) by {
        if x[i] == start && x[j] == end {
            assert(ls[i] == x[i] && ls[j] == x[j]);
            lemma_pair_closes(ls, start, end, 0, false, j);
        }
    }
}

proof fn lemma_prefix_clean(x: Seq<Seq<char>>, k: int)
    requires
        clean_lines(x),
        0 <= k <= x.len(),
    ensures
        clean_lines(x.subrange(0, k)),
        clean_lines(x.subrange(k, x.len() as int)),
{
    assert forall|i: int| 0 <= i < k implies #[trigger] clean_line(x.subrange(0, k)[i]) by {
        assert(x.subrange(0, k)[i] == x[i]);
    }
    assert forall|i: int| 0 <= i < x.len() - k implies #[trigger] clean_line(x.subrange(k, x.len() as int)[i]) by {
        assert(x.subrange(k, x.len() as int)[i] == x[i + k]);
    }
}

/// The kept lines of a clean text, ended by line feeds, read back as the same lines.
proof fn lemma_canon_read_back(r: Seq<Seq<char>>)
    requires
        clean_lines(r),
    ensures
        lines(terminated(canon(r))) == canon(r),
        clean_lines(canon(r)),
{
    lemma_collapse_no_double(r);
    lemma_drop_trailing(collapse_blank(r));
    let c = collapse_blank(r);
    assert forall|i: int| 0 <= i < canon(r).len() implies r.contains(#[trigger] canon(r)[i]) by {
        assert(canon(r)[i] == c[i]);
    }
    lemma_clean_from(canon(r), r);
    lemma_lines_of_terminated(canon(r));
}

/// Setting the managed block twice in a row to the same list of domains gives the text that
/// setting it once gives, for any file, provided the markers are clean single lines that are
/// not blank and differ, no host line is a marker, and, when the list is empty, the file holds
/// at most one block (removing a block must not leave another behind).
pub proof fn lemma_update_idempotent(content: Seq<char>, start: Seq<char>, end: Seq<char>, domains: Seq<Seq<char>>)
    requires
        clean_line(start),
        clean_line(end),
        !is_blank(start),
        !is_blank(end),
        start != end,
        forall|k: int| 0 <= k < domains.len() ==> #[trigger] clean_line(domains[k]) && "127.0.0.1 "@
            + domains[k] != start && "127.0.0.1 "@ + domains[k] != end,
        domains.len() > 0 || at_most_one_block(lines(content), start, end),
    ensures
        updated_content(updated_content(content, start, end, domains), start, end, domains)
            == updated_content(content, start, end, domains),
{
    let ls = lines(content);
    lemma_lines_clean(content);
    let e = Seq::<char>::empty();
    let r = updated_lines(ls, start, end, domains);
    let m = canon(r);
    if domains.len() > 0 {
        let nb = block_lines(start, end, domains);
        lemma_block_lines_clean(start, end, domains);
        assert(good_block(nb, start, end)) by {
            assert forall|k: int| 0 < k < nb.len() - 1 implies #[trigger] nb[k] != start && nb[k] != end by {
                let m = domains.map_values(|d: Seq<char>| "127.0.0.1 "@ + d);
                assert(nb[k] == m[k - 1]);
                assert(m[k - 1] == "127.0.0.1 "@ + domains[k - 1]);
                assert(clean_line(domains[k - 1]));
            }
        }
        let (pre, post) = match block_of(ls, start, end) {
            Some((p, q)) => (drop_trailing_blank(ls.subrange(0, p)), drop_leading_blank(ls.subrange(q + 1, ls.len() as int))),
            None => (drop_trailing_blank(ls), Seq::<Seq<char>>::empty()),
        };
        assert(r == placed(pre, nb, post));
        let (x, y) = match block_of(ls, start, end) {
            Some((p, q)) => (ls.subrange(0, p), ls.subrange(q + 1, ls.len() as int)),
            None => (ls, Seq::<Seq<char>>::empty()),
        };
        if block_of(ls, start, end) is Some {
            lemma_block_parts(ls, start, end);
            let (p, q) = block_of(ls, start, end)->Some_0;
            lemma_prefix_clean(ls, p);
            lemma_prefix_clean(ls, q + 1);
        } else {
            lemma_pairs_free_no_block(ls, start, end);
            assert(y =~= Seq::<Seq<char>>::empty());
        }
        assert(pre == drop_trailing_blank(x));
        assert(post == drop_leading_blank(y));
        lemma_drop_trailing(x);
        lemma_pairs_free_prefix(x, pre.len() as int, start, end);
        lemma_drop_leading_nonblank(y);
        lemma_prefix_clean(x, pre.len() as int);
        lemma_clean_from(post, y);
        assert(clean_lines(r)) by {
            assert forall|i: int| 0 <= i < r.len() implies #[trigger] clean_line(r[i]) by {
                let a = if pre.len() == 0 { Seq::<Seq<char>>::empty() } else { pre.push(e) };
                let z = if post.len() == 0 { Seq::<Seq<char>>::empty() } else { seq![e] + post };
                assert(r =~= a + nb + z);
                if i < a.len() {
                    if i < pre.len() {
                        assert(r[i] == pre[i]);
                    } else {
                        assert(r[i] == e);
                    }
                } else if i < a.len() + nb.len() {
                    assert(r[i] == nb[i - a.len()]);
                } else {
                    let w = i - a.len() - nb.len();
                    if w == 0 {
                        assert(r[i] == e);
                    } else {
                        assert(r[i] == post[w - 1]);
                    }
                }
            }
        }
        lemma_canon_read_back(r);
        lemma_replaced_again(pre, nb, post, start, end);
        assert(lines(updated_content(content, start, end, domains)) == m);
    } else {
        let x = match block_of(ls, start, end) {
            Some((p, q)) => drop_trailing_blank(ls.subrange(0, p)) + drop_leading_blank(ls.subrange(q + 1, ls.len() as int)),
            None => ls,
        };
        assert(r == x);
        if block_of(ls, start, end) is Some {
            lemma_block_parts(ls, start, end);
            let (p, q) = block_of(ls, start, end)->Some_0;
            let u = ls.subrange(0, p);
            let v = ls.subrange(q + 1, ls.len() as int);
            lemma_drop_trailing(u);
            lemma_drop_leading_nonblank(v);
            let du = drop_trailing_blank(u);
            let dv = drop_leading_blank(v);
            let k2 = choose|k: int| 0 <= k <= v.len() && dv == v.subrange(k, v.len() as int);
            assert(pairs_free(u + v, start, end));
            assert(pairs_free(du + dv, start, end)) by {
                let w = u + v;
                let d = du + dv;
                assert forall|i: int, j: int| 0 <= i < j < d.len() implies !(#[trigger] d[i] == start && #[trigger] d[j] == end) by {
                    let mi = if i < du.len() { i } else { u.len() + k2 + (i - du.len()) };
                    let mj = if j < du.len() { j } else { u.len() + k2 + (j - du.len()) };
                    assert(d[i] == w[mi]);
                    assert(d[j] == w[mj]);
                }
            }
            lemma_prefix_clean(ls, p);
            lemma_prefix_clean(ls, q + 1);
            lemma_prefix_clean(u, du.len() as int);
            lemma_clean_from(dv, v);
            assert(clean_lines(r)) by {
                assert forall|i: int| 0 <= i < r.len() implies #[trigger] clean_line(r[i]) by {
                    if i < du.len() {
                        assert(r[i] == du[i]);
                    } else {
                        assert(r[i] == dv[i - du.len()]);
                    }
                }
            }
        } else {
            lemma_pairs_free_no_block(ls, start, end);
        }
        lemma_canon_read_back(r);
        lemma_canon_pairs_free(r, start, end);
        lemma_pairs_free_no_block(m, start, end);
        lemma_canon_fixed(r);
        assert(updated_lines(m, start, end, domains) == m);
    }
}

/// Setting the block to no domains removes the block and the blank lines next to it: what
/// remains is the lines before and after, normalized.
pub proof fn lemma_empty_list_removes_block(content: Seq<char>, start: Seq<char>, end: Seq<char>)
    requires
        block_of(lines(content), start, end) is Some,
    ensures
        ({
            let ls = lines(content);
            let (p, q) = block_of(ls, start, end)->Some_0;
            updated_content(content, start, end, Seq::empty()) == terminated(canon(
                drop_trailing_blank(ls.subrange(0, p)) + drop_leading_blank(ls.subrange(q + 1, ls.len() as int)),
            ))
        }),
{
}

/// When no line outside the block is a marker, no line of the result of setting the block to
/// no domains is one.
pub proof fn lemma_empty_list_leaves_no_marker(content: Seq<char>, start: Seq<char>, end: Seq<char>)
    requires
        block_of(lines(content), start, end) is Some,
        ({
            let ls = lines(content);
            let (p, q) = block_of(ls, start, end)->Some_0;
            forall|i: int| 0 <= i < ls.len() && !(p <= i <= q) ==> #[trigger] ls[i] != start && ls[i] != end
        }),
    ensures
        forall|i: int| 0 <= i < lines(updated_content(content, start, end, Seq::empty())).len() ==>
            #[trigger] lines(updated_content(content, start, end, Seq::empty()))[i] != start
                && lines(updated_content(content, start, end, Seq::empty()))[i] != end,
{
    let ls = lines(content);
    lemma_lines_clean(content);
    lemma_block_parts(ls, start, end);
    let (p, q) = block_of(ls, start, end)->Some_0;
    let u = ls.subrange(0, p);
    let v = ls.subrange(q + 1, ls.len() as int);
    lemma_drop_trailing(u);
    lemma_drop_leading_nonblank(v);
    let r = drop_trailing_blank(u) + drop_leading_blank(v);
    assert(updated_lines(ls, start, end, Seq::empty()) == r);
    assert forall|i: int| 0 <= i < r.len() implies r[i] != start && r[i] != end && ls.contains(#[trigger] r[i]) by {
        let du = drop_trailing_blank(u);
        if i < du.len() {
            assert(r[i] == u[i] && u[i] == ls[i]);
        } else {
            let dv = drop_leading_blank(v);
            assert(r[i] == dv[i - du.len()]);
            let w = choose|w: int| 0 <= w < v.len() && v[w] == dv[i - du.len()];
            assert(v[w] == ls[w + q + 1]);
        }
    }
    assert(clean_lines(r)) by {
        lemma_clean_from(r, ls);
    }
    lemma_canon_read_back(r);
    let m = canon(r);
    lemma_collapse_no_double(r);
    lemma_drop_trailing(collapse_blank(r));
    assert forall|i: int| 0 <= i < m.len() implies #[trigger] m[i] != start && m[i] != end by {
        assert(m[i] == collapse_blank(r)[i]);
        assert(r.contains(collapse_blank(r)[i]));
    }
}


/// The lines of `ls` that are not blank, in order.
pub open spec fn nonblank_lines(ls: Seq<Seq<char>>) -> Seq<Seq<char>>
    decreases ls.len(),
{
    if ls.len() == 0 {
        ls
    } else if is_blank(ls.last()) {
        nonblank_lines(ls.drop_last())
    } else {
        nonblank_lines(ls.drop_last()).push(ls.last())
    }
}

proof fn lemma_nonblank_concat(a: Seq<Seq<char>>, b: Seq<Seq<char>>)
    ensures
        nonblank_lines(a + b) == nonblank_lines(a) + nonblank_lines(b),
    decreases b.len(),
{
    if b.len() == 0 {
        assert(a + b =~= a);
        assert(nonblank_lines(a) + nonblank_lines(b) =~= nonblank_lines(a));
    } else {
        lemma_nonblank_concat(a, b.drop_last());
        assert((a + b).drop_last() =~= a + b.drop_last());
        assert((a + b).last() == b.last());
        assert(nonblank_lines(a + b) =~= nonblank_lines(a) + nonblank_lines(b));
    }
}

proof fn lemma_nonblank_collapse(x: Seq<Seq<char>>)
    ensures
        nonblank_lines(collapse_blank(x)) == nonblank_lines(x),
    decreases x.len(),
{
    if x.len() > 0 {
        let p = x.drop_last();
        lemma_nonblank_collapse(p);
        let r = collapse_blank(p);
        if collapse_blank(x) == r.push(x.last()) {
            assert(r.push(x.last()).drop_last() =~= r);
        }
    }
}

proof fn lemma_nonblank_drop(x: Seq<Seq<char>>)
    ensures
        nonblank_lines(drop_trailing_blank(x)) == nonblank_lines(x),
        nonblank_lines(drop_leading_blank(x)) == nonblank_lines(x),
    decreases x.len(),
{
    if x.len() > 0 && is_blank(x.last()) {
        lemma_nonblank_drop_trailing_only(x);
    }
    if x.len() > 0 && is_blank(x[0]) {
        let t = x.drop_first();
        lemma_nonblank_drop(t);
        assert(x =~= seq![x[0]] + t);
        lemma_nonblank_concat(seq![x[0]], t);
        assert(seq![x[0]].drop_last() =~= Seq::<Seq<char>>::empty());
        assert(seq![x[0]].last() == x[0]);
        assert(nonblank_lines(seq![x[0]].drop_last()) == Seq::<Seq<char>>::empty());
        assert(nonblank_lines(seq![x[0]]) =~= Seq::<Seq<char>>::empty());
    }
}

proof fn lemma_nonblank_drop_trailing_only(x: Seq<Seq<char>>)
    ensures
        nonblank_lines(drop_trailing_blank(x)) == nonblank_lines(x),
    decreases x.len(),
{
    if x.len() > 0 && is_blank(x.last()) {
        lemma_nonblank_drop_trailing_only(x.drop_last());
    }
}

/// Setting the block to no domains keeps every line that is not blank, in order, but those
/// of the block: the lines before it, then those after it.
pub proof fn lemma_empty_list_keeps_other_lines(content: Seq<char>, start: Seq<char>, end: Seq<char>)
    requires
        block_of(lines(content), start, end) is Some,
    ensures
        ({
            let ls = lines(content);
            let (p, q) = block_of(ls, start, end)->Some_0;
            nonblank_lines(lines(updated_content(content, start, end, Seq::empty())))
                == nonblank_lines(ls.subrange(0, p)) + nonblank_lines(ls.subrange(q + 1, ls.len() as int))
        }),
{
    let ls = lines(content);
    lemma_lines_clean(content);
    lemma_block_parts(ls, start, end);
    let (p, q) = block_of(ls, start, end)->Some_0;
    let u = ls.subrange(0, p);
    let v = ls.subrange(q + 1, ls.len() as int);
    lemma_drop_trailing(u);
    lemma_drop_leading_nonblank(v);
    let du = drop_trailing_blank(u);
    let dv = drop_leading_blank(v);
    let r = du + dv;
    assert(updated_lines(ls, start, end, Seq::empty()) == r);
    lemma_prefix_clean(ls, p);
    lemma_prefix_clean(ls, q + 1);
    lemma_prefix_clean(u, du.len() as int);
    lemma_clean_from(dv, v);
    assert(clean_lines(r)) by {
        assert forall|i: int| 0 <= i < r.len() implies #[trigger] clean_line(r[i]) by {
            if i < du.len() {
                assert(r[i] == du[i]);
            } else {
                assert(r[i] == dv[i - du.len()]);
            }
        }
    }
    lemma_canon_read_back(r);
    lemma_nonblank_drop(collapse_blank(r));
    lemma_nonblank_collapse(r);
    lemma_nonblank_concat(du, dv);
    lemma_nonblank_drop(u);
    lemma_nonblank_drop(v);
}

} // verus!
