//! The managed block of the hosts file: one delimited region of a shared file
//! that lists the local domains, and nothing else in that file is touched.
use vstd::prelude::*;
use crate::text::{
    append_chars, chars_of, is_blank, is_blank_chars, same_chars, slice_chars, split, split_chars,
    string_of, views,
};

verus! {

/// A line without the carriage returns at its end. All of them go: with only one dropped, a
/// line ending in two would lose the second one on the next update, so updating twice would
/// not give the text that updating once gives.
pub open spec fn strip_cr(l: Seq<char>) -> Seq<char>
    decreases l.len(),
{
    if l.len() > 0 && l.last() == '\r' {
        strip_cr(l.drop_last())
    } else {
        l
    }
}

/// The pieces of `s` between line feeds, without an empty piece after a final line feed.
pub open spec fn raw_lines(s: Seq<char>) -> Seq<Seq<char>> {
    let ps = split(s, '\n');
    if ps.last().len() == 0 {
        ps.drop_last()
    } else {
        ps
    }
}

/// The lines of `s`: split at line feeds, each without the carriage returns at its end, and
/// no empty line after a final line feed.
pub open spec fn lines(s: Seq<char>) -> Seq<Seq<char>> {
    raw_lines(s).map_values(|l: Seq<char>| strip_cr(l))
}

/// `ls` with each run of blank lines cut to one.
pub open spec fn collapse_blank(ls: Seq<Seq<char>>) -> Seq<Seq<char>>
    decreases ls.len(),
{
    if ls.len() == 0 {
        ls
    } else {
        let r = collapse_blank(ls.drop_last());
        if is_blank(ls.last()) && r.len() > 0 && is_blank(r.last()) {
            r
        } else {
            r.push(ls.last())
        }
    }
}

/// `ls` without its trailing blank lines.
pub open spec fn drop_trailing_blank(ls: Seq<Seq<char>>) -> Seq<Seq<char>>
    decreases ls.len(),
{
    if ls.len() > 0 && is_blank(ls.last()) {
        drop_trailing_blank(ls.drop_last())
    } else {
        ls
    }
}

/// The lines `ls`, each ended by a line feed.
pub open spec fn terminated(ls: Seq<Seq<char>>) -> Seq<char>
    decreases ls.len(),
{
    if ls.len() == 0 {
        Seq::empty()
    } else {
        terminated(ls.drop_last()) + ls.last() + seq!['\n']
    }
}

/// `s` with runs of blank lines cut to one, no blank lines at the end, and one line feed after
/// the last line; empty when `s` holds no line that is not blank.
pub open spec fn normalize(s: Seq<char>) -> Seq<char> {
    terminated(drop_trailing_blank(collapse_blank(lines(s))))
}

/// The hosts-file line that points `domain` at the loopback address.
pub open spec fn host_line(domain: Seq<char>) -> Seq<char> {
    "127.0.0.1 "@ + domain + seq!['\n']
}

/// The host lines of `domains`, in order.
pub open spec fn host_lines(domains: Seq<Seq<char>>) -> Seq<char>
    decreases domains.len(),
{
    if domains.len() == 0 {
        Seq::empty()
    } else {
        host_lines(domains.drop_last()) + host_line(domains.last())
    }
}

/// The managed block for `domains`: the start marker, one host line per domain, the end marker.
pub open spec fn block_text(start: Seq<char>, end: Seq<char>, domains: Seq<Seq<char>>) -> Seq<char> {
    start + seq!['\n'] + host_lines(domains) + end
}

/// The domains that get a host line: all but `localhost`.
pub open spec fn listed_domains(domains: Seq<Seq<char>>) -> Seq<Seq<char>>
    decreases domains.len(),
{
    if domains.len() == 0 {
        domains
    } else if domains.last() == "localhost"@ {
        listed_domains(domains.drop_last())
    } else {
        listed_domains(domains.drop_last()).push(domains.last())
    }
}

/// The lines of the managed block: the start marker, one host line per domain, the end marker.
pub open spec fn block_lines(start: Seq<char>, end: Seq<char>, domains: Seq<Seq<char>>) -> Seq<Seq<char>> {
    seq![start] + domains.map_values(|d: Seq<char>| "127.0.0.1 "@ + d) + seq![end]
}

/// `ls` without its leading blank lines.
pub open spec fn drop_leading_blank(ls: Seq<Seq<char>>) -> Seq<Seq<char>>
    decreases ls.len(),
{
    if ls.len() > 0 && is_blank(ls[0]) {
        drop_leading_blank(ls.drop_first())
    } else {
        ls
    }
}

/// The first line at or after `from` that is the end marker and has a start-marker line before
/// it (`seen` says whether one came before `from`).
pub open spec fn closing_line(ls: Seq<Seq<char>>, start: Seq<char>, end: Seq<char>, from: int, seen: bool) -> Option<int>
    decreases ls.len() - from,
{
    if from < 0 || from >= ls.len() {
        None
    } else if ls[from] == end && seen {
        Some(from)
    } else {
        closing_line(ls, start, end, from + 1, seen || ls[from] == start)
    }
}

/// The last start-marker line before line `before`, or -1.
pub open spec fn opening_line(ls: Seq<Seq<char>>, start: Seq<char>, before: int) -> int
    decreases before,
{
    if before <= 0 || before > ls.len() {
        -1
    } else if ls[before - 1] == start {
        before - 1
    } else {
        opening_line(ls, start, before - 1)
    }
}

/// The managed block among the lines `ls`: the first end-marker line that follows a
/// start-marker line, and the last start-marker line before it.
pub open spec fn block_of(ls: Seq<Seq<char>>, start: Seq<char>, end: Seq<char>) -> Option<(int, int)> {
    match closing_line(ls, start, end, 0, false) {
        None => None,
        Some(q) => Some((opening_line(ls, start, q), q)),
    }
}

/// The lines that normalizing keeps: runs of blank lines cut to one, none at the end.
pub open spec fn canon(ls: Seq<Seq<char>>) -> Seq<Seq<char>> {
    drop_trailing_blank(collapse_blank(ls))
}

/// The lines `pre`, the block lines `nb` and the lines `post`, set apart by one blank line
/// each; without a block, `pre` followed by `post`.
pub open spec fn placed(pre: Seq<Seq<char>>, nb: Seq<Seq<char>>, post: Seq<Seq<char>>) -> Seq<Seq<char>> {
    if nb.len() == 0 {
        pre + post
    } else {
        (if pre.len() == 0 {
            Seq::empty()
        } else {
            pre.push(Seq::empty())
        }) + nb + (if post.len() == 0 {
            Seq::empty()
        } else {
            seq![Seq::<char>::empty()] + post
        })
    }
}

/// The lines after the managed block is set to list `domains`. A found block is replaced,
/// together with the blank lines next to it, by the new block set apart by one blank line on
/// each side, or removed when no domain is listed; without a block, the new one is appended
/// after one blank line.
pub open spec fn updated_lines(ls: Seq<Seq<char>>, start: Seq<char>, end: Seq<char>, domains: Seq<Seq<char>>) -> Seq<Seq<char>> {
    let nb = if domains.len() > 0 {
        block_lines(start, end, domains)
    } else {
        Seq::empty()
    };
    match block_of(ls, start, end) {
        Some((p, q)) => placed(
            drop_trailing_blank(ls.subrange(0, p)),
            nb,
            drop_leading_blank(ls.subrange(q + 1, ls.len() as int)),
        ),
        None => if nb.len() == 0 {
            ls
        } else {
            placed(drop_trailing_blank(ls), nb, Seq::empty())
        },
    }
}

/// The file text after the managed block is set to list `domains`, normalized.
pub open spec fn updated_content(content: Seq<char>, start: Seq<char>, end: Seq<char>, domains: Seq<Seq<char>>) -> Seq<char> {
    terminated(canon(updated_lines(lines(content), start, end, domains)))
}

/// `line` without the carriage returns at its end.
fn strip_cr_chars(line: &Vec<char>) -> (r: Vec<char>)
    ensures
        r@ == strip_cr(line@),
{
    let mut len = line.len();
    assert(line@.subrange(0, len as int) =~= line@);
    while len > 0 && line[len - 1] == '\r'
        invariant
            len <= line.len(),
            strip_cr(line@) == strip_cr(line@.subrange(0, len as int)),
        decreases len,
    {
        assert(line@.subrange(0, len as int).drop_last() =~= line@.subrange(0, len - 1));
        len = len - 1;
    }
    let r = slice_chars(line, 0, len);
    assert(strip_cr(r@) == r@) by {
        if r@.len() > 0 {
            assert(r@.last() == line@[len - 1]);
        }
    }
    r
}

/// The lines of `v`: split at line feeds, each without the carriage returns at its end.
fn lines_of(v: &Vec<char>) -> (r: Vec<Vec<char>>)
    ensures
        views(r@) == lines(v@),
{
    let ps = split_chars(v, '\n');
    proof {
        crate::text::lemma_split_nonempty(v@, '\n');
    }
    let ghost pv = views(ps@);
    let n = if ps[ps.len() - 1].len() == 0 { ps.len() - 1 } else { ps.len() };
    let ghost raw = raw_lines(v@);
    assert(ps@[ps.len() - 1]@ == pv.last());
    assert(raw =~= pv.subrange(0, n as int));
    let mut out: Vec<Vec<char>> = Vec::new();
    let mut i: usize = 0;
    while i < n
        invariant
            n <= ps.len(),
            pv == views(ps@),
            raw == pv.subrange(0, n as int),
            i <= n,
            views(out@).len() == i,
            forall|k: int| 0 <= k < i ==> #[trigger] views(out@)[k] == strip_cr(raw[k]),
        decreases n - i,
    {
        assert(ps@[i as int]@ == raw[i as int]);
        let kept = strip_cr_chars(&ps[i]);
        let ghost before = views(out@);
        out.push(kept);
        assert(views(out@) =~= before.push(kept@));
        i = i + 1;
    }
    assert(views(out@) =~= raw.map_values(|l: Seq<char>| strip_cr(l)));
    out
}

/// The lines that normalizing `ls` keeps.
fn canon_lines(ls: &Vec<Vec<char>>) -> (r: Vec<Vec<char>>)
    ensures
        views(r@) == canon(views(ls@)),
{
    let ghost lv = views(ls@);
    let mut kept: Vec<Vec<char>> = Vec::new();
    let mut prev_blank = false;
    let mut i: usize = 0;
    assert(lv.subrange(0, 0) =~= Seq::<Seq<char>>::empty());
    while i < ls.len()
        invariant
            i <= ls.len(),
            lv == views(ls@),
            views(kept@) == collapse_blank(lv.subrange(0, i as int)),
            prev_blank == (kept.len() > 0 && is_blank(views(kept@).last())),
        decreases ls.len() - i,
    {
        let line = &ls[i];
        let blank = is_blank_chars(line);
        let ghost upto = lv.subrange(0, i + 1);
        assert(upto.drop_last() =~= lv.subrange(0, i as int));
        assert(upto.last() == line@);
        if !(blank && prev_blank) {
            let ghost before = views(kept@);
            kept.push(slice_chars(line, 0, line.len()));
            assert(line@.subrange(0, line@.len() as int) =~= line@);
            assert(views(kept@) =~= before.push(line@));
            prev_blank = blank;
        }
        i = i + 1;
    }
    assert(lv.subrange(0, i as int) =~= lv);
    drop_trailing_blank_lines(kept)
}

/// `ls` without its trailing blank lines.
fn drop_trailing_blank_lines(ls: Vec<Vec<char>>) -> (r: Vec<Vec<char>>)
    ensures
        views(r@) == drop_trailing_blank(views(ls@)),
{
    let mut kept = ls;
    let ghost start = views(kept@);
    while kept.len() > 0 && is_blank_chars(&kept[kept.len() - 1])
        invariant
            drop_trailing_blank(start) == drop_trailing_blank(views(kept@)),
        decreases kept.len(),
    {
        let ghost before = views(kept@);
        assert(kept@[kept.len() - 1]@ == before.last());
        kept.pop();
        assert(views(kept@) =~= before.drop_last());
    }
    assert(drop_trailing_blank(views(kept@)) == views(kept@)) by {
        if kept.len() > 0 {
            assert(kept@[kept.len() - 1]@ == views(kept@).last());
        }
    }
    kept
}

/// The lines `ls`, each ended by a line feed.
fn terminate(ls: &Vec<Vec<char>>) -> (r: Vec<char>)
    ensures
        r@ == terminated(views(ls@)),
{
    let ghost lv = views(ls@);
    let mut out: Vec<char> = Vec::new();
    let mut j: usize = 0;
    assert(lv.subrange(0, 0) =~= Seq::<Seq<char>>::empty());
    while j < ls.len()
        invariant
            j <= ls.len(),
            lv == views(ls@),
            out@ == terminated(lv.subrange(0, j as int)),
        decreases ls.len() - j,
    {
        let ghost upto = lv.subrange(0, j + 1);
        assert(upto.drop_last() =~= lv.subrange(0, j as int));
        assert(upto.last() == ls@[j as int]@);
        append_chars(&mut out, &ls[j]);
        out.push('\n');
        j = j + 1;
        assert(out@ =~= terminated(upto));
    }
    assert(lv.subrange(0, j as int) =~= lv);
    out
}

/// `v` with runs of blank lines cut to one, no blank lines at the end and a final line feed.
fn normalize_chars(v: &Vec<char>) -> (r: Vec<char>)
    ensures
        r@ == normalize(v@),
{
    terminate(&canon_lines(&lines_of(v)))
}

/// The managed block text for `domains`.
fn block_chars(start: &Vec<char>, end: &Vec<char>, domains: &Vec<Vec<char>>) -> (r: Vec<char>)
    ensures
        r@ == block_text(start@, end@, views(domains@)),
{
    let ghost dv = views(domains@);
    let prefix = chars_of("127.0.0.1 ");
    let mut lines: Vec<char> = Vec::new();
    let mut i: usize = 0;
    assert(dv.subrange(0, 0) =~= Seq::<Seq<char>>::empty());
    while i < domains.len()
        invariant
            i <= domains.len(),
            dv == views(domains@),
            prefix@ == "127.0.0.1 "@,
            lines@ == host_lines(dv.subrange(0, i as int)),
        decreases domains.len() - i,
    {
        let ghost upto = dv.subrange(0, i + 1);
        assert(upto.drop_last() =~= dv.subrange(0, i as int));
        assert(upto.last() == domains@[i as int]@);
        append_chars(&mut lines, &prefix);
        append_chars(&mut lines, &domains[i]);
        lines.push('\n');
        i = i + 1;
        assert(lines@ =~= host_lines(upto));
    }
    assert(dv.subrange(0, i as int) =~= dv);
    let mut out: Vec<char> = Vec::new();
    append_chars(&mut out, start);
    out.push('\n');
    append_chars(&mut out, &lines);
    append_chars(&mut out, end);
    assert(out@ =~= block_text(start@, end@, dv));
    out
}

/// The lines of the managed block for `domains`.
fn block_line_vecs(start: &Vec<char>, end: &Vec<char>, domains: &Vec<Vec<char>>) -> (r: Vec<Vec<char>>)
    ensures
        views(r@) == block_lines(start@, end@, views(domains@)),
{
    let ghost dv = views(domains@);
    let prefix = chars_of("127.0.0.1 ");
    let mut out: Vec<Vec<char>> = Vec::new();
    out.push(slice_chars(start, 0, start.len()));
    assert(start@.subrange(0, start@.len() as int) =~= start@);
    let mut i: usize = 0;
    assert(views(out@) =~= seq![start@] + dv.subrange(0, 0).map_values(|d: Seq<char>| "127.0.0.1 "@ + d));
    while i < domains.len()
        invariant
            i <= domains.len(),
            dv == views(domains@),
            prefix@ == "127.0.0.1 "@,
            views(out@) == seq![start@] + dv.subrange(0, i as int).map_values(|d: Seq<char>| "127.0.0.1 "@ + d),
        decreases domains.len() - i,
    {
        let mut line = slice_chars(&prefix, 0, prefix.len());
        append_chars(&mut line, &domains[i]);
        let ghost before = views(out@);
        out.push(line);
        assert(prefix@.subrange(0, prefix@.len() as int) =~= prefix@);
        assert(domains@[i as int]@ == dv[i as int]);
        assert(views(out@) =~= before.push("127.0.0.1 "@ + dv[i as int]));
        i = i + 1;
        assert(views(out@) =~= seq![start@] + dv.subrange(0, i as int).map_values(|d: Seq<char>| "127.0.0.1 "@ + d));
    }
    assert(dv.subrange(0, i as int) =~= dv);
    let ghost before = views(out@);
    out.push(slice_chars(end, 0, end.len()));
    assert(end@.subrange(0, end@.len() as int) =~= end@);
    assert(views(out@) =~= block_lines(start@, end@, dv));
    out
}

/// A copy of lines `lo` to `hi` of `ls`.
fn copy_lines(ls: &Vec<Vec<char>>, lo: usize, hi: usize) -> (r: Vec<Vec<char>>)
    requires
        lo <= hi <= ls.len(),
    ensures
        views(r@) == views(ls@).subrange(lo as int, hi as int),
{
    let mut out: Vec<Vec<char>> = Vec::new();
    let mut i: usize = lo;
    while i < hi
        invariant
            lo <= i <= hi <= ls.len(),
            views(out@) == views(ls@).subrange(lo as int, i as int),
        decreases hi - i,
    {
        let ghost before = views(out@);
        let line = slice_chars(&ls[i], 0, ls[i].len());
        assert(ls@[i as int]@.subrange(0, ls@[i as int]@.len() as int) =~= ls@[i as int]@);
        out.push(line);
        assert(views(out@) =~= before.push(views(ls@)[i as int]));
        i = i + 1;
        assert(views(out@) =~= views(ls@).subrange(lo as int, i as int));
    }
    out
}

/// Lines `lo` to the end of `ls`, without the blank lines they start with.
fn copy_lines_after_blank(ls: &Vec<Vec<char>>, lo: usize) -> (r: Vec<Vec<char>>)
    requires
        lo <= ls.len(),
    ensures
        views(r@) == drop_leading_blank(views(ls@).subrange(lo as int, ls.len() as int)),
{
    let ghost lv = views(ls@);
    let mut i: usize = lo;
    while i < ls.len() && is_blank_chars(&ls[i])
        invariant
            lo <= i <= ls.len(),
            lv == views(ls@),
            drop_leading_blank(lv.subrange(lo as int, lv.len() as int)) == drop_leading_blank(lv.subrange(i as int, lv.len() as int)),
        decreases ls.len() - i,
    {
        assert(lv.subrange(i as int, lv.len() as int).drop_first() =~= lv.subrange(i + 1, lv.len() as int));
        assert(lv.subrange(i as int, lv.len() as int)[0] == ls@[i as int]@);
        i = i + 1;
    }
    let ghost rest = lv.subrange(i as int, lv.len() as int);
    assert(drop_leading_blank(rest) == rest) by {
        if rest.len() > 0 {
            assert(rest[0] == ls@[i as int]@);
        }
    }
    copy_lines(ls, i, ls.len())
}

/// The first end-marker line with a start-marker line before it.
fn find_closing(ls: &Vec<Vec<char>>, start: &Vec<char>, end: &Vec<char>) -> (r: Option<usize>)
    ensures
        match r {
            Some(q) => closing_line(views(ls@), start@, end@, 0, false) == Some(q as int) && q < ls.len(),
            None => closing_line(views(ls@), start@, end@, 0, false) is None,
        },
{
    let ghost lv = views(ls@);
    let mut seen = false;
    let mut i: usize = 0;
    while i < ls.len()
        invariant
            i <= ls.len(),
            lv == views(ls@),
            closing_line(lv, start@, end@, 0, false) == closing_line(lv, start@, end@, i as int, seen),
        decreases ls.len() - i,
    {
        assert(lv[i as int] == ls@[i as int]@);
        if seen && same_chars(&ls[i], end) {
            return Some(i);
        }
        seen = seen || same_chars(&ls[i], start);
        i = i + 1;
    }
    None
}

/// The last start-marker line before line `before`.
fn find_opening(ls: &Vec<Vec<char>>, start: &Vec<char>, before: usize) -> (r: Option<usize>)
    requires
        before <= ls.len(),
    ensures
        match r {
            Some(p) => opening_line(views(ls@), start@, before as int) == p as int && p < before,
            None => opening_line(views(ls@), start@, before as int) == -1,
        },
{
    let ghost lv = views(ls@);
    let mut k: usize = before;
    while k > 0
        invariant
            k <= before <= ls.len(),
            lv == views(ls@),
            opening_line(lv, start@, before as int) == opening_line(lv, start@, k as int),
        decreases k,
    {
        assert(lv[k - 1] == ls@[k - 1]@);
        if same_chars(&ls[k - 1], start) {
            return Some(k - 1);
        }
        k = k - 1;
    }
    None
}

/// The lines `pre`, the block lines `nb` and the lines `post`, placed as `placed` says.
fn place(pre: Vec<Vec<char>>, nb: Vec<Vec<char>>, post: Vec<Vec<char>>) -> (r: Vec<Vec<char>>)
    ensures
        views(r@) == placed(views(pre@), views(nb@), views(post@)),
{
    let ghost (pv, nv, qv) = (views(pre@), views(nb@), views(post@));
    let nb_empty = nb.len() == 0;
    let pre_empty = pre.len() == 0;
    let post_empty = post.len() == 0;
    let mut out = pre;
    if !nb_empty && !pre_empty {
        out.push(Vec::new());
    }
    let mut nb = nb;
    out.append(&mut nb);
    if !nb_empty && !post_empty {
        out.push(Vec::new());
    }
    let mut post = post;
    out.append(&mut post);
    assert(views(out@) =~= placed(pv, nv, qv));
    out
}

/// A closing line has a start-marker line before it.
pub proof fn lemma_closing_has_opening(ls: Seq<Seq<char>>, start: Seq<char>, end: Seq<char>, from: int, seen: bool)
    requires
        0 <= from,
        closing_line(ls, start, end, from, seen) is Some,
        seen ==> from > 0 && opening_line(ls, start, from) >= 0,
    ensures
        opening_line(ls, start, closing_line(ls, start, end, from, seen)->Some_0) >= 0,
    decreases ls.len() - from,
{
    if !(ls[from] == end && seen) {
        let seen2 = seen || ls[from] == start;
        if seen2 {
            assert(opening_line(ls, start, from + 1) >= 0) by {
                if ls[from] != start {
                    assert(opening_line(ls, start, from + 1) == opening_line(ls, start, from));
                }
            }
        }
        lemma_closing_has_opening(ls, start, end, from + 1, seen2);
    }
}

/// The file text `content` after the managed block is set to list `domains`.
fn updated_chars(content: &Vec<char>, start: &Vec<char>, end: &Vec<char>, domains: &Vec<Vec<char>>) -> (r: Vec<char>)
    ensures
        r@ == updated_content(content@, start@, end@, views(domains@)),
{
    let ls = lines_of(content);
    let ghost lv = views(ls@);
    let nb = if domains.len() > 0 {
        block_line_vecs(start, end, domains)
    } else {
        Vec::new()
    };
    let composed = match find_closing(&ls, start, end) {
        Some(q) => {
            proof {
                lemma_closing_has_opening(lv, start@, end@, 0, false);
            }
            let p = match find_opening(&ls, start, q) {
                Some(p) => p,
                None => 0,
            };
            let pre = drop_trailing_blank_lines(copy_lines(&ls, 0, p));
            let post = copy_lines_after_blank(&ls, q + 1);
            place(pre, nb, post)
        },
        None => {
            if nb.len() == 0 {
                ls
            } else {
                let pre = drop_trailing_blank_lines(copy_lines(&ls, 0, ls.len()));
                assert(lv.subrange(0, lv.len() as int) =~= lv);
                place(pre, nb, Vec::new())
            }
        },
    };
    terminate(&canon_lines(&composed))
}

/// The place of the hosts file and the two marker lines that delimit its managed block.
pub struct HostsFileManager {
    pub hosts_file_path: String,
    pub block_start: String,
    pub block_end: String,
}

impl HostsFileManager {
    /// The manager of the hosts file at `hosts_file_path`, with the standard markers.
    pub fn new(hosts_file_path: String) -> (r: Self)
        ensures
            r.hosts_file_path@ == hosts_file_path@,
            r.block_start@ == "# BEGIN MANAGED BLOCK - DO NOT EDIT MANUALLY # kz.byte0.autolocalhost"@,
            r.block_end@ == "# END MANAGED BLOCK - DO NOT EDIT MANUALLY # kz.byte0.autolocalhost"@,
    {
        HostsFileManager {
            hosts_file_path,
            block_start: "# BEGIN MANAGED BLOCK - DO NOT EDIT MANUALLY # kz.byte0.autolocalhost".to_owned(),
            block_end: "# END MANAGED BLOCK - DO NOT EDIT MANUALLY # kz.byte0.autolocalhost".to_owned(),
        }
    }

    /// The managed block that lists `domains`, one host line each, between the markers.
    pub fn create_managed_block(&self, domains: &[String]) -> (r: String)
        ensures
            r@ == block_text(self.block_start@, self.block_end@, domains@.map_values(|d: String| d@)),
    {
        let dv = domain_chars(domains);
        let r = block_chars(&chars_of(self.block_start.as_str()), &chars_of(self.block_end.as_str()), &dv);
        assert(views(dv@) =~= domains@.map_values(|d: String| d@));
        string_of(&r)
    }

    /// `content` with runs of blank lines cut to one, no blank lines at the end and one final
    /// line feed.
    pub fn normalize_content(&self, content: &str) -> (r: String)
        ensures
            r@ == normalize(content@),
    {
        string_of(&normalize_chars(&chars_of(content)))
    }

    /// The hosts-file text `content` after its managed block is set to list `domains`, leaving
    /// out `localhost`. The block is found by whole lines: the first end-marker line after a
    /// start-marker line, from the last start-marker line before it. It is replaced, with the
    /// blank lines next to it, by the new block set apart by one blank line on each side, or
    /// removed when no domain is left; without a block, the new one is appended after one
    /// blank line. The result is normalized and ends with one line feed.
    pub fn update_managed_block(&self, content: &str, domains: &[String]) -> (r: String)
        ensures
            r@ == updated_content(
                content@,
                self.block_start@,
                self.block_end@,
                listed_domains(domains@.map_values(|d: String| d@)),
            ),
    {
        let all = domain_chars(domains);
        let localhost = chars_of("localhost");
        let mut listed: Vec<Vec<char>> = Vec::new();
        let ghost av = views(all@);
        let mut i: usize = 0;
        assert(av.subrange(0, 0) =~= Seq::<Seq<char>>::empty());
        while i < all.len()
            invariant
                i <= all.len(),
                av == views(all@),
                localhost@ == "localhost"@,
                views(listed@) == listed_domains(av.subrange(0, i as int)),
            decreases all.len() - i,
        {
            let ghost upto = av.subrange(0, i + 1);
            assert(upto.drop_last() =~= av.subrange(0, i as int));
            assert(upto.last() == all@[i as int]@);
            let ghost before = views(listed@);
            assert(views(all@)[i as int] == all@[i as int]@);
            if !same_chars(&all[i], &localhost) {
                listed.push(slice_chars(&all[i], 0, all[i].len()));
                assert(all@[i as int]@.subrange(0, all@[i as int]@.len() as int) =~= all@[i as int]@);
                assert(views(listed@) =~= before.push(all@[i as int]@));
            }
            i = i + 1;
        }
        assert(av.subrange(0, i as int) =~= av);
        assert(av =~= domains@.map_values(|d: String| d@));
        let r = updated_chars(
            &chars_of(content),
            &chars_of(self.block_start.as_str()),
            &chars_of(self.block_end.as_str()),
            &listed,
        );
        string_of(&r)
    }
}

/// The characters of each of `domains`.
fn domain_chars(domains: &[String]) -> (r: Vec<Vec<char>>)
    ensures
        views(r@) == domains@.map_values(|d: String| d@),
{
    let mut r: Vec<Vec<char>> = Vec::new();
    let mut i: usize = 0;
    while i < domains.len()
        invariant
            i <= domains.len(),
            views(r@).len() == i,
            forall|k: int| 0 <= k < i ==> #[trigger] views(r@)[k] == domains@[k]@,
        decreases domains.len() - i,
    {
        let ghost before = views(r@);
        let c = chars_of(domains[i].as_str());
        r.push(c);
        assert(views(r@) =~= before.push(c@));
        i = i + 1;
    }
    assert(views(r@) =~= domains@.map_values(|d: String| d@));
    r
}

} // verus!
