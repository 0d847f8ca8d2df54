//! Column alignment of report text.
//!
//! Reports the bot sends are built line by line, each line holding a
//! marker character (a `:` after a name, say). This module lines the text
//! up on that marker: everything up to and including the marker is padded
//! on the right to one column, the remainder is pushed right to a second
//! column. Empty lines are dropped. The text is treated as a sequence of
//! characters throughout.

use vstd::prelude::*;

verus! {

/// The first index of `c` in `l`, or `l.len()` when `c` does not occur.
pub open spec fn char_index(l: Seq<char>, c: char) -> int
    decreases l.len(),
{
    if l.len() == 0 {
        0
    } else if l[0] == c {
        0
    } else {
        1 + char_index(l.skip(1), c)
    }
}

/// What `char_index` finds: the first occurrence, or the length.
pub proof fn lemma_char_index(l: Seq<char>, c: char)
    ensures
        0 <= char_index(l, c) <= l.len(),
        char_index(l, c) < l.len() ==> l[char_index(l, c)] == c,
        forall|j: int| 0 <= j < char_index(l, c) ==> l[j] != c,
    decreases l.len(),
{
    if l.len() > 0 && l[0] != c {
        lemma_char_index(l.skip(1), c);
        let t = l.skip(1);
        let k = char_index(l, c);
        assert forall|j: int| 0 <= j < k implies l[j] != c by {
            if j > 0 {
                assert(l[j] == t[j - 1]);
            }
        }
        if k < l.len() {
            assert(l[k] == t[k - 1]);
        }
    }
}

/// `char_index` is exactly the position of the first occurrence: `i` with
/// `c` at `i` and not before, or the length with `c` nowhere.
pub proof fn lemma_char_index_is(l: Seq<char>, c: char, i: int)
    requires
        0 <= i <= l.len(),
        i < l.len() ==> l[i] == c,
        forall|j: int| 0 <= j < i ==> l[j] != c,
    ensures
        char_index(l, c) == i,
    decreases i,
{
    if l.len() > 0 && l[0] != c {
        let t = l.skip(1);
        assert forall|j: int| 0 <= j < i - 1 implies t[j] != c by {
            assert(t[j] == l[j + 1]);
        }
        if i < l.len() {
            assert(t[i - 1] == l[i]);
        }
        lemma_char_index_is(t, c, i - 1);
    }
}

/// The text cut at every `\n`, the breaks themselves dropped.
pub open spec fn split_lines(t: Seq<char>) -> Seq<Seq<char>>
    decreases t.len(),
    via split_lines_decreases
{
    if t.len() == 0 {
        Seq::empty()
    } else {
        let k = char_index(t, '\n');
        if k == t.len() {
            seq![t]
        } else {
            seq![t.take(k)] + split_lines(t.skip(k + 1))
        }
    }
}

#[via_fn]
proof fn split_lines_decreases(t: Seq<char>) {
    lemma_char_index(t, '\n');
}

/// The lines with the empty ones dropped.
pub open spec fn keep_nonempty(ls: Seq<Seq<char>>) -> Seq<Seq<char>>
    decreases ls.len(),
{
    if ls.len() == 0 {
        Seq::empty()
    } else {
        let rest = keep_nonempty(ls.drop_last());
        if ls.last().len() > 0 {
            rest.push(ls.last())
        } else {
            rest
        }
    }
}

/// `n` spaces (none for `n <= 0`).
pub open spec fn pad(n: int) -> Seq<char>
    decreases n,
{
    if n <= 0 {
        Seq::empty()
    } else {
        pad(n - 1).push(' ')
    }
}

/// The width the left column needs: the widest "up to and including the
/// marker" part of any line.
pub open spec fn left_width(ps: Seq<Seq<char>>, c: char) -> int
    decreases ps.len(),
{
    if ps.len() == 0 {
        0
    } else {
        let w = left_width(ps.drop_last(), c);
        let k = char_index(ps.last(), c) + 1;
        if w < k {
            k
        } else {
            w
        }
    }
}

/// The width the right column needs: the widest remainder of any line.
pub open spec fn right_width(ps: Seq<Seq<char>>, c: char) -> int
    decreases ps.len(),
{
    if ps.len() == 0 {
        0
    } else {
        let w = right_width(ps.drop_last(), c);
        let k = ps.last().len() - (char_index(ps.last(), c) + 1);
        if w < k {
            k
        } else {
            w
        }
    }
}

/// One line set into the two columns: the part up to and including the
/// marker, padded right to `lw`; then the remainder pushed right to `rw`;
/// then a line break.
pub open spec fn aligned_line(l: Seq<char>, c: char, lw: int, rw: int) -> Seq<char> {
    let k = char_index(l, c) + 1;
    let lhs = l.take(k);
    let rhs = l.skip(k);
    lhs + pad(lw - k) + pad(rw - rhs.len()) + rhs + seq!['\n']
}

/// All lines set into the two columns, in order.
pub open spec fn aligned_text(ps: Seq<Seq<char>>, c: char, lw: int, rw: int) -> Seq<char>
    decreases ps.len(),
{
    if ps.len() == 0 {
        Seq::empty()
    } else {
        aligned_text(ps.drop_last(), c, lw, rw) + aligned_line(ps.last(), c, lw, rw)
    }
}

/// The whole alignment: drop empty lines, measure both columns, set every
/// line.
pub open spec fn spec_align(c: char, t: Seq<char>) -> Seq<char> {
    let ps = keep_nonempty(split_lines(t));
    aligned_text(ps, c, left_width(ps, c), right_width(ps, c))
}

/// The lines `t[lo[i] .. hi[i]]`, in order.
pub open spec fn collected(t: Seq<char>, lo: Seq<usize>, hi: Seq<usize>) -> Seq<Seq<char>> {
    Seq::new(lo.len(), |i: int| t.subrange(lo[i] as int, hi[i] as int))
}

/// Dropping empty lines distributes over putting one line in front.
proof fn lemma_keep_prepend(a: Seq<char>, ls: Seq<Seq<char>>)
    ensures
        keep_nonempty(seq![a] + ls) == (if a.len() > 0 {
            seq![a]
        } else {
            Seq::empty()
        }) + keep_nonempty(ls),
    decreases ls.len(),
{
    let first = if a.len() > 0 {
        seq![a]
    } else {
        Seq::<Seq<char>>::empty()
    };
    if ls.len() == 0 {
        reveal_with_fuel(keep_nonempty, 2);
        assert(seq![a] + ls =~= seq![a]);
        assert(seq![a].drop_last() =~= Seq::<Seq<char>>::empty());
        assert(Seq::<Seq<char>>::empty().push(a) =~= seq![a]);
        assert(keep_nonempty(seq![a]) =~= first);
        assert(first + keep_nonempty(ls) =~= first);
    } else {
        lemma_keep_prepend(a, ls.drop_last());
        assert((seq![a] + ls).drop_last() =~= seq![a] + ls.drop_last());
        assert((seq![a] + ls).last() == ls.last());
        if ls.last().len() > 0 {
            assert((first + keep_nonempty(ls.drop_last())).push(ls.last()) =~= first + (
            keep_nonempty(ls.drop_last()).push(ls.last())));
        }
    }
}

/// No line needs more than the measured columns.
proof fn lemma_width_bounds(ps: Seq<Seq<char>>, c: char, i: int)
    requires
        0 <= i < ps.len(),
    ensures
        char_index(ps[i], c) + 1 <= left_width(ps, c),
        ps[i].len() - (char_index(ps[i], c) + 1) <= right_width(ps, c),
    decreases ps.len(),
{
    if i == ps.len() - 1 {
        assert(ps.last() == ps[i]);
    } else {
        lemma_width_bounds(ps.drop_last(), c, i);
        assert(ps.drop_last()[i] == ps[i]);
    }
}

/// Append `n` spaces.
fn append_spaces(out: &mut String, n: usize)
    ensures
        final(out)@ == old(out)@ + pad(n as int),
{
    let mut j: usize = 0;
    while j < n
        invariant
            j <= n,
            out@ == old(out)@ + pad(j as int),
        decreases n - j,
    {
        out.append(" ");
        proof {
            reveal_strlit(" ");
            assert(" "@ =~= seq![' ']);
            assert(old(out)@ + pad(j + 1) =~= (old(out)@ + pad(j as int)).push(' '));
        }
        j = j + 1;
    }
}

/// Every nonempty line of the text holds the marker somewhere.
pub open spec fn lines_have(c: char, t: Seq<char>) -> bool {
    forall|i: int| 0 <= i < keep_nonempty(split_lines(t)).len() ==> char_index(
        #[trigger] keep_nonempty(split_lines(t))[i],
        c,
    ) < keep_nonempty(split_lines(t))[i].len()
}

/// Align each nonempty line of `text` at the character just after the
/// first `symbol` of the line: the head of the line is padded out to the
/// widest head, the tail is pushed right to the widest tail, and a line
/// break closes each line. Empty lines are dropped.
pub fn align_text_after(symbol: char, text: String) -> (r: String)
    requires
        lines_have(symbol, text@),
    ensures
        r@ == spec_align(symbol, text@),
{
    let ghost t = text@;
    let ghost ps = keep_nonempty(split_lines(t));
    let s = text.as_str();
    let n = s.unicode_len();
    let mut lo: Vec<usize> = Vec::new();
    let mut hi: Vec<usize> = Vec::new();
    let mut cut: Vec<usize> = Vec::new();
    let mut p: usize = 0;
    proof {
        assert(t.skip(0) =~= t);
        assert(collected(t, lo@, hi@) =~= Seq::<Seq<char>>::empty());
        assert(Seq::<Seq<char>>::empty() + keep_nonempty(split_lines(t)) =~= ps);
    }
    while p < n
        invariant
            p <= n,
            n == t.len(),
            s@ == t,
            lines_have(symbol, t),
            ps == keep_nonempty(split_lines(t)),
            lo@.len() == hi@.len() && lo@.len() == cut@.len(),
            forall|i: int| 0 <= i < lo@.len() ==> (#[trigger] lo@[i]) < cut@[i] && cut@[i]
                <= hi@[i] && hi@[i] <= n,
            forall|i: int| 0 <= i < lo@.len() ==> char_index(
                t.subrange(#[trigger] lo@[i] as int, hi@[i] as int),
                symbol,
            ) == cut@[i] - lo@[i] - 1,
            ps == collected(t, lo@, hi@) + keep_nonempty(split_lines(t.skip(p as int))),
        decreases n - p,
    {
        let ghost u = t.skip(p as int);
        let ghost lo0 = lo@;
        let ghost hi0 = hi@;
        let mut q: usize = p;
        while q < n && s.get_char(q) != '\n'
            invariant
                p <= q <= n,
                n == t.len(),
                s@ == t,
                forall|k: int| p <= k < q ==> t[k] != '\n',
            decreases n - q,
        {
            q = q + 1;
        }
        proof {
            assert forall|j: int| 0 <= j < q - p implies u[j] != '\n' by {
                assert(u[j] == t[p + j]);
            }
            if q < n {
                assert(u[q - p] == t[q as int]);
            }
            lemma_char_index_is(u, '\n', q - p);
        }
        if q > p {
            let ghost line = t.subrange(p as int, q as int);
            proof {
                if q < n {
                    assert(line =~= u.take(q - p));
                    lemma_keep_prepend(u.take(q - p), split_lines(u.skip(q - p + 1)));
                    assert(u.skip(q - p + 1) =~= t.skip(q + 1));
                    assert(collected(t, lo0, hi0) + (seq![line] + keep_nonempty(
                        split_lines(t.skip(q + 1)),
                    )) =~= collected(t, lo0, hi0).push(line) + keep_nonempty(
                        split_lines(t.skip(q + 1)),
                    ));
                } else {
                    reveal_with_fuel(keep_nonempty, 2);
                    assert(char_index(u, '\n') == u.len());
                    assert(u =~= line);
                    assert(seq![u].drop_last() =~= Seq::<Seq<char>>::empty());
                    assert(Seq::<Seq<char>>::empty().push(u) =~= seq![u]);
                    assert(keep_nonempty(seq![u]) =~= seq![line]);
                    assert(collected(t, lo0, hi0) + seq![line] =~= collected(t, lo0, hi0).push(
                        line,
                    ));
                }
                let pnext: int = if q < n {
                    q + 1
                } else {
                    q as int
                };
                assert(ps == collected(t, lo0, hi0).push(line) + keep_nonempty(
                    split_lines(t.skip(pnext)),
                ));
                assert(ps[lo0.len() as int] == line);
            }
            let mut m: usize = p;
            while m < q && s.get_char(m) != symbol
                invariant
                    p <= m <= q <= n,
                    n == t.len(),
                    s@ == t,
                    forall|k: int| p <= k < m ==> t[k] != symbol,
                decreases q - m,
            {
                m = m + 1;
            }
            proof {
                assert forall|j: int| 0 <= j < m - p implies line[j] != symbol by {
                    assert(line[j] == t[p + j]);
                }
                if m < q {
                    assert(line[m - p] == t[m as int]);
                }
                lemma_char_index_is(line, symbol, m - p);
                assert(char_index(line, symbol) < line.len());
                assert(m < q);
            }
            lo.push(p);
            hi.push(q);
            cut.push(m + 1);
            proof {
                assert(collected(t, lo@, hi@) =~= collected(t, lo0, hi0).push(line));
            }
            if q < n {
                p = q + 1;
            } else {
                p = q;
            }
        } else {
            proof {
                assert(u[0] == t[p as int]);
                assert(char_index(u, '\n') == 0);
                lemma_keep_prepend(u.take(0), split_lines(u.skip(1)));
                assert(u.take(0).len() == 0);
                assert(Seq::<Seq<char>>::empty() + keep_nonempty(split_lines(u.skip(1))) =~=
                keep_nonempty(split_lines(u.skip(1))));
                assert(u.skip(1) =~= t.skip(p + 1));
            }
            p = p + 1;
        }
    }
    proof {
        assert(t.skip(n as int) =~= Seq::<char>::empty());
        assert(collected(t, lo@, hi@) + keep_nonempty(split_lines(t.skip(n as int))) =~=
        collected(t, lo@, hi@));
        assert(ps == collected(t, lo@, hi@));
    }
    let cnt = lo.len();
    let mut lw: usize = 0;
    let mut rw: usize = 0;
    let mut i: usize = 0;
    while i < cnt
        invariant
            i <= cnt,
            cnt == lo@.len(),
            lo@.len() == hi@.len() && lo@.len() == cut@.len(),
            n == t.len(),
            forall|x: int| 0 <= x < lo@.len() ==> (#[trigger] lo@[x]) < cut@[x] && cut@[x]
                <= hi@[x] && hi@[x] <= n,
            forall|x: int| 0 <= x < lo@.len() ==> char_index(
                t.subrange(#[trigger] lo@[x] as int, hi@[x] as int),
                symbol,
            ) == cut@[x] - lo@[x] - 1,
            ps == collected(t, lo@, hi@),
            lw == left_width(ps.take(i as int), symbol),
            rw == right_width(ps.take(i as int), symbol),
        decreases cnt - i,
    {
        let k = cut[i] - lo[i];
        let rl = hi[i] - cut[i];
        proof {
            assert(ps.take(i + 1).drop_last() =~= ps.take(i as int));
            assert(ps.take(i + 1).last() == ps[i as int]);
            assert(ps[i as int] == t.subrange(lo@[i as int] as int, hi@[i as int] as int));
        }
        if lw < k {
            lw = k;
        }
        if rw < rl {
            rw = rl;
        }
        i = i + 1;
    }
    proof {
        assert(ps.take(cnt as int) =~= ps);
    }
    let mut out = String::new();
    let mut j: usize = 0;
    while j < cnt
        invariant
            j <= cnt,
            cnt == lo@.len(),
            lo@.len() == hi@.len() && lo@.len() == cut@.len(),
            n == t.len(),
            s@ == t,
            forall|x: int| 0 <= x < lo@.len() ==> (#[trigger] lo@[x]) < cut@[x] && cut@[x]
                <= hi@[x] && hi@[x] <= n,
            forall|x: int| 0 <= x < lo@.len() ==> char_index(
                t.subrange(#[trigger] lo@[x] as int, hi@[x] as int),
                symbol,
            ) == cut@[x] - lo@[x] - 1,
            ps == collected(t, lo@, hi@),
            lw == left_width(ps, symbol),
            rw == right_width(ps, symbol),
            out@ == aligned_text(ps.take(j as int), symbol, lw as int, rw as int),
        decreases cnt - j,
    {
        let a = lo[j];
        let b = cut[j];
        let e = hi[j];
        proof {
            assert(ps[j as int] == t.subrange(a as int, e as int));
            lemma_width_bounds(ps, symbol, j as int);
        }
        let ghost before = out@;
        out.append(s.substring_char(a, b));
        append_spaces(&mut out, lw - (b - a));
        append_spaces(&mut out, rw - (e - b));
        out.append(s.substring_char(b, e));
        out.append("\n");
        proof {
            reveal_strlit("\n");
            assert("\n"@ =~= seq!['\n']);
            let l = ps[j as int];
            let k = char_index(l, symbol) + 1;
            assert(l.take(k) =~= t.subrange(a as int, b as int));
            assert(l.skip(k) =~= t.subrange(b as int, e as int));
            assert(out@ =~= before + aligned_line(l, symbol, lw as int, rw as int));
            assert(ps.take(j + 1).drop_last() =~= ps.take(j as int));
            assert(ps.take(j + 1).last() == l);
            assert(out@ =~= aligned_text(ps.take(j + 1), symbol, lw as int, rw as int));
        }
        j = j + 1;
    }
    proof {
        assert(ps.take(cnt as int) =~= ps);
    }
    out
}

} // verus!
