//! Character-level text handling: whitespace trimming and line splitting.
use vstd::prelude::*;

verus! {

/// Unicode `White_Space`, the set that `char::is_whitespace` and `str::trim` use.
pub open spec fn is_space(c: char) -> bool {
    ('\u{9}' <= c && c <= '\u{d}') || c == ' ' || c == '\u{85}' || c == '\u{a0}'
        || c == '\u{1680}' || ('\u{2000}' <= c && c <= '\u{200a}') || c == '\u{2028}'
        || c == '\u{2029}' || c == '\u{202f}' || c == '\u{205f}' || c == '\u{3000}'
}

pub fn is_space_char(c: char) -> (r: bool)
    ensures
        r == is_space(c),
{
    ('\u{9}' <= c && c <= '\u{d}') || c == ' ' || c == '\u{85}' || c == '\u{a0}'
        || c == '\u{1680}' || ('\u{2000}' <= c && c <= '\u{200a}') || c == '\u{2028}'
        || c == '\u{2029}' || c == '\u{202f}' || c == '\u{205f}' || c == '\u{3000}'
}

/// `s` with its leading whitespace removed.
pub open spec fn trim_front(s: Seq<char>) -> Seq<char>
    decreases s.len(),
{
    if s.len() > 0 && is_space(s[0]) {
        trim_front(s.drop_first())
    } else {
        s
    }
}

/// `s` with its trailing whitespace removed.
pub open spec fn trim_back(s: Seq<char>) -> Seq<char>
    decreases s.len(),
{
    if s.len() > 0 && is_space(s.last()) {
        trim_back(s.drop_last())
    } else {
        s
    }
}

/// `s` with whitespace removed at both ends, as `str::trim` does.
pub open spec fn trimmed(s: Seq<char>) -> Seq<char> {
    trim_back(trim_front(s))
}

pub open spec fn starts_with(s: Seq<char>, p: Seq<char>) -> bool {
    p.len() <= s.len() && s.subrange(0, p.len() as int) == p
}

/// Index of the first line feed in `s`, or its length when there is none.
pub open spec fn first_newline(s: Seq<char>) -> nat
    decreases s.len(),
{
    if s.len() == 0 || s[0] == '\n' {
        0
    } else {
        1 + first_newline(s.drop_first())
    }
}

/// The pieces of `s` between line feeds; always at least one.
pub open spec fn segments(s: Seq<char>) -> Seq<Seq<char>>
    decreases s.len(),
{
    let k = first_newline(s) as int;
    if k >= s.len() {
        seq![s]
    } else {
        seq![s.subrange(0, k)] + segments(s.subrange(k + 1, s.len() as int))
    }
}

/// The lines of a text that carry something: each piece trimmed, the empty ones left out.
pub open spec fn kept(segs: Seq<Seq<char>>) -> Seq<Seq<char>>
    decreases segs.len(),
{
    if segs.len() == 0 {
        seq![]
    } else if trimmed(segs.last()).len() == 0 {
        kept(segs.drop_last())
    } else {
        kept(segs.drop_last()).push(trimmed(segs.last()))
    }
}

/// The lines of a text that carry something, each as it stands.
pub open spec fn nonblank(segs: Seq<Seq<char>>) -> Seq<Seq<char>>
    decreases segs.len(),
{
    if segs.len() == 0 {
        seq![]
    } else if trimmed(segs.last()).len() == 0 {
        nonblank(segs.drop_last())
    } else {
        nonblank(segs.drop_last()).push(segs.last())
    }
}

pub open spec fn raw_lines(s: Seq<char>) -> Seq<Seq<char>> {
    nonblank(segments(s))
}

pub open spec fn content_lines(s: Seq<char>) -> Seq<Seq<char>> {
    kept(segments(s))
}

pub proof fn lemma_trim_front_at(s: Seq<char>, lo: int)
    requires
        0 <= lo <= s.len(),
        forall|i: int| 0 <= i < lo ==> is_space(#[trigger] s[i]),
        lo == s.len() || !is_space(s[lo]),
    ensures
        trim_front(s) == s.subrange(lo, s.len() as int),
    decreases lo,
{
    if lo == 0 {
        assert(s.subrange(0, s.len() as int) =~= s);
    } else {
        let t = s.drop_first();
        assert forall|i: int| 0 <= i < lo - 1 implies is_space(#[trigger] t[i]) by {
            assert(t[i] == s[i + 1]);
        }
        lemma_trim_front_at(t, lo - 1);
        assert(t.subrange(lo - 1, t.len() as int) =~= s.subrange(lo, s.len() as int));
    }
}

pub proof fn lemma_trim_back_at(s: Seq<char>, hi: int)
    requires
        0 <= hi <= s.len(),
        forall|i: int| hi <= i < s.len() ==> is_space(#[trigger] s[i]),
        hi == 0 || !is_space(s[hi - 1]),
    ensures
        trim_back(s) == s.subrange(0, hi),
    decreases s.len() - hi,
{
    if hi == s.len() {
        assert(s.subrange(0, hi) =~= s);
    } else {
        let t = s.drop_last();
        lemma_trim_back_at(t, hi);
        assert(t.subrange(0, hi) =~= s.subrange(0, hi));
    }
}

/// The bounds `(lo, hi)` of `s` with whitespace trimmed at both ends.
pub fn trim_bounds(s: &Vec<char>, from: usize, to: usize) -> (r: (usize, usize))
    requires
        from <= to <= s@.len(),
    ensures
        from <= r.0 <= r.1 <= to,
        trimmed(s@.subrange(from as int, to as int)) == s@.subrange(r.0 as int, r.1 as int),
{
    let ghost w = s@.subrange(from as int, to as int);
    let mut lo: usize = from;
    while lo < to && is_space_char(s[lo])
        invariant
            from <= lo <= to <= s@.len(),
            forall|i: int| from <= i < lo ==> is_space(#[trigger] s@[i]),
        decreases to - lo,
    {
        lo = lo + 1;
    }
    proof {
        assert forall|i: int| 0 <= i < lo - from implies is_space(#[trigger] w[i]) by {
            assert(w[i] == s@[from + i]);
        }
        lemma_trim_front_at(w, lo - from);
    }
    let ghost f = s@.subrange(lo as int, to as int);
    assert(f =~= w.subrange(lo - from, w.len() as int));
    let mut hi: usize = to;
    while hi > lo && is_space_char(s[hi - 1])
        invariant
            from <= lo <= hi <= to <= s@.len(),
            forall|i: int| hi <= i < to ==> is_space(#[trigger] s@[i]),
        decreases hi - lo,
    {
        hi = hi - 1;
    }
    proof {
        assert forall|i: int| hi - lo <= i < f.len() implies is_space(#[trigger] f[i]) by {
            assert(f[i] == s@[lo + i]);
        }
        lemma_trim_back_at(f, hi - lo);
        assert(f.subrange(0, hi - lo) =~= s@.subrange(lo as int, hi as int));
    }
    (lo, hi)
}

pub proof fn lemma_first_newline_at(t: Seq<char>, k: int)
    requires
        0 <= k <= t.len(),
        forall|i: int| 0 <= i < k ==> #[trigger] t[i] != '\n',
        k == t.len() || t[k] == '\n',
    ensures
        first_newline(t) == k,
    decreases k,
{
    if k > 0 {
        let u = t.drop_first();
        assert forall|i: int| 0 <= i < k - 1 implies #[trigger] u[i] != '\n' by {
            assert(u[i] == t[i + 1]);
        }
        lemma_first_newline_at(u, k - 1);
    }
}

/// Bounds `(lo, hi)` of each line of `s` that holds more than whitespace, trimmed.
pub fn line_bounds(s: &Vec<char>) -> (r: Vec<(usize, usize)>)
    ensures
        r@.len() == content_lines(s@).len(),
        forall|i: int|
            0 <= i < r@.len() ==> {
                &&& (#[trigger] r@[i]).0 <= r@[i].1 <= s@.len()
                &&& s@.subrange(r@[i].0 as int, r@[i].1 as int) == content_lines(s@)[i]
            },
{
    let n = s.len();
    let mut r: Vec<(usize, usize)> = Vec::new();
    let mut start: usize = 0;
    let ghost mut done: Seq<Seq<char>> = seq![];
    assert(s@.subrange(0, n as int) =~= s@);
    assert(done + segments(s@) =~= segments(s@));
    loop
        invariant
            n == s@.len(),
            start <= n,
            segments(s@) == done + segments(s@.subrange(start as int, n as int)),
            r@.len() == kept(done).len(),
            forall|i: int|
                0 <= i < r@.len() ==> {
                    &&& (#[trigger] r@[i]).0 <= r@[i].1 <= s@.len()
                    &&& s@.subrange(r@[i].0 as int, r@[i].1 as int) == kept(done)[i]
                },
        decreases n - start,
    {
        let ghost t = s@.subrange(start as int, n as int);
        let mut j: usize = start;
        while j < n && s[j] != '\n'
            invariant
                start <= j <= n == s@.len(),
                forall|i: int| start <= i < j ==> #[trigger] s@[i] != '\n',
            decreases n - j,
        {
            j = j + 1;
        }
        let ghost seg = s@.subrange(start as int, j as int);
        proof {
            assert forall|i: int| 0 <= i < j - start implies #[trigger] t[i] != '\n' by {
                assert(t[i] == s@[start + i]);
            }
            lemma_first_newline_at(t, j - start);
            assert(t.subrange(0, j - start) =~= seg);
            let nd = done.push(seg);
            assert(nd.drop_last() =~= done);
        }
        let (lo, hi) = trim_bounds(s, start, j);
        if lo < hi {
            r.push((lo, hi));
        }
        proof {
            let nd = done.push(seg);
            assert(nd.last() == seg);
            done = nd;
        }
        if j == n {
            proof {
                assert(t =~= seg);
                assert(segments(s@) =~= done);
            }
            return r;
        }
        proof {
            assert(t.subrange(j - start + 1, t.len() as int) =~= s@.subrange(j + 1, n as int));
            assert(segments(s@) =~= done + segments(s@.subrange(j + 1, n as int)));
        }
        start = j + 1;
    }
}

/// Bounds `(lo, hi)` of each line of `s` that holds more than whitespace, as it
/// stands (untrimmed, without its line feed).
pub fn segment_bounds(s: &Vec<char>) -> (r: Vec<(usize, usize)>)
    ensures
        r@.len() == raw_lines(s@).len(),
        forall|i: int|
            0 <= i < r@.len() ==> {
                &&& (#[trigger] r@[i]).0 <= r@[i].1 <= s@.len()
                &&& s@.subrange(r@[i].0 as int, r@[i].1 as int) == raw_lines(s@)[i]
            },
{
    let n = s.len();
    let mut r: Vec<(usize, usize)> = Vec::new();
    let mut start: usize = 0;
    let ghost mut done: Seq<Seq<char>> = seq![];
    assert(s@.subrange(0, n as int) =~= s@);
    assert(done + segments(s@) =~= segments(s@));
    loop
        invariant
            n == s@.len(),
            start <= n,
            segments(s@) == done + segments(s@.subrange(start as int, n as int)),
            r@.len() == nonblank(done).len(),
            forall|i: int|
                0 <= i < r@.len() ==> {
                    &&& (#[trigger] r@[i]).0 <= r@[i].1 <= s@.len()
                    &&& s@.subrange(r@[i].0 as int, r@[i].1 as int) == nonblank(done)[i]
                },
        decreases n - start,
    {
        let ghost t = s@.subrange(start as int, n as int);
        let mut j: usize = start;
        while j < n && s[j] != '\n'
            invariant
                start <= j <= n == s@.len(),
                forall|i: int| start <= i < j ==> #[trigger] s@[i] != '\n',
            decreases n - j,
        {
            j = j + 1;
        }
        let ghost seg = s@.subrange(start as int, j as int);
        proof {
            assert forall|i: int| 0 <= i < j - start implies #[trigger] t[i] != '\n' by {
                assert(t[i] == s@[start + i]);
            }
            lemma_first_newline_at(t, j - start);
            assert(t.subrange(0, j - start) =~= seg);
            let nd = done.push(seg);
            assert(nd.drop_last() =~= done);
        }
        let (lo, hi) = trim_bounds(s, start, j);
        if lo < hi {
            r.push((start, j));
        }
        proof {
            let nd = done.push(seg);
            assert(nd.last() == seg);
            done = nd;
        }
        if j == n {
            proof {
                assert(t =~= seg);
                assert(segments(s@) =~= done);
            }
            return r;
        }
        proof {
            assert(t.subrange(j - start + 1, t.len() as int) =~= s@.subrange(j + 1, n as int));
            assert(segments(s@) =~= done + segments(s@.subrange(j + 1, n as int)));
        }
        start = j + 1;
    }
}

pub proof fn lemma_first_newline_props(s: Seq<char>)
    ensures
        first_newline(s) <= s.len(),
        forall|i: int| 0 <= i < first_newline(s) ==> #[trigger] s[i] != '\n',
        first_newline(s) < s.len() ==> s[first_newline(s) as int] == '\n',
    decreases s.len(),
{
    if s.len() > 0 && s[0] != '\n' {
        let t = s.drop_first();
        lemma_first_newline_props(t);
        assert forall|i: int| 0 <= i < first_newline(s) implies #[trigger] s[i] != '\n' by {
            if i > 0 {
                assert(s[i] == t[i - 1]);
            }
        }
        if first_newline(s) < s.len() {
            assert(s[first_newline(s) as int] == t[first_newline(t) as int]);
        }
    }
}

proof fn lemma_kept_concat(a: Seq<Seq<char>>, b: Seq<Seq<char>>)
    ensures
        kept(a + b) == kept(a) + kept(b),
    decreases b.len(),
{
    if b.len() == 0 {
        assert(a + b =~= a);
        assert(kept(a) + kept(b) =~= kept(a));
    } else {
        lemma_kept_concat(a, b.drop_last());
        assert((a + b).drop_last() =~= a + b.drop_last());
        assert((a + b).last() == b.last());
        if trimmed(b.last()).len() == 0 {
        } else {
            assert(kept(a) + kept(b.drop_last()).push(trimmed(b.last())) =~= (kept(a) + kept(
                b.drop_last(),
            )).push(trimmed(b.last())));
        }
    }
}

proof fn lemma_kept_single(x: Seq<char>)
    ensures
        kept(seq![x]) == (if trimmed(x).len() == 0 {
            Seq::<Seq<char>>::empty()
        } else {
            seq![trimmed(x)]
        }),
{
    let e = Seq::<Seq<char>>::empty();
    assert(seq![x].drop_last() =~= e);
    assert(seq![x].last() == x);
    assert(kept(e) == e);
    assert(e.push(trimmed(x)) =~= seq![trimmed(x)]);
    if trimmed(x).len() == 0 {
        assert(kept(seq![x]) == kept(e));
    } else {
        assert(kept(seq![x]) == kept(e).push(trimmed(x)));
    }
}

/// Leading whitespace, line feeds included, leaves the lines with content as
/// they were.
pub proof fn lemma_leading_space(w: Seq<char>, x: Seq<char>)
    requires
        forall|i: int| 0 <= i < w.len() ==> is_space(#[trigger] w[i]),
    ensures
        content_lines(w + x) == content_lines(x),
    decreases w.len(),
{
    if w.len() > 0 {
        let rest = w.drop_first();
        assert forall|i: int| 0 <= i < rest.len() implies is_space(#[trigger] rest[i]) by {
            assert(rest[i] == w[i + 1]);
        }
        lemma_leading_space(rest, x);
        let r = rest + x;
        let t = w + x;
        assert(t =~= seq![w[0]] + r);
        assert(t.drop_first() =~= r);
        let c = w[0];
        let sr = segments(r);
        let kr = first_newline(r) as int;
        lemma_first_newline_props(r);
        if c == '\n' {
            assert(first_newline(t) == 0);
            assert(t.subrange(1, t.len() as int) =~= r);
            assert(t.subrange(0, 0) =~= Seq::<char>::empty());
            assert(segments(t) == seq![Seq::<char>::empty()] + sr);
            lemma_kept_concat(seq![Seq::<char>::empty()], sr);
            lemma_kept_single(Seq::<char>::empty());
            assert(trim_front(Seq::<char>::empty()) == Seq::<char>::empty());
            assert(trimmed(Seq::<char>::empty()).len() == 0);
            assert(kept(seq![Seq::<char>::empty()]) + kept(sr) =~= kept(sr));
        } else {
            assert(first_newline(t) == 1 + kr);
            let head = if kr >= r.len() {
                r
            } else {
                r.subrange(0, kr)
            };
            let tail = if kr >= r.len() {
                Seq::<Seq<char>>::empty()
            } else {
                segments(r.subrange(kr + 1, r.len() as int))
            };
            assert(sr =~= seq![head] + tail);
            if kr >= r.len() {
                assert(segments(t) == seq![t]);
                assert(t =~= seq![c] + head);
            } else {
                assert(t.subrange(0, 1 + kr) =~= seq![c] + head);
                assert(t.subrange(1 + kr + 1, t.len() as int) =~= r.subrange(kr + 1, r.len() as int));
                assert(segments(t) =~= seq![seq![c] + head] + tail);
            }
            assert(segments(t) =~= seq![seq![c] + head] + tail);
            assert((seq![c] + head).drop_first() =~= head);
            assert(trim_front(seq![c] + head) == trim_front(head));
            assert(trimmed(seq![c] + head) == trimmed(head));
            lemma_kept_concat(seq![seq![c] + head], tail);
            lemma_kept_concat(seq![head], tail);
            lemma_kept_single(seq![c] + head);
            lemma_kept_single(head);
        }
    }
}

/// Text made only of whitespace has no line with content.
pub proof fn lemma_blank_has_no_lines(w: Seq<char>)
    requires
        forall|i: int| 0 <= i < w.len() ==> is_space(#[trigger] w[i]),
    ensures
        content_lines(w) == Seq::<Seq<char>>::empty(),
{
    let e = Seq::<char>::empty();
    lemma_leading_space(w, e);
    assert(w + e =~= w);
    lemma_first_newline_props(e);
    assert(segments(e) =~= seq![e]);
    lemma_kept_single(e);
    assert(trim_front(e) == e);
}

/// A line with no whitespace in it, between runs of whitespace (line feeds
/// included), is the text trimmed and its only line with content.
pub proof fn lemma_padded_line(w1: Seq<char>, b: Seq<char>, w2: Seq<char>)
    requires
        b.len() > 0,
        forall|i: int| 0 <= i < b.len() ==> !is_space(#[trigger] b[i]),
        forall|i: int| 0 <= i < w1.len() ==> is_space(#[trigger] w1[i]),
        forall|i: int| 0 <= i < w2.len() ==> is_space(#[trigger] w2[i]),
    ensures
        trimmed(w1 + b + w2) == b,
        content_lines(w1 + b + w2) == seq![b],
{
    let t = w1 + b + w2;
    assert forall|i: int| 0 <= i < w1.len() implies is_space(#[trigger] t[i]) by {
        assert(t[i] == w1[i]);
    }
    assert(t[w1.len() as int] == b[0]);
    lemma_trim_front_at(t, w1.len() as int);
    let u = b + w2;
    assert(t.subrange(w1.len() as int, t.len() as int) =~= u);
    assert forall|i: int| b.len() <= i < u.len() implies is_space(#[trigger] u[i]) by {
        assert(u[i] == w2[i - b.len()]);
    }
    assert(u[b.len() - 1] == b[b.len() - 1]);
    lemma_trim_back_at(u, b.len() as int);
    assert(u.subrange(0, b.len() as int) =~= b);
    assert(t =~= w1 + u);
    lemma_leading_space(w1, u);
    // the lines of `u`
    assert forall|i: int| 0 <= i < b.len() implies #[trigger] u[i] != '\n' by {
        assert(u[i] == b[i]);
        assert(!is_space(b[i]));
    }
    lemma_first_newline_props(w2);
    let k2 = first_newline(w2) as int;
    assert forall|i: int| 0 <= i < b.len() + k2 implies #[trigger] u[i] != '\n' by {
        if i >= b.len() {
            assert(u[i] == w2[i - b.len()]);
        }
    }
    if k2 < w2.len() {
        assert(u[b.len() + k2] == w2[k2]);
    }
    lemma_first_newline_at(u, b.len() + k2);
    let head = u.subrange(0, b.len() + k2);
    assert forall|i: int| b.len() <= i < head.len() implies is_space(#[trigger] head[i]) by {
        assert(head[i] == w2[i - b.len()]);
    }
    assert(head[b.len() - 1] == b[b.len() - 1]);
    lemma_trim_back_at(head, b.len() as int);
    assert(head[0] == b[0]);
    lemma_trim_front_at(head, 0);
    assert(head.subrange(0, head.len() as int) =~= head);
    assert(head.subrange(0, b.len() as int) =~= b);
    assert(trimmed(head) == b);
    lemma_kept_single(head);
    if k2 >= w2.len() {
        assert(head =~= u);
        assert(segments(u) == seq![u]);
    } else {
        let w3 = w2.subrange(k2 + 1, w2.len() as int);
        assert(u.subrange(b.len() + k2 + 1, u.len() as int) =~= w3);
        assert(segments(u) == seq![head] + segments(w3));
        assert forall|i: int| 0 <= i < w3.len() implies is_space(#[trigger] w3[i]) by {
            assert(w3[i] == w2[i + k2 + 1]);
        }
        lemma_blank_has_no_lines(w3);
        lemma_kept_concat(seq![head], segments(w3));
        assert(seq![b] + Seq::<Seq<char>>::empty() =~= seq![b]);
    }
}

/// Two lines without whitespace, each newline-ended: both are lines with
/// content, as they stand and trimmed.
pub proof fn lemma_two_lines(a: Seq<char>, b: Seq<char>)
    requires
        a.len() > 0,
        b.len() > 0,
        forall|i: int| 0 <= i < a.len() ==> !is_space(#[trigger] a[i]),
        forall|i: int| 0 <= i < b.len() ==> !is_space(#[trigger] b[i]),
    ensures
        content_lines(a + seq!['\n'] + b + seq!['\n']) == seq![a, b],
        raw_lines(a + seq!['\n'] + b + seq!['\n']) == seq![a, b],
        trimmed(a) == a,
        trimmed(b) == b,
{
    let e = Seq::<char>::empty();
    lemma_padded_line(e, a, e);
    lemma_padded_line(e, b, e);
    assert(e + a + e =~= a);
    assert(e + b + e =~= b);
    let t = a + seq!['\n'] + b + seq!['\n'];
    let u = b + seq!['\n'];
    assert forall|i: int| 0 <= i < a.len() implies #[trigger] t[i] != '\n' by {
        assert(t[i] == a[i]);
    }
    lemma_first_newline_at(t, a.len() as int);
    assert(t.subrange(0, a.len() as int) =~= a);
    assert(t.subrange(a.len() as int + 1, t.len() as int) =~= u);
    assert forall|i: int| 0 <= i < b.len() implies #[trigger] u[i] != '\n' by {
        assert(u[i] == b[i]);
    }
    lemma_first_newline_at(u, b.len() as int);
    assert(u.subrange(0, b.len() as int) =~= b);
    assert(u.subrange(b.len() as int + 1, u.len() as int) =~= e);
    lemma_first_newline_at(e, 0);
    assert(segments(e) == seq![e]);
    assert(segments(u) =~= seq![b, e]);
    let segs = seq![a, b, e];
    assert(segments(t) =~= segs);
    assert(trim_front(e) == e);
    assert(segs.drop_last() =~= seq![a, b]);
    assert(seq![a, b].drop_last() =~= seq![a]);
    assert(seq![a].drop_last() =~= Seq::<Seq<char>>::empty());
    lemma_kept_single(a);
    assert(kept(seq![a]) =~= seq![a]);
    assert(kept(seq![a, b]) =~= seq![a, b]);
    assert(kept(segs) == kept(seq![a, b]));
    assert(seq![a].last() == a);
    assert(nonblank(Seq::<Seq<char>>::empty()) == Seq::<Seq<char>>::empty());
    assert(nonblank(seq![a]) == nonblank(Seq::<Seq<char>>::empty()).push(a));
    assert(nonblank(seq![a]) =~= seq![a]);
    assert(nonblank(seq![a, b]) =~= seq![a, b]);
    assert(nonblank(segs) == nonblank(seq![a, b]));
}

/// The characters of `s`, one by one.
pub fn chars_of(s: &str) -> (r: Vec<char>)
    ensures
        r@ == s@,
{
    let n = s.unicode_len();
    let mut r: Vec<char> = Vec::new();
    let mut i: usize = 0;
    while i < n
        invariant
            n == s@.len(),
            i <= n,
            r@ == s@.subrange(0, i as int),
        decreases n - i,
    {
        r.push(s.get_char(i));
        i = i + 1;
        assert(r@ =~= s@.subrange(0, i as int));
    }
    assert(r@ =~= s@);
    r
}

} // verus!
