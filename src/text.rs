//! Character-level text handling: whitespace, splitting into pieces and
//! fields, and trimming, each stated as a spec function over `Seq<char>`.
use vstd::prelude::*;

verus! {

/// The Unicode `White_Space` characters, the set that `char::is_whitespace`
/// and `str::split_whitespace` go by.
pub open spec fn is_white(c: char) -> bool {
    let u = c as u32;
    (0x9 <= u && u <= 0xd) || u == 0x20 || u == 0x85 || u == 0xa0 || u == 0x1680 || (0x2000 <= u
        && u <= 0x200a) || u == 0x2028 || u == 0x2029 || u == 0x202f || u == 0x205f || u == 0x3000
}

/// The pieces of `t` between occurrences of `sep`; `k` separators give
/// `k + 1` pieces, some of them possibly empty.
pub open spec fn split_on(t: Seq<char>, sep: char) -> Seq<Seq<char>>
    decreases t.len(),
{
    if t.len() == 0 {
        seq![Seq::empty()]
    } else {
        let p = split_on(t.drop_last(), sep);
        if t.last() == sep {
            p.push(Seq::empty())
        } else {
            p.update(p.len() - 1, p.last().push(t.last()))
        }
    }
}

/// The maximal runs of non-whitespace characters of `l`, in order.
pub open spec fn fields(l: Seq<char>) -> Seq<Seq<char>>
    decreases l.len(),
{
    if l.len() == 0 {
        Seq::empty()
    } else {
        let f = fields(l.drop_last());
        if is_white(l.last()) {
            f
        } else if l.len() >= 2 && !is_white(l[l.len() - 2]) {
            f.update(f.len() - 1, f.last().push(l.last()))
        } else {
            f.push(seq![l.last()])
        }
    }
}

/// `s` without its leading whitespace.
pub open spec fn trim_start(s: Seq<char>) -> Seq<char>
    decreases s.len(),
{
    if s.len() > 0 && is_white(s[0]) {
        trim_start(s.drop_first())
    } else {
        s
    }
}

/// `s` without its trailing whitespace.
pub open spec fn trim_end(s: Seq<char>) -> Seq<char>
    decreases s.len(),
{
    if s.len() > 0 && is_white(s.last()) {
        trim_end(s.drop_last())
    } else {
        s
    }
}

/// `s` without leading and trailing whitespace.
pub open spec fn trim(s: Seq<char>) -> Seq<char> {
    trim_end(trim_start(s))
}

/// The part of `s` after the first `sep`, or the empty sequence where `s`
/// holds no `sep`.
pub open spec fn after_first(s: Seq<char>, sep: char) -> Seq<char>
    decreases s.len(),
{
    if s.len() == 0 {
        Seq::empty()
    } else if s[0] == sep {
        s.drop_first()
    } else {
        after_first(s.drop_first(), sep)
    }
}

/// The part of `s` before the first `sep`, or the empty sequence where `s`
/// holds no `sep`.
pub open spec fn before_first(s: Seq<char>, sep: char) -> Seq<char>
    decreases s.len(),
{
    if s.len() == 0 || !s.contains(sep) || s[0] == sep {
        Seq::empty()
    } else {
        seq![s[0]] + before_first(s.drop_first(), sep)
    }
}

/// The views of a sequence of character vectors.
pub open spec fn views(v: Seq<Vec<char>>) -> Seq<Seq<char>> {
    Seq::new(v.len(), |i: int| v[i]@)
}

/// Splitting always gives at least one piece.
pub proof fn lemma_split_on_nonempty(t: Seq<char>, sep: char)
    ensures
        split_on(t, sep).len() >= 1,
    decreases t.len(),
{
    if t.len() > 0 {
        lemma_split_on_nonempty(t.drop_last(), sep);
    }
}

/// Whether `c` is whitespace.
pub fn is_whitespace(c: char) -> (r: bool)
    ensures
        r == is_white(c),
{
    let u = c as u32;
    (0x9 <= u && u <= 0xd) || u == 0x20 || u == 0x85 || u == 0xa0 || u == 0x1680 || (0x2000 <= u
        && u <= 0x200a) || u == 0x2028 || u == 0x2029 || u == 0x202f || u == 0x205f || u == 0x3000
}

/// The characters of a string slice, in order.
pub fn chars_of(s: &str) -> (r: Vec<char>)
    ensures
        r@ == s@,
{
    let mut r: Vec<char> = Vec::new();
    for c in it: s.chars()
        invariant
            r@ == it.seq().take(it.index() as int),
    {
        r.push(c);
    }
    r
}

/// The whitespace-separated fields of `l`.
pub fn split_fields(l: &Vec<char>) -> (r: Vec<Vec<char>>)
    ensures
        views(r@) == fields(l@),
{
    let mut out: Vec<Vec<char>> = Vec::new();
    let mut in_field = false;
    let mut i: usize = 0;
    while i < l.len()
        invariant
            i <= l.len(),
            views(out@) == fields(l@.take(i as int)),
            in_field == (i > 0 && !is_white(l@[i - 1])),
            in_field ==> out.len() > 0,
        decreases l.len() - i,
    {
        let c = l[i];
        let ghost prev = l@.take(i as int);
        assert(l@.take(i + 1).drop_last() == prev);
        if is_whitespace(c) {
            in_field = false;
        } else if in_field {
            let mut cur = out.pop().unwrap();
            cur.push(c);
            out.push(cur);
            assert(views(out@) =~= fields(l@.take(i + 1)));
        } else {
            let mut cur: Vec<char> = Vec::new();
            cur.push(c);
            out.push(cur);
            assert(views(out@) =~= fields(l@.take(i + 1)));
            in_field = true;
        }
        i = i + 1;
    }
    assert(l@.take(l.len() as int) == l@);
    out
}

/// The pieces of `t` between occurrences of `sep`.
pub fn split_chars(t: &Vec<char>, sep: char) -> (r: Vec<Vec<char>>)
    ensures
        views(r@) == split_on(t@, sep),
{
    let mut out: Vec<Vec<char>> = Vec::new();
    out.push(Vec::new());
    assert(views(out@) =~= split_on(t@.take(0), sep));
    let mut i: usize = 0;
    while i < t.len()
        invariant
            i <= t.len(),
            views(out@) == split_on(t@.take(i as int), sep),
            out.len() >= 1,
        decreases t.len() - i,
    {
        let c = t[i];
        assert(t@.take(i + 1).drop_last() == t@.take(i as int));
        if c == sep {
            out.push(Vec::new());
        } else {
            let mut cur = out.pop().unwrap();
            cur.push(c);
            out.push(cur);
        }
        assert(views(out@) =~= split_on(t@.take(i + 1), sep));
        i = i + 1;
    }
    assert(t@.take(t.len() as int) == t@);
    out
}

/// `s` without leading and trailing whitespace.
pub fn trim_chars(s: &Vec<char>) -> (r: Vec<char>)
    ensures
        r@ == trim(s@),
{
    let mut start: usize = 0;
    assert(s@.skip(0) =~= s@);
    while start < s.len() && is_whitespace(s[start])
        invariant
            start <= s.len(),
            trim_start(s@) == trim_start(s@.skip(start as int)),
        decreases s.len() - start,
    {
        assert(s@.skip(start + 1) == s@.skip(start as int).drop_first());
        start = start + 1;
    }
    let mut end: usize = s.len();
    assert(s@.subrange(start as int, end as int) =~= s@.skip(start as int));
    let ghost mid = s@.skip(start as int);
    assert(trim_start(mid) == mid);
    while end > start && is_whitespace(s[end - 1])
        invariant
            start <= end <= s.len(),
            trim_end(mid) == trim_end(s@.subrange(start as int, end as int)),
        decreases end,
    {
        assert(s@.subrange(start as int, end - 1) == s@.subrange(start as int, end as int).drop_last());
        end = end - 1;
    }
    let mut r: Vec<char> = Vec::new();
    let mut k: usize = start;
    while k < end
        invariant
            start <= k <= end,
            end <= s.len(),
            r@ == s@.subrange(start as int, k as int),
        decreases end - k,
    {
        r.push(s[k]);
        k = k + 1;
    }
    r
}

/// The part of `s` after the first `sep`; empty where there is none.
pub fn chars_after(s: &Vec<char>, sep: char) -> (r: Vec<char>)
    ensures
        r@ == after_first(s@, sep),
{
    let mut i: usize = 0;
    assert(s@.skip(0) =~= s@);
    while i < s.len() && s[i] != sep
        invariant
            i <= s.len(),
            after_first(s@, sep) == after_first(s@.skip(i as int), sep),
        decreases s.len() - i,
    {
        assert(s@.skip(i + 1) == s@.skip(i as int).drop_first());
        i = i + 1;
    }
    let mut r: Vec<char> = Vec::new();
    if i < s.len() {
        assert(s@.skip(i + 1) == s@.skip(i as int).drop_first());
        let mut k: usize = i + 1;
        assert(s@.skip(i + 1) =~= s@.subrange(i + 1, s.len() as int));
        while k < s.len()
            invariant
                i < k <= s.len(),
                r@ == s@.subrange(i + 1, k as int),
            decreases s.len() - k,
        {
            r.push(s[k]);
            k = k + 1;
        }
    }
    r
}

/// The part of `s` before the first `sep`; empty where there is none.
pub fn chars_before(s: &Vec<char>, sep: char) -> (r: Vec<char>)
    ensures
        r@ == before_first(s@, sep),
{
    let mut i: usize = 0;
    while i < s.len() && s[i] != sep
        invariant
            i <= s.len(),
            forall|j: int| 0 <= j < i ==> s@[j] != sep,
        decreases s.len() - i,
    {
        i = i + 1;
    }
    let mut r: Vec<char> = Vec::new();
    if i < s.len() {
        let mut k: usize = 0;
        while k < i
            invariant
                k <= i < s.len(),
                r@ == s@.take(k as int),
            decreases i - k,
        {
            r.push(s[k]);
            k = k + 1;
        }
        proof {
            lemma_before_first_at(s@, sep, i as int);
        }
    } else {
        assert(!s@.contains(sep));
    }
    r
}

proof fn lemma_before_first_at(s: Seq<char>, sep: char, i: int)
    requires
        0 <= i < s.len(),
        s[i] == sep,
        forall|j: int| 0 <= j < i ==> s[j] != sep,
    ensures
        before_first(s, sep) == s.take(i),
    decreases i,
{
    if i > 0 {
        let t = s.drop_first();
        assert forall|j: int| 0 <= j < i - 1 implies t[j] != sep by {
            assert(t[j] == s[j + 1]);
        }
        assert(t[i - 1] == sep);
        lemma_before_first_at(t, sep, i - 1);
        assert(s.contains(sep));
        assert(s.take(i) =~= seq![s[0]] + t.take(i - 1));
    } else {
        assert(s.take(0) =~= Seq::<char>::empty());
    }
}

} // verus!
