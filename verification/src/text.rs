//! Character-sequence operations on keys: splitting, replacing, prefixes.

use vstd::prelude::*;

verus! {

/// `s` with every occurrence of the character `c` replaced by `rep`.
pub open spec fn replace_char(s: Seq<char>, c: char, rep: Seq<char>) -> Seq<char>
    decreases s.len(),
{
    if s.len() == 0 {
        Seq::empty()
    } else {
        replace_char(s.drop_last(), c, rep) + (if s.last() == c {
            rep
        } else {
            seq![s.last()]
        })
    }
}

/// `s` with the non-overlapping occurrences of `pat`, found from left to
/// right, replaced by `rep`. An empty pattern occurs before every character
/// and once more at the end.
pub open spec fn replace_str(s: Seq<char>, pat: Seq<char>, rep: Seq<char>) -> Seq<char>
    decreases s.len(),
{
    if pat.len() == 0 {
        if s.len() == 0 {
            rep
        } else {
            rep + seq![s[0]] + replace_str(s.drop_first(), pat, rep)
        }
    } else if s.len() == 0 {
        Seq::empty()
    } else if pat.len() <= s.len() && s.take(pat.len() as int) == pat {
        rep + replace_str(s.skip(pat.len() as int), pat, rep)
    } else {
        seq![s[0]] + replace_str(s.drop_first(), pat, rep)
    }
}

/// The pieces of `s` between occurrences of the separator `c`, in order;
/// there is always one more piece than there are separators.
pub open spec fn split_char(s: Seq<char>, c: char) -> Seq<Seq<char>>
    decreases s.len(),
{
    if s.len() == 0 {
        seq![Seq::empty()]
    } else {
        let init = split_char(s.drop_last(), c);
        if s.last() == c {
            init.push(Seq::empty())
        } else {
            init.update(init.len() - 1, init.last().push(s.last()))
        }
    }
}

/// Whether `s` begins with `p`.
pub open spec fn has_prefix(s: Seq<char>, p: Seq<char>) -> bool {
    p.len() <= s.len() && s.take(p.len() as int) == p
}

/// The characters of `s`, in order.
pub fn to_chars(s: &str) -> (v: Vec<char>)
    ensures
        v@ == s@,
{
    let mut v: Vec<char> = Vec::new();
    for c in it: s.chars()
        invariant
            v@ == it.seq().take(it.index() as int),
            it.seq() == s@,
    {
        v.push(c);
    }
    v
}

/// The string made of the characters of `v`, in order.
#[verifier::external_body]
pub fn from_chars(v: &Vec<char>) -> (s: String)
    ensures
        s@ == v@,
{
    v.iter().collect()
}

/// Appends the characters of `s` to `out`.
pub fn push_all(out: &mut Vec<char>, s: &Vec<char>)
    ensures
        final(out)@ == old(out)@ + s@,
{
    let mut i: usize = 0;
    while i < s.len()
        invariant
            i <= s.len(),
            out@ == old(out)@ + s@.take(i as int),
        decreases s.len() - i,
    {
        out.push(s[i]);
        i = i + 1;
        assert(s@.take(i as int) == s@.take((i - 1) as int).push(s@[i - 1]));
    }
    assert(s@.take(s.len() as int) == s@);
}

/// Whether the characters of `a` and `b` are the same.
pub fn chars_equal(a: &Vec<char>, b: &Vec<char>) -> (r: bool)
    ensures
        r == (a@ == b@),
{
    if a.len() != b.len() {
        return false;
    }
    let mut i: usize = 0;
    while i < a.len()
        invariant
            i <= a.len(),
            a.len() == b.len(),
            a@.take(i as int) == b@.take(i as int),
        decreases a.len() - i,
    {
        if a[i] != b[i] {
            assert(a@[i as int] != b@[i as int]);
            return false;
        }
        assert(a@.take(i + 1) == a@.take(i as int).push(a@[i as int]));
        assert(b@.take(i + 1) == b@.take(i as int).push(b@[i as int]));
        i = i + 1;
    }
    assert(a@ == a@.take(a.len() as int));
    assert(b@ == b@.take(b.len() as int));
    true
}

/// Whether `s` begins with `p`.
pub fn starts_with(s: &Vec<char>, p: &Vec<char>) -> (r: bool)
    ensures
        r == has_prefix(s@, p@),
{
    if p.len() > s.len() {
        return false;
    }
    let mut i: usize = 0;
    while i < p.len()
        invariant
            i <= p.len() <= s.len(),
            s@.take(i as int) == p@.take(i as int),
        decreases p.len() - i,
    {
        if s[i] != p[i] {
            assert(s@.take(p.len() as int)[i as int] != p@[i as int]);
            return false;
        }
        assert(s@.take(i + 1) == s@.take(i as int).push(s@[i as int]));
        assert(p@.take(i + 1) == p@.take(i as int).push(p@[i as int]));
        i = i + 1;
    }
    assert(p@ == p@.take(p.len() as int));
    true
}

/// `s` with every `c` replaced by `rep`.
pub fn replace_char_exec(s: &Vec<char>, c: char, rep: &Vec<char>) -> (r: Vec<char>)
    ensures
        r@ == replace_char(s@, c, rep@),
{
    let mut out: Vec<char> = Vec::new();
    let mut i: usize = 0;
    while i < s.len()
        invariant
            i <= s.len(),
            out@ == replace_char(s@.take(i as int), c, rep@),
        decreases s.len() - i,
    {
        assert(s@.take(i + 1).drop_last() == s@.take(i as int));
        if s[i] == c {
            push_all(&mut out, rep);
        } else {
            out.push(s[i]);
        }
        i = i + 1;
    }
    assert(s@.take(s.len() as int) == s@);
    out
}

/// The views of a sequence of strings.
pub open spec fn views(ss: Seq<String>) -> Seq<Seq<char>> {
    ss.map_values(|x: String| x@)
}

/// Whether `pat` occurs in `s` starting at position `i`.
pub fn matches_at(s: &Vec<char>, pat: &Vec<char>, i: usize) -> (r: bool)
    requires
        i <= s.len(),
    ensures
        r == (i + pat.len() <= s.len() && s@.subrange(i as int, i + pat.len()) == pat@),
{
    if pat.len() > s.len() - i {
        return false;
    }
    let mut j: usize = 0;
    while j < pat.len()
        invariant
            i + pat.len() <= s.len(),
            j <= pat.len(),
            s@.subrange(i as int, i + j) == pat@.take(j as int),
        decreases pat.len() - j,
    {
        if s[i + j] != pat[j] {
            assert(s@.subrange(i as int, i + pat.len())[j as int] != pat@[j as int]);
            return false;
        }
        assert(s@.subrange(i as int, i + j + 1) == s@.subrange(i as int, i + j).push(s@[i + j]));
        assert(pat@.take(j + 1) == pat@.take(j as int).push(pat@[j as int]));
        j = j + 1;
    }
    assert(pat@.take(pat.len() as int) == pat@);
    true
}

/// `s` with the occurrences of `pat`, found from left to right without
/// overlapping, replaced by `rep`.
pub fn replace_str_exec(s: &Vec<char>, pat: &Vec<char>, rep: &Vec<char>) -> (r: Vec<char>)
    ensures
        r@ == replace_str(s@, pat@, rep@),
{
    let mut out: Vec<char> = Vec::new();
    let mut i: usize = 0;
    assert(s@.skip(0) == s@);
    while i < s.len()
        invariant
            i <= s.len(),
            out@ + replace_str(s@.skip(i as int), pat@, rep@) == replace_str(s@, pat@, rep@),
        decreases s.len() - i,
    {
        let ghost rest = s@.skip(i as int);
        assert(rest.drop_first() == s@.skip(i + 1));
        assert(rest[0] == s@[i as int]);
        if pat.len() == 0 {
            push_all(&mut out, rep);
            out.push(s[i]);
            i = i + 1;
        } else if matches_at(s, pat, i) {
            assert(rest.take(pat.len() as int) == s@.subrange(i as int, i + pat.len()));
            assert(rest.skip(pat.len() as int) == s@.skip(i + pat.len()));
            push_all(&mut out, rep);
            i = i + pat.len();
        } else {
            assert(!(pat.len() <= rest.len() && rest.take(pat.len() as int) == pat@)) by {
                if pat.len() <= rest.len() {
                    assert(rest.take(pat.len() as int) == s@.subrange(i as int, i + pat.len()));
                }
            }
            out.push(s[i]);
            i = i + 1;
        }
    }
    if pat.len() == 0 {
        push_all(&mut out, rep);
    }
    out
}

/// The pieces of `s` between occurrences of `c`.
pub fn split_char_exec(s: &Vec<char>, c: char) -> (r: Vec<String>)
    ensures
        views(r@) == split_char(s@, c),
{
    let mut parts: Vec<String> = Vec::new();
    let mut cur: Vec<char> = Vec::new();
    let mut i: usize = 0;
    assert(s@.take(0) =~= Seq::<char>::empty());
    assert(views(parts@).push(cur@) =~= seq![Seq::<char>::empty()]);
    while i < s.len()
        invariant
            i <= s.len(),
            split_char(s@.take(i as int), c) == views(parts@).push(cur@),
        decreases s.len() - i,
    {
        assert(s@.take(i + 1).drop_last() == s@.take(i as int));
        let ghost before = views(parts@);
        if s[i] == c {
            let piece = from_chars(&cur);
            parts.push(piece);
            cur = Vec::new();
            assert(views(parts@) == before.push(piece@));
            assert(views(parts@).push(cur@) =~= before.push(piece@).push(Seq::<char>::empty()));
        } else {
            cur.push(s[i]);
            assert(views(parts@).push(cur@) =~= before.push(cur@.drop_last()).update(
                before.len() as int,
                cur@,
            ));
        }
        i = i + 1;
    }
    assert(s@.take(s.len() as int) == s@);
    let last = from_chars(&cur);
    let ghost before = views(parts@);
    parts.push(last);
    assert(views(parts@) =~= before.push(last@));
    parts
}

} // verus!
