use vstd::prelude::*;

verus! {

/// What `str::trim` returns: `s` without leading and trailing white space.
pub uninterp spec fn trimmed(s: Seq<char>) -> Seq<char>;

/// What `str::trim_end` returns: `s` without trailing white space.
pub uninterp spec fn trimmed_end(s: Seq<char>) -> Seq<char>;

/// What `str::trim_start` returns: `s` without leading white space.
pub uninterp spec fn trimmed_start(s: Seq<char>) -> Seq<char>;

/// Relies on `str::trim`: the result depends on the characters alone, and has
/// no leading or trailing white space left to remove.
#[verifier::external_body]
pub(crate) fn trim(s: &str) -> (r: &str)
    ensures
        r@ == trimmed(s@),
        trimmed(r@) == r@,
{
    s.trim()
}

/// Relies on `str::trim_end`: it removes trailing white space (a line feed among
/// it), so what it returns is a prefix of `s` that does not end in a line feed.
#[verifier::external_body]
pub(crate) fn trim_end(s: &str) -> (r: &str)
    ensures
        r@ == trimmed_end(s@),
        r@ == s@.subrange(0, r@.len() as int),
        r@.len() == 0 || r@.last() != '\n',
{
    s.trim_end()
}

/// Relies on `str::trim_start`; the result depends on the characters alone.
#[verifier::external_body]
pub(crate) fn trim_start(s: &str) -> (r: &str)
    ensures
        r@ == trimmed_start(s@),
{
    s.trim_start()
}

/// Number of line feeds in `s`.
pub open spec fn newlines(s: Seq<char>) -> nat
    decreases s.len(),
{
    if s.len() == 0 {
        0
    } else {
        newlines(s.drop_last()) + if s.last() == '\n' { 1nat } else { 0nat }
    }
}

/// Number of lines of a text that does not end in a line feed: none for the empty
/// text, else one more than its line feeds.
pub open spec fn line_count(s: Seq<char>) -> nat {
    if s.len() == 0 {
        0
    } else {
        newlines(s) + 1
    }
}

proof fn lemma_newlines_bound(s: Seq<char>)
    ensures
        newlines(s) <= s.len(),
    decreases s.len(),
{
    if s.len() > 0 {
        lemma_newlines_bound(s.drop_last());
    }
}

/// Counts the lines of a text that does not end in a line feed.
pub fn count_lines(s: &str) -> (r: usize)
    requires
        s@.len() == 0 || s@.last() != '\n',
    ensures
        r == line_count(s@),
{
    let cs = chars_of(s);
    let mut n: usize = 0;
    let mut i: usize = 0;
    while i < cs.len()
        invariant
            cs@ == s@,
            i <= cs@.len(),
            n == newlines(s@.subrange(0, i as int)),
            n <= i,
        decreases cs@.len() - i,
    {
        proof {
            assert(s@.subrange(0, i + 1).drop_last() =~= s@.subrange(0, i as int));
        }
        if cs[i] == '\n' {
            n = n + 1;
        }
        i = i + 1;
    }
    assert(s@.subrange(0, s@.len() as int) =~= s@);
    proof {
        if s@.len() > 0 {
            lemma_newlines_bound(s@.drop_last());
        }
    }
    if cs.len() == 0 {
        0
    } else {
        n + 1
    }
}

/// The characters of `s`.
pub fn chars_of(s: &str) -> (r: Vec<char>)
    ensures
        r@ == s@,
{
    let mut r: Vec<char> = Vec::new();
    for c in it: s.chars()
        invariant
            it.seq() == s@,
            r@ == s@.subrange(0, it.index()),
    {
        proof {
            assert(s@.subrange(0, it.index() + 1) =~= r@.push(c));
        }
        r.push(c);
    }
    assert(s@.subrange(0, s@.len() as int) =~= s@);
    r
}

/// Whether `s` begins with `prefix`.
pub fn has_prefix(s: &str, prefix: &str) -> (r: bool)
    ensures
        r == (prefix@.len() <= s@.len() && s@.subrange(0, prefix@.len() as int) == prefix@),
{
    let cs = chars_of(s);
    let pre = chars_of(prefix);
    if pre.len() > cs.len() {
        return false;
    }
    let mut i: usize = 0;
    while i < pre.len()
        invariant
            cs@ == s@,
            pre@ == prefix@,
            pre@.len() <= cs@.len(),
            i <= pre@.len(),
            s@.subrange(0, i as int) == pre@.subrange(0, i as int),
        decreases pre@.len() - i,
    {
        if cs[i] != pre[i] {
            assert(s@.subrange(0, prefix@.len() as int)[i as int] != prefix@[i as int]);
            return false;
        }
        proof {
            assert(s@.subrange(0, i + 1) =~= s@.subrange(0, i as int).push(cs@[i as int]));
            assert(pre@.subrange(0, i + 1) =~= pre@.subrange(0, i as int).push(cs@[i as int]));
        }
        i = i + 1;
    }
    assert(pre@.subrange(0, i as int) =~= pre@);
    true
}

/// Whether two texts are equal.
pub fn same_text(a: &str, b: &str) -> (r: bool)
    ensures
        r == (a@ == b@),
{
    let n = chars_of(a).len();
    let m = chars_of(b).len();
    if n != m {
        return false;
    }
    let r = has_prefix(a, b);
    proof {
        assert(a@.subrange(0, a@.len() as int) =~= a@);
        if r {
            assert(a@.subrange(0, b@.len() as int) =~= a@);
        }
    }
    r
}

} // verus!
