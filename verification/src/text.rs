//! Character-level text utilities the directive grammar and the substitution
//! engine are built on: character classes, maximal-run scanning, slash
//! trimming, backslash stripping, and literal replacement.
use vstd::prelude::*;
use vstd::string::*;

verus! {

/// The whitespace characters the directive scanner skips over.
pub open spec fn is_space(c: char) -> bool {
    c == ' ' || c == '\t' || c == '\n' || c == '\r' || c == '\u{b}' || c == '\u{c}'
}

/// Characters that may form a command name: anything but whitespace and parentheses.
pub open spec fn is_name_char(c: char) -> bool {
    !is_space(c) && c != '(' && c != ')'
}

/// Characters that may stand inside the raw argument string of a directive:
/// the string runs up to the closing parenthesis and never spans a line break.
pub open spec fn is_arg_char(c: char) -> bool {
    c != ')' && c != '\n'
}

/// The larger of two integers.
pub open spec fn imax(a: int, b: int) -> int {
    if a >= b {
        a
    } else {
        b
    }
}

/// First position at or after `i` whose character fails `p` (or the end of `s`).
pub open spec fn skip_while(s: Seq<char>, i: int, p: spec_fn(char) -> bool) -> int
    decreases s.len() - i,
{
    if 0 <= i < s.len() && p(s[i]) {
        skip_while(s, i + 1, p)
    } else {
        i
    }
}

pub open spec fn skip_spaces(s: Seq<char>, i: int) -> int {
    skip_while(s, i, |c: char| is_space(c))
}

pub open spec fn skip_name(s: Seq<char>, i: int) -> int {
    skip_while(s, i, |c: char| is_name_char(c))
}

pub open spec fn skip_args(s: Seq<char>, i: int) -> int {
    skip_while(s, i, |c: char| is_arg_char(c))
}

pub proof fn lemma_skip_while_bounds(s: Seq<char>, i: int, p: spec_fn(char) -> bool)
    requires
        0 <= i <= s.len(),
    ensures
        i <= skip_while(s, i, p) <= s.len(),
    decreases s.len() - i,
{
    if i < s.len() && p(s[i]) {
        lemma_skip_while_bounds(s, i + 1, p);
    }
}

pub fn space_char(c: char) -> (b: bool)
    ensures
        b == is_space(c),
{
    c == ' ' || c == '\t' || c == '\n' || c == '\r' || c == '\u{b}' || c == '\u{c}'
}

pub fn name_char(c: char) -> (b: bool)
    ensures
        b == is_name_char(c),
{
    !space_char(c) && c != '(' && c != ')'
}

pub fn arg_char(c: char) -> (b: bool)
    ensures
        b == is_arg_char(c),
{
    c != ')' && c != '\n'
}

pub fn skip_spaces_str(s: &str, n: usize, i: usize) -> (r: usize)
    requires
        n == s@.len(),
        i <= n,
    ensures
        r == skip_spaces(s@, i as int),
        i <= r <= n,
{
    let mut j: usize = i;
    while j < n && space_char(s.get_char(j))
        invariant
            n == s@.len(),
            i <= j <= n,
            skip_spaces(s@, i as int) == skip_spaces(s@, j as int),
        decreases n - j,
    {
        j = j + 1;
    }
    j
}

pub fn skip_name_str(s: &str, n: usize, i: usize) -> (r: usize)
    requires
        n == s@.len(),
        i <= n,
    ensures
        r == skip_name(s@, i as int),
        i <= r <= n,
{
    let mut j: usize = i;
    while j < n && name_char(s.get_char(j))
        invariant
            n == s@.len(),
            i <= j <= n,
            skip_name(s@, i as int) == skip_name(s@, j as int),
        decreases n - j,
    {
        j = j + 1;
    }
    j
}

pub fn skip_args_str(s: &str, n: usize, i: usize) -> (r: usize)
    requires
        n == s@.len(),
        i <= n,
    ensures
        r == skip_args(s@, i as int),
        i <= r <= n,
{
    let mut j: usize = i;
    while j < n && arg_char(s.get_char(j))
        invariant
            n == s@.len(),
            i <= j <= n,
            skip_args(s@, i as int) == skip_args(s@, j as int),
        decreases n - j,
    {
        j = j + 1;
    }
    j
}

/// Character-wise equality of two string slices.
pub fn str_eq(a: &str, b: &str) -> (r: bool)
    ensures
        r == (a@ == b@),
{
    let na = a.unicode_len();
    let nb = b.unicode_len();
    if na != nb {
        return false;
    }
    let mut j: usize = 0;
    while j < na
        invariant
            na == a@.len(),
            na == b@.len(),
            j <= na,
            forall|k: int| 0 <= k < j ==> a@[k] == b@[k],
        decreases na - j,
    {
        if a.get_char(j) != b.get_char(j) {
            return false;
        }
        j = j + 1;
    }
    proof {
        assert(a@ =~= b@);
    }
    true
}

/// `s` with every trailing `/` removed.
pub open spec fn trim_end_slashes(s: Seq<char>) -> Seq<char>
    decreases s.len(),
{
    if s.len() > 0 && s.last() == '/' {
        trim_end_slashes(s.drop_last())
    } else {
        s
    }
}

/// `s` with every leading `/` removed.
pub open spec fn trim_start_slashes(s: Seq<char>) -> Seq<char>
    decreases s.len(),
{
    if s.len() > 0 && s.first() == '/' {
        trim_start_slashes(s.drop_first())
    } else {
        s
    }
}

pub fn trim_end_slashes_str(s: &str) -> (r: String)
    ensures
        r@ == trim_end_slashes(s@),
{
    let n = s.unicode_len();
    let mut j: usize = n;
    proof {
        assert(s@.subrange(0, n as int) =~= s@);
    }
    while j > 0 && s.get_char(j - 1) == '/'
        invariant
            n == s@.len(),
            j <= n,
            trim_end_slashes(s@) == trim_end_slashes(s@.subrange(0, j as int)),
        decreases j,
    {
        proof {
            assert(s@.subrange(0, j as int).drop_last() =~= s@.subrange(0, j - 1));
        }
        j = j - 1;
    }
    let piece = s.substring_char(0, j);
    String::from_str(piece)
}

pub fn trim_start_slashes_str(s: &str) -> (r: String)
    ensures
        r@ == trim_start_slashes(s@),
{
    let n = s.unicode_len();
    let mut j: usize = 0;
    proof {
        assert(s@.subrange(0, n as int) =~= s@);
    }
    while j < n && s.get_char(j) == '/'
        invariant
            n == s@.len(),
            j <= n,
            trim_start_slashes(s@) == trim_start_slashes(s@.subrange(j as int, n as int)),
        decreases n - j,
    {
        proof {
            assert(s@.subrange(j as int, n as int).drop_first() =~= s@.subrange(
                j + 1,
                n as int,
            ));
        }
        j = j + 1;
    }
    let piece = s.substring_char(j, n);
    String::from_str(piece)
}

/// `s` with every backslash removed: how an extracted argument is unescaped.
pub open spec fn strip_backslashes(s: Seq<char>) -> Seq<char>
    decreases s.len(),
{
    if s.len() == 0 {
        Seq::empty()
    } else {
        let rest = strip_backslashes(s.drop_last());
        if s.last() == '\\' {
            rest
        } else {
            rest.push(s.last())
        }
    }
}

pub fn strip_backslashes_str(s: &str, n: usize, from: usize, to: usize) -> (r: String)
    requires
        n == s@.len(),
        from <= to <= n,
    ensures
        r@ == strip_backslashes(s@.subrange(from as int, to as int)),
{
    let mut out = String::new();
    let mut j: usize = from;
    proof {
        assert(s@.subrange(from as int, from as int) =~= Seq::<char>::empty());
    }
    while j < to
        invariant
            n == s@.len(),
            from <= j <= to <= n,
            out@ == strip_backslashes(s@.subrange(from as int, j as int)),
        decreases to - j,
    {
        proof {
            assert(s@.subrange(from as int, j + 1).drop_last() =~= s@.subrange(
                from as int,
                j as int,
            ));
        }
        let c = s.get_char(j);
        if c != '\\' {
            let piece = s.substring_char(j, j + 1);
            out.append(piece);
            proof {
                assert(out@ =~= strip_backslashes(s@.subrange(from as int, j as int)).push(
                    s@[j as int],
                ));
            }
        }
        j = j + 1;
    }
    out
}

/// `s` with every non-overlapping occurrence of `pat` replaced by `val`,
/// scanning left to right. An empty pattern replaces nothing.
pub open spec fn replace_all(s: Seq<char>, pat: Seq<char>, val: Seq<char>) -> Seq<char>
    decreases s.len(),
{
    if pat.len() == 0 || s.len() < pat.len() {
        s
    } else if s.subrange(0, pat.len() as int) == pat {
        val + replace_all(s.skip(pat.len() as int), pat, val)
    } else {
        seq![s[0]] + replace_all(s.skip(1), pat, val)
    }
}

/// Whether `pat` occurs in `s` at position `i`.
pub open spec fn occurs_at(s: Seq<char>, pat: Seq<char>, i: int) -> bool {
    0 <= i && i + pat.len() <= s.len() && s.subrange(i, i + pat.len()) == pat
}

/// A pattern that occurs nowhere in the text replaces nothing: text that
/// holds no occurrence of a raw match — an unresolved placeholder among
/// them — passes through its replacement pass unchanged.
pub proof fn lemma_replace_all_absent(s: Seq<char>, pat: Seq<char>, val: Seq<char>)
    requires
        forall|i: int| !#[trigger] occurs_at(s, pat, i),
    ensures
        replace_all(s, pat, val) == s,
    decreases s.len(),
{
    if pat.len() == 0 || s.len() < pat.len() {
    } else {
        assert(!occurs_at(s, pat, 0));
        assert(s.subrange(0, pat.len() as int) != pat);
        assert forall|i: int| !#[trigger] occurs_at(s.skip(1), pat, i) by {
            if occurs_at(s.skip(1), pat, i) {
                assert(s.skip(1).subrange(i, i + pat.len()) =~= s.subrange(
                    i + 1,
                    i + 1 + pat.len(),
                ));
                assert(occurs_at(s, pat, i + 1));
            }
        }
        lemma_replace_all_absent(s.skip(1), pat, val);
        assert(seq![s[0]] + s.skip(1) =~= s);
    }
}

/// Whether `pat` occurs in `s` starting at position `i`.
fn has_at(s: &str, n: usize, i: usize, pat: &str, m: usize) -> (b: bool)
    requires
        n == s@.len(),
        m == pat@.len(),
        i <= n,
        m <= n - i,
    ensures
        b == (s@.subrange(i as int, i + m) == pat@),
{
    let mut k: usize = 0;
    while k < m
        invariant
            n == s@.len(),
            m == pat@.len(),
            i <= n,
            m <= n - i,
            k <= m,
            forall|t: int| 0 <= t < k ==> s@[i + t] == pat@[t],
        decreases m - k,
    {
        if s.get_char(i + k) != pat.get_char(k) {
            proof {
                assert(s@.subrange(i as int, i + m)[k as int] != pat@[k as int]);
            }
            return false;
        }
        k = k + 1;
    }
    proof {
        assert(s@.subrange(i as int, i + m) =~= pat@);
    }
    true
}

/// Replaces every occurrence of `pat` in `s` by `val`.
pub fn replace_all_str(s: &str, pat: &str, val: &str) -> (r: String)
    ensures
        r@ == replace_all(s@, pat@, val@),
{
    let n = s.unicode_len();
    let m = pat.unicode_len();
    if m == 0 {
        return String::from_str(s);
    }
    let mut out = String::new();
    let mut i: usize = 0;
    proof {
        assert(s@.skip(0) =~= s@);
    }
    while i < n
        invariant
            n == s@.len(),
            m == pat@.len(),
            m > 0,
            i <= n,
            replace_all(s@, pat@, val@) == out@ + replace_all(s@.skip(i as int), pat@, val@),
        decreases n - i,
    {
        let ghost rest = s@.skip(i as int);
        if m <= n - i && has_at(s, n, i, pat, m) {
            proof {
                assert(rest.subrange(0, m as int) =~= s@.subrange(i as int, i + m));
                assert(rest.skip(m as int) =~= s@.skip(i + m));
            }
            out.append(val);
            i = i + m;
        } else {
            proof {
                if m <= n - i {
                    assert(rest.subrange(0, m as int) =~= s@.subrange(i as int, i + m));
                }
                assert(rest.skip(1) =~= s@.skip(i + 1));
                assert(seq![rest[0]] =~= s@.subrange(i as int, i + 1));
            }
            let piece = s.substring_char(i, i + 1);
            out.append(piece);
            i = i + 1;
        }
    }
    proof {
        assert(s@.skip(n as int) =~= Seq::<char>::empty());
    }
    out
}

} // verus!
