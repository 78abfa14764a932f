//! Character-level helpers shared by the pipeline: whitespace splitting,
//! prefix tests, string equality, and joining lines back into one text.
//!
//! A physical line is a `String` whose view is a `Seq<char>`; a document
//! is a `Vec<String>` whose deep view is a `Seq<Seq<char>>`.

use vstd::prelude::*;

verus! {

/// ASCII whitespace: the separators recognised inside a line.
pub open spec fn is_ws(c: char) -> bool {
    c == ' ' || c == '\t' || c == '\r' || c == '\n'
}

/// The first character of `l` is `c`.
pub open spec fn first_is(l: Seq<char>, c: char) -> bool {
    l.len() > 0 && l[0] == c
}

/// `p` is a prefix of `l`.
pub open spec fn has_prefix(l: Seq<char>, p: Seq<char>) -> bool {
    l.len() >= p.len() && l.subrange(0, p.len() as int) == p
}

/// Length of the leading run of non-whitespace characters.
pub open spec fn token_len(l: Seq<char>) -> nat
    decreases l.len(),
{
    if l.len() == 0 || is_ws(l[0]) {
        0
    } else {
        1 + token_len(l.drop_first())
    }
}

pub proof fn lemma_token_len_le(l: Seq<char>)
    ensures
        token_len(l) <= l.len(),
    decreases l.len(),
{
    if l.len() > 0 && !is_ws(l[0]) {
        lemma_token_len_le(l.drop_first());
    }
}

/// The leading token ends exactly at `n` when the first `n` characters are
/// non-whitespace and position `n` is the end of the line or a separator.
pub proof fn lemma_token_len_at(l: Seq<char>, n: nat)
    requires
        n <= l.len(),
        forall|k: int| 0 <= k < n ==> !is_ws(l[k]),
        n == l.len() || is_ws(l[n as int]),
    ensures
        token_len(l) == n,
    decreases n,
{
    if n == 0 {
    } else {
        assert(!is_ws(l[0]));
        lemma_token_len_at(l.drop_first(), (n - 1) as nat);
    }
}

/// The whitespace-separated tokens of `l`, in order.
pub open spec fn split_ws(l: Seq<char>) -> Seq<Seq<char>>
    decreases l.len(),
    via split_ws_decreases
{
    if l.len() == 0 {
        Seq::empty()
    } else if is_ws(l[0]) {
        split_ws(l.drop_first())
    } else {
        seq![l.take(token_len(l) as int)] + split_ws(l.skip(token_len(l) as int))
    }
}

#[via_fn]
proof fn split_ws_decreases(l: Seq<char>) {
    if l.len() > 0 && !is_ws(l[0]) {
        lemma_token_len_le(l);
        assert(token_len(l) >= 1);
    }
}

/// Every line joined back into one text, each line terminated by a newline.
pub open spec fn join_lines(ls: Seq<Seq<char>>) -> Seq<char>
    decreases ls.len(),
{
    if ls.len() == 0 {
        Seq::empty()
    } else {
        ls[0] + seq!['\n'] + join_lines(ls.drop_first())
    }
}

pub proof fn lemma_join_push(ls: Seq<Seq<char>>, x: Seq<char>)
    ensures
        join_lines(ls.push(x)) == join_lines(ls) + x + seq!['\n'],
    decreases ls.len(),
{
    if ls.len() == 0 {
        assert(ls.push(x)[0] == x);
        assert(ls.push(x).drop_first() =~= Seq::<Seq<char>>::empty());
        assert(join_lines(ls.push(x)) == x + seq!['\n'] + join_lines(Seq::<Seq<char>>::empty()));
        assert(join_lines(ls.push(x)) =~= join_lines(ls) + x + seq!['\n']);
    } else {
        assert(ls.push(x).drop_first() =~= ls.drop_first().push(x));
        lemma_join_push(ls.drop_first(), x);
        assert(ls.push(x)[0] == ls[0]);
        assert(join_lines(ls.push(x)) == ls[0] + seq!['\n'] + join_lines(ls.drop_first().push(x)));
        assert(join_lines(ls.push(x)) =~= join_lines(ls) + x + seq!['\n']);
    }
}

/// Whether `c` is a separator; the executable twin of `is_ws`.
pub fn is_ws_char(c: char) -> (b: bool)
    ensures
        b == is_ws(c),
{
    c == ' ' || c == '\t' || c == '\r' || c == '\n'
}

/// True when `s` begins with the character `c`.
pub fn first_char_is(s: &str, c: char) -> (b: bool)
    ensures
        b == first_is(s@, c),
{
    let n = s.unicode_len();
    if n == 0 {
        false
    } else {
        s.get_char(0) == c
    }
}

/// Character-for-character equality of two strings.
pub fn str_eq(s: &str, t: &str) -> (b: bool)
    ensures
        b == (s@ == t@),
{
    let ns = s.unicode_len();
    let nt = t.unicode_len();
    if ns != nt {
        return false;
    }
    let mut i: usize = 0;
    while i < ns
        invariant
            i <= ns,
            ns == s@.len(),
            ns == t@.len(),
            forall|k: int| 0 <= k < i ==> s@[k] == t@[k],
        decreases ns - i,
    {
        if s.get_char(i) != t.get_char(i) {
            return false;
        }
        i = i + 1;
    }
    proof {
        assert(s@ =~= t@);
    }
    true
}

/// True when `p` is a prefix of `s`.
pub fn str_has_prefix(s: &str, p: &str) -> (b: bool)
    ensures
        b == has_prefix(s@, p@),
{
    let ns = s.unicode_len();
    let np = p.unicode_len();
    if ns < np {
        return false;
    }
    let mut i: usize = 0;
    while i < np
        invariant
            i <= np,
            np <= ns,
            ns == s@.len(),
            np == p@.len(),
            forall|k: int| 0 <= k < i ==> s@[k] == p@[k],
        decreases np - i,
    {
        if s.get_char(i) != p.get_char(i) {
            return false;
        }
        i = i + 1;
    }
    proof {
        assert(s@.subrange(0, p@.len() as int) =~= p@);
    }
    true
}

/// Splits `s` into its whitespace-separated tokens, from position `i` on.
fn split_ws_from(s: &str, i: usize) -> (r: Vec<String>)
    requires
        i <= s@.len(),
    ensures
        r.deep_view() == split_ws(s@.skip(i as int)),
    decreases s@.len() - i,
{
    let n = s.unicode_len();
    if i == n {
        let r: Vec<String> = Vec::new();
        proof {
            assert(s@.skip(i as int) =~= Seq::<char>::empty());
            assert(r.deep_view() =~= split_ws(s@.skip(i as int)));
        }
        r
    } else if is_ws_char(s.get_char(i)) {
        let r = split_ws_from(s, i + 1);
        proof {
            assert(s@.skip(i as int).drop_first() =~= s@.skip(i + 1 as int));
        }
        r
    } else {
        // scan to the end of the token
        let mut j: usize = i + 1;
        while j < n && !is_ws_char(s.get_char(j))
            invariant
                i < j <= n,
                n == s@.len(),
                forall|k: int| i <= k < j ==> !is_ws(s@[k]),
            decreases n - j,
        {
            j = j + 1;
        }
        let tok = String::from_str(s.substring_char(i, j));
        let rest = split_ws_from(s, j);
        let mut r: Vec<String> = Vec::new();
        r.push(tok);
        let mut rest = rest;
        r.append(&mut rest);
        proof {
            let tail = s@.skip(i as int);
            assert(forall|k: int| 0 <= k < j - i ==> tail[k] == s@[i + k] && !is_ws(tail[k]));
            if j < n {
                assert(is_ws(tail[j - i]));
            }
            lemma_token_len_at(tail, (j - i) as nat);
            assert(tail.take(token_len(tail) as int) =~= s@.subrange(i as int, j as int));
            assert(tail.skip(token_len(tail) as int) =~= s@.skip(j as int));
            assert(r.deep_view() =~= split_ws(tail));
        }
        r
    }
}

/// Splits a line into its whitespace-separated tokens.
pub fn split_whitespace(s: &str) -> (r: Vec<String>)
    ensures
        r.deep_view() == split_ws(s@),
{
    let r = split_ws_from(s, 0);
    proof {
        assert(s@.skip(0) =~= s@);
    }
    r
}

/// A copy of a vector of lines, view for view.
pub(crate) fn clone_lines(v: &Vec<String>) -> (r: Vec<String>)
    ensures
        r@ == v@,
{
    let mut out: Vec<String> = Vec::new();
    let n = v.len();
    let mut i: usize = 0;
    while i < n
        invariant
            i <= n,
            n == v@.len(),
            out@ == v@.take(i as int),
        decreases n - i,
    {
        out.push(v[i].clone());
        proof {
            assert(v@.take(i + 1 as int) =~= v@.take(i as int).push(v@[i as int]));
        }
        i = i + 1;
    }
    proof {
        assert(v@.take(n as int) =~= v@);
    }
    out
}

/// Joins lines into one text, appending a newline after each line.
pub fn join_all(lines: &Vec<String>) -> (r: String)
    ensures
        r@ == join_lines(lines.deep_view()),
{
    let mut out = String::new();
    let n = lines.len();
    let mut i: usize = 0;
    while i < n
        invariant
            i <= n,
            n == lines@.len(),
            out@ == join_lines(lines.deep_view().take(i as int)),
        decreases n - i,
    {
        out.append(lines[i].as_str());
        out.append("\n");
        proof {
            reveal_strlit("\n");
            lemma_join_push(lines.deep_view().take(i as int), lines@[i as int]@);
            assert(lines.deep_view().take(i + 1 as int) =~= lines.deep_view().take(
                i as int,
            ).push(lines.deep_view()[i as int]));
            assert("\n"@ =~= seq!['\n']);
        }
        i = i + 1;
    }
    proof {
        assert(lines.deep_view().take(n as int) =~= lines.deep_view());
    }
    out
}

} // verus!
