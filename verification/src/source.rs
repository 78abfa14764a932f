//! The physical file model: a path plus its content as ordered lines,
//! and comment stripping.

use vstd::prelude::*;

use crate::error::KickstartError;
use crate::text::first_char_is;
use crate::text::first_is;
use crate::text::join_all;
use crate::text::join_lines;

verus! {

/// Mathematical image of a [`File`].
#[verifier::ext_equal]
pub ghost struct FileV {
    pub path: Seq<char>,
    pub data: Seq<Seq<char>>,
}

/// One physical file: where it came from and its content, line by line.
#[derive(Clone, Debug)]
pub struct File {
    pub path: String,
    pub data: Vec<String>,
}

impl View for File {
    type V = FileV;

    open spec fn view(&self) -> FileV {
        FileV { path: self.path@, data: self.data.deep_view() }
    }
}

/// A comment line: its first character is `#`.
pub open spec fn is_comment(l: Seq<char>) -> bool {
    first_is(l, '#')
}

/// The lines of `ls` with every comment line removed.
pub open spec fn strip_comments(ls: Seq<Seq<char>>) -> Seq<Seq<char>>
    decreases ls.len(),
{
    if ls.len() == 0 {
        Seq::empty()
    } else if is_comment(ls[0]) {
        strip_comments(ls.drop_first())
    } else {
        seq![ls[0]] + strip_comments(ls.drop_first())
    }
}

/// No line of `ls` is a comment.
pub open spec fn comment_free(ls: Seq<Seq<char>>) -> bool {
    forall|i: int| 0 <= i < ls.len() ==> !is_comment(ls[i])
}

/// Stripping leaves no comment line behind.
pub proof fn lemma_strip_comment_free(ls: Seq<Seq<char>>)
    ensures
        comment_free(strip_comments(ls)),
    decreases ls.len(),
{
    if ls.len() > 0 {
        lemma_strip_comment_free(ls.drop_first());
        if !is_comment(ls[0]) {
            let r = seq![ls[0]] + strip_comments(ls.drop_first());
            assert(forall|i: int|
                1 <= i < r.len() ==> r[i] == strip_comments(ls.drop_first())[i - 1]);
        }
    }
}

/// On comment-free input, stripping changes nothing.
pub proof fn lemma_strip_noop(ls: Seq<Seq<char>>)
    requires
        comment_free(ls),
    ensures
        strip_comments(ls) == ls,
    decreases ls.len(),
{
    if ls.len() > 0 {
        assert(!is_comment(ls[0]));
        assert(comment_free(ls.drop_first())) by {
            assert(forall|i: int|
                0 <= i < ls.drop_first().len() ==> ls.drop_first()[i] == ls[i + 1]);
        }
        lemma_strip_noop(ls.drop_first());
        assert(seq![ls[0]] + ls.drop_first() =~= ls);
    }
}

/// LAW: comment stripping is idempotent — stripping a second time
/// yields exactly the lines the first pass produced.
pub proof fn lemma_strip_idempotent(ls: Seq<Seq<char>>)
    ensures
        strip_comments(strip_comments(ls)) == strip_comments(ls),
{
    lemma_strip_comment_free(ls);
    lemma_strip_noop(strip_comments(ls));
}

/// Appending one line to the input extends the stripped output by that
/// line exactly when it is not a comment.
pub proof fn lemma_strip_push(ls: Seq<Seq<char>>, x: Seq<char>)
    ensures
        strip_comments(ls.push(x)) == if is_comment(x) {
            strip_comments(ls)
        } else {
            strip_comments(ls).push(x)
        },
    decreases ls.len(),
{
    if ls.len() == 0 {
        assert(ls.push(x)[0] == x);
        assert(ls.push(x).drop_first() =~= Seq::<Seq<char>>::empty());
        assert(strip_comments(Seq::<Seq<char>>::empty()) == Seq::<Seq<char>>::empty());
        if is_comment(x) {
            assert(strip_comments(ls.push(x)) == strip_comments(ls));
        } else {
            assert(strip_comments(ls.push(x)) == seq![x] + strip_comments(
                Seq::<Seq<char>>::empty(),
            ));
            assert(seq![x] + Seq::<Seq<char>>::empty() =~= strip_comments(ls).push(x));
        }
    } else {
        assert(ls.push(x)[0] == ls[0]);
        assert(ls.push(x).drop_first() =~= ls.drop_first().push(x));
        lemma_strip_push(ls.drop_first(), x);
        if is_comment(ls[0]) {
            assert(strip_comments(ls.push(x)) == strip_comments(ls.drop_first().push(x)));
            assert(strip_comments(ls) == strip_comments(ls.drop_first()));
        } else {
            assert(strip_comments(ls.push(x)) == seq![ls[0]] + strip_comments(
                ls.drop_first().push(x),
            ));
            if !is_comment(x) {
                assert(seq![ls[0]] + strip_comments(ls.drop_first()).push(x) =~= (seq![ls[0]]
                    + strip_comments(ls.drop_first())).push(x));
            }
        }
    }
}

/// Removes every comment line of `lines`, keeping all others in order.
pub(crate) fn strip_lines(lines: &Vec<String>) -> (r: Vec<String>)
    ensures
        r.deep_view() == strip_comments(lines.deep_view()),
{
    let mut out: Vec<String> = Vec::new();
    let n = lines.len();
    let mut i: usize = 0;
    while i < n
        invariant
            i <= n,
            n == lines@.len(),
            out.deep_view() == strip_comments(lines.deep_view().take(i as int)),
        decreases n - i,
    {
        proof {
            lemma_strip_push(lines.deep_view().take(i as int), lines.deep_view()[i as int]);
            assert(lines.deep_view().take(i + 1 as int) =~= lines.deep_view().take(
                i as int,
            ).push(lines.deep_view()[i as int]));
        }
        if !first_char_is(lines[i].as_str(), '#') {
            let ghost prev = out.deep_view();
            out.push(lines[i].clone());
            proof {
                assert(out.deep_view() =~= prev.push(lines.deep_view()[i as int]));
            }
        }
        i = i + 1;
    }
    proof {
        assert(lines.deep_view().take(n as int) =~= lines.deep_view());
    }
    out
}

impl File {
    /// Builds a file value from a path and its content, split into lines.
    pub fn new(path: String, data: Vec<String>) -> (r: File)
        ensures
            r@.path == path@,
            r@.data == data.deep_view(),
    {
        File { path, data }
    }

    /// Removes all comment lines from this file's content.
    pub fn clean(&mut self) -> (r: Result<(), KickstartError>)
        ensures
            final(self)@.path == old(self)@.path,
            final(self)@.data == strip_comments(old(self)@.data),
            r is Ok,
    {
        let stripped = strip_lines(&self.data);
        self.data = stripped;
        Ok(())
    }

    /// The whole content as one text, every line terminated by a newline.
    pub fn to_string(&mut self) -> (r: String)
        ensures
            *final(self) == *old(self),
            r@ == join_lines(old(self)@.data),
    {
        join_all(&self.data)
    }
}

} // verus!
