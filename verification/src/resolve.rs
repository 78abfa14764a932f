//! Splicing of `%include` directives: a directive line is replaced, in
//! place, by the cleaned and recursively resolved content of the file it
//! names, looked up in a [`FileTable`].  A chain of inclusions that
//! revisits a file currently being resolved fails with a cycle error.

use vstd::prelude::*;

use crate::error::KickstartError;
use crate::source::File;
use crate::source::strip_comments;
use crate::source::strip_lines;
use crate::text::has_prefix;
use crate::text::split_whitespace;
use crate::text::split_ws;
use crate::text::clone_lines;
use crate::text::str_eq;
use crate::text::str_has_prefix;

verus! {

/// Mathematical image of a [`FileEntry`].
#[verifier::ext_equal]
pub ghost struct EntryV {
    pub name: Seq<char>,
    pub data: Seq<Seq<char>>,
}

/// One file available for splicing: its name and its raw lines.
#[derive(Clone, Debug)]
pub struct FileEntry {
    pub name: String,
    pub data: Vec<String>,
}

impl View for FileEntry {
    type V = EntryV;

    open spec fn view(&self) -> EntryV {
        EntryV { name: self.name@, data: self.data.deep_view() }
    }
}

impl DeepView for FileEntry {
    type V = EntryV;

    open spec fn deep_view(&self) -> EntryV {
        self.view()
    }
}

/// The files a directive may name, in lookup order: the first entry with
/// a matching name wins.
#[derive(Clone, Debug)]
pub struct FileTable {
    pub entries: Vec<FileEntry>,
}

impl View for FileTable {
    type V = Seq<EntryV>;

    open spec fn view(&self) -> Seq<EntryV> {
        self.entries.deep_view()
    }
}

/// Some entry of `t` is named `name`.
pub open spec fn table_has(t: Seq<EntryV>, name: Seq<char>) -> bool
    decreases t.len(),
{
    if t.len() == 0 {
        false
    } else if t[0].name == name {
        true
    } else {
        table_has(t.drop_first(), name)
    }
}

/// The raw lines of the first entry of `t` named `name`.
pub open spec fn table_get(t: Seq<EntryV>, name: Seq<char>) -> Seq<Seq<char>>
    decreases t.len(),
{
    if t.len() == 0 {
        Seq::empty()
    } else if t[0].name == name {
        t[0].data
    } else {
        table_get(t.drop_first(), name)
    }
}

/// The set of entry names of `t`.
pub open spec fn table_names(t: Seq<EntryV>) -> Set<Seq<char>>
    decreases t.len(),
{
    if t.len() == 0 {
        Set::empty()
    } else {
        table_names(t.drop_first()).insert(t[0].name)
    }
}

pub proof fn lemma_table_names(t: Seq<EntryV>)
    ensures
        table_names(t).finite(),
        forall|n: Seq<char>| table_names(t).contains(n) <==> table_has(t, n),
    decreases t.len(),
{
    if t.len() > 0 {
        lemma_table_names(t.drop_first());
        assert forall|n: Seq<char>| table_names(t).contains(n) <==> table_has(t, n) by {
            assert(table_names(t) == table_names(t.drop_first()).insert(t[0].name));
            assert(table_names(t.drop_first()).contains(n) <==> table_has(t.drop_first(), n));
        }
    }
}

/// The set of names held by a visiting list.
pub open spec fn name_set(s: Seq<Seq<char>>) -> Set<Seq<char>> {
    Set::new(|n: Seq<char>| s.contains(n))
}

pub proof fn lemma_name_set_push(s: Seq<Seq<char>>, x: Seq<char>)
    ensures
        name_set(s.push(x)) == name_set(s).insert(x),
{
    assert(name_set(s.push(x)) =~= name_set(s).insert(x)) by {
        assert forall|n: Seq<char>|
            name_set(s.push(x)).contains(n) <==> name_set(s).insert(x).contains(n) by {
            if s.push(x).contains(n) {
                let i = choose|i: int| 0 <= i < s.push(x).len() && s.push(x)[i] == n;
                if i < s.len() {
                    assert(s[i] == n);
                } else {
                    assert(n == x);
                }
            }
            if s.contains(n) {
                let i = choose|i: int| 0 <= i < s.len() && s[i] == n;
                assert(s.push(x)[i] == n);
            }
            if n == x {
                assert(s.push(x)[s.len() as int] == x);
            }
        }
    }
}

/// How many table entries are not on the visiting path yet: the measure
/// that bounds the splicing recursion.
pub open spec fn avail(t: Seq<EntryV>, visiting: Set<Seq<char>>) -> nat {
    table_names(t).difference(visiting).len()
}

pub proof fn lemma_avail_insert(t: Seq<EntryV>, visiting: Set<Seq<char>>, name: Seq<char>)
    requires
        table_has(t, name),
        !visiting.contains(name),
    ensures
        avail(t, visiting.insert(name)) < avail(t, visiting),
{
    lemma_table_names(t);
    let d = table_names(t).difference(visiting);
    let d2 = table_names(t).difference(visiting.insert(name));
    assert(d2 =~= d.remove(name));
    assert(d.contains(name));
    vstd::set::axiom_set_difference_finite(table_names(t), visiting);
    vstd::set::axiom_set_remove_len(d, name);
}

/// A directive line: it begins with the `%include` marker.
pub open spec fn is_directive(l: Seq<char>) -> bool {
    has_prefix(l, "%include"@)
}

/// Executable twin of [`is_directive`].
pub fn line_is_directive(s: &str) -> (b: bool)
    ensures
        b == is_directive(s@),
{
    str_has_prefix(s, "%include")
}

/// The spliced form of `lines` against table `t`, while the files named
/// in `visiting` are being resolved further up the chain.
///
/// A directive must have exactly one argument (else `Parse`); the named
/// file must not be on the visiting path (else `Cycle`) and must be in
/// the table (else `IO`); its lines are cleaned of comments and resolved
/// recursively, and the result replaces the directive line.
pub open spec fn resolve_lines(
    t: Seq<EntryV>,
    lines: Seq<Seq<char>>,
    visiting: Set<Seq<char>>,
) -> Result<Seq<Seq<char>>, KickstartError>
    decreases avail(t, visiting), lines.len(),
    via resolve_lines_decreases
{
    if lines.len() == 0 {
        Ok(Seq::empty())
    } else {
        let l = lines[0];
        let rest = lines.drop_first();
        if is_directive(l) {
            let parts = split_ws(l);
            if parts.len() != 2 {
                Err(KickstartError::Parse)
            } else if visiting.contains(parts[1]) {
                Err(KickstartError::Cycle)
            } else if !table_has(t, parts[1]) {
                Err(KickstartError::IO)
            } else {
                match resolve_lines(
                    t,
                    strip_comments(table_get(t, parts[1])),
                    visiting.insert(parts[1]),
                ) {
                    Err(e) => Err(e),
                    Ok(body) => match resolve_lines(t, rest, visiting) {
                        Err(e) => Err(e),
                        Ok(tail) => Ok(body + tail),
                    },
                }
            }
        } else {
            match resolve_lines(t, rest, visiting) {
                Err(e) => Err(e),
                Ok(tail) => Ok(seq![l] + tail),
            }
        }
    }
}

#[via_fn]
proof fn resolve_lines_decreases(t: Seq<EntryV>, lines: Seq<Seq<char>>, visiting: Set<Seq<char>>) {
    if lines.len() > 0 {
        let l = lines[0];
        if is_directive(l) {
            let parts = split_ws(l);
            if parts.len() == 2 && !visiting.contains(parts[1]) && table_has(t, parts[1]) {
                lemma_avail_insert(t, visiting, parts[1]);
            }
        }
    }
}

impl FileTable {
    /// An empty table.
    pub fn new() -> (r: FileTable)
        ensures
            r@ == Seq::<EntryV>::empty(),
    {
        let r = FileTable { entries: Vec::new() };
        proof {
            assert(r@ =~= Seq::<EntryV>::empty());
        }
        r
    }

    /// Appends one named file to the table.
    pub fn insert(&mut self, name: String, data: Vec<String>)
        ensures
            final(self)@ == old(self)@.push(EntryV { name: name@, data: data.deep_view() }),
    {
        let ghost entry_v = EntryV { name: name@, data: data.deep_view() };
        let ghost prev = self@;
        self.entries.push(FileEntry { name, data });
        proof {
            assert(self@ =~= prev.push(entry_v));
        }
    }

    /// Looks `name` up among the entries from position `i` on.
    fn find_from<'a>(&'a self, name: &str, i: usize) -> (r: Option<&'a Vec<String>>)
        requires
            i <= self.entries@.len(),
        ensures
            (r is Some) == table_has(self@.skip(i as int), name@),
            r matches Some(d) ==> d.deep_view() == table_get(self@.skip(i as int), name@),
        decreases self.entries@.len() - i,
    {
        if i == self.entries.len() {
            proof {
                assert(self@.skip(i as int) =~= Seq::<EntryV>::empty());
            }
            None
        } else {
            proof {
                assert(self@.skip(i as int)[0] == self@[i as int]);
                assert(self@.skip(i as int).drop_first() =~= self@.skip(i + 1 as int));
            }
            if str_eq(self.entries[i].name.as_str(), name) {
                Some(&self.entries[i].data)
            } else {
                self.find_from(name, i + 1)
            }
        }
    }

    /// The raw lines of the first entry named `name`, if any.
    pub fn find<'a>(&'a self, name: &str) -> (r: Option<&'a Vec<String>>)
        ensures
            (r is Some) == table_has(self@, name@),
            r matches Some(d) ==> d.deep_view() == table_get(self@, name@),
    {
        let r = self.find_from(name, 0);
        proof {
            assert(self@.skip(0) =~= self@);
        }
        r
    }
}

/// True when some line of `v` equals `name`.
fn visiting_contains(v: &Vec<String>, name: &str) -> (b: bool)
    ensures
        b == name_set(v.deep_view()).contains(name@),
{
    let n = v.len();
    let mut i: usize = 0;
    while i < n
        invariant
            i <= n,
            n == v@.len(),
            forall|k: int| 0 <= k < i ==> v.deep_view()[k] != name@,
        decreases n - i,
    {
        if str_eq(v[i].as_str(), name) {
            proof {
                assert(v.deep_view()[i as int] == name@);
            }
            return true;
        }
        i = i + 1;
    }
    proof {
        assert(!v.deep_view().contains(name@));
    }
    false
}

/// The view a resolution result denotes.
pub open spec fn lines_result_view(r: Result<Vec<String>, KickstartError>) -> Result<
    Seq<Seq<char>>,
    KickstartError,
> {
    match r {
        Ok(v) => Ok(v.deep_view()),
        Err(e) => Err(e),
    }
}

/// Resolves `lines` from position `i` on, against `t`, with the names in
/// `visiting` currently being resolved further up the chain.
fn resolve_from(t: &FileTable, lines: &Vec<String>, i: usize, visiting: &Vec<String>) -> (r: Result<
    Vec<String>,
    KickstartError,
>)
    requires
        i <= lines@.len(),
    ensures
        lines_result_view(r) == resolve_lines(
            t@,
            lines.deep_view().skip(i as int),
            name_set(visiting.deep_view()),
        ),
    decreases avail(t@, name_set(visiting.deep_view())), lines@.len() - i,
{
    let ghost tail = lines.deep_view().skip(i as int);
    let ghost vset = name_set(visiting.deep_view());
    let n = lines.len();
    if i == n {
        let r: Vec<String> = Vec::new();
        proof {
            assert(tail =~= Seq::<Seq<char>>::empty());
            assert(r.deep_view() =~= Seq::<Seq<char>>::empty());
        }
        Ok(r)
    } else {
        proof {
            assert(tail[0] == lines.deep_view()[i as int]);
            assert(tail.drop_first() =~= lines.deep_view().skip(i + 1 as int));
        }
        let line = &lines[i];
        if line_is_directive(line.as_str()) {
            let parts = split_whitespace(line.as_str());
            proof {
                assert(parts.deep_view().len() == parts@.len());
            }
            if parts.len() != 2 {
                Err(KickstartError::Parse)
            } else {
                let name = &parts[1];
                proof {
                    assert(parts.deep_view()[1] == parts@[1]@);
                }
                if visiting_contains(visiting, name.as_str()) {
                    Err(KickstartError::Cycle)
                } else {
                    match t.find(name.as_str()) {
                        None => Err(KickstartError::IO),
                        Some(data) => {
                            let cleaned = strip_lines(data);
                            let mut v2 = clone_lines(visiting);
                            v2.push(name.clone());
                            proof {
                                assert(v2.deep_view() =~= visiting.deep_view().push(name@));
                                lemma_name_set_push(visiting.deep_view(), name@);
                                lemma_avail_insert(t@, vset, name@);
                                assert(cleaned.deep_view().skip(0) =~= cleaned.deep_view());
                            }
                            match resolve_from(t, &cleaned, 0, &v2) {
                                Err(e) => Err(e),
                                Ok(mut body) => match resolve_from(t, lines, i + 1, visiting) {
                                    Err(e) => Err(e),
                                    Ok(mut rest) => {
                                        let ghost body_v = body.deep_view();
                                        let ghost rest_v = rest.deep_view();
                                        body.append(&mut rest);
                                        proof {
                                            assert(body.deep_view() =~= body_v + rest_v);
                                        }
                                        Ok(body)
                                    },
                                },
                            }
                        },
                    }
                }
            }
        } else {
            match resolve_from(t, lines, i + 1, visiting) {
                Err(e) => Err(e),
                Ok(mut rest) => {
                    let ghost rest_v = rest.deep_view();
                    let mut out: Vec<String> = Vec::new();
                    out.push(line.clone());
                    out.append(&mut rest);
                    proof {
                        assert(out.deep_view() =~= seq![tail[0]] + rest_v);
                    }
                    Ok(out)
                },
            }
        }
    }
}

impl File {
    /// Splices every directive of this file's content, in place, against
    /// `table`; on failure the file is left unchanged.
    pub fn resolve(&mut self, table: &FileTable) -> (r: Result<(), KickstartError>)
        ensures
            final(self)@.path == old(self)@.path,
            (r is Ok) == (resolve_lines(table@, old(self)@.data, Set::empty()) is Ok),
            r is Ok ==> resolve_lines(table@, old(self)@.data, Set::empty()) == Ok::<
                _,
                KickstartError,
            >(final(self)@.data),
            r matches Err(e) ==> resolve_lines(table@, old(self)@.data, Set::empty()) == Err::<
                Seq<Seq<char>>,
                _,
            >(e) && *final(self) == *old(self),
    {
        let visiting: Vec<String> = Vec::new();
        proof {
            assert(name_set(visiting.deep_view()) =~= Set::<Seq<char>>::empty());
            assert(self.data.deep_view().skip(0) =~= self.data.deep_view());
        }
        match resolve_from(table, &self.data, 0, &visiting) {
            Ok(resolved) => {
                self.data = resolved;
                Ok(())
            },
            Err(e) => Err(e),
        }
    }
}

/// LAW: resolution is complete — a successful result contains no
/// directive line anywhere.
pub proof fn lemma_resolved_free_of_directives(
    t: Seq<EntryV>,
    lines: Seq<Seq<char>>,
    visiting: Set<Seq<char>>,
    out: Seq<Seq<char>>,
)
    requires
        resolve_lines(t, lines, visiting) == Ok::<_, KickstartError>(out),
    ensures
        forall|i: int| 0 <= i < out.len() ==> !is_directive(out[i]),
    decreases avail(t, visiting), lines.len(),
{
    if lines.len() == 0 {
    } else {
        let l = lines[0];
        let rest = lines.drop_first();
        if is_directive(l) {
            let parts = split_ws(l);
            let inner = resolve_lines(
                t,
                strip_comments(table_get(t, parts[1])),
                visiting.insert(parts[1]),
            );
            lemma_avail_insert(t, visiting, parts[1]);
            let body = inner->Ok_0;
            let tail = resolve_lines(t, rest, visiting)->Ok_0;
            lemma_resolved_free_of_directives(
                t,
                strip_comments(table_get(t, parts[1])),
                visiting.insert(parts[1]),
                body,
            );
            lemma_resolved_free_of_directives(t, rest, visiting, tail);
            assert(out =~= body + tail);
            assert(forall|i: int|
                0 <= i < out.len() ==> out[i] == if i < body.len() {
                    body[i]
                } else {
                    tail[i - body.len()]
                });
        } else {
            let tail = resolve_lines(t, rest, visiting)->Ok_0;
            lemma_resolved_free_of_directives(t, rest, visiting, tail);
            assert(out =~= seq![l] + tail);
            assert(forall|i: int| 1 <= i < out.len() ==> out[i] == tail[i - 1]);
        }
    }
}

/// LAW: splicing preserves the surrounding line order: resolving
/// `[a, d, c]`, where `d` is a directive whose target resolves to `x`,
/// yields `[a] + x + [c]`.
pub proof fn lemma_splice_preserves_order(
    t: Seq<EntryV>,
    a: Seq<char>,
    d: Seq<char>,
    c: Seq<char>,
    name: Seq<char>,
    x: Seq<Seq<char>>,
    visiting: Set<Seq<char>>,
)
    requires
        !is_directive(a),
        !is_directive(c),
        is_directive(d),
        split_ws(d).len() == 2,
        split_ws(d)[1] == name,
        !visiting.contains(name),
        table_has(t, name),
        resolve_lines(t, strip_comments(table_get(t, name)), visiting.insert(name)) == Ok::<
            _,
            KickstartError,
        >(x),
    ensures
        resolve_lines(t, seq![a, d, c], visiting) == Ok::<_, KickstartError>(
            seq![a] + x + seq![c],
        ),
{
    let full = seq![a, d, c];
    assert(full[0] == a);
    assert(full.drop_first() =~= seq![d, c]);
    assert(seq![d, c][0] == d);
    assert(seq![d, c].drop_first() =~= seq![c]);
    assert(seq![c][0] == c);
    assert(seq![c].drop_first() =~= Seq::<Seq<char>>::empty());
    assert(resolve_lines(t, Seq::empty(), visiting) == Ok::<_, KickstartError>(
        Seq::<Seq<char>>::empty(),
    ));
    assert(resolve_lines(t, seq![c], visiting) == Ok::<_, KickstartError>(
        seq![c] + Seq::<Seq<char>>::empty(),
    ));
    assert(seq![c] + Seq::<Seq<char>>::empty() =~= seq![c]);
    assert(resolve_lines(t, seq![d, c], visiting) == Ok::<_, KickstartError>(x + seq![c]));
    assert(resolve_lines(t, full, visiting) == Ok::<_, KickstartError>(seq![a] + (x + seq![c])));
    assert(seq![a] + (x + seq![c]) =~= seq![a] + x + seq![c]);
}

/// LAW: two files that name each other are rejected with a cycle error,
/// not resolved forever: resolving a file whose cleaned content is the
/// single directive `la` naming `b`, where `b`'s cleaned content is the
/// single directive naming `a`, fails with `Cycle`.
pub proof fn lemma_mutual_inclusion_cycles(
    t: Seq<EntryV>,
    la: Seq<char>,
    lb: Seq<char>,
    a_name: Seq<char>,
    b_name: Seq<char>,
)
    requires
        a_name != b_name,
        table_has(t, a_name),
        table_has(t, b_name),
        strip_comments(table_get(t, a_name)) == seq![la],
        strip_comments(table_get(t, b_name)) == seq![lb],
        is_directive(la),
        split_ws(la).len() == 2,
        split_ws(la)[1] == b_name,
        is_directive(lb),
        split_ws(lb).len() == 2,
        split_ws(lb)[1] == a_name,
    ensures
        resolve_lines(t, seq![la], Set::empty()) == Err::<Seq<Seq<char>>, _>(
            KickstartError::Cycle,
        ),
{
    let v0 = Set::<Seq<char>>::empty();
    let v1 = v0.insert(b_name);
    let v2 = v1.insert(a_name);
    assert(seq![la][0] == la);
    assert(seq![lb][0] == lb);
    assert(v2.contains(b_name));
    assert(resolve_lines(t, seq![la], v2) == Err::<Seq<Seq<char>>, _>(KickstartError::Cycle));
    assert(!v1.contains(a_name));
    assert(resolve_lines(t, seq![lb], v1) == Err::<Seq<Seq<char>>, _>(KickstartError::Cycle));
    assert(!v0.contains(b_name));
    assert(resolve_lines(t, seq![la], v0) == Err::<Seq<Seq<char>>, _>(KickstartError::Cycle));
}

} // verus!
