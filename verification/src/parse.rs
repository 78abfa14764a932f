//! Section parsing: a two-state line classifier over the flattened
//! document.  Outside any section, a `%`-marked line opens a named
//! section and other non-blank lines feed the synthetic command section;
//! inside a section, lines are kept verbatim until the closing `%end`.
//! Structural faults — a stray `%end`, a section started inside another,
//! a nameless start, a section never closed — fail with a parse error.

use vstd::prelude::*;

use crate::error::KickstartError;
use crate::merge::merge_sections;
use crate::merge::spec_merge;
use crate::source::File;
use crate::source::FileV;
use crate::text::first_char_is;
use crate::text::first_is;
use crate::text::split_whitespace;
use crate::text::split_ws;
use crate::text::str_eq;
use crate::text::token_len;

verus! {

/// Mathematical image of a [`Section`].
#[verifier::ext_equal]
pub ghost struct SectionV {
    pub name: Seq<char>,
    pub args: Seq<Seq<char>>,
    pub data: Seq<Seq<char>>,
}

/// One named block of the document: its name (without the `%` marker),
/// the arguments of its opening line, and its body lines.
#[derive(Clone, Debug)]
pub struct Section {
    pub name: String,
    pub data: Vec<String>,
    pub args: Vec<String>,
}

impl View for Section {
    type V = SectionV;

    open spec fn view(&self) -> SectionV {
        SectionV { name: self.name@, args: self.args.deep_view(), data: self.data.deep_view() }
    }
}

impl DeepView for Section {
    type V = SectionV;

    open spec fn deep_view(&self) -> SectionV {
        self.view()
    }
}

/// Mathematical image of a [`Tree`].
#[verifier::ext_equal]
pub ghost struct TreeV {
    pub file: FileV,
    pub sections: Seq<SectionV>,
}

/// The parsed document: the flattened file and its sections, in order.
#[derive(Clone, Debug)]
pub struct Tree {
    pub file: File,
    pub sections: Vec<Section>,
}

impl View for Tree {
    type V = TreeV;

    open spec fn view(&self) -> TreeV {
        TreeV { file: self.file@, sections: self.sections.deep_view() }
    }
}

/// A section marker line: its first character is `%`.
pub open spec fn is_marker(l: Seq<char>) -> bool {
    first_is(l, '%')
}

/// The closing marker, exactly.
pub open spec fn is_end(l: Seq<char>) -> bool {
    l == "%end"@
}

/// A section-opening line is well formed when its first token carries a
/// name after the `%` marker.
pub open spec fn header_ok(l: Seq<char>) -> bool {
    split_ws(l).len() >= 1 && split_ws(l)[0].len() >= 2
}

/// The section a well-formed opening line declares: the first token
/// without its marker is the name, the remaining tokens are arguments.
pub open spec fn header_section(l: Seq<char>) -> SectionV {
    let parts = split_ws(l);
    SectionV {
        name: parts[0].subrange(1, parts[0].len() as int),
        args: parts.drop_first(),
        data: Seq::empty(),
    }
}

/// A section with nothing in it.
pub open spec fn empty_section() -> SectionV {
    SectionV { name: Seq::empty(), args: Seq::empty(), data: Seq::empty() }
}

/// The synthetic command section over the accumulated top-level lines.
pub open spec fn command_of(cmd: Seq<Seq<char>>) -> SectionV {
    SectionV { name: "command"@, args: Seq::empty(), data: cmd }
}

/// The classifier's running state: which mode it is in, the section
/// being filled, the command lines seen, and the sections closed so far.
#[verifier::ext_equal]
pub ghost struct ParseAcc {
    pub inside: bool,
    pub cur: SectionV,
    pub cmd: Seq<Seq<char>>,
    pub out: Seq<SectionV>,
}

/// The state before any line is read.
pub open spec fn init_acc() -> ParseAcc {
    ParseAcc { inside: false, cur: empty_section(), cmd: Seq::empty(), out: Seq::empty() }
}

/// One transition of the classifier on line `l`.
pub open spec fn parse_step(acc: ParseAcc, l: Seq<char>) -> Result<ParseAcc, KickstartError> {
    if acc.inside {
        if is_end(l) {
            Ok(ParseAcc { inside: false, cur: empty_section(), cmd: acc.cmd, out: acc.out.push(acc.cur) })
        } else if is_marker(l) {
            // a new section starts while one is still open
            Err(KickstartError::Parse)
        } else {
            Ok(ParseAcc { cur: SectionV { data: acc.cur.data.push(l), ..acc.cur }, ..acc })
        }
    } else {
        if is_marker(l) {
            if is_end(l) {
                // an end marker with no open section
                Err(KickstartError::Parse)
            } else if !header_ok(l) {
                // a marker with no name after it
                Err(KickstartError::Parse)
            } else {
                Ok(ParseAcc { inside: true, cur: header_section(l), ..acc })
            }
        } else if l.len() == 0 {
            // blank lines outside any section are dropped
            Ok(acc)
        } else {
            Ok(ParseAcc { cmd: acc.cmd.push(l), ..acc })
        }
    }
}

/// The classifier run over all of `lines`, from state `acc`.
pub open spec fn parse_fold(acc: ParseAcc, lines: Seq<Seq<char>>) -> Result<ParseAcc, KickstartError>
    decreases lines.len(),
{
    if lines.len() == 0 {
        Ok(acc)
    } else {
        match parse_step(acc, lines[0]) {
            Err(e) => Err(e),
            Ok(a) => parse_fold(a, lines.drop_first()),
        }
    }
}

/// The sections of `lines`: the closed sections in order of their
/// opening markers, with the synthetic command section appended last.
pub open spec fn spec_parse(lines: Seq<Seq<char>>) -> Result<Seq<SectionV>, KickstartError> {
    match parse_fold(init_acc(), lines) {
        Err(e) => Err(e),
        Ok(acc) => if acc.inside {
            // end of input with a section still open
            Err(KickstartError::Parse)
        } else {
            Ok(acc.out.push(command_of(acc.cmd)))
        },
    }
}

/// Structural well-formedness of a document, entered in mode `inside`:
/// every opened section is named and closed, no `%end` is stray, and no
/// section opens inside another.
pub open spec fn wf_from(lines: Seq<Seq<char>>, inside: bool) -> bool
    decreases lines.len(),
{
    if lines.len() == 0 {
        !inside
    } else {
        let l = lines[0];
        let rest = lines.drop_first();
        if inside {
            if is_end(l) {
                wf_from(rest, false)
            } else if is_marker(l) {
                false
            } else {
                wf_from(rest, true)
            }
        } else {
            if is_marker(l) {
                if is_end(l) {
                    false
                } else if !header_ok(l) {
                    false
                } else {
                    wf_from(rest, true)
                }
            } else {
                wf_from(rest, false)
            }
        }
    }
}

/// A whole document is well formed when the classifier, started outside
/// any section, ends outside any section.
pub open spec fn wf_lines(lines: Seq<Seq<char>>) -> bool {
    wf_from(lines, false)
}

/// LAW: the classifier succeeds exactly on well-formed documents.
pub proof fn lemma_fold_ok_iff_wf(acc: ParseAcc, lines: Seq<Seq<char>>)
    ensures
        wf_from(lines, acc.inside) <==> (parse_fold(acc, lines) matches Ok(a) && !a.inside),
    decreases lines.len(),
{
    if lines.len() > 0 {
        let l = lines[0];
        let rest = lines.drop_first();
        match parse_step(acc, l) {
            Err(_) => {},
            Ok(a1) => {
                lemma_fold_ok_iff_wf(a1, rest);
            },
        }
    }
}

/// Every failure of the classifier is a parse error.
pub proof fn lemma_fold_err_is_parse(acc: ParseAcc, lines: Seq<Seq<char>>)
    ensures
        parse_fold(acc, lines) is Err ==> parse_fold(acc, lines) == Err::<ParseAcc, _>(
            KickstartError::Parse,
        ),
    decreases lines.len(),
{
    if lines.len() > 0 {
        match parse_step(acc, lines[0]) {
            Err(_) => {},
            Ok(a1) => {
                lemma_fold_err_is_parse(a1, lines.drop_first());
            },
        }
    }
}

/// Every section of `secs` carries a non-empty name.
pub open spec fn all_named(secs: Seq<SectionV>) -> bool {
    forall|i: int| 0 <= i < secs.len() ==> secs[i].name.len() > 0
}

proof fn lemma_fold_sections_named(acc: ParseAcc, lines: Seq<Seq<char>>)
    requires
        all_named(acc.out),
        acc.inside ==> acc.cur.name.len() > 0,
    ensures
        parse_fold(acc, lines) matches Ok(a) ==> all_named(a.out) && (a.inside ==> a.cur.name.len()
            > 0),
    decreases lines.len(),
{
    if lines.len() > 0 {
        let l = lines[0];
        match parse_step(acc, l) {
            Err(_) => {},
            Ok(a1) => {
                if acc.inside && is_end(l) {
                    assert(all_named(a1.out)) by {
                        assert(forall|i: int|
                            0 <= i < acc.out.len() ==> a1.out[i] == acc.out[i]);
                        assert(a1.out[acc.out.len() as int] == acc.cur);
                    }
                }
                if !acc.inside && is_marker(l) && !is_end(l) && header_ok(l) {
                    assert(a1.cur.name.len() > 0);
                }
                lemma_fold_sections_named(a1, lines.drop_first());
            },
        }
    }
}

/// LAW: every section of a parsed document carries a non-empty name.
pub proof fn lemma_parse_sections_named(lines: Seq<Seq<char>>)
    ensures
        spec_parse(lines) matches Ok(secs) ==> all_named(secs),
{
    lemma_fold_sections_named(init_acc(), lines);
    if spec_parse(lines) is Ok {
        let acc = parse_fold(init_acc(), lines)->Ok_0;
        let secs = acc.out.push(command_of(acc.cmd));
        assert(all_named(secs)) by {
            reveal_strlit("command");
            assert(forall|i: int| 0 <= i < acc.out.len() ==> secs[i] == acc.out[i]);
            assert(secs[acc.out.len() as int] == command_of(acc.cmd));
            assert(command_of(acc.cmd).name.len() == 7);
        }
    }
}

/// LAW: parsing always yields the synthetic command section, last in
/// the sequence and without arguments.
pub proof fn lemma_command_section_last(lines: Seq<Seq<char>>)
    ensures
        spec_parse(lines) matches Ok(secs) ==> secs.len() >= 1 && secs.last().name == "command"@
            && secs.last().args.len() == 0,
{
}

/// Running the classifier over two pieces in turn is running it over
/// their concatenation.
proof fn lemma_fold_append(acc: ParseAcc, s1: Seq<Seq<char>>, s2: Seq<Seq<char>>)
    ensures
        parse_fold(acc, s1 + s2) == match parse_fold(acc, s1) {
            Err(e) => Err(e),
            Ok(a) => parse_fold(a, s2),
        },
    decreases s1.len(),
{
    if s1.len() == 0 {
        assert(s1 + s2 =~= s2);
    } else {
        assert((s1 + s2)[0] == s1[0]);
        assert((s1 + s2).drop_first() =~= s1.drop_first() + s2);
        match parse_step(acc, s1[0]) {
            Err(_) => {},
            Ok(a1) => {
                lemma_fold_append(a1, s1.drop_first(), s2);
            },
        }
    }
}

/// While no line is the closing marker, the classifier never leaves a
/// section it is in.
proof fn lemma_fold_stays_inside(acc: ParseAcc, lines: Seq<Seq<char>>)
    requires
        acc.inside,
        forall|j: int| 0 <= j < lines.len() ==> !is_end(lines[j]),
    ensures
        parse_fold(acc, lines) matches Ok(a) ==> a.inside,
    decreases lines.len(),
{
    if lines.len() > 0 {
        assert(forall|j: int|
            0 <= j < lines.drop_first().len() ==> lines.drop_first()[j] == lines[j + 1]);
        match parse_step(acc, lines[0]) {
            Err(_) => {},
            Ok(a1) => {
                assert(a1.inside);
                lemma_fold_stays_inside(a1, lines.drop_first());
            },
        }
    }
}

/// LAW: an unterminated section is rejected: once a section opens at
/// position `i` of a document whose prefix parsed cleanly, and no later
/// line is the closing marker, the whole document fails with a parse
/// error.
pub proof fn lemma_unterminated_fails(lines: Seq<Seq<char>>, i: int)
    requires
        0 <= i < lines.len(),
        parse_fold(init_acc(), lines.take(i)) matches Ok(a) && !a.inside,
        is_marker(lines[i]),
        !is_end(lines[i]),
        header_ok(lines[i]),
        forall|j: int| i < j < lines.len() ==> !is_end(lines[j]),
    ensures
        spec_parse(lines) == Err::<Seq<SectionV>, _>(KickstartError::Parse),
{
    let pre = lines.take(i);
    let post = lines.skip(i);
    assert(pre + post =~= lines);
    lemma_fold_append(init_acc(), pre, post);
    let a = parse_fold(init_acc(), pre)->Ok_0;
    assert(post[0] == lines[i]);
    assert(post.drop_first() =~= lines.skip(i + 1));
    let a1 = parse_step(a, lines[i])->Ok_0;
    assert(a1.inside);
    assert(forall|j: int|
        0 <= j < lines.skip(i + 1).len() ==> #[trigger] lines.skip(i + 1)[j] == lines[j + i
            + 1]);
    lemma_fold_stays_inside(a1, lines.skip(i + 1));
    lemma_fold_err_is_parse(a1, lines.skip(i + 1));
}

/// The non-blank lines of `ls`, in order.
pub open spec fn nonblank(ls: Seq<Seq<char>>) -> Seq<Seq<char>>
    decreases ls.len(),
{
    if ls.len() == 0 {
        Seq::empty()
    } else if ls[0].len() == 0 {
        nonblank(ls.drop_first())
    } else {
        seq![ls[0]] + nonblank(ls.drop_first())
    }
}

proof fn lemma_fold_command_only(acc: ParseAcc, lines: Seq<Seq<char>>)
    requires
        !acc.inside,
        forall|i: int| 0 <= i < lines.len() ==> !is_marker(lines[i]),
    ensures
        parse_fold(acc, lines) == Ok::<_, KickstartError>(
            ParseAcc { cmd: acc.cmd + nonblank(lines), ..acc },
        ),
    decreases lines.len(),
{
    if lines.len() == 0 {
        assert(acc.cmd + nonblank(lines) =~= acc.cmd);
        assert(ParseAcc { cmd: acc.cmd + nonblank(lines), ..acc } == acc);
    } else {
        let l = lines[0];
        let rest = lines.drop_first();
        assert(forall|i: int| 0 <= i < rest.len() ==> rest[i] == lines[i + 1]);
        if l.len() == 0 {
            lemma_fold_command_only(acc, rest);
            assert(acc.cmd + nonblank(rest) =~= acc.cmd + nonblank(lines));
        } else {
            let a1 = ParseAcc { cmd: acc.cmd.push(l), ..acc };
            lemma_fold_command_only(a1, rest);
            assert(acc.cmd.push(l) + nonblank(rest) =~= acc.cmd + (seq![l] + nonblank(rest)));
        }
    }
}

/// LAW: a document of only command-area lines parses to exactly one
/// section, the command section, whose body is the non-blank input
/// lines in their original order.
pub proof fn lemma_command_only_round_trip(lines: Seq<Seq<char>>)
    requires
        forall|i: int| 0 <= i < lines.len() ==> !is_marker(lines[i]),
    ensures
        spec_parse(lines) == Ok::<_, KickstartError>(seq![command_of(nonblank(lines))]),
{
    lemma_fold_command_only(init_acc(), lines);
    assert(init_acc().cmd + nonblank(lines) =~= nonblank(lines));
    let acc = ParseAcc { cmd: nonblank(lines), ..init_acc() };
    assert(parse_fold(init_acc(), lines) == Ok::<_, KickstartError>(acc));
    assert(acc.out.push(command_of(acc.cmd)) =~= seq![command_of(nonblank(lines))]);
}

/// A copy of a section, view for view.
pub(crate) fn clone_section(s: &Section) -> (r: Section)
    ensures
        r@ == s@,
{
    let r = Section {
        name: s.name.clone(),
        data: crate::text::clone_lines(&s.data),
        args: crate::text::clone_lines(&s.args),
    };
    proof {
        assert(r@.args =~= s@.args);
        assert(r@.data =~= s@.data);
    }
    r
}

impl Tree {
    /// Wraps a flattened file, with no sections parsed yet.
    pub fn from_file(file: File) -> (r: Result<Tree, KickstartError>)
        ensures
            r matches Ok(t) && t@.file == file@ && t@.sections == Seq::<SectionV>::empty(),
    {
        let t = Tree { file, sections: Vec::new() };
        proof {
            assert(t@.sections =~= Seq::<SectionV>::empty());
        }
        Ok(t)
    }

    /// Classifies every line of the flattened file into sections, then
    /// merges same-named sections.  Fails with a parse error exactly on
    /// documents that are not well formed.
    #[verifier::loop_isolation(false)]
    pub fn parse(self) -> (r: Result<Tree, KickstartError>)
        ensures
            (r is Ok) == wf_lines(self@.file.data),
            r matches Ok(t) ==> spec_parse(self@.file.data) matches Ok(secs) && t@.sections
                == spec_merge(secs) && t@.file == self@.file,
            r matches Err(e) ==> e == KickstartError::Parse && spec_parse(self@.file.data)
                == Err::<Seq<SectionV>, _>(KickstartError::Parse),
    {
        let Tree { file, sections: _ } = self;
        let ghost all = file@.data;
        proof {
            lemma_fold_ok_iff_wf(init_acc(), all);
            assert(all.skip(0) =~= all);
        }
        let mut in_section = false;
        let mut cur = Section { name: String::new(), data: Vec::new(), args: Vec::new() };
        let mut cmd: Vec<String> = Vec::new();
        let mut out: Vec<Section> = Vec::new();
        proof {
            assert(cur@ =~= empty_section());
            assert(cmd.deep_view() =~= Seq::<Seq<char>>::empty());
            assert(out.deep_view() =~= Seq::<SectionV>::empty());
        }
        let n = file.data.len();
        let mut i: usize = 0;
        while i < n
            invariant
                i <= n,
                n == file.data@.len(),
                all == file.data.deep_view(),
                parse_fold(
                    ParseAcc {
                        inside: in_section,
                        cur: cur@,
                        cmd: cmd.deep_view(),
                        out: out.deep_view(),
                    },
                    all.skip(i as int),
                ) == parse_fold(init_acc(), all),
            decreases n - i,
        {
            let ghost acc0 = ParseAcc {
                inside: in_section,
                cur: cur@,
                cmd: cmd.deep_view(),
                out: out.deep_view(),
            };
            let line = &file.data[i];
            proof {
                assert(all.skip(i as int)[0] == line@);
                assert(all.skip(i as int).drop_first() =~= all.skip(i + 1 as int));
            }
            if in_section {
                if str_eq(line.as_str(), "%end") {
                    in_section = false;
                    let closed = cur;
                    cur = Section { name: String::new(), data: Vec::new(), args: Vec::new() };
                    let ghost out0 = out.deep_view();
                    out.push(closed);
                    proof {
                        assert(cur@ =~= empty_section());
                        assert(out.deep_view() =~= out0.push(acc0.cur));
                    }
                } else if first_char_is(line.as_str(), '%') {
                    proof {
                        assert(parse_fold(acc0, all.skip(i as int)) == Err::<ParseAcc, _>(
                            KickstartError::Parse,
                        ));
                    }
                    return Err(KickstartError::Parse);
                } else {
                    let ghost cur0 = cur@;
                    cur.data.push(line.clone());
                    proof {
                        assert(cur@.data =~= cur0.data.push(line@));
                        assert(cur@ == SectionV { data: cur0.data.push(line@), ..cur0 });
                    }
                }
            } else {
                if first_char_is(line.as_str(), '%') {
                    if str_eq(line.as_str(), "%end") {
                        proof {
                            assert(parse_fold(acc0, all.skip(i as int)) == Err::<ParseAcc, _>(
                                KickstartError::Parse,
                            ));
                        }
                        return Err(KickstartError::Parse);
                    }
                    let parts = split_whitespace(line.as_str());
                    proof {
                        assert(!crate::text::is_ws('%'));
                        assert(split_ws(line@).len() >= 1 && split_ws(line@)[0] == line@.take(
                            token_len(line@) as int,
                        ));
                        assert(parts.deep_view()[0] == parts@[0]@);
                        assert(parts@.len() == parts.deep_view().len());
                    }
                    let head = &parts[0];
                    let head_len = head.as_str().unicode_len();
                    if head_len < 2 {
                        proof {
                            assert(!header_ok(line@));
                            assert(parse_fold(acc0, all.skip(i as int)) == Err::<ParseAcc, _>(
                                KickstartError::Parse,
                            ));
                        }
                        return Err(KickstartError::Parse);
                    }
                    let name = String::from_str(head.as_str().substring_char(1, head_len));
                    let mut args: Vec<String> = Vec::new();
                    let mut k: usize = 1;
                    while k < parts.len()
                        invariant
                            1 <= k <= parts@.len(),
                            args.deep_view() == parts.deep_view().subrange(1, k as int),
                        decreases parts@.len() - k,
                    {
                        let ghost args0 = args.deep_view();
                        args.push(parts[k].clone());
                        proof {
                            assert(args.deep_view() =~= args0.push(parts.deep_view()[k as int]));
                            assert(args.deep_view() =~= parts.deep_view().subrange(
                                1,
                                k + 1 as int,
                            ));
                        }
                        k = k + 1;
                    }
                    in_section = true;
                    cur = Section { name, data: Vec::new(), args };
                    proof {
                        assert(cur@.args =~= split_ws(line@).drop_first());
                        assert(cur@.data =~= Seq::<Seq<char>>::empty());
                        assert(cur@ == header_section(line@));
                    }
                } else if line.as_str().unicode_len() == 0 {
                    // blank line outside any section: dropped
                } else {
                    let ghost cmd0 = cmd.deep_view();
                    cmd.push(line.clone());
                    proof {
                        assert(cmd.deep_view() =~= cmd0.push(line@));
                    }
                }
            }
            i = i + 1;
        }
        let ghost acc_end = ParseAcc {
            inside: in_section,
            cur: cur@,
            cmd: cmd.deep_view(),
            out: out.deep_view(),
        };
        proof {
            assert(all.skip(n as int) =~= Seq::<Seq<char>>::empty());
            assert(parse_fold(acc_end, all.skip(n as int)) == Ok::<_, KickstartError>(acc_end));
            assert(parse_fold(init_acc(), all) == Ok::<_, KickstartError>(acc_end));
        }
        if in_section {
            proof {
                assert(spec_parse(all) == Err::<Seq<SectionV>, _>(KickstartError::Parse));
            }
            return Err(KickstartError::Parse);
        }
        let command = Section { name: String::from_str("command"), data: cmd, args: Vec::new() };
        let ghost out0 = out.deep_view();
        let ghost cmd_v = command@;
        out.push(command);
        proof {
            assert(cmd_v.args =~= Seq::<Seq<char>>::empty());
            assert(cmd_v =~= command_of(acc_end.cmd));
            assert(out.deep_view() =~= out0.push(cmd_v));
            assert(spec_parse(all) == Ok::<_, KickstartError>(acc_end.out.push(command_of(
                acc_end.cmd,
            ))));
            assert(out.deep_view() == acc_end.out.push(command_of(acc_end.cmd)));
        }
        let merged = merge_sections(out);
        Ok(Tree { file, sections: merged })
    }
}

} // verus!
