//! Merging of same-named sections.  The chosen policy: the first
//! occurrence of a name keeps its place; every later section with the
//! same name is folded into it by appending its arguments and its body
//! lines, in document order, so no data is dropped.

use vstd::prelude::*;

use crate::parse::Section;
use crate::parse::SectionV;
use crate::parse::Tree;
use crate::parse::clone_section;
use crate::text::str_eq;

verus! {

/// Position of the first section of `out` named `name`, or `-1`.
pub open spec fn find_named(out: Seq<SectionV>, name: Seq<char>) -> int
    decreases out.len(),
{
    if out.len() == 0 {
        -1
    } else if out[0].name == name {
        0
    } else if find_named(out.drop_first(), name) == -1 {
        -1
    } else {
        find_named(out.drop_first(), name) + 1
    }
}

/// Some section of `secs` is named `name`.
pub open spec fn has_named(secs: Seq<SectionV>, name: Seq<char>) -> bool {
    exists|i: int| 0 <= i < secs.len() && secs[i].name == name
}

pub proof fn lemma_find_named(out: Seq<SectionV>, name: Seq<char>)
    ensures
        -1 <= find_named(out, name) < out.len(),
        find_named(out, name) == -1 <==> !has_named(out, name),
        find_named(out, name) >= 0 ==> out[find_named(out, name)].name == name,
    decreases out.len(),
{
    if out.len() == 0 {
        assert(!has_named(out, name));
    } else {
        lemma_find_named(out.drop_first(), name);
        let rest = out.drop_first();
        if out[0].name == name {
        } else if find_named(rest, name) == -1 {
            assert forall|i: int| 0 <= i < out.len() implies out[i].name != name by {
                if i > 0 {
                    assert(rest[i - 1] == out[i]);
                    assert(!has_named(rest, name));
                }
            }
        } else {
            assert(out[find_named(out, name)] == rest[find_named(rest, name)]);
            assert(out[find_named(out, name)].name == name);
            assert(has_named(out, name));
        }
        if has_named(out, name) && out[0].name != name {
            let w = choose|i: int| 0 <= i < out.len() && out[i].name == name;
            assert(w > 0);
            assert(rest[w - 1] == out[w]);
            assert(has_named(rest, name));
        }
    }
}

/// The first section absorbs the later one: arguments and body lines
/// are appended in order.
pub open spec fn combine(a: SectionV, b: SectionV) -> SectionV {
    SectionV { name: a.name, args: a.args + b.args, data: a.data + b.data }
}

/// Folds one more section into the output: appended if its name is new,
/// absorbed into the first section of that name otherwise.
pub open spec fn merge_one(out: Seq<SectionV>, s: SectionV) -> Seq<SectionV> {
    let j = find_named(out, s.name);
    if j == -1 {
        out.push(s)
    } else {
        out.update(j, combine(out[j], s))
    }
}

/// The whole merge, threading the output through every input section.
pub open spec fn merge_fold(out: Seq<SectionV>, secs: Seq<SectionV>) -> Seq<SectionV>
    decreases secs.len(),
{
    if secs.len() == 0 {
        out
    } else {
        merge_fold(merge_one(out, secs[0]), secs.drop_first())
    }
}

/// The merged form of `secs`.
pub open spec fn spec_merge(secs: Seq<SectionV>) -> Seq<SectionV> {
    merge_fold(Seq::empty(), secs)
}

/// No two sections of `secs` share a name.
pub open spec fn unique_names(secs: Seq<SectionV>) -> bool {
    forall|i: int, j: int| 0 <= i < j < secs.len() ==> secs[i].name != secs[j].name
}

proof fn lemma_merge_one_unique(out: Seq<SectionV>, s: SectionV)
    requires
        unique_names(out),
    ensures
        unique_names(merge_one(out, s)),
{
    lemma_find_named(out, s.name);
    let j = find_named(out, s.name);
    if j == -1 {
        let r = out.push(s);
        assert forall|a: int, b: int| 0 <= a < b < r.len() implies r[a].name != r[b].name by {
            if b < out.len() {
                assert(r[a] == out[a] && r[b] == out[b]);
            } else {
                assert(r[b] == s);
                assert(r[a] == out[a]);
                assert(!has_named(out, s.name));
            }
        }
    } else {
        let r = out.update(j, combine(out[j], s));
        assert forall|a: int, b: int| 0 <= a < b < r.len() implies r[a].name != r[b].name by {
            assert(r[a].name == out[a].name);
            assert(r[b].name == out[b].name);
        }
    }
}

proof fn lemma_merge_one_has(out: Seq<SectionV>, s: SectionV, n: Seq<char>)
    ensures
        has_named(merge_one(out, s), n) <==> (has_named(out, n) || s.name == n),
{
    lemma_find_named(out, s.name);
    let j = find_named(out, s.name);
    if j == -1 {
        let r = out.push(s);
        if has_named(out, n) {
            let w = choose|i: int| 0 <= i < out.len() && out[i].name == n;
            assert(r[w].name == n);
        }
        if s.name == n {
            assert(r[out.len() as int].name == n);
        }
        if has_named(r, n) {
            let w = choose|i: int| 0 <= i < r.len() && r[i].name == n;
            if w < out.len() {
                assert(out[w].name == n);
            }
        }
    } else {
        let r = out.update(j, combine(out[j], s));
        assert(forall|i: int| 0 <= i < r.len() ==> r[i].name == out[i].name);
        if has_named(out, n) {
            let w = choose|i: int| 0 <= i < out.len() && out[i].name == n;
            assert(r[w].name == n);
        }
        if s.name == n {
            assert(r[j].name == n);
        }
        if has_named(r, n) {
            let w = choose|i: int| 0 <= i < r.len() && r[i].name == n;
            assert(out[w].name == n);
        }
    }
}

proof fn lemma_merge_fold_unique(out: Seq<SectionV>, secs: Seq<SectionV>)
    requires
        unique_names(out),
    ensures
        unique_names(merge_fold(out, secs)),
    decreases secs.len(),
{
    if secs.len() > 0 {
        lemma_merge_one_unique(out, secs[0]);
        lemma_merge_fold_unique(merge_one(out, secs[0]), secs.drop_first());
    }
}

proof fn lemma_merge_fold_has(out: Seq<SectionV>, secs: Seq<SectionV>, n: Seq<char>)
    ensures
        has_named(merge_fold(out, secs), n) <==> (has_named(out, n) || has_named(secs, n)),
    decreases secs.len(),
{
    if secs.len() == 0 {
        assert(!has_named(secs, n));
    } else {
        let rest = secs.drop_first();
        lemma_merge_one_has(out, secs[0], n);
        lemma_merge_fold_has(merge_one(out, secs[0]), rest, n);
        assert forall|i: int| 0 <= i < rest.len() implies rest[i] == secs[i + 1] by {}
        if has_named(secs, n) && secs[0].name != n {
            let w = choose|i: int| 0 <= i < secs.len() && secs[i].name == n;
            assert(rest[w - 1].name == n);
        }
        if has_named(rest, n) {
            let w = choose|i: int| 0 <= i < rest.len() && rest[i].name == n;
            assert(secs[w + 1].name == n);
        }
    }
}

/// LAW: after merging, no two sections share a name — repeated sections
/// collapse into one.
pub proof fn lemma_merge_unique(secs: Seq<SectionV>)
    ensures
        unique_names(spec_merge(secs)),
{
    assert(unique_names(Seq::<SectionV>::empty()));
    lemma_merge_fold_unique(Seq::empty(), secs);
}

/// LAW: merging loses no name and invents none — a name occurs in the
/// merged output exactly when it occurs in the input.
pub proof fn lemma_merge_keeps_names(secs: Seq<SectionV>, n: Seq<char>)
    ensures
        has_named(spec_merge(secs), n) <==> has_named(secs, n),
{
    assert(!has_named(Seq::<SectionV>::empty(), n));
    lemma_merge_fold_has(Seq::empty(), secs, n);
}

proof fn lemma_merge_one_named(out: Seq<SectionV>, s: SectionV)
    requires
        crate::parse::all_named(out),
        s.name.len() > 0,
    ensures
        crate::parse::all_named(merge_one(out, s)),
{
    lemma_find_named(out, s.name);
    let j = find_named(out, s.name);
    let r = merge_one(out, s);
    assert forall|i: int| 0 <= i < r.len() implies r[i].name.len() > 0 by {
        if j == -1 {
            if i < out.len() {
                assert(r[i] == out[i]);
            } else {
                assert(r[i] == s);
            }
        } else {
            assert(r[i].name == out[i].name);
        }
    }
}

proof fn lemma_merge_fold_named(out: Seq<SectionV>, secs: Seq<SectionV>)
    requires
        crate::parse::all_named(out),
        crate::parse::all_named(secs),
    ensures
        crate::parse::all_named(merge_fold(out, secs)),
    decreases secs.len(),
{
    if secs.len() > 0 {
        assert(secs[0].name.len() > 0);
        lemma_merge_one_named(out, secs[0]);
        assert(forall|i: int|
            0 <= i < secs.drop_first().len() ==> secs.drop_first()[i] == secs[i + 1]);
        lemma_merge_fold_named(merge_one(out, secs[0]), secs.drop_first());
    }
}

/// LAW: merging named sections yields named sections — the data-model
/// invariant survives the merge.
pub proof fn lemma_merge_keeps_named(secs: Seq<SectionV>)
    requires
        crate::parse::all_named(secs),
    ensures
        crate::parse::all_named(spec_merge(secs)),
{
    assert(crate::parse::all_named(Seq::<SectionV>::empty()));
    lemma_merge_fold_named(Seq::empty(), secs);
}

/// Looks for a section named `name` among `out`, from position `i` on.
fn find_index_from(out: &Vec<Section>, name: &str, i: usize) -> (r: Option<usize>)
    requires
        i <= out@.len(),
    ensures
        r is None ==> find_named(out.deep_view().skip(i as int), name@) == -1,
        r matches Some(j) ==> i <= j < out@.len() && find_named(
            out.deep_view().skip(i as int),
            name@,
        ) == j - i,
    decreases out@.len() - i,
{
    if i == out.len() {
        proof {
            assert(out.deep_view().skip(i as int) =~= Seq::<SectionV>::empty());
        }
        None
    } else {
        proof {
            assert(out.deep_view().skip(i as int)[0] == out.deep_view()[i as int]);
            assert(out.deep_view().skip(i as int).drop_first() =~= out.deep_view().skip(
                i + 1 as int,
            ));
        }
        if str_eq(out[i].name.as_str(), name) {
            Some(i)
        } else {
            find_index_from(out, name, i + 1)
        }
    }
}

/// Merges the sections in order; see the module description for the
/// policy.
pub fn merge_sections(secs: Vec<Section>) -> (r: Vec<Section>)
    ensures
        r.deep_view() == spec_merge(secs.deep_view()),
{
    let mut out: Vec<Section> = Vec::new();
    proof {
        assert(out.deep_view() =~= Seq::<SectionV>::empty());
        assert(secs.deep_view().skip(0) =~= secs.deep_view());
    }
    let n = secs.len();
    let mut i: usize = 0;
    while i < n
        invariant
            i <= n,
            n == secs@.len(),
            merge_fold(out.deep_view(), secs.deep_view().skip(i as int)) == spec_merge(
                secs.deep_view(),
            ),
        decreases n - i,
    {
        let ghost out0 = out.deep_view();
        let ghost s_v = secs.deep_view()[i as int];
        proof {
            assert(secs.deep_view().skip(i as int)[0] == s_v);
            assert(secs.deep_view().skip(i as int).drop_first() =~= secs.deep_view().skip(
                i + 1 as int,
            ));
        }
        let s = clone_section(&secs[i]);
        match find_index_from(&out, s.name.as_str(), 0) {
            None => {
                proof {
                    assert(out.deep_view().skip(0) =~= out.deep_view());
                    assert(merge_one(out0, s_v) == out0.push(s_v));
                }
                out.push(s);
                proof {
                    assert(out.deep_view() =~= out0.push(s_v));
                }
            },
            Some(j) => {
                proof {
                    assert(out.deep_view().skip(0) =~= out.deep_view());
                    lemma_find_named(out0, s_v.name);
                }
                let mut combined = clone_section(&out[j]);
                let mut absorbed = s;
                combined.args.append(&mut absorbed.args);
                combined.data.append(&mut absorbed.data);
                proof {
                    assert(combined@.args =~= out0[j as int].args + s_v.args);
                    assert(combined@.data =~= out0[j as int].data + s_v.data);
                    assert(combined@ == combine(out0[j as int], s_v));
                }
                let m = out.len();
                let mut updated: Vec<Section> = Vec::new();
                let ghost target = out0.update(j as int, combine(out0[j as int], s_v));
                proof {
                    assert(updated.deep_view() =~= target.take(0));
                }
                let mut k: usize = 0;
                while k < m
                    invariant
                        k <= m,
                        m == out@.len(),
                        out.deep_view() == out0,
                        j < m,
                        combined@ == combine(out0[j as int], s_v),
                        target == out0.update(j as int, combine(out0[j as int], s_v)),
                        updated.deep_view() == target.take(k as int),
                    decreases m - k,
                {
                    let ghost up0 = updated.deep_view();
                    if k == j {
                        updated.push(clone_section(&combined));
                    } else {
                        updated.push(clone_section(&out[k]));
                    }
                    proof {
                        assert(updated.deep_view() =~= up0.push(target[k as int]));
                        assert(updated.deep_view() =~= target.take(k + 1 as int));
                    }
                    k = k + 1;
                }
                proof {
                    assert(target.take(m as int) =~= target);
                    assert(merge_one(out0, s_v) == target);
                }
                out = updated;
            },
        }
        i = i + 1;
    }
    proof {
        assert(secs.deep_view().skip(n as int) =~= Seq::<SectionV>::empty());
    }
    out
}

impl Tree {
    /// Collapses same-named sections into one, in first-occurrence
    /// order; the flattened file is kept as it is.
    pub fn merge(self) -> (r: Tree)
        ensures
            r@.file == self@.file,
            r@.sections == spec_merge(self@.sections),
    {
        let Tree { file, sections } = self;
        let merged = merge_sections(sections);
        Tree { file, sections: merged }
    }
}

} // verus!
