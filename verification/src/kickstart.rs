//! The top-level handle: from the root file's raw lines and a table of
//! spliceable files to the parsed, merged document, in one call.

use vstd::prelude::*;

use crate::error::KickstartError;
use crate::merge::spec_merge;
use crate::parse::Tree;
use crate::parse::TreeV;
use crate::parse::spec_parse;
use crate::parse::wf_lines;
use crate::resolve::EntryV;
use crate::resolve::FileTable;
use crate::resolve::resolve_lines;
use crate::source::File;
use crate::source::FileV;
use crate::source::strip_comments;
use crate::text::clone_lines;

verus! {

/// Mathematical image of a [`Kickstart`].
#[verifier::ext_equal]
pub ghost struct KickstartV {
    pub file: FileV,
    pub tree: TreeV,
}

/// The finished document: the flattened root file, and the tree of
/// parsed, merged sections handed to a downstream translator.
#[derive(Clone, Debug)]
pub struct Kickstart {
    pub file: File,
    pub tree: Tree,
}

impl View for Kickstart {
    type V = KickstartV;

    open spec fn view(&self) -> KickstartV {
        KickstartV { file: self.file@, tree: self.tree@ }
    }
}

/// The root lines after comment stripping and directive splicing.
pub open spec fn resolved_root(data: Seq<Seq<char>>, table: Seq<EntryV>) -> Result<
    Seq<Seq<char>>,
    KickstartError,
> {
    resolve_lines(table, strip_comments(data), Set::empty())
}

/// A copy of a file, view for view.
fn clone_file(f: &File) -> (r: File)
    ensures
        r@ == f@,
{
    let r = File { path: f.path.clone(), data: clone_lines(&f.data) };
    proof {
        assert(r@.data =~= f@.data);
        assert(r@ =~= f@);
    }
    r
}

impl Kickstart {
    /// Builds the document from the root file's path and raw lines and
    /// from the table of files its directives may splice in: comments
    /// are stripped, directives resolved, sections parsed and merged.
    pub fn from_path(path: String, data: Vec<String>, table: &FileTable) -> (r: Result<
        Kickstart,
        KickstartError,
    >)
        ensures
            (r is Ok) <==> (resolved_root(data.deep_view(), table@) matches Ok(flat)
                && wf_lines(flat)),
            r matches Ok(k) ==> resolved_root(data.deep_view(), table@) matches Ok(flat) && {
                &&& k@.file.path == path@
                &&& k@.file.data == flat
                &&& k@.tree.file == k@.file
                &&& spec_parse(flat) matches Ok(secs) && k@.tree.sections == spec_merge(secs)
            },
            r matches Err(e) ==> match resolved_root(data.deep_view(), table@) {
                Err(e0) => e == e0,
                Ok(flat) => e == KickstartError::Parse && !wf_lines(flat),
            },
    {
        let ghost data0 = data.deep_view();
        let mut file = File::new(path, data);
        let cleaned = file.clean();
        proof {
            assert(cleaned is Ok);
            assert(file@.data == strip_comments(data0));
        }
        match file.resolve(table) {
            Err(e) => Err(e),
            Ok(()) => {
                let root = clone_file(&file);
                match Tree::from_file(root) {
                    Err(e) => Err(e),
                    Ok(tree) => match tree.parse() {
                        Err(e) => Err(e),
                        Ok(parsed) => Ok(Kickstart { file, tree: parsed }),
                    },
                }
            },
        }
    }
}

} // verus!
