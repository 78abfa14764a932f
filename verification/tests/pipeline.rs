//! End-to-end tests of the pipeline: comment stripping, directive
//! splicing, section parsing, and merging.

use kickstart::error::KickstartError;
use kickstart::kickstart::Kickstart;
use kickstart::parse::Tree;
use kickstart::resolve::FileTable;
use kickstart::source::File;

fn lines(xs: &[&str]) -> Vec<String> {
    xs.iter().map(|x| x.to_string()).collect()
}

fn views(xs: &Vec<String>) -> Vec<&str> {
    xs.iter().map(|x| x.as_str()).collect()
}

#[test]
fn clean_removes_comments() {
    let mut f = File::new("root".to_string(), lines(&["# note", "a", "", "#x", "b"]));
    assert!(f.clean().is_ok());
    assert_eq!(views(&f.data), vec!["a", "", "b"]);
}

#[test]
fn clean_is_idempotent() {
    let mut f = File::new("root".to_string(), lines(&["# note", "a", "#", "b"]));
    assert!(f.clean().is_ok());
    let once = f.data.clone();
    assert!(f.clean().is_ok());
    assert_eq!(f.data, once);
}

#[test]
fn to_string_joins_lines() {
    let mut f = File::new("root".to_string(), lines(&["a", "", "b"]));
    assert_eq!(f.to_string(), "a\n\nb\n");
}

#[test]
fn resolution_is_complete() {
    let mut table = FileTable::new();
    table.insert("inner.ks".to_string(), lines(&["x", "%include leaf.ks"]));
    table.insert("leaf.ks".to_string(), lines(&["y"]));
    let mut f = File::new("root".to_string(), lines(&["a", "%include inner.ks", "b"]));
    assert!(f.resolve(&table).is_ok());
    assert_eq!(views(&f.data), vec!["a", "x", "y", "b"]);
    for line in &f.data {
        assert!(!line.starts_with("%include"));
    }
}

#[test]
fn splice_preserves_order() {
    let mut table = FileTable::new();
    table.insert("b.ks".to_string(), lines(&["X", "Y"]));
    let mut f = File::new("root".to_string(), lines(&["A", "%include b.ks", "C"]));
    assert!(f.resolve(&table).is_ok());
    assert_eq!(views(&f.data), vec!["A", "X", "Y", "C"]);
}

#[test]
fn included_files_are_cleaned() {
    let mut table = FileTable::new();
    table.insert("b.ks".to_string(), lines(&["# hidden", "kept"]));
    let mut f = File::new("root".to_string(), lines(&["%include b.ks"]));
    assert!(f.resolve(&table).is_ok());
    assert_eq!(views(&f.data), vec!["kept"]);
}

#[test]
fn cycle_is_detected() {
    let mut table = FileTable::new();
    table.insert("a.ks".to_string(), lines(&["%include b.ks"]));
    table.insert("b.ks".to_string(), lines(&["%include a.ks"]));
    let mut f = File::new("root".to_string(), lines(&["%include a.ks"]));
    assert_eq!(f.resolve(&table), Err(KickstartError::Cycle));
}

#[test]
fn self_inclusion_is_a_cycle() {
    let mut table = FileTable::new();
    table.insert("a.ks".to_string(), lines(&["%include a.ks"]));
    let mut f = File::new("root".to_string(), lines(&["%include a.ks"]));
    assert_eq!(f.resolve(&table), Err(KickstartError::Cycle));
}

#[test]
fn missing_target_is_io_error() {
    let table = FileTable::new();
    let mut f = File::new("root".to_string(), lines(&["%include nowhere.ks"]));
    assert_eq!(f.resolve(&table), Err(KickstartError::IO));
}

#[test]
fn malformed_directive_is_parse_error() {
    let table = FileTable::new();
    let mut bare = File::new("root".to_string(), lines(&["%include"]));
    assert_eq!(bare.resolve(&table), Err(KickstartError::Parse));
    let mut extra = File::new("root".to_string(), lines(&["%include a.ks b.ks"]));
    assert_eq!(extra.resolve(&table), Err(KickstartError::Parse));
}

#[test]
fn failed_resolution_leaves_file_unchanged() {
    let table = FileTable::new();
    let mut f = File::new("root".to_string(), lines(&["a", "%include nowhere.ks"]));
    assert!(f.resolve(&table).is_err());
    assert_eq!(views(&f.data), vec!["a", "%include nowhere.ks"]);
}

#[test]
fn table_lookup_finds_first_match() {
    let mut table = FileTable::new();
    table.insert("a.ks".to_string(), lines(&["one"]));
    table.insert("a.ks".to_string(), lines(&["two"]));
    let found = table.find("a.ks").expect("entry");
    assert_eq!(views(found), vec!["one"]);
    assert!(table.find("b.ks").is_none());
}

#[test]
fn section_scenario() {
    let table = FileTable::new();
    let doc = Kickstart::from_path(
        "root".to_string(),
        lines(&["cmd1", "%post --erroronfail", "line1", "", "line2", "%end", "cmd2"]),
        &table,
    )
    .expect("document");
    let secs = &doc.tree.sections;
    assert_eq!(secs.len(), 2);
    assert_eq!(secs[0].name.as_str(), "post");
    assert_eq!(views(&secs[0].args), vec!["--erroronfail"]);
    assert_eq!(views(&secs[0].data), vec!["line1", "", "line2"]);
    assert_eq!(secs[1].name.as_str(), "command");
    assert!(secs[1].args.is_empty());
    assert_eq!(views(&secs[1].data), vec!["cmd1", "cmd2"]);
}

#[test]
fn unterminated_section_fails() {
    let table = FileTable::new();
    let r = Kickstart::from_path(
        "root".to_string(),
        lines(&["%post", "line1"]),
        &table,
    );
    assert_eq!(r.err(), Some(KickstartError::Parse));
}

#[test]
fn stray_end_fails() {
    let table = FileTable::new();
    let r = Kickstart::from_path("root".to_string(), lines(&["cmd", "%end"]), &table);
    assert_eq!(r.err(), Some(KickstartError::Parse));
}

#[test]
fn nested_section_start_fails() {
    let table = FileTable::new();
    let r = Kickstart::from_path(
        "root".to_string(),
        lines(&["%post", "%pre", "%end"]),
        &table,
    );
    assert_eq!(r.err(), Some(KickstartError::Parse));
}

#[test]
fn nameless_marker_fails() {
    let table = FileTable::new();
    let r = Kickstart::from_path("root".to_string(), lines(&["%", "x", "%end"]), &table);
    assert_eq!(r.err(), Some(KickstartError::Parse));
}

#[test]
fn duplicate_sections_merge_into_one() {
    let table = FileTable::new();
    let doc = Kickstart::from_path(
        "root".to_string(),
        lines(&[
            "%packages --first",
            "vim",
            "%end",
            "cmd",
            "%packages --second",
            "git",
            "%end",
        ]),
        &table,
    )
    .expect("document");
    let secs = &doc.tree.sections;
    let named: Vec<&str> = secs.iter().map(|s| s.name.as_str()).collect();
    assert_eq!(named, vec!["packages", "command"]);
    // the merge policy: later same-named sections are folded into the
    // first, arguments and body lines appended in document order
    assert_eq!(views(&secs[0].args), vec!["--first", "--second"]);
    assert_eq!(views(&secs[0].data), vec!["vim", "git"]);
    assert_eq!(views(&secs[1].data), vec!["cmd"]);
}

#[test]
fn command_only_round_trip() {
    let table = FileTable::new();
    let doc = Kickstart::from_path(
        "root".to_string(),
        lines(&["one", "", "two", "three", ""]),
        &table,
    )
    .expect("document");
    let secs = &doc.tree.sections;
    assert_eq!(secs.len(), 1);
    assert_eq!(secs[0].name.as_str(), "command");
    assert!(secs[0].args.is_empty());
    assert_eq!(views(&secs[0].data), vec!["one", "two", "three"]);
}

#[test]
fn whole_pipeline_with_includes_and_sections() {
    let mut table = FileTable::new();
    table.insert(
        "post.ks".to_string(),
        lines(&["# a post block", "%post", "echo done", "%end"]),
    );
    let doc = Kickstart::from_path(
        "root".to_string(),
        lines(&["# header", "keyboard us", "%include post.ks", "timezone UTC"]),
        &table,
    )
    .expect("document");
    assert_eq!(
        views(&doc.file.data),
        vec!["keyboard us", "%post", "echo done", "%end", "timezone UTC"]
    );
    let secs = &doc.tree.sections;
    assert_eq!(secs.len(), 2);
    assert_eq!(secs[0].name.as_str(), "post");
    assert_eq!(views(&secs[0].data), vec!["echo done"]);
    assert_eq!(secs[1].name.as_str(), "command");
    assert_eq!(views(&secs[1].data), vec!["keyboard us", "timezone UTC"]);
}

#[test]
fn tree_from_file_starts_empty() {
    let f = File::new("root".to_string(), lines(&["a"]));
    let t = Tree::from_file(f).expect("tree");
    assert!(t.sections.is_empty());
    assert_eq!(views(&t.file.data), vec!["a"]);
}

#[test]
fn error_labels() {
    assert_eq!(KickstartError::IO.describe(), "missing file");
    assert_eq!(KickstartError::Parse.describe(), "malformed document");
    assert_eq!(KickstartError::Cycle.describe(), "include cycle");
}

#[test]
fn merge_on_trees_keeps_first_occurrence_order() {
    let sections = vec![
        kickstart::parse::Section {
            name: "a".to_string(),
            data: lines(&["1"]),
            args: lines(&["-x"]),
        },
        kickstart::parse::Section {
            name: "b".to_string(),
            data: lines(&["2"]),
            args: vec![],
        },
        kickstart::parse::Section {
            name: "a".to_string(),
            data: lines(&["3"]),
            args: lines(&["-y"]),
        },
    ];
    let t = Tree { file: File::new("root".to_string(), vec![]), sections };
    let m = t.merge();
    let named: Vec<&str> = m.sections.iter().map(|s| s.name.as_str()).collect();
    assert_eq!(named, vec!["a", "b"]);
    assert_eq!(views(&m.sections[0].data), vec!["1", "3"]);
    assert_eq!(views(&m.sections[0].args), vec!["-x", "-y"]);
    assert_eq!(views(&m.sections[1].data), vec!["2"]);
}

#[test]
fn empty_document_yields_bare_command_section() {
    let table = FileTable::new();
    let doc = Kickstart::from_path("root".to_string(), vec![], &table).expect("document");
    let secs = &doc.tree.sections;
    assert_eq!(secs.len(), 1);
    assert_eq!(secs[0].name.as_str(), "command");
    assert!(secs[0].data.is_empty());
    assert!(secs[0].args.is_empty());
}

#[test]
fn comment_only_document_is_empty() {
    let table = FileTable::new();
    let doc = Kickstart::from_path(
        "root".to_string(),
        lines(&["# one", "# two"]),
        &table,
    )
    .expect("document");
    assert!(doc.file.data.is_empty());
    let secs = &doc.tree.sections;
    assert_eq!(secs.len(), 1);
    assert_eq!(secs[0].name.as_str(), "command");
    assert!(secs[0].data.is_empty());
}
