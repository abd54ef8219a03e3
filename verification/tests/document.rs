use codebase_doc::render::{
    render_document, render_entry_block, render_file_block_err, render_file_block_ok,
    render_structure, FileData, ScanEntry,
};
use codebase_doc::tree::{build_tree, count_entries, EntryKind};

fn v(s: &str) -> Vec<u8> {
    s.as_bytes().to_vec()
}

fn entry(path: &str, kind: EntryKind, data: FileData) -> ScanEntry {
    ScanEntry { path: v(path), kind, data }
}

fn scenario_entries() -> Vec<ScanEntry> {
    vec![
        entry("a.txt", EntryKind::File, FileData::Content(v("hello"))),
        entry("sub", EntryKind::Directory, FileData::Unavailable),
        entry("sub/c.txt", EntryKind::File, FileData::Content(v("world"))),
    ]
}

#[test]
fn end_to_end_scenario() {
    let doc = render_document(&scenario_entries());
    let expected = "<codebase>\n<project_structure>\n.\n├── a.txt\n└── sub\n    └── c.txt\n\n\
                    1 directories, 2 files\n</project_structure>\n\n<file src=\"a.txt\">\nhello\n\
                    </file>\n\n<file src=\"sub/c.txt\">\nworld\n</file>\n\n</codebase>\n";
    assert_eq!(String::from_utf8(doc).unwrap(), expected);
}

#[test]
fn rerun_is_byte_identical() {
    let first = render_document(&scenario_entries());
    let second = render_document(&scenario_entries());
    assert_eq!(first, second);
}

#[test]
fn binary_file_is_counted_but_not_emitted() {
    let entries = vec![entry(
        "x.bin",
        EntryKind::File,
        FileData::Content(vec![0x00, 0x01, 0x02, 0x03]),
    )];
    let doc = String::from_utf8(render_document(&entries)).unwrap();
    let expected = "<codebase>\n<project_structure>\n.\n└── x.bin\n\n0 directories, 1 files\n\
                    </project_structure>\n\n</codebase>\n";
    assert_eq!(doc, expected);
}

#[test]
fn zero_byte_file_block_is_a_single_newline() {
    let e = entry("empty.txt", EntryKind::File, FileData::Content(Vec::new()));
    let block = String::from_utf8(render_entry_block(&e)).unwrap();
    assert_eq!(block, "<file src=\"empty.txt\">\n\n</file>\n\n");
}

#[test]
fn undecodable_file_keeps_its_tags_with_a_note() {
    let e = entry(
        "weird.txt",
        EntryKind::File,
        FileData::Invalid(v("looks like text"), v("stream did not contain valid UTF-8")),
    );
    let block = String::from_utf8(render_entry_block(&e)).unwrap();
    assert_eq!(
        block,
        "<file src=\"weird.txt\">\n<!-- Error reading file: stream did not contain valid \
         UTF-8 -->\n</file>\n\n"
    );
}

#[test]
fn unreadable_file_is_skipped() {
    let e = entry("locked.txt", EntryKind::File, FileData::Unavailable);
    assert!(render_entry_block(&e).is_empty());
}

#[test]
fn directories_produce_no_block() {
    let e = entry("sub", EntryKind::Directory, FileData::Content(v("hello")));
    assert!(render_entry_block(&e).is_empty());
}

#[test]
fn paths_are_escaped_in_the_src_attribute() {
    let block = String::from_utf8(render_file_block_ok(&v("a<b>&c.txt"), &v("x"))).unwrap();
    assert_eq!(block, "<file src=\"a&lt;b&gt;&amp;c.txt\">\nx\n</file>\n\n");
}

#[test]
fn error_block_wording() {
    let block = String::from_utf8(render_file_block_err(&v("p.txt"), &v("denied"))).unwrap();
    assert_eq!(block, "<file src=\"p.txt\">\n<!-- Error reading file: denied -->\n</file>\n\n");
}

#[test]
fn tree_is_order_independent() {
    let forward = vec![v("a.txt"), v("sub"), v("sub/c.txt"), v("sub/b.txt")];
    let backward = vec![v("sub/b.txt"), v("sub/c.txt"), v("sub"), v("a.txt")];
    let t1 = build_tree(&forward);
    let t2 = build_tree(&backward);
    let r1 = render_structure(&t1, 1, 3);
    let r2 = render_structure(&t2, 1, 3);
    assert_eq!(r1, r2);
    let expected = "<project_structure>\n.\n├── a.txt\n└── sub\n    ├── b.txt\n    └── c.txt\n\n\
                    1 directories, 3 files\n</project_structure>\n";
    assert_eq!(String::from_utf8(r1).unwrap(), expected);
}

#[test]
fn deep_tree_markers() {
    let paths = vec![v("a"), v("a/b"), v("a/b/c.txt"), v("a/d.txt"), v("e.txt")];
    let t = build_tree(&paths);
    let r = String::from_utf8(render_structure(&t, 2, 3)).unwrap();
    let expected = "<project_structure>\n.\n├── a\n│   ├── b\n│   │   └── c.txt\n│   └── d.txt\n\
                    └── e.txt\n\n2 directories, 3 files\n</project_structure>\n";
    assert_eq!(r, expected);
}

#[test]
fn counts_ignore_other_kinds() {
    let kinds = vec![
        EntryKind::Directory,
        EntryKind::File,
        EntryKind::Other,
        EntryKind::File,
        EntryKind::Other,
    ];
    let (dirs, files) = count_entries(&kinds);
    assert_eq!((dirs, files), (1, 2));
}

#[test]
fn multi_digit_counts_render_in_decimal() {
    let t = build_tree(&vec![v("a")]);
    let r = String::from_utf8(render_structure(&t, 12, 345)).unwrap();
    assert!(r.contains("12 directories, 345 files\n"));
}
