//! Serialization of the reconstructed tree and the classified file contents
//! into the nested-tag document.

use vstd::prelude::*;
use crate::classify::{spec_classification, spec_prefix_of, classify_content, classify_prefix,
    Classification};
use crate::escape::{escaped, escape_xml};
use crate::tree::{TreeNode, TreeView, EntryKind, node_view, forest_view, tree_model, count_kind,
    build_tree, count_entries, lemma_forest_view_index, lemma_count_both_bound};
use crate::paths::clone_bytes;

verus! {

broadcast use
    vstd::seq::axiom_seq_index_decreases,
    vstd::seq::axiom_seq_subrange_decreases,
    vstd::std_specs::vec::axiom_vec_decreases_to_view;

pub const NL: u8 = 10;

/// `<codebase>` line.
pub open spec fn doc_open() -> Seq<u8> {
    seq![60, 99, 111, 100, 101, 98, 97, 115, 101, 62, 10]
}

/// `</codebase>` line.
pub open spec fn doc_close() -> Seq<u8> {
    seq![60, 47, 99, 111, 100, 101, 98, 97, 115, 101, 62, 10]
}

/// `<project_structure>` line.
pub open spec fn struct_open() -> Seq<u8> {
    seq![60, 112, 114, 111, 106, 101, 99, 116, 95, 115, 116, 114, 117, 99, 116, 117, 114, 101, 62, 10]
}

/// `</project_structure>` line.
pub open spec fn struct_close() -> Seq<u8> {
    seq![60, 47, 112, 114, 111, 106, 101, 99, 116, 95, 115, 116, 114, 117, 99, 116, 117, 114, 101, 62, 10]
}

/// The branch marker before a child that has later siblings.
pub open spec fn mid_marker() -> Seq<u8> {
    seq![226, 148, 156, 226, 148, 128, 226, 148, 128, 32]
}

/// The branch marker before a last child.
pub open spec fn last_marker() -> Seq<u8> {
    seq![226, 148, 148, 226, 148, 128, 226, 148, 128, 32]
}

/// The indent continuing past a child that has later siblings.
pub open spec fn bar_indent() -> Seq<u8> {
    seq![226, 148, 130, 32, 32, 32]
}

/// The indent continuing past a last child.
pub open spec fn blank_indent() -> Seq<u8> {
    seq![32, 32, 32, 32]
}

/// ` directories, ` in the summary line.
pub open spec fn dirs_label() -> Seq<u8> {
    seq![32, 100, 105, 114, 101, 99, 116, 111, 114, 105, 101, 115, 44, 32]
}

/// ` files` and the line end of the summary line.
pub open spec fn files_label() -> Seq<u8> {
    seq![32, 102, 105, 108, 101, 115, 10]
}

/// `<file src="` before the escaped path.
pub open spec fn file_open_pre() -> Seq<u8> {
    seq![60, 102, 105, 108, 101, 32, 115, 114, 99, 61, 34]
}

/// `">` and the line end after the escaped path.
pub open spec fn file_open_post() -> Seq<u8> {
    seq![34, 62, 10]
}

/// `</file>` line.
pub open spec fn file_close() -> Seq<u8> {
    seq![60, 47, 102, 105, 108, 101, 62, 10]
}

/// `<!-- Error reading file: ` before the message.
pub open spec fn err_pre() -> Seq<u8> {
    seq![60, 33, 45, 45, 32, 69, 114, 114, 111, 114, 32, 114, 101, 97, 100, 105, 110, 103, 32, 102, 105, 108, 101, 58, 32]
}

/// ` -->` and the line end after the message.
pub open spec fn err_post() -> Seq<u8> {
    seq![32, 45, 45, 62, 10]
}

pub open spec fn marker(last: bool) -> Seq<u8> {
    if last {
        last_marker()
    } else {
        mid_marker()
    }
}

pub open spec fn cont(last: bool) -> Seq<u8> {
    if last {
        blank_indent()
    } else {
        bar_indent()
    }
}

/// The decimal digits of a number.
pub open spec fn dec_digits(n: nat) -> Seq<u8>
    decreases n,
{
    if n < 10 {
        seq![(48 + n) as u8]
    } else {
        dec_digits(n / 10) + seq![(48 + n % 10) as u8]
    }
}

/// The rendered lines of a list of sibling nodes, each child before its own
/// children (pre-order), with the given accumulated indent prefix.
pub open spec fn render_forest(children: Seq<TreeView>, prefix: Seq<u8>) -> Seq<u8>
    decreases children,
{
    if children.len() == 0 {
        Seq::empty()
    } else {
        let c = children[0];
        let last = children.len() == 1;
        prefix + marker(last) + c.label + seq![NL] + render_forest(c.children, prefix + cont(last))
            + render_forest(children.skip(1), prefix)
    }
}

/// The rendered tree: the root's own line, then all descendants.
pub open spec fn render_tree(t: TreeView) -> Seq<u8> {
    t.label + seq![NL] + render_forest(t.children, Seq::empty())
}

/// The whole structure section, summary line included.
pub open spec fn structure_section(t: TreeView, dirs: nat, files: nat) -> Seq<u8> {
    struct_open() + render_tree(t) + seq![NL] + dec_digits(dirs) + dirs_label() + dec_digits(files)
        + files_label() + struct_close()
}

/// A file block whose content decoded: the escaped text and one unconditional
/// trailing newline between it and the closing tag, then a blank line.
pub open spec fn spec_file_block_ok(path: Seq<u8>, content: Seq<u8>) -> Seq<u8> {
    file_open_pre() + escaped(path) + file_open_post() + escaped(content) + seq![NL] + file_close()
        + seq![NL]
}

/// A file block whose content failed to decode: an inline note replaces the
/// content, the tags still frame it.
pub open spec fn spec_file_block_err(path: Seq<u8>, message: Seq<u8>) -> Seq<u8> {
    file_open_pre() + escaped(path) + file_open_post() + err_pre() + message + err_post()
        + file_close() + seq![NL]
}

/// What one scanned path contributed to the content section.
pub enum FileData {
    /// The whole content, read and decoded as text.
    Content(Vec<u8>),
    /// The readable prefix sample, and the error message of the failed full
    /// decode.
    Invalid(Vec<u8>, Vec<u8>),
    /// The file could not be read at all.
    Unavailable,
}

/// One scanned path with its on-disk kind and its content outcome.
pub struct ScanEntry {
    pub path: Vec<u8>,
    pub kind: EntryKind,
    pub data: FileData,
}

/// The content-section bytes of one entry: only a regular file whose prefix
/// classifies as text produces a block; a decodable one carries its escaped
/// content, an undecodable one the inline note; everything else is skipped.
pub open spec fn spec_entry_block(e: ScanEntry) -> Seq<u8> {
    if e.kind != EntryKind::File {
        Seq::empty()
    } else {
        match e.data {
            FileData::Content(b) => if spec_classification(spec_prefix_of(b@))
                == Classification::Text {
                spec_file_block_ok(e.path@, b@)
            } else {
                Seq::empty()
            },
            FileData::Invalid(pfx, msg) => if spec_classification(pfx@) == Classification::Text {
                spec_file_block_err(e.path@, msg@)
            } else {
                Seq::empty()
            },
            FileData::Unavailable => Seq::empty(),
        }
    }
}

/// The whole content section, in the order of the entry list.
pub open spec fn spec_blocks(entries: Seq<ScanEntry>) -> Seq<u8>
    decreases entries.len(),
{
    if entries.len() == 0 {
        Seq::empty()
    } else {
        spec_blocks(entries.drop_last()) + spec_entry_block(entries.last())
    }
}

/// The kinds of the scanned entries, in order.
pub open spec fn entry_kinds(entries: Seq<ScanEntry>) -> Seq<EntryKind> {
    entries.map_values(|e: ScanEntry| e.kind)
}

/// The paths of the scanned entries, in order.
pub open spec fn entry_paths(entries: Seq<ScanEntry>) -> Seq<Seq<u8>> {
    entries.map_values(|e: ScanEntry| e.path@)
}

/// The complete artifact for one scan: a function of the scanned entries and
/// of nothing else.
pub open spec fn spec_document(entries: Seq<ScanEntry>) -> Seq<u8> {
    doc_open() + structure_section(
        tree_model(entry_paths(entries)),
        count_kind(entry_kinds(entries), EntryKind::Directory) as nat,
        count_kind(entry_kinds(entries), EntryKind::File) as nat,
    ) + seq![NL] + spec_blocks(entries) + doc_close()
}

/// A decoded file with empty content yields a block whose body between the
/// tags is a single newline and nothing else.
pub proof fn lemma_empty_content_block(path: Seq<u8>)
    ensures
        spec_file_block_ok(path, Seq::empty()) == file_open_pre() + escaped(path)
            + file_open_post() + seq![NL] + file_close() + seq![NL],
{
    crate::escape::lemma_escape_identity(Seq::empty());
    assert(spec_file_block_ok(path, Seq::empty()) =~= file_open_pre() + escaped(path)
        + file_open_post() + seq![NL] + file_close() + seq![NL]);
}

/// Re-running over an unchanged scan reproduces the artifact byte for byte:
/// the document is a function of the scanned entries alone.
pub proof fn lemma_document_deterministic(e1: Seq<ScanEntry>, e2: Seq<ScanEntry>)
    requires
        e1 == e2,
    ensures
        spec_document(e1) == spec_document(e2),
{
}

fn app_doc_open(out: &mut Vec<u8>)
    ensures
        final(out)@ == old(out)@ + doc_open(),
{
    let ghost o0 = out@;
    out.push(60);
    out.push(99);
    out.push(111);
    out.push(100);
    out.push(101);
    out.push(98);
    out.push(97);
    out.push(115);
    out.push(101);
    out.push(62);
    out.push(10);
    proof {
        assert(out@ =~= o0 + doc_open());
    }
}

fn app_doc_close(out: &mut Vec<u8>)
    ensures
        final(out)@ == old(out)@ + doc_close(),
{
    let ghost o0 = out@;
    out.push(60);
    out.push(47);
    out.push(99);
    out.push(111);
    out.push(100);
    out.push(101);
    out.push(98);
    out.push(97);
    out.push(115);
    out.push(101);
    out.push(62);
    out.push(10);
    proof {
        assert(out@ =~= o0 + doc_close());
    }
}

fn app_struct_open(out: &mut Vec<u8>)
    ensures
        final(out)@ == old(out)@ + struct_open(),
{
    let ghost o0 = out@;
    out.push(60);
    out.push(112);
    out.push(114);
    out.push(111);
    out.push(106);
    out.push(101);
    out.push(99);
    out.push(116);
    out.push(95);
    out.push(115);
    out.push(116);
    out.push(114);
    out.push(117);
    out.push(99);
    out.push(116);
    out.push(117);
    out.push(114);
    out.push(101);
    out.push(62);
    out.push(10);
    proof {
        assert(out@ =~= o0 + struct_open());
    }
}

fn app_struct_close(out: &mut Vec<u8>)
    ensures
        final(out)@ == old(out)@ + struct_close(),
{
    let ghost o0 = out@;
    out.push(60);
    out.push(47);
    out.push(112);
    out.push(114);
    out.push(111);
    out.push(106);
    out.push(101);
    out.push(99);
    out.push(116);
    out.push(95);
    out.push(115);
    out.push(116);
    out.push(114);
    out.push(117);
    out.push(99);
    out.push(116);
    out.push(117);
    out.push(114);
    out.push(101);
    out.push(62);
    out.push(10);
    proof {
        assert(out@ =~= o0 + struct_close());
    }
}

fn app_mid_marker(out: &mut Vec<u8>)
    ensures
        final(out)@ == old(out)@ + mid_marker(),
{
    let ghost o0 = out@;
    out.push(226);
    out.push(148);
    out.push(156);
    out.push(226);
    out.push(148);
    out.push(128);
    out.push(226);
    out.push(148);
    out.push(128);
    out.push(32);
    proof {
        assert(out@ =~= o0 + mid_marker());
    }
}

fn app_last_marker(out: &mut Vec<u8>)
    ensures
        final(out)@ == old(out)@ + last_marker(),
{
    let ghost o0 = out@;
    out.push(226);
    out.push(148);
    out.push(148);
    out.push(226);
    out.push(148);
    out.push(128);
    out.push(226);
    out.push(148);
    out.push(128);
    out.push(32);
    proof {
        assert(out@ =~= o0 + last_marker());
    }
}

fn app_bar_indent(out: &mut Vec<u8>)
    ensures
        final(out)@ == old(out)@ + bar_indent(),
{
    let ghost o0 = out@;
    out.push(226);
    out.push(148);
    out.push(130);
    out.push(32);
    out.push(32);
    out.push(32);
    proof {
        assert(out@ =~= o0 + bar_indent());
    }
}

fn app_blank_indent(out: &mut Vec<u8>)
    ensures
        final(out)@ == old(out)@ + blank_indent(),
{
    let ghost o0 = out@;
    out.push(32);
    out.push(32);
    out.push(32);
    out.push(32);
    proof {
        assert(out@ =~= o0 + blank_indent());
    }
}

fn app_dirs_label(out: &mut Vec<u8>)
    ensures
        final(out)@ == old(out)@ + dirs_label(),
{
    let ghost o0 = out@;
    out.push(32);
    out.push(100);
    out.push(105);
    out.push(114);
    out.push(101);
    out.push(99);
    out.push(116);
    out.push(111);
    out.push(114);
    out.push(105);
    out.push(101);
    out.push(115);
    out.push(44);
    out.push(32);
    proof {
        assert(out@ =~= o0 + dirs_label());
    }
}

fn app_files_label(out: &mut Vec<u8>)
    ensures
        final(out)@ == old(out)@ + files_label(),
{
    let ghost o0 = out@;
    out.push(32);
    out.push(102);
    out.push(105);
    out.push(108);
    out.push(101);
    out.push(115);
    out.push(10);
    proof {
        assert(out@ =~= o0 + files_label());
    }
}

fn app_file_open_pre(out: &mut Vec<u8>)
    ensures
        final(out)@ == old(out)@ + file_open_pre(),
{
    let ghost o0 = out@;
    out.push(60);
    out.push(102);
    out.push(105);
    out.push(108);
    out.push(101);
    out.push(32);
    out.push(115);
    out.push(114);
    out.push(99);
    out.push(61);
    out.push(34);
    proof {
        assert(out@ =~= o0 + file_open_pre());
    }
}

fn app_file_open_post(out: &mut Vec<u8>)
    ensures
        final(out)@ == old(out)@ + file_open_post(),
{
    let ghost o0 = out@;
    out.push(34);
    out.push(62);
    out.push(10);
    proof {
        assert(out@ =~= o0 + file_open_post());
    }
}

fn app_file_close(out: &mut Vec<u8>)
    ensures
        final(out)@ == old(out)@ + file_close(),
{
    let ghost o0 = out@;
    out.push(60);
    out.push(47);
    out.push(102);
    out.push(105);
    out.push(108);
    out.push(101);
    out.push(62);
    out.push(10);
    proof {
        assert(out@ =~= o0 + file_close());
    }
}

fn app_err_pre(out: &mut Vec<u8>)
    ensures
        final(out)@ == old(out)@ + err_pre(),
{
    let ghost o0 = out@;
    out.push(60);
    out.push(33);
    out.push(45);
    out.push(45);
    out.push(32);
    out.push(69);
    out.push(114);
    out.push(114);
    out.push(111);
    out.push(114);
    out.push(32);
    out.push(114);
    out.push(101);
    out.push(97);
    out.push(100);
    out.push(105);
    out.push(110);
    out.push(103);
    out.push(32);
    out.push(102);
    out.push(105);
    out.push(108);
    out.push(101);
    out.push(58);
    out.push(32);
    proof {
        assert(out@ =~= o0 + err_pre());
    }
}

fn app_err_post(out: &mut Vec<u8>)
    ensures
        final(out)@ == old(out)@ + err_post(),
{
    let ghost o0 = out@;
    out.push(32);
    out.push(45);
    out.push(45);
    out.push(62);
    out.push(10);
    proof {
        assert(out@ =~= o0 + err_post());
    }
}

/// Appends a copy of `xs`.
fn app_bytes(out: &mut Vec<u8>, xs: &Vec<u8>)
    ensures
        final(out)@ == old(out)@ + xs@,
{
    let ghost o0 = out@;
    proof {
        assert(o0 + xs@.take(0) =~= o0);
    }
    let mut i: usize = 0;
    while i < xs.len()
        invariant
            i <= xs@.len(),
            out@ == o0 + xs@.take(i as int),
        decreases xs@.len() - i,
    {
        out.push(xs[i]);
        proof {
            assert(out@ =~= o0 + xs@.take(i as int + 1));
        }
        i = i + 1;
    }
    proof {
        assert(xs@.take(xs@.len() as int) =~= xs@);
    }
}

/// The decimal digits of a number, most significant first.
fn u64_to_dec(n: u64) -> (r: Vec<u8>)
    ensures
        r@ == dec_digits(n as nat),
    decreases n,
{
    if n < 10 {
        let mut v: Vec<u8> = Vec::new();
        v.push(48 + (n as u8));
        proof {
            assert(v@ =~= dec_digits(n as nat));
        }
        v
    } else {
        let mut v = u64_to_dec(n / 10);
        v.push(48 + ((n % 10) as u8));
        proof {
            assert(v@ =~= dec_digits(n as nat));
        }
        v
    }
}

fn app_dec(out: &mut Vec<u8>, n: u64)
    ensures
        final(out)@ == old(out)@ + dec_digits(n as nat),
{
    let mut d = u64_to_dec(n);
    out.append(&mut d);
}

/// Writes the lines of the sibling nodes under the given indent prefix.
#[verifier::rlimit(60)]
fn render_forest_into(children: &Vec<TreeNode>, prefix: &Vec<u8>, out: &mut Vec<u8>)
    ensures
        final(out)@ == old(out)@ + render_forest(forest_view(children@), prefix@),
    decreases children@,
{
    let ghost fv = forest_view(children@);
    let ghost o0 = out@;
    proof {
        lemma_forest_view_index(children@);
        assert(fv.skip(0) =~= fv);
        assert(o0 + render_forest(fv, prefix@) == out@ + render_forest(fv.skip(0), prefix@));
    }
    let mut i: usize = 0;
    while i < children.len()
        invariant
            i <= children@.len(),
            fv == forest_view(children@),
            fv.len() == children@.len(),
            forall|j: int| 0 <= j < children@.len() ==> fv[j] == node_view(children@[j]),
            out@ + render_forest(fv.skip(i as int), prefix@) == o0 + render_forest(fv, prefix@),
        decreases children@.len() - i,
    {
        let ghost out_a = out@;
        let last = i == children.len() - 1;
        app_bytes(out, prefix);
        if last {
            app_last_marker(out);
        } else {
            app_mid_marker(out);
        }
        app_bytes(out, &children[i].label);
        out.push(NL);
        let mut np = clone_bytes(prefix);
        if last {
            app_blank_indent(&mut np);
        } else {
            app_bar_indent(&mut np);
        }
        proof {
            assert(decreases_to!(children@ => children@[i as int]));
            assert(decreases_to!(children@[i as int].children => children@[i as int].children@));
        }
        render_forest_into(&children[i].children, &np, out);
        proof {
            let s = fv.skip(i as int);
            assert(s.len() == children@.len() - i);
            assert(s[0] == fv[i as int]);
            assert(s.skip(1) =~= fv.skip(i as int + 1));
            assert(fv[i as int].label == children@[i as int].label@);
            assert(fv[i as int].children == forest_view(children@[i as int].children@));
            assert(np@ == prefix@ + cont(last));
            assert(render_forest(s, prefix@) == prefix@ + marker(last) + s[0].label + seq![NL]
                + render_forest(s[0].children, prefix@ + cont(last)) + render_forest(
                s.skip(1),
                prefix@,
            ));
            assert(out@ =~= out_a + (prefix@ + marker(last) + s[0].label + seq![NL]
                + render_forest(s[0].children, prefix@ + cont(last))));
            assert(out@ + render_forest(fv.skip(i as int + 1), prefix@) =~= out_a + render_forest(
                s,
                prefix@,
            ));
        }
        i = i + 1;
    }
    proof {
        assert(fv.skip(fv.len() as int) =~= Seq::<TreeView>::empty());
        assert(out@ + render_forest(fv.skip(fv.len() as int), prefix@) =~= out@);
    }
}

/// Renders the whole structure section for a tree and its counts.
pub fn render_structure(t: &TreeNode, dirs: u64, files: u64) -> (r: Vec<u8>)
    ensures
        r@ == structure_section(t@, dirs as nat, files as nat),
{
    let mut out: Vec<u8> = Vec::new();
    proof {
        assert(out@ =~= Seq::<u8>::empty());
    }
    app_struct_open(&mut out);
    app_bytes(&mut out, &t.label);
    out.push(NL);
    let empty: Vec<u8> = Vec::new();
    proof {
        assert(empty@ =~= Seq::<u8>::empty());
    }
    render_forest_into(&t.children, &empty, &mut out);
    out.push(NL);
    app_dec(&mut out, dirs);
    app_dirs_label(&mut out);
    app_dec(&mut out, files);
    app_files_label(&mut out);
    app_struct_close(&mut out);
    proof {
        assert(out@ =~= structure_section(node_view(*t), dirs as nat, files as nat));
    }
    out
}

/// Renders the block of a file whose content decoded.
pub fn render_file_block_ok(path: &Vec<u8>, content: &Vec<u8>) -> (r: Vec<u8>)
    ensures
        r@ == spec_file_block_ok(path@, content@),
{
    let mut out: Vec<u8> = Vec::new();
    proof {
        assert(out@ =~= Seq::<u8>::empty());
    }
    app_file_open_pre(&mut out);
    let mut ep = escape_xml(path.as_slice());
    out.append(&mut ep);
    app_file_open_post(&mut out);
    let mut ec = escape_xml(content.as_slice());
    out.append(&mut ec);
    out.push(NL);
    app_file_close(&mut out);
    out.push(NL);
    proof {
        assert(out@ =~= spec_file_block_ok(path@, content@));
    }
    out
}

/// Renders the block of a file that classified as text but failed to decode.
pub fn render_file_block_err(path: &Vec<u8>, message: &Vec<u8>) -> (r: Vec<u8>)
    ensures
        r@ == spec_file_block_err(path@, message@),
{
    let mut out: Vec<u8> = Vec::new();
    proof {
        assert(out@ =~= Seq::<u8>::empty());
    }
    app_file_open_pre(&mut out);
    let mut ep = escape_xml(path.as_slice());
    out.append(&mut ep);
    app_file_open_post(&mut out);
    app_err_pre(&mut out);
    app_bytes(&mut out, message);
    app_err_post(&mut out);
    app_file_close(&mut out);
    out.push(NL);
    proof {
        assert(out@ =~= spec_file_block_err(path@, message@));
    }
    out
}

/// Renders what one scanned entry contributes to the content section.
pub fn render_entry_block(e: &ScanEntry) -> (r: Vec<u8>)
    ensures
        r@ == spec_entry_block(*e),
{
    match e.kind {
        EntryKind::File => {},
        _ => {
            let r: Vec<u8> = Vec::new();
            proof {
                assert(r@ =~= Seq::<u8>::empty());
            }
            return r;
        },
    }
    match &e.data {
        FileData::Content(b) => {
            match classify_content(b) {
                Classification::Text => render_file_block_ok(&e.path, b),
                Classification::Binary => {
                    let r: Vec<u8> = Vec::new();
                    proof {
                        assert(r@ =~= Seq::<u8>::empty());
                    }
                    r
                },
            }
        },
        FileData::Invalid(pfx, msg) => {
            match classify_prefix(pfx.as_slice()) {
                Classification::Text => render_file_block_err(&e.path, msg),
                Classification::Binary => {
                    let r: Vec<u8> = Vec::new();
                    proof {
                        assert(r@ =~= Seq::<u8>::empty());
                    }
                    r
                },
            }
        },
        FileData::Unavailable => {
            let r: Vec<u8> = Vec::new();
            proof {
                assert(r@ =~= Seq::<u8>::empty());
            }
            r
        },
    }
}

/// Renders the complete artifact for the scanned entries, given in the order
/// the content section is to follow.
pub fn render_document(entries: &Vec<ScanEntry>) -> (r: Vec<u8>)
    ensures
        r@ == spec_document(entries@),
{
    let mut kinds: Vec<EntryKind> = Vec::new();
    let mut paths: Vec<Vec<u8>> = Vec::new();
    let mut i: usize = 0;
    proof {
        assert(kinds@ =~= entry_kinds(entries@.take(0)));
        assert(paths.deep_view() =~= entry_paths(entries@.take(0)));
    }
    while i < entries.len()
        invariant
            i <= entries@.len(),
            kinds@ == entry_kinds(entries@.take(i as int)),
            paths.deep_view() == entry_paths(entries@.take(i as int)),
        decreases entries@.len() - i,
    {
        let ghost p0 = paths.deep_view();
        kinds.push(entries[i].kind);
        let c = clone_bytes(&entries[i].path);
        proof {
            assert(c.deep_view() =~= c@);
        }
        let ghost cv = c@;
        paths.push(c);
        proof {
            assert(kinds@ =~= entry_kinds(entries@.take(i as int + 1)));
            assert(cv == entries@[i as int].path@);
            assert(paths.deep_view() =~= p0.push(cv));
            assert(entry_paths(entries@.take(i as int + 1)) =~= entry_paths(
                entries@.take(i as int),
            ).push(entries@[i as int].path@));
        }
        i = i + 1;
    }
    proof {
        assert(entries@.take(entries@.len() as int) =~= entries@);
        lemma_count_both_bound(entry_kinds(entries@));
    }
    let tree = build_tree(&paths);
    let (dirs, files) = count_entries(&kinds);
    let mut out: Vec<u8> = Vec::new();
    proof {
        assert(out@ =~= Seq::<u8>::empty());
    }
    app_doc_open(&mut out);
    let mut st = render_structure(&tree, dirs, files);
    out.append(&mut st);
    out.push(NL);
    let ghost mid = out@;
    let mut k: usize = 0;
    proof {
        assert(mid + spec_blocks(entries@.take(0)) =~= mid);
    }
    while k < entries.len()
        invariant
            k <= entries@.len(),
            out@ == mid + spec_blocks(entries@.take(k as int)),
        decreases entries@.len() - k,
    {
        let ghost out_a = out@;
        let mut b = render_entry_block(&entries[k]);
        out.append(&mut b);
        proof {
            let t1 = entries@.take(k as int + 1);
            assert(t1.drop_last() =~= entries@.take(k as int));
            assert(t1.last() == entries@[k as int]);
            assert(out@ =~= mid + spec_blocks(t1));
        }
        k = k + 1;
    }
    proof {
        assert(entries@.take(entries@.len() as int) =~= entries@);
    }
    app_doc_close(&mut out);
    proof {
        assert(out@ =~= spec_document(entries@));
    }
    out
}

} // verus!
