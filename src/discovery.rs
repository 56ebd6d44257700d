//! Selection of the documents among the entries that a walk of the root
//! directory found.
use vstd::prelude::*;
use crate::paths::{RelPath, doc_extension, extension_of, has_doc_extension, is_hidden, is_hidden_name};
use crate::tree::views;

verus! {

/// One entry that a walk of the root found: its path relative to the root,
/// as components, and whether it is a regular file.
#[derive(Clone, Debug)]
pub struct WalkEntry {
    pub parts: Vec<String>,
    pub is_file: bool,
}

impl View for WalkEntry {
    type V = (Seq<Seq<char>>, bool);

    open spec fn view(&self) -> (Seq<Seq<char>>, bool) {
        (self.parts@.map_values(|p: String| p@), self.is_file)
    }
}

/// No component of the path is hidden: a hidden directory hides everything
/// below it.
pub open spec fn is_visible(parts: Seq<Seq<char>>) -> bool {
    forall|i: int| 0 <= i < parts.len() ==> !is_hidden_name(#[trigger] parts[i])
}

/// An entry is a document where it is a regular file, visible, and its name's
/// extension is exactly `md`.
pub open spec fn is_document(e: (Seq<Seq<char>>, bool)) -> bool {
    &&& e.1
    &&& e.0.len() > 0
    &&& is_visible(e.0)
    &&& extension_of(e.0.last()) == Some(doc_extension())
}

/// The paths of the documents among `es`, in walk order.
pub open spec fn documents(es: Seq<WalkEntry>) -> Seq<Seq<Seq<char>>>
    decreases es.len(),
{
    if es.len() == 0 {
        seq![]
    } else if is_document(es.last()@) {
        documents(es.drop_last()).push(es.last()@.0)
    } else {
        documents(es.drop_last())
    }
}

/// Whether some component of the path is hidden.
pub fn has_hidden_part(parts: &Vec<String>) -> (r: bool)
    ensures
        r == !is_visible(parts@.map_values(|p: String| p@)),
{
    let ghost v = parts@.map_values(|p: String| p@);
    let mut i: usize = 0;
    while i < parts.len()
        invariant
            i <= parts@.len(),
            v == parts@.map_values(|p: String| p@),
            forall|j: int| 0 <= j < i ==> !is_hidden_name(#[trigger] v[j]),
        decreases parts@.len() - i,
    {
        if is_hidden(parts[i].as_str()) {
            assert(!is_hidden_name(v[i as int]) == false);
            return true;
        }
        i += 1;
    }
    false
}

/// Whether the entry is a document to list.
pub fn is_document_entry(e: &WalkEntry) -> (r: bool)
    ensures
        r == is_document(e@),
{
    let n = e.parts.len();
    if !e.is_file || n == 0 {
        return false;
    }
    if has_hidden_part(&e.parts) {
        return false;
    }
    has_doc_extension(e.parts[n - 1].as_str())
}

/// The relative paths of the documents among the walk's entries, in walk
/// order: regular files with the `md` extension and no hidden component.
pub fn scan_markdown_files(entries: &[WalkEntry]) -> (r: Vec<RelPath>)
    ensures
        views(r@) == documents(entries@),
        forall|i: int| 0 <= i < r@.len() ==> is_visible(#[trigger] r@[i]@),
        forall|i: int|
            0 <= i < r@.len() ==> r@[i]@.len() > 0 && extension_of(#[trigger] r@[i]@.last()) == Some(
                doc_extension(),
            ),
{
    let mut out: Vec<RelPath> = Vec::new();
    let mut i: usize = 0;
    while i < entries.len()
        invariant
            i <= entries@.len(),
            views(out@) == documents(entries@.subrange(0, i as int)),
            forall|j: int| 0 <= j < out@.len() ==> is_document((#[trigger] out@[j]@, true)),
        decreases entries@.len() - i,
    {
        let e = &entries[i];
        let ghost sub = entries@.subrange(0, i + 1);
        assert(sub.drop_last() =~= entries@.subrange(0, i as int));
        assert(sub.last() == *e);
        if is_document_entry(e) {
            let p = RelPath { parts: e.parts.clone() };
            assert(p@ == e@.0);
            let ghost before = out@;
            out.push(p);
            assert(views(out@) =~= views(before).push(p@));
        }
        i += 1;
    }
    assert(entries@.subrange(0, entries@.len() as int) =~= entries@);
    out
}

} // verus!
