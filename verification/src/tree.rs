//! In-memory model of a directory tree.
//!
//! A scan works on plain values: each directory entry is an [`FsNode`]
//! carrying its base name and, for files, its byte length, or, for
//! directories, its own entries. The caller lists the real filesystem into
//! this shape once; everything after that point is ordinary data.

use vstd::prelude::*;

verus! {

/// One directory entry: a regular file with its byte length, a directory
/// with its entries, a symbolic link, or anything else (sockets, devices,
/// fifos). Only the base name is stored; full paths are built during
/// traversal.
pub enum FsNode {
    File { name: String, size: u64 },
    Dir { name: String, entries: Vec<FsNode> },
    Symlink { name: String },
    Other { name: String },
}

impl FsNode {
    /// The entry's base name, as a sequence of characters.
    pub open spec fn name_view(self) -> Seq<char> {
        match self {
            FsNode::File { name, .. } => name@,
            FsNode::Dir { name, .. } => name@,
            FsNode::Symlink { name } => name@,
            FsNode::Other { name } => name@,
        }
    }

    /// A directory's entries; anything else has none.
    pub open spec fn entries_view(self) -> Seq<FsNode> {
        match self {
            FsNode::Dir { entries, .. } => entries@,
            _ => Seq::empty(),
        }
    }
}

/// Total byte length of all regular files in the subtree rooted at `n`
/// (a file counts itself; a directory counts its contents; links and
/// special entries count as nothing).
pub open spec fn size_of_node(n: FsNode) -> nat
    decreases n,
{
    match n {
        FsNode::File { size, .. } => size as nat,
        FsNode::Dir { entries, .. } => size_of_entries(entries@),
        FsNode::Symlink { .. } => 0,
        FsNode::Other { .. } => 0,
    }
}

/// Total byte length of all regular files under a sequence of entries.
pub open spec fn size_of_entries(es: Seq<FsNode>) -> nat
    decreases es,
{
    if es.len() == 0 {
        0
    } else {
        size_of_node(es[0]) + size_of_entries(es.drop_first())
    }
}

/// No symbolic link appears anywhere in the subtree rooted at `n`.
pub open spec fn node_symlink_free(n: FsNode) -> bool
    decreases n,
{
    match n {
        FsNode::Symlink { .. } => false,
        FsNode::Dir { entries, .. } => entries_symlink_free(entries@),
        _ => true,
    }
}

/// No symbolic link appears anywhere under this sequence of entries.
pub open spec fn entries_symlink_free(es: Seq<FsNode>) -> bool
    decreases es,
{
    if es.len() == 0 {
        true
    } else {
        node_symlink_free(es[0]) && entries_symlink_free(es.drop_first())
    }
}

/// Number of entries in the subtree rooted at `n`, each counted twice:
/// a termination measure for walks, shaped so that replacing a directory
/// entry by a frame over its contents strictly shrinks it.
pub open spec fn node_weight(n: FsNode) -> nat
    decreases n,
{
    match n {
        FsNode::Dir { entries, .. } => 2 + entries_weight(entries@),
        _ => 2,
    }
}

/// Combined weight of a sequence of entries.
pub open spec fn entries_weight(es: Seq<FsNode>) -> nat
    decreases es,
{
    if es.len() == 0 {
        0
    } else {
        node_weight(es[0]) + entries_weight(es.drop_first())
    }
}

/// A suffix weighs no more than the whole, and taking one entry off the
/// front of a suffix takes that entry's whole weight off.
pub proof fn lemma_weight_at(es: Seq<FsNode>, j: int)
    requires
        0 <= j <= es.len(),
    ensures
        entries_weight(es.skip(j)) <= entries_weight(es),
        j < es.len() ==> entries_weight(es.skip(j)) == node_weight(es[j]) + entries_weight(
            es.skip(j + 1),
        ),
    decreases j,
{
    if j == 0 {
        assert(es.skip(0) =~= es);
    } else {
        lemma_weight_at(es.drop_first(), j - 1);
        assert(es.drop_first().skip(j - 1) =~= es.skip(j));
    }
    if j < es.len() {
        assert(es.skip(j).drop_first() =~= es.skip(j + 1));
        assert(es.skip(j)[0] == es[j]);
    }
}

} // verus!
