//! Finds project roots in a directory tree and sizes their build-output
//! directories.
//!
//! A project root is a directory holding a manifest file (`Cargo.toml`); its
//! build output lives in a marker subdirectory (`target`). Discovery walks
//! the tree with an explicit-stack walker, prunes marker and hidden
//! directories, and records one [`CrateInfo`] per project: the project path
//! and, when a marker directory is present, the total byte length of the
//! files under it.

use vstd::prelude::*;

pub mod cli;
pub mod display;
pub mod iter;
pub mod laws;
pub mod tree;

verus! {

use crate::iter::{kept_entry, DirIter, DirIterItem, Frame, WalkError};
use crate::tree::{
    entries_symlink_free, entries_weight, lemma_weight_at, node_symlink_free, node_weight,
    size_of_entries, size_of_node, FsNode,
};

/// Scan options: where to search, whether to follow symbolic links, and
/// whether projects without a marker directory are shown.
pub struct Args {
    pub search_dir: Option<String>,
    pub follow_symlinks: bool,
    pub show_empty: bool,
}

/// One discovered project: its directory path and, if a marker directory
/// was found next to the manifest, the marker directory's total size.
#[derive(Debug, PartialEq, Eq)]
pub struct CrateInfo {
    pub path: String,
    pub target_dir_size: Option<u64>,
}

/// The mathematical shadow of a [`CrateInfo`]: the path as characters and
/// the size as an unbounded number.
pub ghost struct CrateRecord {
    pub path: Seq<char>,
    pub size: Option<nat>,
}

impl View for CrateInfo {
    type V = CrateRecord;

    open spec fn view(&self) -> CrateRecord {
        CrateRecord {
            path: self.path@,
            size: match self.target_dir_size {
                Some(s) => Some(s as nat),
                None => None,
            },
        }
    }
}

/// A sequence of discovered projects, seen abstractly.
pub open spec fn records_view(s: Seq<CrateInfo>) -> Seq<CrateRecord> {
    s.map_values(|c: CrateInfo| c@)
}

/// Accumulates the projects a scan discovers.
pub struct Context {
    pub crates: Vec<CrateInfo>,
}

impl Context {
    pub fn new() -> (r: Self)
        ensures
            r.crates@ == Seq::<CrateInfo>::empty(),
    {
        Self { crates: Vec::new() }
    }
}

/// The fixed file name that marks a directory as a project root.
pub open spec fn manifest_name() -> Seq<char> {
    "Cargo.toml"@
}

/// The fixed name of the build-output subdirectory whose size is reported
/// and whose contents are never searched for further projects.
pub open spec fn marker_name() -> Seq<char> {
    "target"@
}

/// Names starting with a dot mark directories that are never entered.
pub open spec fn hidden_name(name: Seq<char>) -> bool {
    name.len() > 0 && name[0] == '.'
}

/// The path of an entry called `name` inside the directory at `p`.
pub open spec fn joined(p: Seq<char>, name: Seq<char>) -> Seq<char> {
    p + "/"@ + name
}

/// The projects still to be reported from a directory at path `p` whose
/// unvisited entries are `es`, given the directory's current marks: whether
/// a manifest was already seen (`hm`), the contents of an already-seen but
/// not yet sized marker subdirectory (`tgt`), and whether a project record
/// for this directory was already appended (`done`).
///
/// Entries are taken front to back. A manifest sighting and a marker
/// sighting each trigger a sized record as soon as both have happened; a
/// directory whose manifest never meets a marker is reported with no size
/// when its entries run out. Marker and hidden subdirectories are not
/// entered; any other subdirectory contributes its own projects in place.
pub open spec fn disc_rest(
    p: Seq<char>,
    es: Seq<FsNode>,
    hm: bool,
    tgt: Option<Seq<FsNode>>,
    done: bool,
) -> Seq<CrateRecord>
    decreases es,
{
    if es.len() == 0 {
        if !done && hm {
            seq![CrateRecord { path: p, size: None }]
        } else {
            Seq::empty()
        }
    } else {
        let rest = es.drop_first();
        match es[0] {
            FsNode::File { name, .. } => {
                if name@ == manifest_name() {
                    match tgt {
                        Some(t) => seq![
                            CrateRecord { path: p, size: Some(size_of_entries(t)) },
                        ] + disc_rest(p, rest, true, None, true),
                        None => disc_rest(p, rest, true, None, done),
                    }
                } else {
                    disc_rest(p, rest, hm, tgt, done)
                }
            },
            FsNode::Dir { name, entries } => {
                if name@ == marker_name() {
                    if hm {
                        seq![
                            CrateRecord { path: p, size: Some(size_of_entries(entries@)) },
                        ] + disc_rest(p, rest, hm, None, true)
                    } else {
                        disc_rest(p, rest, hm, Some(entries@), done)
                    }
                } else if !hidden_name(name@) {
                    disc_rest(joined(p, name@), entries@, false, None, false) + disc_rest(
                        p,
                        rest,
                        hm,
                        tgt,
                        done,
                    )
                } else {
                    disc_rest(p, rest, hm, tgt, done)
                }
            },
            _ => disc_rest(p, rest, hm, tgt, done),
        }
    }
}

/// Every project under the directory at path `p` with entries `es`, in the
/// order discovery reports them.
pub open spec fn crate_records(p: Seq<char>, es: Seq<FsNode>) -> Seq<CrateRecord> {
    disc_rest(p, es, false, None, false)
}

/// Entries a walker skips silently carry no bytes, so dropping a skipped
/// prefix leaves the total size as it was; past it, the total splits into
/// the entry at `j` and what follows.
proof fn lemma_size_at(es: Seq<FsNode>, j: int)
    requires
        0 <= j <= es.len(),
        forall|i: int| 0 <= i < j ==> (#[trigger] es[i]) is Symlink || es[i] is Other,
    ensures
        size_of_entries(es.skip(j)) == size_of_entries(es),
        j < es.len() ==> size_of_entries(es) == size_of_node(es[j]) + size_of_entries(
            es.skip(j + 1),
        ),
    decreases j,
{
    if j == 0 {
        assert(es.skip(0) =~= es);
    } else {
        assert forall|i: int| 0 <= i < j - 1 implies (#[trigger] es.drop_first()[i]) is Symlink
            || es.drop_first()[i] is Other by {
            assert(es.drop_first()[i] == es[i + 1]);
        }
        lemma_size_at(es.drop_first(), j - 1);
        assert(es.drop_first().skip(j - 1) =~= es.skip(j));
        if j < es.len() {
            assert(es.drop_first().skip(j) =~= es.skip(j + 1));
            assert(es.drop_first()[j - 1] == es[j]);
        }
        assert(size_of_node(es[0]) == 0);
    }
    if j < es.len() {
        assert(es.skip(j).drop_first() =~= es.skip(j + 1));
        assert(es.skip(j)[0] == es[j]);
    }
}

/// A symlink-free batch of entries stays symlink-free under the walker's
/// steps: each entry is clean and so is every suffix.
proof fn lemma_symfree_at(es: Seq<FsNode>, j: int)
    requires
        entries_symlink_free(es),
        0 <= j <= es.len(),
    ensures
        j < es.len() ==> node_symlink_free(es[j]),
        entries_symlink_free(es.skip(j)),
    decreases j,
{
    if j == 0 {
        assert(es.skip(0) =~= es);
    } else {
        lemma_symfree_at(es.drop_first(), j - 1);
        assert(es.drop_first().skip(j - 1) =~= es.skip(j));
        assert(j < es.len() ==> es.drop_first()[j - 1] == es[j]);
    }
}

/// Dropping a prefix the walker skips silently does not change which
/// projects are still to be reported.
proof fn lemma_disc_rest_skipped(
    p: Seq<char>,
    es: Seq<FsNode>,
    hm: bool,
    tgt: Option<Seq<FsNode>>,
    done: bool,
    j: int,
)
    requires
        0 <= j <= es.len(),
        forall|i: int| 0 <= i < j ==> (#[trigger] es[i]) is Symlink || es[i] is Other,
    ensures
        disc_rest(p, es.skip(j), hm, tgt, done) == disc_rest(p, es, hm, tgt, done),
    decreases j,
{
    if j == 0 {
        assert(es.skip(0) =~= es);
    } else {
        assert forall|i: int| 0 <= i < j - 1 implies (#[trigger] es.drop_first()[i]) is Symlink
            || es.drop_first()[i] is Other by {
            assert(es.drop_first()[i] == es[i + 1]);
        }
        lemma_disc_rest_skipped(p, es.drop_first(), hm, tgt, done, j - 1);
        assert(es.drop_first().skip(j - 1) =~= es.skip(j));
    }
}

/// Appending one project appends its abstract record.
proof fn lemma_records_view_push(s: Seq<CrateInfo>, c: CrateInfo)
    ensures
        records_view(s.push(c)) == records_view(s).push(c@),
{
    assert(records_view(s.push(c)) =~= records_view(s).push(c@));
}

/// Bytes still to be counted by a size walk: the unvisited entries of
/// every open frame.
pub open spec fn rem_size<T>(fs: Seq<Frame<T>>) -> nat
    decreases fs.len(),
{
    if fs.len() == 0 {
        0
    } else {
        size_of_entries(fs.last().entries@) + rem_size(fs.drop_last())
    }
}

/// No open frame still holds a symbolic link anywhere in its unvisited
/// entries.
pub open spec fn frames_symlink_free<T>(fs: Seq<Frame<T>>) -> bool {
    forall|i: int| 0 <= i < fs.len() ==> entries_symlink_free(#[trigger] fs[i].entries@)
}

/// Weight still to be walked: the unvisited entries of every open frame,
/// plus one per open frame.
pub open spec fn frames_weight<T>(fs: Seq<Frame<T>>) -> nat
    decreases fs.len(),
{
    if fs.len() == 0 {
        0
    } else {
        entries_weight(fs.last().entries@) + 1 + frames_weight(fs.drop_last())
    }
}

/// Per-directory marks for the discovery walk.
pub struct DirContext {
    /// The directory holds the manifest file.
    pub has_manifest: bool,
    /// Entries of the directory's marker subdirectory, if one was seen and
    /// not yet sized.
    pub target_dir: Option<Vec<FsNode>>,
    /// A project record for this directory was already appended.
    pub done: bool,
}

impl DirContext {
    pub fn new() -> (r: Self)
        ensures
            !r.has_manifest,
            r.target_dir is None,
            !r.done,
    {
        Self { has_manifest: false, target_dir: None, done: false }
    }
}

/// Per-directory state of a size walk: none is needed.
pub struct DirSizeContext {}

impl DirSizeContext {
    pub fn new() -> (r: Self) {
        Self {}
    }
}

/// The path of the entry `name` inside the directory at `p`.
fn join_path(p: &String, name: &String) -> (r: String)
    ensures
        r@ == joined(p@, name@),
{
    p.clone().concat("/").concat(name.as_str())
}

/// Once a directory has shown both its manifest and its marker
/// subdirectory, walk the marker subdirectory in full — descending into
/// every subdirectory, pruning nothing — sum the byte lengths of its
/// files, and append the project record; the frame is marked `done` so
/// that finishing the directory does not report it a second time. Before
/// both have been seen, this does nothing.
pub fn try_compute_target_size(
    ctx: &mut Context,
    args: &Args,
    dir: &mut Frame<DirContext>,
) -> (r: Result<(), WalkError>)
    requires
        match old(dir).data.target_dir {
            Some(v) => size_of_entries(v@) <= u64::MAX,
            None => true,
        },
    ensures
        final(dir).path == old(dir).path,
        final(dir).entries == old(dir).entries,
        final(dir).data.has_manifest == old(dir).data.has_manifest,
        !(old(dir).data.has_manifest && old(dir).data.target_dir is Some) ==> {
            &&& r == Ok::<(), WalkError>(())
            &&& final(dir).data == old(dir).data
            &&& final(ctx).crates == old(ctx).crates
        },
        old(dir).data.has_manifest && old(dir).data.target_dir is Some ==> {
            let t = old(dir).data.target_dir->0@;
            &&& final(dir).data.target_dir is None
            &&& final(dir).data.done
            &&& r is Ok ==> records_view(final(ctx).crates@) == records_view(
                old(ctx).crates@,
            ).push(CrateRecord { path: old(dir).path@, size: Some(size_of_entries(t)) })
            &&& !args.follow_symlinks ==> r is Ok
            &&& args.follow_symlinks && entries_symlink_free(t) ==> r is Ok
            &&& r is Err ==> args.follow_symlinks && final(ctx).crates == old(ctx).crates
        },
{
    if !dir.data.has_manifest {
        return Ok(());
    }
    let t = match dir.data.target_dir.take() {
        None => {
            return Ok(());
        },
        Some(t) => t,
    };
    dir.data.done = true;

    let ghost t0 = t@;
    let mut size: u64 = 0;
    let tpath = join_path(&dir.path, &"target".to_owned());
    let mut dir_iter = DirIter::<DirSizeContext>::new(tpath, t, DirSizeContext::new())
        .follow_symlinks(args.follow_symlinks);
    proof {
        assert(dir_iter.frames().drop_last() =~= Seq::<Frame<DirSizeContext>>::empty());
        assert(rem_size(Seq::<Frame<DirSizeContext>>::empty()) == 0);
        assert(rem_size(dir_iter.frames()) == size_of_entries(t0));
    }
    loop
        invariant
            dir_iter.well_formed(),
            dir_iter.follow() == args.follow_symlinks,
            size as nat + rem_size(dir_iter.frames()) == size_of_entries(t0),
            size_of_entries(t0) <= u64::MAX,
            args.follow_symlinks && entries_symlink_free(t0) ==> frames_symlink_free(
                dir_iter.frames(),
            ),
            ctx.crates == old(ctx).crates,
            dir.path == old(dir).path,
            dir.entries == old(dir).entries,
            dir.data.has_manifest == old(dir).data.has_manifest,
            dir.data.target_dir is None,
            dir.data.done,
            old(dir).data.has_manifest,
            old(dir).data.target_dir is Some,
            old(dir).data.target_dir->0@ == t0,
        ensures
            size as nat == size_of_entries(t0),
            ctx.crates == old(ctx).crates,
            dir.path == old(dir).path,
            dir.entries == old(dir).entries,
            dir.data.has_manifest == old(dir).data.has_manifest,
            dir.data.target_dir is None,
            dir.data.done,
        decreases frames_weight(dir_iter.frames()),
    {
        let ghost fs = dir_iter.frames();
        let ghost fl = dir_iter.follow();
        match dir_iter.next() {
            Err(e) => {
                proof {
                    let es = fs.last().entries@;
                    let j = crate::iter::skip_count(es, fl);
                    crate::iter::lemma_skip_count_bounds(es, fl);
                    assert(es[j] is Symlink);
                    assert(fl);
                    if args.follow_symlinks && entries_symlink_free(t0) {
                        assert(entries_symlink_free(es));
                        lemma_symfree_at(es, j);
                        assert(false);
                    }
                }
                return Err(e);
            },
            Ok(None) => {
                proof {
                    if fs.len() > 0 {
                        let es = fs.last().entries@;
                        crate::iter::lemma_skip_count_bounds(es, fl);
                    }
                    assert(fs.len() == 0);
                    assert(rem_size(fs) == 0);
                }
                break ;
            },
            Ok(Some(item)) => match item {
                DirIterItem::File { name: _, size: fsize } => {
                    proof {
                        let es = fs.last().entries@;
                        let j = crate::iter::skip_count(es, fl);
                        let fs1 = dir_iter.frames();
                        crate::iter::lemma_skip_count_bounds(es, fl);
                        lemma_prefix_special(es, fl, j);
                        assert(j < es.len() && es[j] is File);
                        lemma_size_at(es, j);
                        lemma_weight_at(es, j);
                        assert(size_of_node(es[j]) == fsize as nat);
                        assert(fs1.drop_last() =~= fs.drop_last());
                        assert(rem_size(fs1) == size_of_entries(es.skip(j + 1)) + rem_size(
                            fs.drop_last(),
                        ));
                        assert(rem_size(fs) == size_of_entries(es) + rem_size(fs.drop_last()));
                        if args.follow_symlinks && entries_symlink_free(t0) {
                            lemma_symfree_at(es, j + 1);
                            assert forall|i: int| 0 <= i < fs1.len() implies entries_symlink_free(
                                #[trigger] fs1[i].entries@,
                            ) by {
                                if i < fs.len() - 1 {
                                    assert(fs1[i] == fs[i]);
                                }
                            }
                        }
                        assert(entries_weight(es.skip(j + 1)) < entries_weight(es));
                        lemma_frames_weight_last(fs, fs1);
                    }
                    size = size + fsize;
                },
                DirIterItem::Dir(node) => {
                    proof {
                        let es = fs.last().entries@;
                        let j = crate::iter::skip_count(es, fl);
                        crate::iter::lemma_skip_count_bounds(es, fl);
                        lemma_prefix_special(es, fl, j);
                        assert(j < es.len() && es[j] is Dir);
                        assert(node == es[j]);
                        lemma_size_at(es, j);
                        lemma_weight_at(es, j);
                        assert(dir_iter.frames().drop_last() =~= fs.drop_last());
                        if args.follow_symlinks && entries_symlink_free(t0) {
                            lemma_symfree_at(es, j);
                            lemma_symfree_at(es, j + 1);
                        }
                    }
                    let ghost fs1 = dir_iter.frames();
                    let p = dir_iter.current_dir().path.clone();
                    proof {
                        assert(dir_iter.frames() =~= fs1);
                    }
                    match node {
                        FsNode::Dir { name, entries } => {
                            let child_path = join_path(&p, &name);
                            dir_iter.enter_dir(child_path, entries, DirSizeContext::new());
                            proof {
                                let es = fs.last().entries@;
                                let j = crate::iter::skip_count(es, fl);
                                let fs2 = dir_iter.frames();
                                assert(fs2.drop_last() =~= fs1);
                                assert(fs1.drop_last() =~= fs.drop_last());
                                assert(rem_size(fs2) == size_of_entries(entries@) + rem_size(fs1));
                                assert(rem_size(fs1) == size_of_entries(es.skip(j + 1)) + rem_size(
                                    fs.drop_last(),
                                ));
                                assert(rem_size(fs) == size_of_entries(es) + rem_size(
                                    fs.drop_last(),
                                ));
                                assert(size_of_node(es[j]) == size_of_entries(entries@));
                                if args.follow_symlinks && entries_symlink_free(t0) {
                                    assert(node_symlink_free(fs.last().entries@[j]));
                                    assert forall|i: int|
                                        0 <= i < fs2.len() implies entries_symlink_free(
                                        #[trigger] fs2[i].entries@,
                                    ) by {
                                        if i < fs.len() - 1 {
                                            assert(fs2[i] == fs1[i] && fs1[i] == fs[i]);
                                        } else if i == fs.len() - 1 {
                                            assert(fs2[i] == fs1[i]);
                                        }
                                    }
                                }
                                assert(node_weight(es[j]) == 2 + entries_weight(entries@));
                                lemma_frames_weight_push(fs1, fs2);
                                lemma_frames_weight_last(fs, fs1);
                            }
                        },
                        _ => vstd::pervasive::unreached(),
                    }
                },
                DirIterItem::FinishedDir(_) => {
                    proof {
                        let es = fs.last().entries@;
                        let j = crate::iter::skip_count(es, fl);
                        let fs1 = dir_iter.frames();
                        crate::iter::lemma_skip_count_bounds(es, fl);
                        lemma_prefix_special(es, fl, j);
                        assert(j == es.len());
                        lemma_size_at(es, j);
                        assert(size_of_entries(es.skip(j)) == 0);
                        assert(fs1 =~= fs.drop_last());
                        assert(rem_size(fs) == size_of_entries(es) + rem_size(fs.drop_last()));
                        if args.follow_symlinks && entries_symlink_free(t0) {
                            assert forall|i: int| 0 <= i < fs1.len() implies entries_symlink_free(
                                #[trigger] fs1[i].entries@,
                            ) by {
                                assert(fs1[i] == fs[i]);
                            }
                        }
                    }
                },
            },
        }
    }
    let rec = CrateInfo { path: dir.path.clone(), target_dir_size: Some(size) };
    proof {
        lemma_records_view_push(ctx.crates@, rec);
    }
    ctx.crates.push(rec);
    Ok(())
}

/// The stored marker-directory entries of a discovery frame, seen
/// abstractly.
pub open spec fn tgt_view(d: DirContext) -> Option<Seq<FsNode>> {
    match d.target_dir {
        Some(v) => Some(v@),
        None => None,
    }
}

/// The projects an open discovery frame will still report.
pub open spec fn frame_rest(f: Frame<DirContext>) -> Seq<CrateRecord> {
    disc_rest(f.path@, f.entries@, f.data.has_manifest, tgt_view(f.data), f.data.done)
}

/// The projects a discovery walk will still report, over all open frames,
/// innermost first.
pub open spec fn rem_records(fs: Seq<Frame<DirContext>>) -> Seq<CrateRecord>
    decreases fs.len(),
{
    if fs.len() == 0 {
        Seq::empty()
    } else {
        frame_rest(fs.last()) + rem_records(fs.drop_last())
    }
}

/// Every total that a discovery walk may still have to compute fits the
/// size type: the unvisited entries and any stored marker entries of each
/// open frame.
pub open spec fn frames_sizes_ok(fs: Seq<Frame<DirContext>>) -> bool {
    forall|i: int|
        0 <= i < fs.len() ==> {
            &&& size_of_entries((#[trigger] fs[i]).entries@) <= u64::MAX
            &&& match fs[i].data.target_dir {
                Some(v) => size_of_entries(v@) <= u64::MAX,
                None => true,
            }
        }
}

/// No open discovery frame still holds a symbolic link, neither in its
/// unvisited entries nor in its stored marker entries.
pub open spec fn frames_clean(fs: Seq<Frame<DirContext>>) -> bool {
    forall|i: int|
        0 <= i < fs.len() ==> {
            &&& entries_symlink_free((#[trigger] fs[i]).entries@)
            &&& match fs[i].data.target_dir {
                Some(v) => entries_symlink_free(v@),
                None => true,
            }
        }
}

/// One walker step that neither enters nor leaves a directory: the
/// innermost frame advanced, `emitted` was appended, and the walk's
/// running conditions are preserved. `cln` carries the symlink-free side
/// of the invariant only when it is needed.
proof fn lemma_step_frame(
    fs: Seq<Frame<DirContext>>,
    fs1: Seq<Frame<DirContext>>,
    v0: Seq<CrateRecord>,
    v1: Seq<CrateRecord>,
    emitted: Seq<CrateRecord>,
    cln: bool,
)
    requires
        fs.len() > 0,
        fs1.len() == fs.len(),
        fs1.drop_last() == fs.drop_last(),
        frame_rest(fs.last()) == emitted + frame_rest(fs1.last()),
        v1 == v0 + emitted,
        frames_sizes_ok(fs),
        size_of_entries(fs1.last().entries@) <= u64::MAX,
        match fs1.last().data.target_dir {
            Some(v) => size_of_entries(v@) <= u64::MAX,
            None => true,
        },
        cln ==> frames_clean(fs) && entries_symlink_free(fs1.last().entries@) && match fs1
            .last()
            .data
            .target_dir {
            Some(v) => entries_symlink_free(v@),
            None => true,
        },
    ensures
        v1 + rem_records(fs1) == v0 + rem_records(fs),
        frames_sizes_ok(fs1),
        cln ==> frames_clean(fs1),
{
    assert(rem_records(fs) == frame_rest(fs.last()) + rem_records(fs.drop_last()));
    assert(rem_records(fs1) == frame_rest(fs1.last()) + rem_records(fs1.drop_last()));
    assert(v1 + rem_records(fs1) =~= v0 + rem_records(fs));
    assert forall|i: int| 0 <= i < fs1.len() - 1 implies fs1[i] == fs[i] by {
        assert(fs1[i] == fs1.drop_last()[i]);
        assert(fs[i] == fs.drop_last()[i]);
    }
    assert(fs.last() == fs[fs.len() - 1]);
    assert(fs1.last() == fs1[fs1.len() - 1]);
}

/// One walker step that enters a subdirectory: the parent frame advanced
/// past it and a frame over its entries was pushed.
proof fn lemma_step_enter(
    fs: Seq<Frame<DirContext>>,
    fs1: Seq<Frame<DirContext>>,
    fs2: Seq<Frame<DirContext>>,
    cln: bool,
)
    requires
        fs.len() > 0,
        fs1.len() == fs.len(),
        fs1.drop_last() == fs.drop_last(),
        fs2.len() == fs1.len() + 1,
        fs2.drop_last() == fs1,
        frame_rest(fs.last()) == frame_rest(fs2.last()) + frame_rest(fs1.last()),
        frames_sizes_ok(fs),
        size_of_entries(fs1.last().entries@) <= u64::MAX,
        fs1.last().data == fs.last().data,
        size_of_entries(fs2.last().entries@) <= u64::MAX,
        fs2.last().data.target_dir is None,
        cln ==> frames_clean(fs) && entries_symlink_free(fs1.last().entries@)
            && entries_symlink_free(fs2.last().entries@),
    ensures
        rem_records(fs2) == rem_records(fs),
        frames_sizes_ok(fs2),
        cln ==> frames_clean(fs2),
{
    assert(rem_records(fs) == frame_rest(fs.last()) + rem_records(fs.drop_last()));
    assert(rem_records(fs1) == frame_rest(fs1.last()) + rem_records(fs1.drop_last()));
    assert(rem_records(fs2) == frame_rest(fs2.last()) + rem_records(fs1));
    assert(rem_records(fs2) =~= rem_records(fs));
    assert forall|i: int| 0 <= i < fs1.len() - 1 implies fs1[i] == fs[i] by {
        assert(fs1[i] == fs1.drop_last()[i]);
        assert(fs[i] == fs.drop_last()[i]);
    }
    assert forall|i: int| 0 <= i < fs2.len() - 1 implies fs2[i] == fs1[i] by {
        assert(fs2[i] == fs2.drop_last()[i]);
    }
    assert(fs.last() == fs[fs.len() - 1]);
    assert(fs1.last() == fs1[fs1.len() - 1]);
    assert(fs2.last() == fs2[fs2.len() - 1]);
}

/// Popping the finished innermost frame preserves the walk's running
/// conditions.
proof fn lemma_step_pop(fs: Seq<Frame<DirContext>>, cln: bool)
    requires
        fs.len() > 0,
        frames_sizes_ok(fs),
        cln ==> frames_clean(fs),
    ensures
        frames_sizes_ok(fs.drop_last()),
        cln ==> frames_clean(fs.drop_last()),
{
    assert forall|i: int| 0 <= i < fs.drop_last().len() implies fs.drop_last()[i] == fs[i] by {}
}

/// Walk the tree under `path`, whose entries are `entries`, and append one
/// record per discovered project: directories holding the manifest file,
/// sized by their marker subdirectory when one stands beside the manifest.
/// Marker subdirectories and hidden directories are never entered. With
/// symlink following off the walk always succeeds; requesting it fails at
/// the first symbolic link met, so on a symlink-free tree it succeeds
/// either way.
pub fn find_crates(
    ctx: &mut Context,
    args: &Args,
    path: String,
    entries: Vec<FsNode>,
) -> (r: Result<(), WalkError>)
    requires
        size_of_entries(entries@) <= u64::MAX,
    ensures
        !args.follow_symlinks ==> r is Ok,
        args.follow_symlinks && entries_symlink_free(entries@) ==> r is Ok,
        r is Ok ==> records_view(final(ctx).crates@) == records_view(old(ctx).crates@)
            + crate_records(path@, entries@),
{
    let ghost p0 = path@;
    let ghost es0 = entries@;
    let mut dir_iter = DirIter::<DirContext>::new(path, entries, DirContext::new())
        .follow_symlinks(args.follow_symlinks);
    proof {
        assert(dir_iter.frames().drop_last() =~= Seq::<Frame<DirContext>>::empty());
        assert(rem_records(Seq::<Frame<DirContext>>::empty()) == Seq::<CrateRecord>::empty());
        assert(records_view(ctx.crates@) + rem_records(dir_iter.frames()) =~= records_view(
            ctx.crates@,
        ) + crate_records(p0, es0));
    }
    loop
        invariant
            dir_iter.well_formed(),
            dir_iter.follow() == args.follow_symlinks,
            records_view(ctx.crates@) + rem_records(dir_iter.frames()) == records_view(
                old(ctx).crates@,
            ) + crate_records(p0, es0),
            frames_sizes_ok(dir_iter.frames()),
            args.follow_symlinks && entries_symlink_free(es0) ==> frames_clean(dir_iter.frames()),
            p0 == path@,
            es0 == entries@,
        ensures
            records_view(ctx.crates@) == records_view(old(ctx).crates@) + crate_records(p0, es0),
        decreases frames_weight(dir_iter.frames()),
    {
        let ghost fs = dir_iter.frames();
        let ghost fl = dir_iter.follow();
        let ghost c0 = records_view(ctx.crates@);
        let ghost f = fs.last();
        let ghost es = f.entries@;
        let ghost j = crate::iter::skip_count(es, fl);
        let ghost cln = args.follow_symlinks && entries_symlink_free(es0);
        match dir_iter.next() {
            Err(e) => {
                proof {
                    crate::iter::lemma_skip_count_bounds(es, fl);
                    assert(es[j] is Symlink);
                    assert(fl);
                    if cln {
                        assert(f == fs[fs.len() - 1]);
                        assert(entries_symlink_free(es));
                        lemma_symfree_at(es, j);
                        assert(false);
                    }
                }
                return Err(e);
            },
            Ok(None) => {
                proof {
                    if fs.len() > 0 {
                        crate::iter::lemma_skip_count_bounds(es, fl);
                    }
                    assert(fs.len() == 0);
                    assert(records_view(ctx.crates@) + rem_records(fs) =~= records_view(
                        ctx.crates@,
                    ));
                }
                break ;
            },
            Ok(Some(item)) => match item {
                DirIterItem::File { name, size: _ } => {
                    proof {
                        crate::iter::lemma_skip_count_bounds(es, fl);
                        lemma_prefix_special(es, fl, j);
                        assert(j < es.len() && es[j] is File);
                        lemma_size_at(es, j);
                        lemma_weight_at(es, j);
                        lemma_disc_rest_skipped(
                            f.path@,
                            es,
                            f.data.has_manifest,
                            tgt_view(f.data),
                            f.data.done,
                            j,
                        );
                        assert(es.skip(j).drop_first() =~= es.skip(j + 1));
                        assert(es.skip(j)[0] == es[j]);
                        assert(dir_iter.frames().drop_last() =~= fs.drop_last());
                        assert(f == fs[fs.len() - 1]);
                        if cln {
                            assert(entries_symlink_free(es));
                            lemma_symfree_at(es, j + 1);
                        }
                    }
                    if name == "Cargo.toml".to_owned() {
                        let ghost t_old = tgt_view(f.data);
                        let fr = dir_iter.current_dir();
                        fr.data.has_manifest = true;
                        let res = try_compute_target_size(ctx, args, fr);
                        proof {
                            assert(dir_iter.frames().drop_last() =~= fs.drop_last());
                        }
                        match res {
                            Ok(()) => {
                                proof {
                                    let fs1 = dir_iter.frames();
                                    if t_old is Some {
                                        let rec = CrateRecord {
                                            path: f.path@,
                                            size: Some(size_of_entries(t_old->0)),
                                        };
                                        assert(records_view(ctx.crates@) =~= c0 + seq![rec]);
                                        assert(frame_rest(f) == seq![rec] + frame_rest(
                                            fs1.last(),
                                        ));
                                        lemma_step_frame(
                                            fs,
                                            fs1,
                                            c0,
                                            records_view(ctx.crates@),
                                            seq![rec],
                                            cln,
                                        );
                                    } else {
                                        assert(records_view(ctx.crates@) =~= c0 + Seq::<
                                            CrateRecord,
                                        >::empty());
                                        assert(frame_rest(f) == Seq::<CrateRecord>::empty()
                                            + frame_rest(fs1.last()));
                                        lemma_step_frame(
                                            fs,
                                            fs1,
                                            c0,
                                            records_view(ctx.crates@),
                                            Seq::<CrateRecord>::empty(),
                                            cln,
                                        );
                                    }
                                }
                            },
                            Err(e) => {
                                proof {
                                    if cln {
                                        assert(false);
                                    }
                                }
                                return Err(e);
                            },
                        }
                    } else {
                        proof {
                            let fs1 = dir_iter.frames();
                            assert(records_view(ctx.crates@) =~= c0 + Seq::<CrateRecord>::empty());
                            assert(frame_rest(f) == Seq::<CrateRecord>::empty() + frame_rest(
                                fs1.last(),
                            ));
                            lemma_step_frame(
                                fs,
                                fs1,
                                c0,
                                records_view(ctx.crates@),
                                Seq::<CrateRecord>::empty(),
                                cln,
                            );
                        }
                    }
                },
                DirIterItem::Dir(node) => {
                    proof {
                        crate::iter::lemma_skip_count_bounds(es, fl);
                        lemma_prefix_special(es, fl, j);
                        assert(j < es.len() && es[j] is Dir);
                        assert(node == es[j]);
                        lemma_size_at(es, j);
                        lemma_weight_at(es, j);
                        lemma_disc_rest_skipped(
                            f.path@,
                            es,
                            f.data.has_manifest,
                            tgt_view(f.data),
                            f.data.done,
                            j,
                        );
                        assert(es.skip(j).drop_first() =~= es.skip(j + 1));
                        assert(es.skip(j)[0] == es[j]);
                        assert(dir_iter.frames().drop_last() =~= fs.drop_last());
                        assert(f == fs[fs.len() - 1]);
                        if cln {
                            assert(entries_symlink_free(es));
                            lemma_symfree_at(es, j);
                            lemma_symfree_at(es, j + 1);
                        }
                    }
                    let ghost fs1 = dir_iter.frames();
                    match node {
                        FsNode::Dir { name, entries } => {
                            if name == "target".to_owned() {
                                let fr = dir_iter.current_dir();
                                fr.data.target_dir = Some(entries);
                                let res = try_compute_target_size(ctx, args, fr);
                                proof {
                                    assert(dir_iter.frames().drop_last() =~= fs.drop_last());
                                }
                                match res {
                                    Ok(()) => {
                                        proof {
                                            let fs2 = dir_iter.frames();
                                            if f.data.has_manifest {
                                                let rec = CrateRecord {
                                                    path: f.path@,
                                                    size: Some(size_of_entries(entries@)),
                                                };
                                                assert(records_view(ctx.crates@) =~= c0
                                                    + seq![rec]);
                                                assert(frame_rest(f) == seq![rec] + frame_rest(
                                                    fs2.last(),
                                                ));
                                                lemma_step_frame(
                                                    fs,
                                                    fs2,
                                                    c0,
                                                    records_view(ctx.crates@),
                                                    seq![rec],
                                                    cln,
                                                );
                                            } else {
                                                assert(records_view(ctx.crates@) =~= c0 + Seq::<
                                                    CrateRecord,
                                                >::empty());
                                                assert(frame_rest(f) == Seq::<
                                                    CrateRecord,
                                                >::empty() + frame_rest(fs2.last()));
                                                lemma_step_frame(
                                                    fs,
                                                    fs2,
                                                    c0,
                                                    records_view(ctx.crates@),
                                                    Seq::<CrateRecord>::empty(),
                                                    cln,
                                                );
                                            }
                                        }
                                    },
                                    Err(e) => {
                                        proof {
                                            if cln {
                                                assert(false);
                                            }
                                        }
                                        return Err(e);
                                    },
                                }
                            } else {
                                let hidden = {
                                    let n = name.as_str();
                                    n.unicode_len() > 0 && n.get_char(0) == '.'
                                };
                                if !hidden {
                                    let child_path = {
                                        let fr = dir_iter.current_dir();
                                        join_path(&fr.path, &name)
                                    };
                                    proof {
                                        assert(dir_iter.frames() =~= fs1);
                                    }
                                    dir_iter.enter_dir(child_path, entries, DirContext::new());
                                    proof {
                                        let fs2 = dir_iter.frames();
                                        assert(fs2.drop_last() =~= fs1);
                                        assert(frame_rest(fs2.last()) == disc_rest(
                                            joined(f.path@, name@),
                                            entries@,
                                            false,
                                            None,
                                            false,
                                        ));
                                        assert(frame_rest(f) == frame_rest(fs2.last())
                                            + frame_rest(fs1.last()));
                                        lemma_step_enter(fs, fs1, fs2, cln);
                                        assert(records_view(ctx.crates@) == c0);
                                        assert(node_weight(es[j]) == 2 + entries_weight(entries@));
                                        lemma_frames_weight_push(fs1, fs2);
                                        lemma_frames_weight_last(fs, fs1);
                                    }
                                } else {
                                    proof {
                                        assert(records_view(ctx.crates@) =~= c0 + Seq::<
                                            CrateRecord,
                                        >::empty());
                                        assert(frame_rest(f) == Seq::<CrateRecord>::empty()
                                            + frame_rest(fs1.last()));
                                        lemma_step_frame(
                                            fs,
                                            fs1,
                                            c0,
                                            records_view(ctx.crates@),
                                            Seq::<CrateRecord>::empty(),
                                            cln,
                                        );
                                    }
                                }
                            }
                        },
                        _ => vstd::pervasive::unreached(),
                    }
                },
                DirIterItem::FinishedDir(fr) => {
                    proof {
                        crate::iter::lemma_skip_count_bounds(es, fl);
                        assert(j == es.len());
                        lemma_disc_rest_skipped(
                            f.path@,
                            es,
                            f.data.has_manifest,
                            tgt_view(f.data),
                            f.data.done,
                            j,
                        );
                        assert(es.skip(j) =~= Seq::<FsNode>::empty());
                        assert(dir_iter.frames() =~= fs.drop_last());
                        assert(rem_records(fs) == frame_rest(f) + rem_records(fs.drop_last()));
                        lemma_step_pop(fs, cln);
                    }
                    if !fr.data.done && fr.data.has_manifest {
                        let rec = CrateInfo { path: fr.path, target_dir_size: None };
                        proof {
                            lemma_records_view_push(ctx.crates@, rec);
                            assert(frame_rest(f) =~= seq![rec@]);
                            assert(records_view(ctx.crates@.push(rec)) + rem_records(
                                dir_iter.frames(),
                            ) =~= records_view(ctx.crates@) + rem_records(fs));
                        }
                        ctx.crates.push(rec);
                    } else {
                        proof {
                            assert(frame_rest(f) =~= Seq::<CrateRecord>::empty());
                            assert(records_view(ctx.crates@) + rem_records(dir_iter.frames())
                                =~= records_view(ctx.crates@) + rem_records(fs));
                        }
                    }
                },
            },
        }
    }
    Ok(())
}

/// What the walker silently skips is a symbolic link or a special entry.
proof fn lemma_prefix_special(es: Seq<FsNode>, fl: bool, j: int)
    requires
        0 <= j <= es.len(),
        forall|i: int| 0 <= i < j ==> !kept_entry(#[trigger] es[i], fl),
    ensures
        forall|i: int| 0 <= i < j ==> (#[trigger] es[i]) is Symlink || es[i] is Other,
{
    assert forall|i: int| 0 <= i < j implies (#[trigger] es[i]) is Symlink || es[i] is Other by {
        assert(!kept_entry(es[i], fl));
    }
}

/// Replacing the innermost frame's entries by a lighter suffix makes the
/// whole stack lighter.
proof fn lemma_frames_weight_last<T>(fs: Seq<Frame<T>>, fs1: Seq<Frame<T>>)
    requires
        fs.len() > 0,
        fs1.len() == fs.len(),
        fs1.drop_last() == fs.drop_last(),
        entries_weight(fs1.last().entries@) < entries_weight(fs.last().entries@),
    ensures
        frames_weight(fs1) < frames_weight(fs),
{
}

/// Pushing a frame adds its weight and one.
proof fn lemma_frames_weight_push<T>(fs: Seq<Frame<T>>, fs2: Seq<Frame<T>>)
    requires
        fs2.len() == fs.len() + 1,
        fs2.drop_last() == fs,
    ensures
        frames_weight(fs2) == entries_weight(fs2.last().entries@) + 1 + frames_weight(fs),
{
}

} // verus!
