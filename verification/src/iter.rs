//! Explicit-stack, depth-first directory walker.
//!
//! The walker yields one [`DirIterItem`] at a time and never descends by
//! itself: when it reports a subdirectory, the driver decides whether to
//! call [`DirIter::enter_dir`], which is what makes pruning possible. Each
//! open directory is a [`Frame`]; the innermost frame can be borrowed and
//! mutated between steps through [`DirIter::current_dir`].

use vstd::prelude::*;

use crate::tree::FsNode;

verus! {

/// Per-directory state held while that directory is open: the directory's
/// path, its not-yet-visited entries, and a driver-chosen payload.
pub struct Frame<T> {
    pub path: String,
    pub entries: Vec<FsNode>,
    pub data: T,
}

/// The one failure a walk over in-memory entries can meet: a symbolic link
/// was found while following symbolic links was requested, which this
/// walker does not support.
#[derive(Clone, Copy, Debug, PartialEq, Eq, Structural)]
pub enum WalkError {
    FollowSymlinksUnsupported,
}

/// One traversal step.
pub enum DirIterItem<T> {
    /// A regular file was found.
    File { name: String, size: u64 },
    /// A directory was found; the walker does not descend on its own.
    Dir(FsNode),
    /// The innermost directory ran out of entries and was popped.
    FinishedDir(Frame<T>),
}

/// True when the walker reports the entry to its driver instead of
/// skipping it: files and directories always, symbolic links only when
/// they are to be followed, special entries never.
pub open spec fn kept_entry(e: FsNode, follow: bool) -> bool {
    match e {
        FsNode::File { .. } => true,
        FsNode::Dir { .. } => true,
        FsNode::Symlink { .. } => follow,
        FsNode::Other { .. } => false,
    }
}

/// Number of entries at the front of `es` that the walker silently skips
/// before its next report.
pub open spec fn skip_count(es: Seq<FsNode>, follow: bool) -> int
    decreases es.len(),
{
    if es.len() == 0 {
        0
    } else if kept_entry(es[0], follow) {
        0
    } else {
        1 + skip_count(es.drop_first(), follow)
    }
}

/// `skip_count` is exactly the position of the first kept entry.
pub proof fn lemma_skip_count_is(es: Seq<FsNode>, follow: bool, k: int)
    requires
        0 <= k <= es.len(),
        forall|i: int| 0 <= i < k ==> !kept_entry(#[trigger] es[i], follow),
        k < es.len() ==> kept_entry(es[k], follow),
    ensures
        skip_count(es, follow) == k,
    decreases k,
{
    if k == 0 {
    } else {
        assert(!kept_entry(es[0], follow));
        assert forall|i: int| 0 <= i < k - 1 implies !kept_entry(
            #[trigger] es.drop_first()[i],
            follow,
        ) by {
            assert(es.drop_first()[i] == es[i + 1]);
        }
        assert(k - 1 < es.drop_first().len() ==> kept_entry(es.drop_first()[k - 1], follow));
        lemma_skip_count_is(es.drop_first(), follow, k - 1);
    }
}

/// What `skip_count` points at: everything before it is skipped, and the
/// entry at it, if any, is reported.
pub proof fn lemma_skip_count_bounds(es: Seq<FsNode>, follow: bool)
    ensures
        0 <= skip_count(es, follow) <= es.len(),
        forall|i: int| 0 <= i < skip_count(es, follow) ==> !kept_entry(#[trigger] es[i], follow),
        skip_count(es, follow) < es.len() ==> kept_entry(es[skip_count(es, follow)], follow),
    decreases es.len(),
{
    if es.len() == 0 {
    } else if kept_entry(es[0], follow) {
    } else {
        lemma_skip_count_bounds(es.drop_first(), follow);
        assert forall|i: int| 0 <= i < skip_count(es, follow) implies !kept_entry(
            #[trigger] es[i],
            follow,
        ) by {
            if i > 0 {
                assert(es[i] == es.drop_first()[i - 1]);
            }
        }
        assert(skip_count(es, follow) < es.len() ==> es[skip_count(es, follow)]
            == es.drop_first()[skip_count(es.drop_first(), follow)]);
    }
}

/// The walker: a stack of open directory frames, innermost held apart so
/// that it can be borrowed, plus the fixed symlink-following flag.
pub struct DirIter<T> {
    follow_symlinks: bool,
    stack: Vec<Frame<T>>,
    top: Option<Frame<T>>,
}

impl<T> DirIter<T> {
    /// The open frames, from the traversal root to the innermost directory.
    pub closed spec fn frames(self) -> Seq<Frame<T>> {
        match self.top {
            Some(f) => self.stack@.push(f),
            None => self.stack@,
        }
    }

    /// Whether symbolic links are to be followed.
    pub closed spec fn follow(self) -> bool {
        self.follow_symlinks
    }

    /// The stack empties only when the whole traversal is finished.
    pub closed spec fn well_formed(self) -> bool {
        self.top is None ==> self.stack@.len() == 0
    }

    /// Start a walk with a single frame for the root directory's entries.
    /// Symbolic links are not followed unless `follow_symlinks` says so.
    pub fn new(path: String, entries: Vec<FsNode>, data: T) -> (r: Self)
        ensures
            r.well_formed(),
            !r.follow(),
            r.frames() == seq![Frame { path, entries, data }],
    {
        let r = Self {
            follow_symlinks: false,
            stack: Vec::new(),
            top: Some(Frame { path, entries, data }),
        };
        proof {
            assert(r.frames() =~= seq![Frame { path, entries, data }]);
        }
        r
    }

    /// Set whether symbolic links are followed.
    pub fn follow_symlinks(self, follow_symlinks: bool) -> (r: Self)
        ensures
            r.well_formed() == self.well_formed(),
            r.follow() == follow_symlinks,
            r.frames() == self.frames(),
    {
        Self { follow_symlinks, ..self }
    }

    /// Mutable access to the innermost open frame. May only be called while
    /// the traversal is not finished.
    pub fn current_dir(&mut self) -> (r: &mut Frame<T>)
        requires
            old(self).well_formed(),
            old(self).frames().len() > 0,
        ensures
            *r == old(self).frames().last(),
            final(self).frames() == old(self).frames().drop_last().push(*final(r)),
            final(self).follow() == old(self).follow(),
            final(self).well_formed(),
    {
        proof {
            assert(old(self).frames().drop_last() =~= old(self).stack@);
        }
        match self.top.as_mut() {
            Some(f) => f,
            None => vstd::pervasive::unreached(),
        }
    }

    /// Open a directory as the new innermost frame. May only be called
    /// while the traversal is not finished.
    pub fn enter_dir(&mut self, path: String, entries: Vec<FsNode>, data: T)
        requires
            old(self).well_formed(),
            old(self).frames().len() > 0,
        ensures
            final(self).well_formed(),
            final(self).follow() == old(self).follow(),
            final(self).frames() == old(self).frames().push(Frame { path, entries, data }),
    {
        let prev = self.top.take();
        match prev {
            Some(f) => self.stack.push(f),
            None => vstd::pervasive::unreached(),
        }
        self.top = Some(Frame { path, entries, data });
    }

    /// Produce the next traversal step, or `Ok(None)` once every frame has
    /// been popped. Entries of the innermost frame are consumed front to
    /// back; files and directories are reported, special entries are
    /// skipped, and a symbolic link is skipped or, when following is
    /// requested, reported as the unsupported-feature failure.
    pub fn next(&mut self) -> (r: Result<Option<DirIterItem<T>>, WalkError>)
        requires
            old(self).well_formed(),
        ensures
            final(self).well_formed(),
            final(self).follow() == old(self).follow(),
            old(self).frames().len() == 0 ==> r == Ok::<Option<DirIterItem<T>>, WalkError>(None)
                && final(self).frames() == old(self).frames(),
            old(self).frames().len() > 0 ==> ({
                let fs = old(self).frames();
                let f = fs.last();
                let es = f.entries@;
                let j = skip_count(es, old(self).follow());
                &&& j == es.len() ==> {
                    &&& r matches Ok(Some(DirIterItem::FinishedDir(fr)))
                        && fr.path == f.path
                        && fr.data == f.data
                        && fr.entries@ == Seq::<FsNode>::empty()
                    &&& final(self).frames() == fs.drop_last()
                }
                &&& j < es.len() ==> {
                    &&& es[j] matches FsNode::File { name, size } ==> r == Ok::<
                        Option<DirIterItem<T>>,
                        WalkError,
                    >(Some(DirIterItem::File { name, size }))
                    &&& es[j] is Dir ==> r == Ok::<Option<DirIterItem<T>>, WalkError>(
                        Some(DirIterItem::Dir(es[j])),
                    )
                    &&& es[j] is Symlink ==> r == Err::<Option<DirIterItem<T>>, WalkError>(
                        WalkError::FollowSymlinksUnsupported,
                    )
                    &&& final(self).frames().len() == fs.len()
                    &&& forall|i: int| 0 <= i < fs.len() - 1 ==> final(self).frames()[i] == fs[i]
                    &&& final(self).frames().last().path == f.path
                    &&& final(self).frames().last().data == f.data
                    &&& final(self).frames().last().entries@ == es.skip(j + 1)
                }
            }),
    {
        let ghost fs0 = old(self).frames();
        let mut frame = match self.top.take() {
            None => {
                return Ok(None);
            },
            Some(f) => f,
        };
        let ghost es0 = frame.entries@;
        let ghost mut k: int = 0;
        loop
            invariant
                self.top is None,
                self.stack == old(self).stack,
                self.follow_symlinks == old(self).follow_symlinks,
                frame.path == fs0.last().path,
                frame.data == fs0.last().data,
                0 <= k <= es0.len(),
                frame.entries@ == es0.skip(k),
                forall|i: int| 0 <= i < k ==> !kept_entry(#[trigger] es0[i], old(self).follow()),
                old(self).top is Some,
                fs0 == old(self).frames(),
                fs0.len() > 0,
                es0 == fs0.last().entries@,
            decreases es0.len() - k,
        {
            if frame.entries.len() == 0 {
                proof {
                    lemma_skip_count_is(es0, old(self).follow(), k);
                    assert(es0.skip(k) =~= Seq::<FsNode>::empty());
                }
                self.top = self.stack.pop();
                proof {
                    assert(self.frames() =~= fs0.drop_last());
                }
                return Ok(Some(DirIterItem::FinishedDir(frame)));
            }
            let e = frame.entries.remove(0);
            proof {
                assert(e == es0[k]);
                assert(es0.skip(k).remove(0) =~= es0.skip(k + 1));
            }
            match e {
                FsNode::File { name, size } => {
                    proof {
                        lemma_skip_count_is(es0, old(self).follow(), k);
                    }
                    self.top = Some(frame);
                    proof {
                        assert(self.frames().drop_last() =~= fs0.drop_last());
                    }
                    return Ok(Some(DirIterItem::File { name, size }));
                },
                FsNode::Dir { .. } => {
                    proof {
                        lemma_skip_count_is(es0, old(self).follow(), k);
                    }
                    self.top = Some(frame);
                    proof {
                        assert(self.frames().drop_last() =~= fs0.drop_last());
                    }
                    return Ok(Some(DirIterItem::Dir(e)));
                },
                FsNode::Symlink { .. } => {
                    if self.follow_symlinks {
                        proof {
                            lemma_skip_count_is(es0, old(self).follow(), k);
                        }
                        self.top = Some(frame);
                        proof {
                            assert(self.frames().drop_last() =~= fs0.drop_last());
                        }
                        return Err(WalkError::FollowSymlinksUnsupported);
                    }
                    proof {
                        k = k + 1;
                    }
                },
                FsNode::Other { .. } => {
                    proof {
                        k = k + 1;
                    }
                },
            }
        }
    }
}

} // verus!
