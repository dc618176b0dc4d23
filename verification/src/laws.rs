//! Properties of discovery, stated and proved over the record spec:
//! what a directory with a manifest is reported as, and that marker and
//! hidden subdirectories never contribute projects of their own.

use vstd::prelude::*;

use crate::tree::{size_of_entries, FsNode};
use crate::{
    crate_records, disc_rest, hidden_name, joined, manifest_name, marker_name, CrateRecord,
};

verus! {

/// Some entry is a file named like the manifest.
pub open spec fn has_manifest_file(es: Seq<FsNode>) -> bool
    decreases es,
{
    if es.len() == 0 {
        false
    } else {
        (es[0] is File && es[0].name_view() == manifest_name()) || has_manifest_file(
            es.drop_first(),
        )
    }
}

/// A subdirectory carrying the marker name.
pub open spec fn is_marker_dir(e: FsNode) -> bool {
    e is Dir && e.name_view() == marker_name()
}

/// How many entries are marker subdirectories. In a real directory this
/// is zero or one, since names are unique.
pub open spec fn count_markers(es: Seq<FsNode>) -> nat
    decreases es,
{
    if es.len() == 0 {
        0
    } else {
        (if is_marker_dir(es[0]) {
            1nat
        } else {
            0
        }) + count_markers(es.drop_first())
    }
}

/// The contents of the first marker subdirectory, if any.
pub open spec fn marker_entries(es: Seq<FsNode>) -> Option<Seq<FsNode>>
    decreases es,
{
    if es.len() == 0 {
        None
    } else if is_marker_dir(es[0]) {
        Some(es[0].entries_view())
    } else {
        marker_entries(es.drop_first())
    }
}

/// The records that speak about the directory at `p` itself.
pub open spec fn records_at(s: Seq<CrateRecord>, p: Seq<char>) -> Seq<CrateRecord> {
    s.filter(|r: CrateRecord| r.path == p)
}

/// The marker name does not start with the hidden prefix.
proof fn lemma_marker_not_hidden()
    ensures
        !hidden_name(marker_name()),
{
    reveal_strlit("target");
}

proof fn lemma_records_at_one(r: CrateRecord, p: Seq<char>)
    ensures
        records_at(seq![r], p) == if r.path == p {
            seq![r]
        } else {
            Seq::<CrateRecord>::empty()
        },
{
    reveal_with_fuel(Seq::filter, 3);
    assert(seq![r].drop_last() =~= Seq::<CrateRecord>::empty());
    if r.path == p {
        assert(records_at(seq![r], p) =~= seq![r]);
    } else {
        assert(records_at(seq![r], p) =~= Seq::<CrateRecord>::empty());
    }
}

proof fn lemma_records_at_absent(s: Seq<CrateRecord>, p: Seq<char>)
    requires
        forall|k: int| 0 <= k < s.len() ==> (#[trigger] s[k]).path != p,
    ensures
        records_at(s, p) == Seq::<CrateRecord>::empty(),
    decreases s.len(),
{
    reveal_with_fuel(Seq::filter, 2);
    if s.len() == 0 {
        assert(records_at(s, p) =~= Seq::<CrateRecord>::empty());
    } else {
        lemma_records_at_absent(s.drop_last(), p);
        assert(s.last().path != p);
        assert(records_at(s, p) =~= Seq::<CrateRecord>::empty());
    }
}

/// Every record of a walk below `p` names `p` itself or a strictly longer
/// path.
proof fn lemma_paths_long(
    p: Seq<char>,
    es: Seq<FsNode>,
    hm: bool,
    tgt: Option<Seq<FsNode>>,
    done: bool,
)
    ensures
        forall|k: int|
            0 <= k < disc_rest(p, es, hm, tgt, done).len() ==> {
                let q = (#[trigger] disc_rest(p, es, hm, tgt, done)[k]).path;
                q == p || q.len() > p.len()
            },
    decreases es,
{
    reveal_strlit("/");
    if es.len() == 0 {
    } else {
        let rest = es.drop_first();
        match es[0] {
            FsNode::File { name, .. } => {
                if name@ == manifest_name() {
                    match tgt {
                        Some(t) => lemma_paths_long(p, rest, true, None, true),
                        None => lemma_paths_long(p, rest, true, None, done),
                    }
                } else {
                    lemma_paths_long(p, rest, hm, tgt, done);
                }
            },
            FsNode::Dir { name, entries } => {
                if name@ == marker_name() {
                    if hm {
                        lemma_paths_long(p, rest, hm, None, true);
                    } else {
                        lemma_paths_long(p, rest, hm, Some(entries@), done);
                    }
                } else if !hidden_name(name@) {
                    lemma_paths_long(joined(p, name@), entries@, false, None, false);
                    lemma_paths_long(p, rest, hm, tgt, done);
                    assert(joined(p, name@).len() > p.len());
                } else {
                    lemma_paths_long(p, rest, hm, tgt, done);
                }
            },
            _ => {
                lemma_paths_long(p, rest, hm, tgt, done);
            },
        }
    }
}

/// What [`lemma_at_path`] says a walk reports about its own directory.
spec fn expected_at(
    p: Seq<char>,
    es: Seq<FsNode>,
    hm: bool,
    tgt: Option<Seq<FsNode>>,
    done: bool,
) -> Seq<CrateRecord> {
    if !(hm || has_manifest_file(es)) || done {
        Seq::<CrateRecord>::empty()
    } else {
        match tgt {
            Some(t) => seq![CrateRecord { path: p, size: Some(size_of_entries(t)) }],
            None => match marker_entries(es) {
                Some(t) => seq![CrateRecord { path: p, size: Some(size_of_entries(t)) }],
                None => seq![CrateRecord { path: p, size: None }],
            },
        }
    }
}

/// What a walk of one directory says about that directory, for any
/// reachable combination of marks: nothing once the record is out or when
/// no manifest ever shows; otherwise one record, sized by the marker
/// subdirectory already seen or still to come, and without a size when
/// there is none.
proof fn lemma_at_path(
    p: Seq<char>,
    es: Seq<FsNode>,
    hm: bool,
    tgt: Option<Seq<FsNode>>,
    done: bool,
)
    requires
        hm ==> tgt is None,
        done ==> tgt is None && count_markers(es) == 0,
        tgt is Some ==> count_markers(es) == 0,
        count_markers(es) <= 1,
    ensures
        records_at(disc_rest(p, es, hm, tgt, done), p) == expected_at(p, es, hm, tgt, done),
    decreases es,
{
    broadcast use vstd::seq_lib::group_filter_ensures;

    if es.len() == 0 {
        if !done && hm {
            lemma_records_at_one(CrateRecord { path: p, size: None }, p);
        } else {
            lemma_records_at_absent(Seq::<CrateRecord>::empty(), p);
        }
    } else {
        let rest = es.drop_first();
        match es[0] {
            FsNode::File { name, .. } => {
                if name@ == manifest_name() {
                    match tgt {
                        Some(t) => {
                            let rec = CrateRecord { path: p, size: Some(size_of_entries(t)) };
                            let tail = disc_rest(p, rest, true, None, true);
                            assert(records_at(seq![rec] + tail, p) == records_at(seq![rec], p)
                                + records_at(tail, p));
                            lemma_records_at_one(rec, p);
                            lemma_at_path(p, rest, true, None, true);
                            assert(records_at(disc_rest(p, es, hm, tgt, done), p) =~= seq![rec]);
                        },
                        None => {
                            lemma_at_path(p, rest, true, None, done);
                        },
                    }
                } else {
                    lemma_at_path(p, rest, hm, tgt, done);
                }
            },
            FsNode::Dir { name, entries } => {
                if name@ == marker_name() {
                    assert(is_marker_dir(es[0]));
                    if hm {
                        let rec = CrateRecord { path: p, size: Some(size_of_entries(entries@)) };
                        let tail = disc_rest(p, rest, hm, None, true);
                        assert(records_at(seq![rec] + tail, p) == records_at(seq![rec], p)
                            + records_at(tail, p));
                        lemma_records_at_one(rec, p);
                        lemma_at_path(p, rest, hm, None, true);
                        assert(records_at(disc_rest(p, es, hm, tgt, done), p) =~= seq![rec]);
                    } else {
                        lemma_at_path(p, rest, hm, Some(entries@), done);
                    }
                } else if !hidden_name(name@) {
                    let sub = disc_rest(joined(p, name@), entries@, false, None, false);
                    let tail = disc_rest(p, rest, hm, tgt, done);
                    assert(records_at(sub + tail, p) == records_at(sub, p) + records_at(tail, p));
                    lemma_paths_long(joined(p, name@), entries@, false, None, false);
                    reveal_strlit("/");
                    assert forall|k: int| 0 <= k < sub.len() implies (#[trigger] sub[k]).path
                        != p by {
                        assert(joined(p, name@).len() > p.len());
                    }
                    lemma_records_at_absent(sub, p);
                    lemma_at_path(p, rest, hm, tgt, done);
                    assert(records_at(disc_rest(p, es, hm, tgt, done), p) =~= records_at(
                        disc_rest(p, rest, hm, tgt, done),
                        p,
                    ));
                } else {
                    lemma_at_path(p, rest, hm, tgt, done);
                }
            },
            _ => {
                lemma_at_path(p, rest, hm, tgt, done);
            },
        }
    }
}

/// A directory holding a manifest file and no marker subdirectory is
/// reported exactly once, with no size.
pub proof fn lemma_manifest_without_marker(p: Seq<char>, es: Seq<FsNode>)
    requires
        has_manifest_file(es),
        count_markers(es) == 0,
    ensures
        records_at(crate_records(p, es), p) == seq![CrateRecord { path: p, size: None }],
{
    lemma_no_marker_entries(es);
    lemma_at_path(p, es, false, None, false);
}

/// A directory holding a manifest file and one marker subdirectory is
/// reported exactly once, sized with the total byte length of the files
/// under the marker subdirectory.
pub proof fn lemma_manifest_with_marker(p: Seq<char>, es: Seq<FsNode>)
    requires
        has_manifest_file(es),
        count_markers(es) == 1,
    ensures
        marker_entries(es) is Some,
        records_at(crate_records(p, es), p) == seq![
            CrateRecord { path: p, size: Some(size_of_entries(marker_entries(es)->0)) },
        ],
{
    lemma_some_marker_entries(es);
    lemma_at_path(p, es, false, None, false);
}

proof fn lemma_no_marker_entries(es: Seq<FsNode>)
    requires
        count_markers(es) == 0,
    ensures
        marker_entries(es) is None,
    decreases es,
{
    if es.len() > 0 {
        lemma_no_marker_entries(es.drop_first());
    }
}

proof fn lemma_some_marker_entries(es: Seq<FsNode>)
    requires
        count_markers(es) >= 1,
    ensures
        marker_entries(es) is Some,
    decreases es,
{
    if es.len() > 0 && !is_marker_dir(es[0]) {
        lemma_some_marker_entries(es.drop_first());
    }
}

/// Two walks below a path differ in no record when they only differ in
/// the stored marker contents, as long as those weigh the same.
proof fn lemma_tgt_by_size(
    p: Seq<char>,
    es: Seq<FsNode>,
    hm: bool,
    t1: Seq<FsNode>,
    t2: Seq<FsNode>,
    done: bool,
)
    requires
        size_of_entries(t1) == size_of_entries(t2),
    ensures
        disc_rest(p, es, hm, Some(t1), done) == disc_rest(p, es, hm, Some(t2), done),
    decreases es,
{
    if es.len() == 0 {
    } else {
        let rest = es.drop_first();
        match es[0] {
            FsNode::File { name, .. } => {
                if name@ != manifest_name() {
                    lemma_tgt_by_size(p, rest, hm, t1, t2, done);
                }
            },
            FsNode::Dir { name, entries } => {
                if name@ == marker_name() {
                    if !hm {
                        // both walks store the new marker contents
                    }
                } else {
                    lemma_tgt_by_size(p, rest, hm, t1, t2, done);
                }
            },
            _ => {
                lemma_tgt_by_size(p, rest, hm, t1, t2, done);
            },
        }
    }
}

/// Replacing the entry at `i` changes no record, provided the two entries
/// are directories of the same name and the walk cannot tell them apart:
/// a hidden directory is never entered, and a marker directory matters
/// only by its total size.
proof fn lemma_entry_equiv(
    p: Seq<char>,
    es1: Seq<FsNode>,
    es2: Seq<FsNode>,
    i: int,
    hm: bool,
    tgt: Option<Seq<FsNode>>,
    done: bool,
)
    requires
        0 <= i < es1.len(),
        es2.len() == es1.len(),
        forall|k: int| 0 <= k < es1.len() && k != i ==> es2[k] == #[trigger] es1[k],
        es1[i] is Dir,
        es2[i] is Dir,
        es1[i].name_view() == es2[i].name_view(),
        hidden_name(es1[i].name_view()) || (es1[i].name_view() == marker_name()
            && size_of_entries(es1[i].entries_view()) == size_of_entries(es2[i].entries_view())),
    ensures
        disc_rest(p, es1, hm, tgt, done) == disc_rest(p, es2, hm, tgt, done),
    decreases i,
{
    let rest1 = es1.drop_first();
    let rest2 = es2.drop_first();
    if i == 0 {
        assert(rest1 =~= rest2);
        let name = es1[0].name_view();
        if name == marker_name() {
            lemma_marker_not_hidden();
            if hm {
                assert(size_of_entries(es1[0].entries_view()) == size_of_entries(
                    es2[0].entries_view(),
                ));
            } else {
                lemma_tgt_by_size(
                    p,
                    rest1,
                    hm,
                    es1[0].entries_view(),
                    es2[0].entries_view(),
                    done,
                );
            }
        } else {
            assert(hidden_name(name));
        }
    } else {
        assert(es1[0] == es2[0]);
        assert forall|k: int| 0 <= k < rest1.len() && k != i - 1 implies rest2[k] == #[trigger] rest1[k] by {
            assert(rest1[k] == es1[k + 1]);
            assert(rest2[k] == es2[k + 1]);
        }
        assert(rest1[i - 1] == es1[i] && rest2[i - 1] == es2[i]);
        match es1[0] {
            FsNode::File { name, .. } => {
                if name@ == manifest_name() {
                    match tgt {
                        Some(t) => lemma_entry_equiv(p, rest1, rest2, i - 1, true, None, true),
                        None => lemma_entry_equiv(p, rest1, rest2, i - 1, true, None, done),
                    }
                } else {
                    lemma_entry_equiv(p, rest1, rest2, i - 1, hm, tgt, done);
                }
            },
            FsNode::Dir { name, entries } => {
                if name@ == marker_name() {
                    if hm {
                        lemma_entry_equiv(p, rest1, rest2, i - 1, hm, None, true);
                    } else {
                        lemma_entry_equiv(p, rest1, rest2, i - 1, hm, Some(entries@), done);
                    }
                } else if !hidden_name(name@) {
                    lemma_entry_equiv(p, rest1, rest2, i - 1, hm, tgt, done);
                } else {
                    lemma_entry_equiv(p, rest1, rest2, i - 1, hm, tgt, done);
                }
            },
            _ => {
                lemma_entry_equiv(p, rest1, rest2, i - 1, hm, tgt, done);
            },
        }
    }
}

/// The contents of a marker subdirectory are never searched for nested
/// manifests: exchanging them for any others of the same total size — a
/// manifest file dropped inside included — leaves every record as it was.
pub proof fn lemma_marker_not_scanned(p: Seq<char>, es1: Seq<FsNode>, es2: Seq<FsNode>, i: int)
    requires
        0 <= i < es1.len(),
        es2.len() == es1.len(),
        forall|k: int| 0 <= k < es1.len() && k != i ==> es2[k] == #[trigger] es1[k],
        es1[i] is Dir,
        es2[i] is Dir,
        es1[i].name_view() == marker_name(),
        es2[i].name_view() == marker_name(),
        size_of_entries(es1[i].entries_view()) == size_of_entries(es2[i].entries_view()),
    ensures
        crate_records(p, es1) == crate_records(p, es2),
{
    lemma_entry_equiv(p, es1, es2, i, false, None, false);
}

/// Hidden directories are never descended into: whatever they hold — a
/// manifest file included — has no bearing on any record.
pub proof fn lemma_hidden_not_discovered(p: Seq<char>, es1: Seq<FsNode>, es2: Seq<FsNode>, i: int)
    requires
        0 <= i < es1.len(),
        es2.len() == es1.len(),
        forall|k: int| 0 <= k < es1.len() && k != i ==> es2[k] == #[trigger] es1[k],
        es1[i] is Dir,
        es2[i] is Dir,
        es1[i].name_view() == es2[i].name_view(),
        hidden_name(es1[i].name_view()),
    ensures
        crate_records(p, es1) == crate_records(p, es2),
{
    lemma_entry_equiv(p, es1, es2, i, false, None, false);
}

/// Discovery is a function of the tree alone: two walks over the same
/// unmodified tree report the same records in the same order.
pub proof fn lemma_discovery_idempotent(
    p: Seq<char>,
    es: Seq<FsNode>,
    first: Seq<CrateRecord>,
    second: Seq<CrateRecord>,
)
    requires
        first == crate_records(p, es),
        second == crate_records(p, es),
    ensures
        first == second,
{
}

} // verus!
