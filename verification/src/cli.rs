//! Totals, ordering and prompt-reply logic around the discovered
//! projects.

use vstd::prelude::*;

use vstd::multiset::Multiset;

use crate::{Context, CrateInfo};

verus! {

/// Totals over the discovered projects: all sized records' bytes together,
/// and how many records carry a size at all.
pub struct Stats {
    pub total_size: u64,
    pub non_empty_crates: usize,
}

/// Sum of the sizes of the records that have one.
pub open spec fn spec_total_size(s: Seq<CrateInfo>) -> nat
    decreases s.len(),
{
    if s.len() == 0 {
        0
    } else {
        spec_total_size(s.drop_last()) + match s.last().target_dir_size {
            Some(v) => v as nat,
            None => 0,
        }
    }
}

/// How many records have a size.
pub open spec fn spec_non_empty(s: Seq<CrateInfo>) -> nat
    decreases s.len(),
{
    if s.len() == 0 {
        0
    } else {
        spec_non_empty(s.drop_last()) + if s.last().target_dir_size is Some {
            1nat
        } else {
            0
        }
    }
}

/// A prefix never holds more sized bytes than the whole list.
proof fn lemma_total_size_prefix(s: Seq<CrateInfo>, i: int)
    requires
        0 <= i <= s.len(),
    ensures
        spec_total_size(s.take(i)) <= spec_total_size(s),
    decreases s.len() - i,
{
    if i == s.len() {
        assert(s.take(i) =~= s);
    } else {
        lemma_total_size_prefix(s, i + 1);
        assert(s.take(i + 1).drop_last() =~= s.take(i));
        assert(s.take(i + 1).last() == s[i]);
    }
}

/// Walk the record list once and add up its sized entries.
pub fn crate_stats(ctx: &Context) -> (r: Stats)
    requires
        spec_total_size(ctx.crates@) <= u64::MAX,
    ensures
        r.total_size as nat == spec_total_size(ctx.crates@),
        r.non_empty_crates as nat == spec_non_empty(ctx.crates@),
{
    let mut total_size: u64 = 0;
    let mut non_empty_crates: usize = 0;
    let n = ctx.crates.len();
    let mut i: usize = 0;
    while i < n
        invariant
            0 <= i <= n,
            n == ctx.crates@.len(),
            spec_total_size(ctx.crates@) <= u64::MAX,
            total_size as nat == spec_total_size(ctx.crates@.take(i as int)),
            non_empty_crates as nat == spec_non_empty(ctx.crates@.take(i as int)),
            non_empty_crates <= i,
        decreases n - i,
    {
        proof {
            lemma_total_size_prefix(ctx.crates@, i + 1);
            assert(ctx.crates@.take(i + 1).drop_last() =~= ctx.crates@.take(i as int));
            assert(ctx.crates@.take(i + 1).last() == ctx.crates@[i as int]);
        }
        match ctx.crates[i].target_dir_size {
            Some(size) => {
                total_size = total_size + size;
                non_empty_crates = non_empty_crates + 1;
            },
            None => {},
        }
        i = i + 1;
    }
    proof {
        assert(ctx.crates@.take(n as int) =~= ctx.crates@);
    }
    Stats { total_size, non_empty_crates }
}

/// Record order used for display: records without a size come first, and
/// sized records follow in non-decreasing size order.
pub open spec fn size_le(a: CrateInfo, b: CrateInfo) -> bool {
    match (a.target_dir_size, b.target_dir_size) {
        (None, _) => true,
        (Some(_), None) => false,
        (Some(x), Some(y)) => x <= y,
    }
}

/// The whole list is in display order.
pub open spec fn sorted_by_size(s: Seq<CrateInfo>) -> bool {
    forall|i: int, j: int| 0 <= i < j < s.len() ==> size_le(s[i], s[j])
}

/// The executable side of [`size_le`].
fn size_le_exec(a: &CrateInfo, b: &CrateInfo) -> (r: bool)
    ensures
        r == size_le(*a, *b),
{
    match (&a.target_dir_size, &b.target_dir_size) {
        (None, _) => true,
        (Some(_), None) => false,
        (Some(x), Some(y)) => *x <= *y,
    }
}

/// Sort the discovered projects into display order, keeping exactly the
/// records that were there: selection sort, repeatedly moving a least
/// remaining record to the back of the sorted part.
pub fn sort_crates(ctx: &mut Context)
    ensures
        final(ctx).crates@.to_multiset() == old(ctx).crates@.to_multiset(),
        sorted_by_size(final(ctx).crates@),
{
    broadcast use vstd::seq_lib::group_to_multiset_ensures;

    let mut out: Vec<CrateInfo> = Vec::new();
    while ctx.crates.len() > 0
        invariant
            out@.to_multiset().add(ctx.crates@.to_multiset()) == old(ctx).crates@.to_multiset(),
            sorted_by_size(out@),
            forall|i: int, k: int|
                0 <= i < out@.len() && 0 <= k < ctx.crates@.len() ==> size_le(
                    out@[i],
                    ctx.crates@[k],
                ),
        decreases ctx.crates@.len(),
    {
        broadcast use vstd::seq_lib::group_to_multiset_ensures;

        let n = ctx.crates.len();
        let mut m: usize = 0;
        let mut k: usize = 1;
        while k < n
            invariant
                0 <= m < k <= n,
                n == ctx.crates@.len(),
                forall|idx: int| 0 <= idx < k ==> size_le(ctx.crates@[m as int], ctx.crates@[idx]),
            decreases n - k,
        {
            if !size_le_exec(&ctx.crates[m], &ctx.crates[k]) {
                proof {
                    assert forall|idx: int| 0 <= idx < k + 1 implies size_le(
                        ctx.crates@[k as int],
                        ctx.crates@[idx],
                    ) by {
                        if idx < k {
                            assert(size_le(ctx.crates@[m as int], ctx.crates@[idx]));
                        }
                    }
                }
                m = k;
            }
            k = k + 1;
        }
        let ghost pre = ctx.crates@;
        let x = ctx.crates.remove(m);
        proof {
            assert(x == pre[m as int]);
            assert forall|kk: int| 0 <= kk < ctx.crates@.len() implies size_le(
                x,
                ctx.crates@[kk],
            ) by {
                if kk < m {
                    assert(ctx.crates@[kk] == pre[kk]);
                } else {
                    assert(ctx.crates@[kk] == pre[kk + 1]);
                }
            }
            assert(pre.remove(m as int).to_multiset() =~= pre.to_multiset().remove(x));
        }
        let ghost out_pre = out@;
        out.push(x);
        proof {
            assert(out@ == out_pre.push(x));
            assert(out@.to_multiset() =~= out_pre.to_multiset().insert(x));
            assert forall|i: int, j: int| 0 <= i < j < out@.len() implies size_le(
                out@[i],
                out@[j],
            ) by {
                if j < out@.len() - 1 {
                    assert(size_le(out_pre[i], out_pre[j]));
                } else if i < out@.len() - 1 {
                    assert(size_le(out_pre[i], pre[m as int]));
                }
            }
            assert(out@.to_multiset().add(ctx.crates@.to_multiset()) =~= out_pre.to_multiset().add(
                pre.to_multiset(),
            ));
        }
    }
    proof {
        assert(ctx.crates@.to_multiset() =~= Multiset::<CrateInfo>::empty());
        assert(out@.to_multiset().add(ctx.crates@.to_multiset()) =~= out@.to_multiset());
    }
    ctx.crates = out;
}

/// Whether `a` and `b` are the same letter up to ASCII case.
pub open spec fn same_letter(a: char, b: char) -> bool {
    ||| a == b
    ||| (a as u32 + 32 == b as u32 && 'A' <= a <= 'Z')
    ||| (b as u32 + 32 == a as u32 && 'A' <= b <= 'Z')
}

/// A trimmed prompt reply that counts as a yes: `y` or `yes`, in any
/// ASCII case.
pub open spec fn spec_affirmative(s: Seq<char>) -> bool {
    ||| (s.len() == 1 && same_letter(s[0], 'y'))
    ||| (s.len() == 3 && same_letter(s[0], 'y') && same_letter(s[1], 'e') && same_letter(
        s[2],
        's',
    ))
}

/// The executable side of [`same_letter`].
fn same_letter_exec(a: char, b: char) -> (r: bool)
    ensures
        r == same_letter(a, b),
{
    a == b || (a as u32 + 32 == b as u32 && 'A' <= a && a <= 'Z') || (b as u32 + 32 == a as u32
        && 'A' <= b && b <= 'Z')
}

/// Decide whether an already-trimmed prompt reply affirms the question.
pub fn is_affirmative(reply: &str) -> (r: bool)
    ensures
        r == spec_affirmative(reply@),
{
    let n = reply.unicode_len();
    if n == 1 {
        same_letter_exec(reply.get_char(0), 'y')
    } else if n == 3 {
        same_letter_exec(reply.get_char(0), 'y') && same_letter_exec(reply.get_char(1), 'e')
            && same_letter_exec(reply.get_char(2), 's')
    } else {
        false
    }
}

} // verus!
