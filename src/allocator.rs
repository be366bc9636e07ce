//! Position allocation over the sparse, ascending job ids: opening a slot
//! for an insertion and compacting the ids to `1..n`.
use vstd::prelude::*;

verus! {

/// Every id is smaller than each id after it.
pub open spec fn strictly_ascending(s: Seq<i32>) -> bool {
    forall|i: int, j: int| 0 <= i < j < s.len() ==> s[i] < s[j]
}

/// `k` is the length of the leading run of consecutive ids of `s`: each of
/// the first `k` ids is followed by its successor, and the id after the run
/// (if any) is not the successor of the run's last id.
pub open spec fn is_leading_run(s: Seq<i32>, k: int) -> bool {
    &&& 0 <= k <= s.len()
    &&& s.len() > 0 ==> k >= 1
    &&& forall|i: int| 0 < i < k ==> #[trigger] s[i] == s[i - 1] + 1
    &&& k < s.len() ==> s[k] != s[k - 1] + 1
}

/// `f` is the first index at which `s` differs from the canonical `1, 2, ..., n`.
pub open spec fn is_first_gap(s: Seq<i32>, f: int) -> bool {
    &&& 0 <= f <= s.len()
    &&& forall|i: int| 0 <= i < f ==> #[trigger] s[i] == i + 1
    &&& f < s.len() ==> s[f] != f + 1
}

/// The canonical id sequence `1, 2, ..., n`.
pub open spec fn canonical(n: nat) -> Seq<i32> {
    Seq::new(n, |i: int| (i + 1) as i32)
}

/// Renames every occurrence of `from` to `to`.
pub open spec fn rename(s: Seq<i32>, from: i32, to: i32) -> Seq<i32> {
    s.map_values(|x: i32| if x == from { to } else { x })
}

/// The ids after applying each `(old, new)` pair of `plan` in order.
pub open spec fn apply_plan(s: Seq<i32>, plan: Seq<(i32, i32)>) -> Seq<i32>
    decreases plan.len(),
{
    if plan.len() == 0 {
        s
    } else {
        apply_plan(rename(s, plan[0].0, plan[0].1), plan.drop_first())
    }
}

/// Applying `plan` in order never collides: at each step the old id is
/// present and the new id is free.
pub open spec fn plan_is_safe(s: Seq<i32>, plan: Seq<(i32, i32)>) -> bool
    decreases plan.len(),
{
    plan.len() == 0 || {
        &&& s.contains(plan[0].0)
        &&& !s.contains(plan[0].1)
        &&& plan_is_safe(rename(s, plan[0].0, plan[0].1), plan.drop_first())
    }
}

/// The renames that open a slot: the first `k` ids, each moved up by one,
/// highest first.
pub open spec fn shift_plan(s: Seq<i32>, k: int) -> Seq<(i32, i32)> {
    Seq::new(k as nat, |j: int| (s[k - 1 - j], (s[k - 1 - j] + 1) as i32))
}

/// The renames that compact `s` from index `f` on, lowest first.
pub open spec fn align_plan(s: Seq<i32>, f: int) -> Seq<(i32, i32)> {
    Seq::new((s.len() - f) as nat, |j: int| (s[f + j], (f + j + 1) as i32))
}

/// `s` with the ids at indices `lo..hi` moved up by one.
pub open spec fn shifted(s: Seq<i32>, lo: int, hi: int) -> Seq<i32> {
    Seq::new(s.len(), |i: int| if lo <= i < hi { (s[i] + 1) as i32 } else { s[i] })
}

/// `s` with the ids at indices `lo..hi` replaced by their canonical value.
pub open spec fn aligned(s: Seq<i32>, lo: int, hi: int) -> Seq<i32> {
    Seq::new(s.len(), |i: int| if lo <= i < hi { (i + 1) as i32 } else { s[i] })
}

/// Splits the ids at or above an insertion target into the ids that must move
/// and their new values. `id_vec` holds, in ascending order, every id that is
/// at least the target. Only the leading run of consecutive ids moves up by
/// one: past its end the slot above is already free.
pub fn gen_move_vec(id_vec: &[i32]) -> (r: (Vec<i32>, Vec<i32>))
    requires
        strictly_ascending(id_vec@),
        forall|i: int| 0 <= i < id_vec@.len() ==> #[trigger] id_vec@[i] < i32::MAX,
    ensures
        is_leading_run(id_vec@, r.0@.len() as int),
        r.0@ == id_vec@.subrange(0, r.0@.len() as int),
        r.1@.len() == r.0@.len(),
        forall|i: int| 0 <= i < r.1@.len() ==> #[trigger] r.1@[i] == id_vec@[i] + 1,
{
    let n = id_vec.len();
    let mut olds: Vec<i32> = Vec::new();
    let mut news: Vec<i32> = Vec::new();
    if n == 0 {
        assert(olds@ =~= id_vec@.subrange(0, 0));
        return (olds, news);
    }
    olds.push(id_vec[0]);
    news.push(id_vec[0] + 1);
    let mut k: usize = 1;
    while k < n && id_vec[k - 1] + 1 == id_vec[k]
        invariant
            n == id_vec@.len(),
            1 <= k <= n,
            forall|i: int| 0 <= i < n ==> #[trigger] id_vec@[i] < i32::MAX,
            forall|i: int| 0 < i < k ==> #[trigger] id_vec@[i] == id_vec@[i - 1] + 1,
            olds@ == id_vec@.subrange(0, k as int),
            news@.len() == k,
            forall|i: int| 0 <= i < k ==> #[trigger] news@[i] == id_vec@[i] + 1,
        decreases n - k,
    {
        olds.push(id_vec[k]);
        news.push(id_vec[k] + 1);
        k = k + 1;
        assert(olds@ =~= id_vec@.subrange(0, k as int));
    }
    (olds, news)
}

/// The renames that open a slot for an insertion, in the order in which they
/// are to be applied: highest id first, so that each new id is already free.
pub fn move_plan(id_vec: &[i32]) -> (r: Vec<(i32, i32)>)
    requires
        strictly_ascending(id_vec@),
        forall|i: int| 0 <= i < id_vec@.len() ==> #[trigger] id_vec@[i] < i32::MAX,
    ensures
        is_leading_run(id_vec@, r@.len() as int),
        r@ == shift_plan(id_vec@, r@.len() as int),
{
    let (olds, news) = gen_move_vec(id_vec);
    let k = olds.len();
    let mut plan: Vec<(i32, i32)> = Vec::new();
    let mut j: usize = 0;
    while j < k
        invariant
            k == olds@.len(),
            k == news@.len(),
            k <= id_vec@.len(),
            olds@ == id_vec@.subrange(0, k as int),
            forall|i: int| 0 <= i < k ==> #[trigger] news@[i] == id_vec@[i] + 1,
            0 <= j <= k,
            plan@ =~= shift_plan(id_vec@, k as int).subrange(0, j as int),
        decreases k - j,
    {
        let ghost prev = plan@;
        plan.push((olds[k - 1 - j], news[k - 1 - j]));
        assert(olds@[k - 1 - j] == id_vec@[k - 1 - j]);
        assert(plan@ == prev.push(shift_plan(id_vec@, k as int)[j as int]));
        j = j + 1;
    }
    assert(plan@ =~= shift_plan(id_vec@, k as int));
    plan
}

/// Splits the ids into those that compaction renames and their canonical
/// values: from the first index whose id differs from `index + 1` to the end.
/// Ids before that index already hold their canonical value and are left out.
pub fn gen_align_vec(id_vec: &[i32]) -> (r: (Vec<i32>, Vec<i32>))
    requires
        id_vec@.len() < i32::MAX,
    ensures
        is_first_gap(id_vec@, id_vec@.len() - r.0@.len()),
        r.0@ == id_vec@.subrange(id_vec@.len() - r.0@.len(), id_vec@.len() as int),
        r.1@.len() == r.0@.len(),
        forall|j: int|
            0 <= j < r.1@.len() ==> #[trigger] r.1@[j] == id_vec@.len() - r.0@.len() + j + 1,
{
    let n = id_vec.len();
    let mut f: usize = 0;
    while f < n && id_vec[f] as i64 == f as i64 + 1
        invariant
            n == id_vec@.len(),
            n < i32::MAX,
            0 <= f <= n,
            forall|i: int| 0 <= i < f ==> #[trigger] id_vec@[i] == i + 1,
        decreases n - f,
    {
        f = f + 1;
    }
    let mut olds: Vec<i32> = Vec::new();
    let mut news: Vec<i32> = Vec::new();
    let mut i: usize = f;
    while i < n
        invariant
            n == id_vec@.len(),
            n < i32::MAX,
            f <= i <= n,
            olds@ == id_vec@.subrange(f as int, i as int),
            news@.len() == i - f,
            forall|j: int| 0 <= j < i - f ==> #[trigger] news@[j] == f + j + 1,
        decreases n - i,
    {
        olds.push(id_vec[i]);
        news.push(i as i32 + 1);
        i = i + 1;
        assert(olds@ =~= id_vec@.subrange(f as int, i as int));
    }
    (olds, news)
}

/// The renames that compact the ids to `1..n`, in the order in which they are
/// to be applied: lowest id first, so that each new id is already free.
/// `id_vec` is every id of the table, in ascending order.
pub fn align(id_vec: &[i32]) -> (r: Vec<(i32, i32)>)
    requires
        id_vec@.len() < i32::MAX,
    ensures
        is_first_gap(id_vec@, id_vec@.len() - r@.len()),
        r@ == align_plan(id_vec@, id_vec@.len() - r@.len()),
{
    let (olds, news) = gen_align_vec(id_vec);
    let k = olds.len();
    let ghost f = id_vec@.len() - k;
    let mut plan: Vec<(i32, i32)> = Vec::new();
    let mut j: usize = 0;
    while j < k
        invariant
            k == olds@.len(),
            k == news@.len(),
            f == id_vec@.len() - k,
            0 <= f,
            olds@ == id_vec@.subrange(f, id_vec@.len() as int),
            forall|i: int| 0 <= i < k ==> #[trigger] news@[i] == f + i + 1,
            0 <= j <= k,
            plan@ =~= align_plan(id_vec@, f).subrange(0, j as int),
        decreases k - j,
    {
        let ghost prev = plan@;
        plan.push((olds[j], news[j]));
        assert(olds@[j as int] == id_vec@[f + j]);
        assert(plan@ == prev.push(align_plan(id_vec@, f)[j as int]));
        j = j + 1;
    }
    assert(plan@ =~= align_plan(id_vec@, f));
    plan
}

/// In a strictly ascending sequence the ids grow at least as fast as their
/// indices.
proof fn lemma_ascending_gap(s: Seq<i32>, i: int, j: int)
    requires
        strictly_ascending(s),
        0 <= i <= j < s.len(),
    ensures
        s[j] - s[i] >= j - i,
    decreases j - i,
{
    if i < j {
        lemma_ascending_gap(s, i, j - 1);
        assert(s[j - 1] < s[j]);
    }
}

/// Renaming an id that occurs once replaces it at its index.
proof fn lemma_rename_at(s: Seq<i32>, at: int, to: i32)
    requires
        0 <= at < s.len(),
        forall|i: int| 0 <= i < s.len() && i != at ==> s[i] != s[at],
    ensures
        rename(s, s[at], to) == s.update(at, to),
{
    assert(rename(s, s[at], to) =~= s.update(at, to));
}

/// The shift plan from the state in which its first `m` renames are done.
proof fn lemma_shift_steps(s: Seq<i32>, k: int, m: int)
    requires
        strictly_ascending(s),
        forall|i: int| 0 <= i < s.len() ==> #[trigger] s[i] < i32::MAX,
        is_leading_run(s, k),
        0 <= m <= k,
    ensures
        plan_is_safe(shifted(s, k - m, k), shift_plan(s, k).subrange(m, k)),
        apply_plan(shifted(s, k - m, k), shift_plan(s, k).subrange(m, k)) == shifted(s, 0, k),
    decreases k - m,
{
    let cur = shifted(s, k - m, k);
    let rest = shift_plan(s, k).subrange(m, k);
    if m < k {
        let j = k - 1 - m;
        let to = (s[j] + 1) as i32;
        assert(rest[0] == (s[j], to));
        assert(cur[j] == s[j]);
        assert forall|i: int| 0 <= i < cur.len() && i != j implies cur[i] != cur[j] by {
            if i < j {
                assert(s[i] < s[j]);
            } else {
                assert(s[j] < s[i]);
            }
        }
        assert forall|i: int| 0 <= i < cur.len() implies cur[i] != to by {
            if i < j {
                assert(s[i] < s[j]);
            } else if j < i && i < k {
                assert(s[j] < s[i]);
            } else if i >= k {
                assert(s[k - 1] < s[k]);
                if i > k {
                    assert(s[k] < s[i]);
                }
                if j < k - 1 {
                    assert(s[j] < s[k - 1]);
                }
            }
        }
        lemma_rename_at(cur, j, to);
        assert(cur.update(j, to) =~= shifted(s, k - (m + 1), k));
        assert(rest.drop_first() =~= shift_plan(s, k).subrange(m + 1, k));
        lemma_shift_steps(s, k, m + 1);
    } else {
        assert(rest.len() == 0);
    }
}

/// The ids after the whole shift plan: the leading run moved up by one, the
/// rest untouched, and the plan collides nowhere.
proof fn lemma_shift_result(s: Seq<i32>, k: int)
    requires
        strictly_ascending(s),
        forall|i: int| 0 <= i < s.len() ==> #[trigger] s[i] < i32::MAX,
        is_leading_run(s, k),
    ensures
        plan_is_safe(s, shift_plan(s, k)),
        apply_plan(s, shift_plan(s, k)) == shifted(s, 0, k),
{
    lemma_shift_steps(s, k, 0);
    assert(shifted(s, k, k) =~= s);
    assert(shift_plan(s, k).subrange(0, k) =~= shift_plan(s, k));
}

/// Opening a slot keeps the ids unique. `ids` are the ids at or above
/// `target` and `plan` the renames that `move_plan` returns for them: applied
/// in their order no rename lands on an id in use, and afterwards the ids are
/// distinct from each other and from `target`, which the new job then takes.
pub proof fn lemma_shift_keeps_ids_unique(ids: Seq<i32>, target: i32, plan: Seq<(i32, i32)>)
    requires
        strictly_ascending(ids),
        forall|i: int| 0 <= i < ids.len() ==> target <= #[trigger] ids[i] < i32::MAX,
        is_leading_run(ids, plan.len() as int),
        plan == shift_plan(ids, plan.len() as int),
    ensures
        plan_is_safe(ids, plan),
        apply_plan(ids, plan).len() == ids.len(),
        forall|i: int, j: int|
            0 <= i < j < ids.len() ==> apply_plan(ids, plan)[i] != apply_plan(ids, plan)[j],
        !apply_plan(ids, plan).contains(target),
{
    let k = plan.len() as int;
    lemma_shift_result(ids, k);
    lemma_shift_keeps_order(ids, target, plan);
}

/// Opening a slot keeps the order of the jobs. With `ids` and `plan` as for
/// uniqueness, each id moves up by at most one, the ids stay in the same
/// ascending order, and all stay above `target`.
pub proof fn lemma_shift_keeps_order(ids: Seq<i32>, target: i32, plan: Seq<(i32, i32)>)
    requires
        strictly_ascending(ids),
        forall|i: int| 0 <= i < ids.len() ==> target <= #[trigger] ids[i] < i32::MAX,
        is_leading_run(ids, plan.len() as int),
        plan == shift_plan(ids, plan.len() as int),
    ensures
        apply_plan(ids, plan).len() == ids.len(),
        strictly_ascending(apply_plan(ids, plan)),
        forall|i: int|
            0 <= i < ids.len() ==> #[trigger] apply_plan(ids, plan)[i] == ids[i]
                || apply_plan(ids, plan)[i] == ids[i] + 1,
        forall|i: int| 0 <= i < ids.len() ==> target < #[trigger] apply_plan(ids, plan)[i],
{
    let k = plan.len() as int;
    lemma_shift_result(ids, k);
    lemma_shifted_order(ids, target, k);
}

/// The ids with their leading run moved up stay ascending and above the
/// target, each moved by at most one.
pub(crate) proof fn lemma_shifted_order(ids: Seq<i32>, target: i32, k: int)
    requires
        strictly_ascending(ids),
        forall|i: int| 0 <= i < ids.len() ==> target <= #[trigger] ids[i] < i32::MAX,
        is_leading_run(ids, k),
    ensures
        strictly_ascending(shifted(ids, 0, k)),
        forall|i: int| 0 <= i < ids.len() ==> target < #[trigger] shifted(ids, 0, k)[i],
{
    let t = shifted(ids, 0, k);
    assert forall|i: int, j: int| 0 <= i < j < t.len() implies t[i] < t[j] by {
        assert(ids[i] < ids[j]);
        if i < k && j >= k {
            assert(ids[k - 1] < ids[k]);
            if i < k - 1 {
                assert(ids[i] < ids[k - 1]);
            }
            if j > k {
                assert(ids[k] < ids[j]);
            }
        }
    }
    assert forall|i: int| 0 <= i < ids.len() implies target < #[trigger] t[i] by {
        assert(target <= ids[0]);
        if i > 0 {
            assert(ids[0] < ids[i]);
        }
    }
}

/// Past the first gap of ascending positive ids, each id is above its
/// canonical value.
proof fn lemma_align_tail(s: Seq<i32>, f: int, j: int)
    requires
        strictly_ascending(s),
        forall|i: int| 0 <= i < s.len() ==> #[trigger] s[i] >= 1,
        is_first_gap(s, f),
        f <= j < s.len(),
    ensures
        s[j] > j + 1,
{
    if f > 0 {
        assert(s[f - 1] == f);
        assert(s[f - 1] < s[f]);
    }
    lemma_ascending_gap(s, f, j);
}

/// The compaction plan from the state in which its first `m` renames are done.
proof fn lemma_align_steps(s: Seq<i32>, f: int, m: int)
    requires
        strictly_ascending(s),
        forall|i: int| 0 <= i < s.len() ==> #[trigger] s[i] >= 1,
        s.len() < i32::MAX,
        is_first_gap(s, f),
        0 <= m <= s.len() - f,
    ensures
        plan_is_safe(aligned(s, f, f + m), align_plan(s, f).subrange(m, s.len() - f)),
        apply_plan(aligned(s, f, f + m), align_plan(s, f).subrange(m, s.len() - f)) == aligned(
            s,
            f,
            s.len() as int,
        ),
    decreases s.len() - f - m,
{
    let n = s.len() as int;
    let cur = aligned(s, f, f + m);
    let rest = align_plan(s, f).subrange(m, n - f);
    if m < n - f {
        let j = f + m;
        let to = (j + 1) as i32;
        assert(rest[0] == (s[j], to));
        lemma_align_tail(s, f, j);
        assert(cur[j] == s[j]);
        assert forall|i: int| 0 <= i < cur.len() && i != j implies cur[i] != cur[j] by {
            if i > j {
                assert(s[j] < s[i]);
            } else if i < f {
                assert(s[i] == i + 1);
            }
        }
        assert forall|i: int| 0 <= i < cur.len() implies cur[i] != to by {
            if i > j {
                assert(s[j] < s[i]);
            } else if i < f {
                assert(s[i] == i + 1);
            }
        }
        lemma_rename_at(cur, j, to);
        assert(cur.update(j, to) =~= aligned(s, f, f + m + 1));
        assert(rest.drop_first() =~= align_plan(s, f).subrange(m + 1, n - f));
        lemma_align_steps(s, f, m + 1);
    } else {
        assert(rest.len() == 0);
    }
}

/// Compaction renames the ids to `1..n`. `ids` are all ids of the table,
/// ascending and positive, and `plan` the renames that `align` returns for
/// them: applied in their order no rename lands on an id in use, and
/// afterwards the ids are exactly `1, 2, ..., n`.
pub proof fn lemma_align_compacts(ids: Seq<i32>, plan: Seq<(i32, i32)>)
    requires
        strictly_ascending(ids),
        forall|i: int| 0 <= i < ids.len() ==> #[trigger] ids[i] >= 1,
        ids.len() < i32::MAX,
        is_first_gap(ids, ids.len() - plan.len()),
        plan == align_plan(ids, ids.len() - plan.len()),
    ensures
        plan_is_safe(ids, plan),
        apply_plan(ids, plan) == canonical(ids.len()),
{
    let f = ids.len() - plan.len();
    lemma_align_steps(ids, f, 0);
    assert(aligned(ids, f, f) =~= ids);
    assert(align_plan(ids, f).subrange(0, ids.len() - f) =~= plan);
    assert(aligned(ids, f, ids.len() as int) =~= canonical(ids.len()));
}

/// Compaction is idempotent: it leaves ids that already run `1..n` as they
/// are, so a second compaction after a first renames nothing.
pub proof fn lemma_align_idempotent(ids: Seq<i32>, plan: Seq<(i32, i32)>)
    requires
        strictly_ascending(ids),
        forall|i: int| 0 <= i < ids.len() ==> #[trigger] ids[i] >= 1,
        ids.len() < i32::MAX,
        is_first_gap(ids, ids.len() - plan.len()),
        plan == align_plan(ids, ids.len() - plan.len()),
    ensures
        apply_plan(ids, plan) == canonical(ids.len()),
        forall|f: int|
            is_first_gap(canonical(ids.len()), f) ==> f == ids.len() && align_plan(
                canonical(ids.len()),
                f,
            ).len() == 0,
{
    lemma_align_compacts(ids, plan);
    let c = canonical(ids.len());
    assert forall|f: int| is_first_gap(c, f) implies f == ids.len() by {
        if f < ids.len() {
            assert(c[f] == f + 1);
        }
    }
}

/// Compaction is minimal: with `ids` and `plan` as for compaction, the plan
/// renames exactly the ids that differ from their canonical value, each to
/// that value, and leaves the others untouched.
pub proof fn lemma_align_minimal(ids: Seq<i32>, plan: Seq<(i32, i32)>)
    requires
        strictly_ascending(ids),
        forall|i: int| 0 <= i < ids.len() ==> #[trigger] ids[i] >= 1,
        ids.len() < i32::MAX,
        is_first_gap(ids, ids.len() - plan.len()),
        plan == align_plan(ids, ids.len() - plan.len()),
    ensures
        forall|i: int|
            0 <= i < ids.len() ==> (#[trigger] ids[i] != i + 1 <==> ids.len() - plan.len() <= i),
        forall|j: int|
            0 <= j < plan.len() ==> #[trigger] plan[j].0 == ids[ids.len() - plan.len() + j]
                && plan[j].1 == ids.len() - plan.len() + j + 1 && plan[j].0 != plan[j].1,
{
    let f = ids.len() - plan.len();
    assert forall|i: int| 0 <= i < ids.len() && f <= i implies ids[i] != i + 1 by {
        lemma_align_tail(ids, f, i);
    }
    assert forall|j: int| 0 <= j < plan.len() implies plan[j].0 != plan[j].1 by {
        lemma_align_tail(ids, f, f + j);
    }
}

} // verus!
