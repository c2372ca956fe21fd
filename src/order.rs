use vstd::prelude::*;

verus! {

/// A pending time job: its target tick and its resumption handle.
pub type TimeJob = (usize, usize);

/// The elements of `s` that satisfy `p`, in their original order.
pub open spec fn keep<A>(s: Seq<A>, p: spec_fn(A) -> bool) -> Seq<A>
    decreases s.len(),
{
    if s.len() == 0 {
        Seq::empty()
    } else {
        let r = keep(s.drop_last(), p);
        if p(s.last()) {
            r.push(s.last())
        } else {
            r
        }
    }
}

/// Holds of a job whose target is exactly `m`.
pub open spec fn targets(m: usize) -> spec_fn(TimeJob) -> bool {
    |j: TimeJob| j.0 == m
}

/// Holds of a job whose target is not `m`.
pub open spec fn misses(m: usize) -> spec_fn(TimeJob) -> bool {
    |j: TimeJob| j.0 != m
}

/// Holds of a job that still waits at `tick`.
pub open spec fn waits_at(tick: usize) -> spec_fn(TimeJob) -> bool {
    |j: TimeJob| j.0 > tick
}

/// The jobs whose target is exactly `m`, in arrival order.
pub open spec fn jobs_at(s: Seq<TimeJob>, m: usize) -> Seq<TimeJob> {
    keep(s, targets(m))
}

/// The jobs whose target is not `m`, in arrival order.
pub open spec fn without_target(s: Seq<TimeJob>, m: usize) -> Seq<TimeJob> {
    keep(s, misses(m))
}

/// The jobs that still wait at `tick`: their target lies beyond it.
pub open spec fn not_due(s: Seq<TimeJob>, tick: usize) -> Seq<TimeJob> {
    keep(s, waits_at(tick))
}

/// The resumption handles of a sequence of jobs.
pub open spec fn handles(s: Seq<TimeJob>) -> Seq<usize> {
    s.map_values(|j: TimeJob| j.1)
}

/// The smallest target among the jobs that are due at `tick`, if any.
pub open spec fn min_due(s: Seq<TimeJob>, tick: usize) -> Option<usize>
    decreases s.len(),
{
    if s.len() == 0 {
        None
    } else {
        let r = min_due(s.drop_last(), tick);
        let x = s.last();
        if x.0 <= tick && (r is None || x.0 < r->0) {
            Some(x.0)
        } else {
            r
        }
    }
}

/// The order in which the jobs due at `tick` resume: by ascending target,
/// and jobs of equal target in arrival order.
pub open spec fn release_order(s: Seq<TimeJob>, tick: usize) -> Seq<TimeJob>
    decreases s.len() via release_order_decreases
{
    match min_due(s, tick) {
        None => Seq::empty(),
        Some(m) => jobs_at(s, m) + release_order(without_target(s, m), tick),
    }
}

#[via_fn]
proof fn release_order_decreases(s: Seq<TimeJob>, tick: usize) {
    if let Some(m) = min_due(s, tick) {
        lemma_min_due(s, tick);
        let i = choose|i: int| 0 <= i < s.len() && s[i].0 == m;
        lemma_keep_len(s, misses(m), i);
    }
}

pub proof fn lemma_min_due(s: Seq<TimeJob>, tick: usize)
    ensures
        match min_due(s, tick) {
            Some(m) => m <= tick && (exists|i: int| 0 <= i < s.len() && s[i].0 == m) && (forall|i: int|
                0 <= i < s.len() && s[i].0 <= tick ==> m <= s[i].0),
            None => forall|i: int| 0 <= i < s.len() ==> s[i].0 > tick,
        },
    decreases s.len(),
{
    if s.len() > 0 {
        lemma_min_due(s.drop_last(), tick);
        let last = s.len() - 1;
        assert(forall|i: int| 0 <= i < last ==> s[i] == s.drop_last()[i]);
        if let Some(m) = min_due(s, tick) {
            if min_due(s.drop_last(), tick) == Some(m) && !(s.last().0 == m) {
                let i = choose|i: int| 0 <= i < s.drop_last().len() && s.drop_last()[i].0 == m;
                assert(s[i].0 == m);
            }
        }
    }
}

/// `keep` never grows a sequence, and shrinks it when some element fails `p`.
pub proof fn lemma_keep_len<A>(s: Seq<A>, p: spec_fn(A) -> bool, i: int)
    ensures
        keep(s, p).len() <= s.len(),
        0 <= i < s.len() && !p(s[i]) ==> keep(s, p).len() < s.len(),
    decreases s.len(),
{
    if s.len() > 0 {
        if i == s.len() - 1 {
            lemma_keep_len(s.drop_last(), p, i);
        } else {
            assert(0 <= i < s.len() - 1 ==> s.drop_last()[i] == s[i]);
            lemma_keep_len(s.drop_last(), p, i);
        }
    }
}

/// Every element that `keep` returns satisfies `p` and comes from `s`.
pub proof fn lemma_keep_sound<A>(s: Seq<A>, p: spec_fn(A) -> bool)
    ensures
        forall|k: int| 0 <= k < keep(s, p).len() ==> #[trigger] p(keep(s, p)[k]),
        forall|k: int| 0 <= k < keep(s, p).len() ==> s.contains(#[trigger] keep(s, p)[k]),
    decreases s.len(),
{
    if s.len() > 0 {
        lemma_keep_sound(s.drop_last(), p);
        let r = keep(s.drop_last(), p);
        assert forall|k: int| 0 <= k < keep(s, p).len() implies s.contains(#[trigger] keep(s, p)[k]) by {
            if k < r.len() {
                let x = r[k];
                assert(s.drop_last().contains(x));
                let i = choose|i: int| 0 <= i < s.drop_last().len() && s.drop_last()[i] == x;
                assert(s[i] == x);
            } else {
                assert(s[s.len() - 1] == keep(s, p)[k]);
            }
        }
    }
}

/// Two elements that satisfy `p` keep their relative order through `keep`.
pub proof fn lemma_keep_order<A>(s: Seq<A>, p: spec_fn(A) -> bool, i: int, j: int)
    requires
        0 <= i <= j < s.len(),
        p(s[i]),
        p(s[j]),
    ensures
        exists|k: int, l: int|
            0 <= k <= l < keep(s, p).len() && (i < j ==> k < l) && keep(s, p)[k] == s[i] && keep(
                s,
                p,
            )[l] == s[j],
    decreases s.len(),
{
    let d = s.drop_last();
    let r = keep(d, p);
    if j == s.len() - 1 {
        let l = r.len() as int;
        if i == j {
            assert(keep(s, p)[l] == s[j]);
        } else {
            assert(d[i] == s[i]);
            lemma_keep_order(d, p, i, i);
            let (k, k2) = choose|k: int, l: int|
                0 <= k <= l < r.len() && r[k] == d[i] && r[l] == d[i];
            assert(keep(s, p)[k] == s[i]);
            assert(keep(s, p)[l] == s[j]);
        }
    } else {
        assert(d[i] == s[i] && d[j] == s[j]);
        lemma_keep_order(d, p, i, j);
        let (k, l) = choose|k: int, l: int|
            0 <= k <= l < r.len() && (i < j ==> k < l) && r[k] == d[i] && r[l] == d[j];
        assert(keep(s, p)[k] == s[i]);
        assert(keep(s, p)[l] == s[j]);
    }
}

/// Filtering first by a weaker condition changes nothing.
pub proof fn lemma_keep_keep<A>(s: Seq<A>, p: spec_fn(A) -> bool, q: spec_fn(A) -> bool)
    requires
        forall|x: A| #[trigger] q(x) ==> p(x),
    ensures
        keep(keep(s, p), q) == keep(s, q),
    decreases s.len(),
{
    if s.len() > 0 {
        lemma_keep_keep(s.drop_last(), p, q);
        let r = keep(s.drop_last(), p);
        if p(s.last()) {
            assert(r.push(s.last()).drop_last() =~= r);
        }
    }
}

/// A filter that every element passes leaves the sequence as it is.
pub proof fn lemma_keep_all<A>(s: Seq<A>, p: spec_fn(A) -> bool)
    requires
        forall|i: int| 0 <= i < s.len() ==> p(#[trigger] s[i]),
    ensures
        keep(s, p) == s,
    decreases s.len(),
{
    if s.len() > 0 {
        assert(forall|i: int| 0 <= i < s.len() - 1 ==> s.drop_last()[i] == s[i]);
        lemma_keep_all(s.drop_last(), p);
        assert(s.drop_last().push(s.last()) =~= s);
    }
}

/// A time job resumes at `tick` exactly when its target is at most `tick`:
/// every released job is due, and every due job is released.
pub proof fn lemma_release_iff_due(s: Seq<TimeJob>, tick: usize)
    ensures
        forall|k: int|
            0 <= k < release_order(s, tick).len() ==> #[trigger] release_order(s, tick)[k].0 <= tick,
        forall|i: int|
            0 <= i < s.len() && s[i].0 <= tick ==> release_order(s, tick).contains(#[trigger] s[i]),
        forall|k: int| 0 <= k < not_due(s, tick).len() ==> #[trigger] not_due(s, tick)[k].0 > tick,
    decreases s.len(),
{
    lemma_min_due(s, tick);
    lemma_keep_sound(s, waits_at(tick));
    assert(forall|k: int| 0 <= k < not_due(s, tick).len() ==> waits_at(tick)(#[trigger] not_due(s, tick)[k]));
    if let Some(m) = min_due(s, tick) {
        let i0 = choose|i: int| 0 <= i < s.len() && s[i].0 == m;
        lemma_keep_len(s, misses(m), i0);
        let a = jobs_at(s, m);
        let w = without_target(s, m);
        let r = release_order(s, tick);
        lemma_release_iff_due(w, tick);
        lemma_keep_sound(s, targets(m));
        assert(r == a + release_order(w, tick));
        assert forall|k: int| 0 <= k < r.len() implies #[trigger] r[k].0 <= tick by {
            if k < a.len() {
                assert(targets(m)(a[k]));
            } else {
                assert(r[k] == release_order(w, tick)[k - a.len()]);
            }
        }
        assert forall|i: int| 0 <= i < s.len() && s[i].0 <= tick implies r.contains(#[trigger] s[i]) by {
            if s[i].0 == m {
                lemma_keep_order(s, targets(m), i, i);
                let (k, l) = choose|k: int, l: int|
                    0 <= k <= l < a.len() && a[k] == s[i] && a[l] == s[i];
                assert(r[k] == s[i]);
            } else {
                lemma_keep_order(s, misses(m), i, i);
                let (k, l) = choose|k: int, l: int|
                    0 <= k <= l < w.len() && w[k] == s[i] && w[l] == s[i];
                assert(w[k].0 <= tick);
                assert(release_order(w, tick).contains(w[k]));
                let q = choose|q: int| 0 <= q < release_order(w, tick).len() && release_order(w, tick)[q] == w[k];
                assert(r[a.len() + q] == s[i]);
            }
        }
    }
}

/// Two due jobs of equal target resume in the order in which they arrived.
pub proof fn lemma_release_ties_in_arrival_order(s: Seq<TimeJob>, tick: usize, i: int, j: int)
    requires
        0 <= i < j < s.len(),
        s[i].0 == s[j].0,
        s[i].0 <= tick,
    ensures
        exists|p: int, q: int|
            0 <= p < q < release_order(s, tick).len() && release_order(s, tick)[p] == s[i]
                && release_order(s, tick)[q] == s[j],
    decreases s.len(),
{
    lemma_min_due(s, tick);
    let m = min_due(s, tick)->0;
    let i0 = choose|i: int| 0 <= i < s.len() && s[i].0 == m;
    lemma_keep_len(s, misses(m), i0);
    let a = jobs_at(s, m);
    let w = without_target(s, m);
    let r = release_order(s, tick);
    assert(r == a + release_order(w, tick));
    if s[i].0 == m {
        lemma_keep_order(s, targets(m), i, j);
        let (k, l) = choose|k: int, l: int|
            0 <= k <= l < a.len() && (i < j ==> k < l) && a[k] == s[i] && a[l] == s[j];
        assert(r[k] == s[i] && r[l] == s[j]);
    } else {
        lemma_keep_order(s, misses(m), i, j);
        let (k, l) = choose|k: int, l: int|
            0 <= k <= l < w.len() && (i < j ==> k < l) && w[k] == s[i] && w[l] == s[j];
        lemma_release_ties_in_arrival_order(w, tick, k, l);
        let ro = release_order(w, tick);
        let (p, q) = choose|p: int, q: int|
            0 <= p < q < ro.len() && ro[p] == w[k] && ro[q] == w[l];
        assert(r[a.len() + p] == s[i] && r[a.len() + q] == s[j]);
    }
}

} // verus!
