//! Merging of stationary neighbours into line obstacles.
//!
//! Agents are scanned by index. A stationary agent that no earlier seed has
//! taken becomes a seed and joins every later stationary agent that is near it
//! and not yet taken. Each joined pair becomes one line obstacle; an agent in
//! such a pair contributes no constraint of its own.
use vstd::prelude::*;

verus! {

/// What the scan reads of the neighbours: which are stationary, and which
/// pairs stand close enough to be merged (`near[s][t]`, read for `s < t`).
pub struct Neighborhood {
    pub stationary: Vec<bool>,
    pub near: Vec<Vec<bool>>,
}

/// The mathematical model of a [`Neighborhood`].
pub struct NeighborhoodView {
    pub stationary: Seq<bool>,
    pub near: Seq<Seq<bool>>,
}

impl View for Neighborhood {
    type V = NeighborhoodView;

    open spec fn view(&self) -> NeighborhoodView {
        NeighborhoodView {
            stationary: self.stationary@,
            near: self.near@.map_values(|row: Vec<bool>| row@),
        }
    }
}

/// The outcome of the scan: which agents were merged, and the joined pairs
/// `(seed, partner)` in the order in which they were found.
pub struct Clustering {
    pub merged: Vec<bool>,
    pub pairs: Vec<(usize, usize)>,
}

pub struct ClusteringView {
    pub merged: Seq<bool>,
    pub pairs: Seq<(usize, usize)>,
}

impl View for Clustering {
    type V = ClusteringView;

    open spec fn view(&self) -> ClusteringView {
        ClusteringView { merged: self.merged@, pairs: self.pairs@ }
    }
}

impl NeighborhoodView {
    pub open spec fn count(self) -> int {
        self.stationary.len() as int
    }

    /// The table of near pairs is square over the agents.
    pub open spec fn well_formed(self) -> bool {
        &&& self.stationary.len() <= usize::MAX
        &&& self.near.len() == self.stationary.len()
        &&& forall|s: int| 0 <= s < self.near.len() ==> #[trigger] self.near[s].len()
            == self.stationary.len()
    }

    /// Agent `i` is stationary and no earlier seed has taken it.
    pub open spec fn is_seed(self, i: int) -> bool
        decreases i, 1int,
    {
        0 <= i < self.count() && self.stationary[i] && !self.taken_before(i, i)
    }

    /// Seed `s` takes the later agent `t`: `t` is stationary, near `s`, and
    /// no seed before `s` has taken it.
    pub open spec fn joins(self, s: int, t: int) -> bool
        decreases s, 2int,
    {
        0 <= s < t < self.count() && self.is_seed(s) && self.stationary[t] && self.near[s][t]
            && !self.taken_before(t, s)
    }

    /// Some seed below index `k` has taken agent `t`.
    pub open spec fn taken_before(self, t: int, k: int) -> bool
        decreases k, 0int,
    {
        if k <= 0 {
            false
        } else {
            self.taken_before(t, k - 1) || self.joins(k - 1, t)
        }
    }

    /// Seed `s` has taken some agent below index `k`.
    pub open spec fn leads_before(self, s: int, k: int) -> bool
        decreases k,
    {
        if k <= 0 {
            false
        } else {
            self.leads_before(s, k - 1) || self.joins(s, k - 1)
        }
    }

    /// Agent `i` ends up in a merged pair, on either side.
    pub open spec fn merged(self, i: int) -> bool {
        self.taken_before(i, i) || self.leads_before(i, self.count())
    }

    /// The pairs `(s, t)` with `t < k` that seed `s` forms, by increasing `t`.
    pub open spec fn row(self, s: int, k: int) -> Seq<(usize, usize)>
        decreases k,
    {
        if k <= 0 {
            seq![]
        } else if self.joins(s, k - 1) {
            self.row(s, k - 1).push((s as usize, (k - 1) as usize))
        } else {
            self.row(s, k - 1)
        }
    }

    /// All pairs whose seed is below `k`, by seed and then by partner.
    pub open spec fn pairs_upto(self, k: int) -> Seq<(usize, usize)>
        decreases k,
    {
        if k <= 0 {
            seq![]
        } else {
            self.pairs_upto(k - 1) + self.row(k - 1, self.count())
        }
    }

    /// The outcome of the scan; with merging switched off nothing merges.
    pub open spec fn clustering(self, merge: bool) -> ClusteringView {
        if merge {
            ClusteringView {
                merged: Seq::new(self.count() as nat, |i: int| self.merged(i)),
                pairs: self.pairs_upto(self.count()),
            }
        } else {
            ClusteringView {
                merged: Seq::new(self.count() as nat, |i: int| false),
                pairs: seq![],
            }
        }
    }
}

/// Seed `a` comes before `b`, or they share the seed and the partner of `a`
/// comes first.
pub open spec fn pair_before(a: (usize, usize), b: (usize, usize)) -> bool {
    a.0 < b.0 || (a.0 == b.0 && a.1 < b.1)
}

/// Agent `t` is taken below `k` exactly when some seed below `k` joins it.
pub proof fn lemma_taken_before(h: NeighborhoodView, t: int, k: int)
    ensures
        h.taken_before(t, k) <==> exists|s: int| 0 <= s < k && #[trigger] h.joins(s, t),
    decreases k,
{
    if k > 0 {
        lemma_taken_before(h, t, k - 1);
        assert(h.taken_before(t, k) == (h.taken_before(t, k - 1) || h.joins(k - 1, t)));
        if h.taken_before(t, k - 1) {
            let s = choose|s: int| 0 <= s < k - 1 && #[trigger] h.joins(s, t);
            assert(0 <= s < k && h.joins(s, t));
        }
        if exists|s: int| 0 <= s < k && #[trigger] h.joins(s, t) {
            let s = choose|s: int| 0 <= s < k && #[trigger] h.joins(s, t);
            if s < k - 1 {
                assert(h.taken_before(t, k - 1));
            }
        }
    }
}

/// Seed `s` leads below `k` exactly when it joins some agent below `k`.
pub proof fn lemma_leads_before(h: NeighborhoodView, s: int, k: int)
    ensures
        h.leads_before(s, k) <==> exists|t: int| 0 <= t < k && #[trigger] h.joins(s, t),
    decreases k,
{
    if k > 0 {
        lemma_leads_before(h, s, k - 1);
        if h.leads_before(s, k - 1) {
            let t = choose|t: int| 0 <= t < k - 1 && #[trigger] h.joins(s, t);
            assert(0 <= t < k && h.joins(s, t));
        }
        if exists|t: int| 0 <= t < k && #[trigger] h.joins(s, t) {
            let t = choose|t: int| 0 <= t < k && #[trigger] h.joins(s, t);
            if t < k - 1 {
                assert(h.leads_before(s, k - 1));
            }
        }
    }
}

/// The row of seed `s` below `k` holds exactly the agents below `k` that `s`
/// joins, by increasing index.
pub proof fn lemma_row(h: NeighborhoodView, s: int, k: int)
    requires
        h.well_formed(),
        k <= h.count(),
    ensures
        forall|x: int|
            0 <= x < h.row(s, k).len() ==> (#[trigger] h.row(s, k)[x]).0 as int == s
                && h.row(s, k)[x].1 < k && h.joins(s, h.row(s, k)[x].1 as int),
        forall|x: int, y: int|
            0 <= x < y < h.row(s, k).len() ==> (#[trigger] h.row(s, k)[x]).1 < (#[trigger] h.row(
                s,
                k,
            )[y]).1,
        forall|t: int|
            0 <= t < k && #[trigger] h.joins(s, t) ==> h.row(s, k).contains(
                (s as usize, t as usize),
            ),
    decreases k,
{
    if k > 0 {
        lemma_row(h, s, k - 1);
        let prev = h.row(s, k - 1);
        if h.joins(s, k - 1) {
            assert(h.row(s, k) == prev.push((s as usize, (k - 1) as usize)));
            assert forall|t: int| 0 <= t < k && #[trigger] h.joins(s, t) implies h.row(
                s,
                k,
            ).contains((s as usize, t as usize)) by {
                if t < k - 1 {
                    let x = choose|x: int| 0 <= x < prev.len() && prev[x] == (s as usize, t as usize);
                    assert(h.row(s, k)[x] == (s as usize, t as usize));
                } else {
                    assert(h.row(s, k)[prev.len() as int] == (s as usize, t as usize));
                }
            }
        } else {
            assert forall|t: int| 0 <= t < k && #[trigger] h.joins(s, t) implies h.row(
                s,
                k,
            ).contains((s as usize, t as usize)) by {
                assert(t < k - 1);
            }
        }
    }
}

/// The pairs whose seed is below `k` are exactly the joined pairs with such
/// a seed, in strictly increasing order.
pub proof fn lemma_pairs_upto(h: NeighborhoodView, k: int)
    requires
        h.well_formed(),
        0 <= k <= h.count(),
    ensures
        forall|x: int|
            0 <= x < h.pairs_upto(k).len() ==> (#[trigger] h.pairs_upto(k)[x]).0 < k && h.joins(
                h.pairs_upto(k)[x].0 as int,
                h.pairs_upto(k)[x].1 as int,
            ),
        forall|x: int, y: int|
            0 <= x < y < h.pairs_upto(k).len() ==> pair_before(
                #[trigger] h.pairs_upto(k)[x],
                #[trigger] h.pairs_upto(k)[y],
            ),
        forall|s: int, t: int|
            0 <= s < k && #[trigger] h.joins(s, t) ==> h.pairs_upto(k).contains(
                (s as usize, t as usize),
            ),
    decreases k,
{
    if k > 0 {
        lemma_pairs_upto(h, k - 1);
        lemma_row(h, k - 1, h.count());
        let a = h.pairs_upto(k - 1);
        let b = h.row(k - 1, h.count());
        let p = h.pairs_upto(k);
        assert(p == a + b);
        assert forall|x: int|
            0 <= x < p.len() implies (#[trigger] p[x]).0 < k && h.joins(
                p[x].0 as int,
                p[x].1 as int,
            ) by {
            if x >= a.len() {
                assert(p[x] == b[x - a.len()]);
            }
        }
        assert forall|x: int, y: int| 0 <= x < y < p.len() implies pair_before(
            #[trigger] p[x],
            #[trigger] p[y],
        ) by {
            if y >= a.len() {
                assert(p[y] == b[y - a.len()]);
                if x >= a.len() {
                    assert(p[x] == b[x - a.len()]);
                } else {
                    assert(p[x] == a[x]);
                }
            }
        }
        assert forall|s: int, t: int| 0 <= s < k && #[trigger] h.joins(s, t) implies p.contains(
            (s as usize, t as usize),
        ) by {
            if s < k - 1 {
                let x = choose|x: int| 0 <= x < a.len() && a[x] == (s as usize, t as usize);
                assert(p[x] == a[x]);
            } else {
                assert(b.contains((s as usize, t as usize)));
                let x = choose|x: int| 0 <= x < b.len() && b[x] == (s as usize, t as usize);
                assert(p[a.len() + x] == b[x]);
            }
        }
    }
}

/// A seed forms no pair with an agent at or before itself.
proof fn lemma_row_starts_empty(h: NeighborhoodView, s: int, k: int)
    requires
        k <= s + 1,
    ensures
        h.row(s, k) == Seq::<(usize, usize)>::empty(),
        !h.leads_before(s, k),
    decreases k,
{
    if k > 0 {
        lemma_row_starts_empty(h, s, k - 1);
    }
}

/// Runs the scan over the neighbours; with `merge` off every agent stays
/// on its own.
pub fn cluster(hood: &Neighborhood, merge: bool) -> (r: Clustering)
    requires
        hood@.well_formed(),
    ensures
        r@ == hood@.clustering(merge),
{
    let n = hood.stationary.len();
    let mut merged: Vec<bool> = Vec::new();
    let mut k: usize = 0;
    while k < n
        invariant
            k <= n,
            merged@ == Seq::new(k as nat, |i: int| false),
        decreases n - k,
    {
        merged.push(false);
        k += 1;
    }
    let mut pairs: Vec<(usize, usize)> = Vec::new();
    if !merge {
        return Clustering { merged, pairs };
    }
    let ghost h = hood@;
    let mut i: usize = 0;
    while i < n
        invariant
            h == hood@,
            h.well_formed(),
            n == h.count(),
            i <= n,
            merged.len() == n,
            forall|t: int| 0 <= t < i ==> merged@[t] == h.merged(t),
            forall|t: int| i <= t < n ==> merged@[t] == h.taken_before(t, i as int),
            pairs@ == h.pairs_upto(i as int),
        decreases n - i,
    {
        let seed = hood.stationary[i] && !merged[i];
        proof {
            lemma_row_starts_empty(h, i as int, i + 1);
            assert(pairs@ + h.row(i as int, i + 1) =~= pairs@);
        }
        let mut j: usize = i + 1;
        while j < n
            invariant
                h == hood@,
                h.well_formed(),
                n == h.count(),
                i < n,
                i + 1 <= j <= n,
                merged.len() == n,
                seed == h.is_seed(i as int),
                forall|t: int| 0 <= t < i ==> merged@[t] == h.merged(t),
                merged@[i as int] == (h.taken_before(i as int, i as int) || h.leads_before(
                    i as int,
                    j as int,
                )),
                forall|t: int|
                    i < t < n ==> merged@[t] == (h.taken_before(t, i as int) || (t < j && h.joins(
                        i as int,
                        t,
                    ))),
                pairs@ == h.pairs_upto(i as int) + h.row(i as int, j as int),
            decreases n - j,
        {
            assert(hood.near@[i as int]@ == h.near[i as int]);
            if seed && hood.stationary[j] && !merged[j] && hood.near[i][j] {
                assert(h.joins(i as int, j as int));
                pairs.push((i, j));
                merged.set(i, true);
                merged.set(j, true);
                proof {
                    assert(h.pairs_upto(i as int) + h.row(i as int, j + 1) =~= (h.pairs_upto(
                        i as int,
                    ) + h.row(i as int, j as int)).push((i, j)));
                }
            } else {
                assert(!h.joins(i as int, j as int));
            }
            j += 1;
        }
        assert(h.pairs_upto(i + 1) == h.pairs_upto(i as int) + h.row(i as int, n as int));
        i += 1;
    }
    proof {
        assert(merged@ =~= h.clustering(true).merged);
    }
    Clustering { merged, pairs }
}

} // verus!
