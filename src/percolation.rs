//! An `n` by `n` grid of sites that are opened one by one; the grid percolates
//! once an open site of the bottom row is joined to the top row through open sites.
//!
//! Rows and columns are numbered from 1. Every site of the top row is joined to the
//! others of that row from the start, and likewise for the bottom row, so that
//! "joined to the top" is one comparison of representatives.

use vstd::prelude::*;
use vstd::pervasive::unreached;
use vstd::set_lib::{lemma_int_range, lemma_len_subset, set_int_range};
use crate::union_find::{lemma_union_connects, merged, UF};

verus! {

/// The position of site (`i`, `j`) in the underlying disjoint sets.
pub open spec fn site_index(n: int, i: int, j: int) -> int {
    (i - 1) * n + (j - 1)
}

/// Row `i` and column `j` lie on an `n` by `n` grid.
pub open spec fn valid_site(n: int, i: int, j: int) -> bool {
    1 <= i <= n && 1 <= j <= n
}

/// The indices of the open sites.
pub open spec fn open_set(sites: Seq<bool>) -> Set<int> {
    Set::new(|k: int| 0 <= k < sites.len() && sites[k])
}

pub proof fn lemma_open_set_bounded(sites: Seq<bool>)
    ensures
        open_set(sites).finite(),
        open_set(sites).len() <= sites.len(),
{
    lemma_int_range(0, sites.len() as int);
    lemma_len_subset(open_set(sites), set_int_range(0, sites.len() as int));
}

/// Whether `a` is in the class of site (`i`, `j`) or in that of one of its open
/// neighbours, among the first `stage` of them (left, right, up, down).
pub open spec fn touches(s: Seq<int>, sites: Seq<bool>, n: int, i: int, j: int, stage: int, a: int) -> bool {
    ||| s[a] == s[site_index(n, i, j)]
    ||| (stage >= 1 && j > 1 && sites[site_index(n, i, j - 1)] && s[a] == s[site_index(n, i, j - 1)])
    ||| (stage >= 2 && j < n && sites[site_index(n, i, j + 1)] && s[a] == s[site_index(n, i, j + 1)])
    ||| (stage >= 3 && i > 1 && sites[site_index(n, i - 1, j)] && s[a] == s[site_index(n, i - 1, j)])
    ||| (stage >= 4 && i < n && sites[site_index(n, i + 1, j)] && s[a] == s[site_index(n, i + 1, j)])
}

/// `t` is the partition `s` with the class of site (`i`, `j`) joined to the
/// classes of its open neighbours among the first `stage`.
#[verifier::opaque]
pub open spec fn opened_into(s: Seq<int>, sites: Seq<bool>, n: int, i: int, j: int, stage: int, t: Seq<int>) -> bool {
    &&& t.len() == s.len()
    &&& forall|a: int, b: int|
        #![trigger t[a], t[b]]
        0 <= a < s.len() && 0 <= b < s.len() ==> ((t[a] == t[b]) == (s[a] == s[b] || (touches(
            s,
            sites,
            n,
            i,
            j,
            stage,
            a,
        ) && touches(s, sites, n, i, j, stage, b))))
}

/// In a fresh grid, `a` and `b` share a class when they are equal, both
/// in the top row, or both in the bottom row.
pub open spec fn initially_joined(n: int, a: int, b: int) -> bool {
    ||| a == b
    ||| (0 <= a < n && 0 <= b < n)
    ||| (n * n - n <= a < n * n && n * n - n <= b < n * n)
}

/// One more union with the neighbour of the given stage keeps `opened_into` going.
proof fn lemma_open_step(
    s: Seq<int>,
    sites: Seq<bool>,
    n: int,
    i: int,
    j: int,
    stage: int,
    t: Seq<int>,
    nb: int,
    t2: Seq<int>,
)
    requires
        valid_site(n, i, j),
        s.len() == n * n,
        1 <= stage <= 4,
        0 <= site_index(n, i, j) < s.len(),
        0 <= nb < s.len(),
        opened_into(s, sites, n, i, j, stage - 1, t),
        forall|a: int|
            0 <= a < s.len() ==> (touches(s, sites, n, i, j, stage, a) == (touches(
                s,
                sites,
                n,
                i,
                j,
                stage - 1,
                a,
            ) || s[a] == s[nb])),
        merged(t, site_index(n, i, j), nb, t2),
    ensures
        opened_into(s, sites, n, i, j, stage, t2),
{
    reveal(opened_into);
    let me = site_index(n, i, j);
    assert(touches(s, sites, n, i, j, stage - 1, me));
    assert forall|a: int, b: int| 0 <= a < s.len() && 0 <= b < s.len() implies ((t2[a] == t2[b]) == (s[a]
        == s[b] || (touches(s, sites, n, i, j, stage, a) && touches(s, sites, n, i, j, stage, b)))) by {
        assert(t[a] == t[me] <==> (s[a] == s[me] || touches(s, sites, n, i, j, stage - 1, a)));
        assert(t[b] == t[me] <==> (s[b] == s[me] || touches(s, sites, n, i, j, stage - 1, b)));
        assert(t[a] == t[nb] <==> (s[a] == s[nb] || (touches(s, sites, n, i, j, stage - 1, a)
            && touches(s, sites, n, i, j, stage - 1, nb))));
        assert(t[b] == t[nb] <==> (s[b] == s[nb] || (touches(s, sites, n, i, j, stage - 1, b)
            && touches(s, sites, n, i, j, stage - 1, nb))));
        assert(t[a] == t[b] <==> (s[a] == s[b] || (touches(s, sites, n, i, j, stage - 1, a)
            && touches(s, sites, n, i, j, stage - 1, b))));
        assert(t2[a] == t2[b] <==> (t[a] == t[b] || (t[a] == t[me] && t[b] == t[nb]) || (t[a]
            == t[nb] && t[b] == t[me])));
    }
}

/// A grid of sites, each open or closed, over disjoint sets of its `n * n` sites.
pub struct Percolation {
    n: usize,
    opened_count: usize,
    uf: UF,
    open: Vec<bool>,
}

impl Percolation {
    /// The number of rows, which is also the number of columns.
    pub closed spec fn side(&self) -> int {
        self.n as int
    }

    /// For each site index, whether the site is open.
    pub closed spec fn sites(&self) -> Seq<bool> {
        self.open@
    }

    /// For each site index, the representative of its class.
    pub closed spec fn groups(&self) -> Seq<int> {
        self.uf@
    }

    /// How many sites have been opened.
    pub closed spec fn opened(&self) -> int {
        self.opened_count as int
    }

    pub closed spec fn wf(&self) -> bool {
        let n = self.n as int;
        &&& n >= 1
        &&& n * n <= usize::MAX
        &&& self.uf.wf()
        &&& self.uf@.len() == n * n
        &&& self.open@.len() == n * n
        &&& self.opened_count == open_set(self.open@).len()
        &&& forall|j: int|
            1 <= j <= n ==> #[trigger] self.uf@[site_index(n, 1, j)] == self.uf@[site_index(n, 1, 1)]
        &&& forall|j: int|
            1 <= j <= n ==> #[trigger] self.uf@[site_index(n, n, j)] == self.uf@[site_index(n, n, 1)]
    }

    /// Site (`i`, `j`) is joined to the top row.
    pub open spec fn full(&self, i: int, j: int) -> bool {
        let n = self.side();
        self.groups()[site_index(n, i, j)] == self.groups()[site_index(n, 1, 1)]
    }

    /// Some site of the bottom row is full.
    pub open spec fn percolating(&self) -> bool {
        exists|j: int| 1 <= j <= self.side() && #[trigger] self.full(self.side(), j)
    }
}

impl Percolation {
    /// A grid of `n` by `n` closed sites, with the top row joined together and
    /// the bottom row joined together.
    pub fn new(n: usize) -> (r: Percolation)
        requires
            n >= 1,
            n * n <= usize::MAX,
        ensures
            r.wf(),
            r.side() == n,
            r.opened() == 0,
            r.groups().len() == n * n,
            r.sites() == Seq::new((n * n) as nat, |k: int| false),
            forall|a: int, b: int|
                0 <= a < n * n && 0 <= b < n * n ==> ((r.groups()[a] == r.groups()[b])
                    == initially_joined(n as int, a, b)),
    {
        let total = n * n;
        assert(n <= total) by (nonlinear_arith)
            requires
                n >= 1,
                total == n * n,
        ;
        let mut uf = match UF::new(total) {
            Ok(u) => u,
            Err(_) => unreached(),
        };
        let mut k: usize = 1;
        while k < n
            invariant
                uf.wf(),
                uf@.len() == total,
                total == n * n,
                n <= total,
                1 <= k <= n,
                forall|a: int, b: int|
                    #![trigger uf@[a], uf@[b]]
                    0 <= a < total && 0 <= b < total ==> ((uf@[a] == uf@[b]) == (a == b || (0 <= a
                        < k && 0 <= b < k))),
            decreases n - k,
        {
            let ghost t = uf@;
            uf.union(0, k);
            proof {
                assert forall|a: int, b: int| 0 <= a < total && 0 <= b < total implies ((uf@[a]
                    == uf@[b]) == (a == b || (0 <= a < k + 1 && 0 <= b < k + 1))) by {
                    assert(t[a] == t[0] <==> a < k);
                    assert(t[b] == t[0] <==> b < k);
                    assert(t[a] == t[k as int] <==> a == k);
                    assert(t[b] == t[k as int] <==> b == k);
                    assert(t[a] == t[b] <==> (a == b || (a < k && b < k)));
                }
            }
            k = k + 1;
        }
        let base = total - n;
        assert(n >= 2 ==> base >= n) by (nonlinear_arith)
            requires
                base == n * n - n,
        ;
        let mut k: usize = 1;
        while k < n
            invariant
                uf.wf(),
                uf@.len() == total,
                total == n * n,
                base == total - n,
                n >= 2 ==> base >= n,
                1 <= k <= n,
                forall|a: int, b: int|
                    #![trigger uf@[a], uf@[b]]
                    0 <= a < total && 0 <= b < total ==> ((uf@[a] == uf@[b]) == (a == b || (0 <= a
                        < n && 0 <= b < n) || (base <= a < base + k && base <= b < base + k))),
            decreases n - k,
        {
            let ghost t = uf@;
            uf.union(base, base + k);
            proof {
                assert forall|a: int, b: int| 0 <= a < total && 0 <= b < total implies ((uf@[a]
                    == uf@[b]) == (a == b || (0 <= a < n && 0 <= b < n) || (base <= a < base + k
                    + 1 && base <= b < base + k + 1))) by {
                    assert(t[a] == t[base as int] <==> base <= a < base + k);
                    assert(t[b] == t[base as int] <==> base <= b < base + k);
                    assert(t[a] == t[base + k] <==> a == base + k);
                    assert(t[b] == t[base + k] <==> b == base + k);
                    assert(t[a] == t[b] <==> (a == b || (0 <= a < n && 0 <= b < n) || (base <= a
                        < base + k && base <= b < base + k)));
                }
            }
            k = k + 1;
        }
        let mut open: Vec<bool> = Vec::new();
        let mut k: usize = 0;
        while k < total
            invariant
                k <= total,
                open@ == Seq::new(k as nat, |x: int| false),
            decreases total - k,
        {
            open.push(false);
            k = k + 1;
            assert(open@ =~= Seq::new(k as nat, |x: int| false));
        }
        let r = Percolation { n, opened_count: 0, uf, open };
        proof {
            assert(open_set(r.open@) =~= Set::empty());
            assert((n - 1) * n == n * n - n) by (nonlinear_arith);
            assert forall|j: int| 1 <= j <= n implies #[trigger] r.uf@[site_index(n as int, 1, j)]
                == r.uf@[site_index(n as int, 1, 1)] by {
                assert(site_index(n as int, 1, j) == j - 1);
                assert(site_index(n as int, 1, 1) == 0);
                assert(r.uf@[j - 1] == r.uf@[0]);
            }
            assert forall|j: int| 1 <= j <= n implies #[trigger] r.uf@[site_index(
                n as int,
                n as int,
                j,
            )] == r.uf@[site_index(n as int, n as int, 1)] by {
                assert(site_index(n as int, n as int, j) == base + j - 1);
                assert(r.uf@[base + j - 1] == r.uf@[base as int]);
            }
        }
        r
    }

    /// The number of rows, which is also the number of columns.
    pub fn size(&self) -> (r: usize)
        ensures
            r == self.side(),
            self.wf() ==> r >= 1,
    {
        self.n
    }

    /// How many sites have been opened.
    pub fn number_of_open_sites(&self) -> (r: usize)
        ensures
            r == self.opened(),
    {
        self.opened_count
    }

    /// The index of site (`i`, `j`) in the underlying disjoint sets.
    pub fn index_of(&self, i: usize, j: usize) -> (r: usize)
        requires
            self.wf(),
            valid_site(self.side(), i as int, j as int),
        ensures
            r == site_index(self.side(), i as int, j as int),
            r < self.side() * self.side(),
    {
        let n = self.n;
        proof {
            lemma_index_bounds(n as int, i as int, j as int);
        }
        (i - 1) * n + (j - 1)
    }

    /// Whether site (`i`, `j`) has been opened.
    pub fn is_open(&self, i: usize, j: usize) -> (r: bool)
        requires
            self.wf(),
            valid_site(self.side(), i as int, j as int),
        ensures
            r == self.sites()[site_index(self.side(), i as int, j as int)],
    {
        let me = self.index_of(i, j);
        self.open[me]
    }

    /// Whether site (`i`, `j`) is joined to the top row.
    pub fn is_full(&self, i: usize, j: usize) -> (r: bool)
        requires
            self.wf(),
            valid_site(self.side(), i as int, j as int),
        ensures
            r == self.full(i as int, j as int),
    {
        let me = self.index_of(i, j);
        let top_left = self.index_of(1, 1);
        self.uf.connected(me, top_left)
    }

    /// Whether some site of the bottom row is full.
    pub fn percolates(&self) -> (r: bool)
        requires
            self.wf(),
        ensures
            r == self.percolating(),
    {
        let n = self.n;
        assert(n < usize::MAX) by (nonlinear_arith)
            requires
                n >= 1,
                n * n <= usize::MAX,
        ;
        let mut j: usize = 1;
        while j <= n
            invariant
                self.wf(),
                n == self.side(),
                n < usize::MAX,
                1 <= j <= n + 1,
                forall|k: int| 1 <= k < j ==> !#[trigger] self.full(n as int, k),
            decreases n + 1 - j,
        {
            if self.is_full(n, j) {
                return true;
            }
            j = j + 1;
        }
        false
    }

    /// Joins the classes of sites `a` and `b`.
    fn link(&mut self, a: usize, b: usize)
        requires
            old(self).wf(),
            a < old(self).side() * old(self).side(),
            b < old(self).side() * old(self).side(),
        ensures
            final(self).wf(),
            final(self).side() == old(self).side(),
            final(self).sites() == old(self).sites(),
            final(self).opened() == old(self).opened(),
            merged(old(self).groups(), a as int, b as int, final(self).groups()),
    {
        let ghost s = self.uf@;
        self.uf.union(a, b);
        proof {
            lemma_union_connects(s, a as int, b as int, self.uf@);
            let n = self.n as int;
            assert forall|j: int| 1 <= j <= n implies #[trigger] self.uf@[site_index(n, 1, j)]
                == self.uf@[site_index(n, 1, 1)] by {
                lemma_index_bounds(n, 1, j);
                lemma_index_bounds(n, 1, 1);
                assert(s[site_index(n, 1, j)] == s[site_index(n, 1, 1)]);
            }
            assert forall|j: int| 1 <= j <= n implies #[trigger] self.uf@[site_index(n, n, j)]
                == self.uf@[site_index(n, n, 1)] by {
                lemma_index_bounds(n, n, j);
                lemma_index_bounds(n, n, 1);
                assert(s[site_index(n, n, j)] == s[site_index(n, n, 1)]);
            }
        }
    }

    /// Opens site (`i`, `j`), joining it to each open neighbour; an open site is left as it is.
    pub fn open(&mut self, i: usize, j: usize)
        requires
            old(self).wf(),
            valid_site(old(self).side(), i as int, j as int),
        ensures
            final(self).wf(),
            final(self).side() == old(self).side(),
            final(self).sites() == old(self).sites().update(
                site_index(old(self).side(), i as int, j as int),
                true,
            ),
            final(self).opened() == old(self).opened() + if old(self).sites()[site_index(
                old(self).side(),
                i as int,
                j as int,
            )] {
                0int
            } else {
                1int
            },
            old(self).sites()[site_index(old(self).side(), i as int, j as int)] ==> final(self).groups()
                == old(self).groups(),
            !old(self).sites()[site_index(old(self).side(), i as int, j as int)] ==> opened_into(
                old(self).groups(),
                old(self).sites(),
                old(self).side(),
                i as int,
                j as int,
                4,
                final(self).groups(),
            ),
    {
        if self.is_open(i, j) {
            proof {
                lemma_index_bounds(self.n as int, i as int, j as int);
                let me = site_index(self.n as int, i as int, j as int);
                assert(self.open@.update(me, true) =~= self.open@);
            }
            return;
        }
        let n = self.n;
        let ghost s = self.uf@;
        let ghost sites = self.open@;
        let me = self.index_of(i, j);
        reveal(opened_into);
        assert(opened_into(s, sites, n as int, i as int, j as int, 0, self.uf@));
        if j > 1 && self.is_open(i, j - 1) {
            let left = self.index_of(i, j - 1);
            let ghost t = self.uf@;
            self.link(me, left);
            proof {
                lemma_open_step(s, sites, n as int, i as int, j as int, 1, t, left as int, self.uf@);
            }
        }
        assert(opened_into(s, sites, n as int, i as int, j as int, 1, self.uf@));
        if j < n && self.is_open(i, j + 1) {
            let right = self.index_of(i, j + 1);
            let ghost t = self.uf@;
            self.link(me, right);
            proof {
                lemma_open_step(s, sites, n as int, i as int, j as int, 2, t, right as int, self.uf@);
            }
        }
        assert(opened_into(s, sites, n as int, i as int, j as int, 2, self.uf@));
        if i > 1 && self.is_open(i - 1, j) {
            let up = self.index_of(i - 1, j);
            let ghost t = self.uf@;
            self.link(me, up);
            proof {
                lemma_open_step(s, sites, n as int, i as int, j as int, 3, t, up as int, self.uf@);
            }
        }
        assert(opened_into(s, sites, n as int, i as int, j as int, 3, self.uf@));
        if i < n && self.is_open(i + 1, j) {
            let down = self.index_of(i + 1, j);
            let ghost t = self.uf@;
            self.link(me, down);
            proof {
                lemma_open_step(s, sites, n as int, i as int, j as int, 4, t, down as int, self.uf@);
            }
        }
        assert(opened_into(s, sites, n as int, i as int, j as int, 4, self.uf@));
        proof {
            lemma_open_set_bounded(sites);
            assert(open_set(sites.update(me as int, true)) =~= open_set(sites).insert(me as int));
            lemma_open_set_bounded(sites.update(me as int, true));
        }
        self.open.set(me, true);
        self.opened_count = self.opened_count + 1;
    }
}

/// A well-formed grid has one open flag and one representative per site.
pub proof fn lemma_grid_lengths(p: &Percolation)
    requires
        p.wf(),
    ensures
        p.side() >= 1,
        p.sites().len() == p.side() * p.side(),
        p.groups().len() == p.side() * p.side(),
        p.opened() == open_set(p.sites()).len(),
{
}

/// A grid of one site percolates: its top and bottom rows are the same site.
pub proof fn lemma_single_site_percolates(p: &Percolation)
    requires
        p.wf(),
        p.side() == 1,
    ensures
        p.percolating(),
{
    assert(site_index(1, 1, 1) == 0);
    assert(p.full(1, 1));
}

/// Every site of the grid has an index in `0..n * n`.
pub proof fn lemma_index_bounds(n: int, i: int, j: int)
    requires
        valid_site(n, i, j),
    ensures
        0 <= site_index(n, i, j) < n * n,
{
    assert(0 <= (i - 1) * n) by (nonlinear_arith)
        requires
            1 <= i,
            1 <= n,
    ;
    assert((i - 1) * n + (j - 1) < n * n) by (nonlinear_arith)
        requires
            i <= n,
            1 <= j <= n,
    ;
}

} // verus!
