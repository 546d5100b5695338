//! Monte Carlo trials on percolation grids: open random sites of a fresh grid
//! until it percolates, and keep how many sites each trial opened.
//!
//! A trial is fixed by the grid side `n`, the generator state `s` it starts
//! from and the most draws it may make: draw `m` (from 0) takes the row from
//! the state `2m + 1` steps after `s` and the column from the next one.

use vstd::prelude::*;
use crate::percolation::{
    initially_joined, lemma_grid_lengths, lemma_index_bounds, open_set, opened_into, site_index,
    touches, Percolation,
};
use crate::random::{next_state, position_of, SiteRng};

verus! {

/// The generator state `k` steps after `s`.
pub open spec fn advance(s: u64, k: nat) -> u64
    decreases k,
{
    if k == 0 {
        s
    } else {
        next_state(advance(s, (k - 1) as nat))
    }
}

/// The row of draw `m`.
pub open spec fn drawn_row(n: int, s: u64, m: nat) -> int {
    position_of(advance(s, 2 * m + 1), n)
}

/// The column of draw `m`.
pub open spec fn drawn_col(n: int, s: u64, m: nat) -> int {
    position_of(advance(s, 2 * m + 2), n)
}

/// The index of the site of draw `m`.
pub open spec fn drawn_index(n: int, s: u64, m: nat) -> int {
    site_index(n, drawn_row(n, s, m), drawn_col(n, s, m))
}

/// The open flags of a fresh grid after the first `m` draws.
pub open spec fn sites_after(n: int, s: u64, m: nat) -> Seq<bool>
    decreases m,
{
    if m == 0 {
        Seq::new((n * n) as nat, |k: int| false)
    } else {
        sites_after(n, s, (m - 1) as nat).update(drawn_index(n, s, (m - 1) as nat), true)
    }
}

/// Whether sites `a` and `b` of a fresh grid share a class after the first `m` draws.
pub open spec fn linked_after(n: int, s: u64, m: nat, a: int, b: int) -> bool
    decreases m, 0int,
{
    if m == 0 {
        initially_joined(n, a, b)
    } else {
        let k = (m - 1) as nat;
        let me = drawn_index(n, s, k);
        if sites_after(n, s, k)[me] {
            linked_after(n, s, k, a, b)
        } else {
            linked_after(n, s, k, a, b) || (reaches(n, s, k, a) && reaches(n, s, k, b))
        }
    }
}

/// After the first `k` draws, whether the class of `a` is that of the site of
/// draw `k` or of one of that site's open neighbours.
pub open spec fn reaches(n: int, s: u64, k: nat, a: int) -> bool
    decreases k, 1int,
{
    let i = drawn_row(n, s, k);
    let j = drawn_col(n, s, k);
    let open = sites_after(n, s, k);
    ||| linked_after(n, s, k, a, site_index(n, i, j))
    ||| (j > 1 && open[site_index(n, i, j - 1)] && linked_after(n, s, k, a, site_index(n, i, j - 1)))
    ||| (j < n && open[site_index(n, i, j + 1)] && linked_after(n, s, k, a, site_index(n, i, j + 1)))
    ||| (i > 1 && open[site_index(n, i - 1, j)] && linked_after(n, s, k, a, site_index(n, i - 1, j)))
    ||| (i < n && open[site_index(n, i + 1, j)] && linked_after(n, s, k, a, site_index(n, i + 1, j)))
}

/// Whether a fresh grid percolates after the first `m` draws.
pub open spec fn percolating_after(n: int, s: u64, m: nat) -> bool {
    exists|j: int| 1 <= j <= n && #[trigger] linked_after(n, s, m, site_index(n, n, j), site_index(n, 1, 1))
}

/// The number of draws a trial makes once `m` draws left it not percolating:
/// the first later draw after which it percolates, or `max` if none.
pub open spec fn trial_length(n: int, s: u64, max: nat, m: nat) -> nat
    decreases max - m,
{
    if m >= max {
        max
    } else if percolating_after(n, s, m + 1) {
        m + 1
    } else {
        trial_length(n, s, max, m + 1)
    }
}

/// How many draws a trial from state `s` makes.
pub open spec fn trial_draws(n: int, s: u64, max: nat) -> nat {
    trial_length(n, s, max, 0)
}

/// Whether a trial from state `s` ends percolating.
pub open spec fn trial_percolates(n: int, s: u64, max: nat) -> bool {
    trial_draws(n, s, max) >= 1 && percolating_after(n, s, trial_draws(n, s, max))
}

/// How many sites are open when a trial from state `s` ends.
pub open spec fn trial_count(n: int, s: u64, max: nat) -> nat {
    open_set(sites_after(n, s, trial_draws(n, s, max))).len()
}

/// The generator state after a trial from state `s`.
pub open spec fn state_after_trial(n: int, s: u64, max: nat) -> u64 {
    advance(s, 2 * trial_draws(n, s, max))
}

/// The generator state after `x` trials, the first from state `s`.
pub open spec fn state_after_trials(n: int, s: u64, max: nat, x: nat) -> u64
    decreases x,
{
    if x == 0 {
        s
    } else {
        state_after_trial(n, state_after_trials(n, s, max, (x - 1) as nat), max)
    }
}

/// `added` is what a run of `t` trials from state `s` records: one count per
/// trial, in order, up to the first trial that does not percolate.
pub open spec fn run_outcome(n: int, s: u64, max: nat, t: nat, added: Seq<usize>) -> bool {
    &&& added.len() <= t
    &&& forall|x: nat|
        x < added.len() ==> trial_percolates(n, #[trigger] state_after_trials(n, s, max, x), max)
            && added[x as int] == trial_count(n, state_after_trials(n, s, max, x), max)
    &&& added.len() < t ==> !trial_percolates(n, state_after_trials(n, s, max, added.len()), max)
}

/// Runs from the same generator state on grids of the same side, with the
/// same number of trials and the same bound on draws, record the same counts.
pub proof fn lemma_same_seed_same_counts(n: int, s: u64, max: nat, t: nat, a: Seq<usize>, b: Seq<usize>)
    requires
        run_outcome(n, s, max, t, a),
        run_outcome(n, s, max, t, b),
    ensures
        a == b,
{
    if a.len() < b.len() {
        assert(trial_percolates(n, state_after_trials(n, s, max, a.len()), max));
    }
    if b.len() < a.len() {
        assert(trial_percolates(n, state_after_trials(n, s, max, b.len()), max));
    }
    assert(a.len() == b.len());
    assert forall|k: int| 0 <= k < a.len() implies a[k] == b[k] by {
        assert(trial_percolates(n, state_after_trials(n, s, max, k as nat), max));
    }
    assert(a =~= b);
}

/// A grid that matches the model after `m` draws from state `s`.
pub open spec fn models(grid: Percolation, n: int, s: u64, m: nat) -> bool {
    &&& grid.wf()
    &&& grid.side() == n
    &&& grid.sites() == sites_after(n, s, m)
    &&& forall|a: int, b: int|
        #![trigger grid.groups()[a], grid.groups()[b]]
        0 <= a < n * n && 0 <= b < n * n ==> ((grid.groups()[a] == grid.groups()[b])
            == linked_after(n, s, m, a, b))
}

proof fn lemma_position_in_grid(n: int, x: u64)
    requires
        n >= 1,
    ensures
        1 <= position_of(x, n) <= n,
{
}

/// On a grid that matches the model after `m` draws, the class of `a` touches the
/// site of draw `m` or an open neighbour of it exactly when the model says so.
proof fn lemma_touches_reaches(grid: Percolation, n: int, s: u64, m: nat, a: int)
    requires
        n >= 1,
        models(grid, n, s, m),
        0 <= a < n * n,
    ensures
        touches(grid.groups(), grid.sites(), n, drawn_row(n, s, m), drawn_col(n, s, m), 4, a)
            == reaches(n, s, m, a),
{
    let i = drawn_row(n, s, m);
    let j = drawn_col(n, s, m);
    lemma_position_in_grid(n, advance(s, 2 * m + 1));
    lemma_position_in_grid(n, advance(s, 2 * m + 2));
    let g = grid.groups();
    lemma_index_bounds(n, i, j);
    assert((g[a] == g[site_index(n, i, j)]) == linked_after(n, s, m, a, site_index(n, i, j)));
    if j > 1 {
        lemma_index_bounds(n, i, j - 1);
        assert((g[a] == g[site_index(n, i, j - 1)]) == linked_after(n, s, m, a, site_index(n, i, j - 1)));
    }
    if j < n {
        lemma_index_bounds(n, i, j + 1);
        assert((g[a] == g[site_index(n, i, j + 1)]) == linked_after(n, s, m, a, site_index(n, i, j + 1)));
    }
    if i > 1 {
        lemma_index_bounds(n, i - 1, j);
        assert((g[a] == g[site_index(n, i - 1, j)]) == linked_after(n, s, m, a, site_index(n, i - 1, j)));
    }
    if i < n {
        lemma_index_bounds(n, i + 1, j);
        assert((g[a] == g[site_index(n, i + 1, j)]) == linked_after(n, s, m, a, site_index(n, i + 1, j)));
    }
}

/// Opening the site of draw `m` on a grid that matches the model after `m`
/// draws gives one that matches it after `m + 1`.
proof fn lemma_draw_step(old_grid: Percolation, grid: Percolation, n: int, s: u64, m: nat)
    requires
        n >= 1,
        models(old_grid, n, s, m),
        grid.wf(),
        grid.side() == n,
        grid.sites() == old_grid.sites().update(drawn_index(n, s, m), true),
        old_grid.sites()[drawn_index(n, s, m)] ==> grid.groups() == old_grid.groups(),
        !old_grid.sites()[drawn_index(n, s, m)] ==> opened_into(
            old_grid.groups(),
            old_grid.sites(),
            n,
            drawn_row(n, s, m),
            drawn_col(n, s, m),
            4,
            grid.groups(),
        ),
    ensures
        models(grid, n, s, m + 1),
{
    let g = old_grid.groups();
    let t = grid.groups();
    let me = drawn_index(n, s, m);
    if old_grid.sites()[me] {
        assert forall|a: int, b: int| 0 <= a < n * n && 0 <= b < n * n implies ((t[a] == t[b])
            == linked_after(n, s, m + 1, a, b)) by {
            assert((g[a] == g[b]) == linked_after(n, s, m, a, b));
        }
    } else {
        reveal(opened_into);
        lemma_grid_lengths(&old_grid);
        assert forall|a: int, b: int| 0 <= a < n * n && 0 <= b < n * n implies ((t[a] == t[b])
            == linked_after(n, s, m + 1, a, b)) by {
            assert((g[a] == g[b]) == linked_after(n, s, m, a, b));
            lemma_touches_reaches(old_grid, n, s, m, a);
            lemma_touches_reaches(old_grid, n, s, m, b);
        }
    }
}

/// A grid that matches the model percolates exactly when the model says so.
proof fn lemma_models_percolating(grid: Percolation, n: int, s: u64, m: nat)
    requires
        n >= 1,
        models(grid, n, s, m),
    ensures
        grid.percolating() == percolating_after(n, s, m),
{
    lemma_index_bounds(n, 1, 1);
    if grid.percolating() {
        let j = choose|j: int| 1 <= j <= n && #[trigger] grid.full(n, j);
        lemma_index_bounds(n, n, j);
        assert(linked_after(n, s, m, site_index(n, n, j), site_index(n, 1, 1)));
    }
    if percolating_after(n, s, m) {
        let j = choose|j: int|
            1 <= j <= n && #[trigger] linked_after(n, s, m, site_index(n, n, j), site_index(n, 1, 1));
        lemma_index_bounds(n, n, j);
        assert(grid.full(n, j));
    }
}

/// Runs one trial on a fresh `n` by `n` grid: opens the sites drawn from `rng`
/// until the grid percolates, drawing at most `max_draws` sites. Returns the
/// number of open sites at the first draw after which the grid percolates, or
/// `None` if it does not percolate within `max_draws` draws.
pub fn run_trial(n: usize, rng: &mut SiteRng, max_draws: u64) -> (r: Option<usize>)
    requires
        n >= 1,
        n * n <= usize::MAX,
    ensures
        final(rng).state() == state_after_trial(n as int, old(rng).state(), max_draws as nat),
        r is Some == trial_percolates(n as int, old(rng).state(), max_draws as nat),
        r matches Some(c) ==> c == trial_count(n as int, old(rng).state(), max_draws as nat),
{
    let ghost s = rng.state();
    let ghost max = max_draws as nat;
    let mut grid = Percolation::new(n);
    proof {
        lemma_grid_lengths(&grid);
        assert(grid.sites() =~= sites_after(n as int, s, 0));
    }
    let mut k: u64 = 0;
    while k < max_draws
        invariant
            n >= 1,
            s == old(rng).state(),
            max == max_draws as nat,
            k <= max_draws,
            models(grid, n as int, s, k as nat),
            rng.state() == advance(s, 2 * k as nat),
            trial_length(n as int, s, max, 0) == trial_length(n as int, s, max, k as nat),
            k == 0 || !percolating_after(n as int, s, k as nat),
            grid.opened() == open_set(grid.sites()).len(),
        decreases max_draws - k,
    {
        let ghost before = grid;
        let i = rng.next_position(n);
        let j = rng.next_position(n);
        assert(i == drawn_row(n as int, s, k as nat) && j == drawn_col(n as int, s, k as nat));
        grid.open(i, j);
        proof {
            lemma_draw_step(before, grid, n as int, s, k as nat);
            lemma_models_percolating(grid, n as int, s, (k + 1) as nat);
            lemma_grid_lengths(&grid);
        }
        if grid.percolates() {
            return Some(grid.number_of_open_sites());
        }
        k = k + 1;
    }
    None
}

/// The outcome of a series of trials on grids of one size.
pub struct PercolationStats {
    n: usize,
    t: usize,
    counts: Vec<usize>,
}

impl PercolationStats {
    /// The side of the grids.
    pub closed spec fn side(&self) -> int {
        self.n as int
    }

    /// How many trials a run makes.
    pub closed spec fn trials(&self) -> int {
        self.t as int
    }

    /// For each finished trial, how many sites were open when the grid first percolated.
    pub closed spec fn counts(&self) -> Seq<usize> {
        self.counts@
    }

    /// Statistics for `t` trials on `n` by `n` grids, with no trial run yet.
    pub fn new(n: usize, t: usize) -> (r: PercolationStats)
        requires
            n >= 1,
            n * n <= usize::MAX,
        ensures
            r.side() == n,
            r.trials() == t,
            r.counts() == Seq::<usize>::empty(),
    {
        PercolationStats { n, t, counts: Vec::new() }
    }

    /// Runs the trials one after another from `rng`, each on a fresh grid with at
    /// most `max_draws` draws, and appends the count of each. Stops at the first
    /// trial that does not percolate; returns whether all of them did.
    pub fn run(&mut self, rng: &mut SiteRng, max_draws: u64) -> (r: bool)
        requires
            old(self).side() >= 1,
            old(self).side() * old(self).side() <= usize::MAX,
        ensures
            final(self).side() == old(self).side(),
            final(self).trials() == old(self).trials(),
            ({
                let n = old(self).side();
                let s = old(rng).state();
                let max = max_draws as nat;
                let start = old(self).counts().len();
                let done = (final(self).counts().len() - start) as nat;
                &&& start <= final(self).counts().len()
                &&& final(self).counts().subrange(0, start as int) == old(self).counts()
                &&& run_outcome(
                    n,
                    s,
                    max,
                    old(self).trials() as nat,
                    final(self).counts().subrange(start as int, final(self).counts().len() as int),
                )
                &&& done <= old(self).trials()
                &&& forall|x: nat|
                    x < done ==> trial_percolates(n, #[trigger] state_after_trials(n, s, max, x), max)
                        && final(self).counts()[(start + x) as int] == trial_count(
                        n,
                        state_after_trials(n, s, max, x),
                        max,
                    )
                &&& r == (done == old(self).trials())
                &&& !r ==> !trial_percolates(n, state_after_trials(n, s, max, done), max)
                &&& r == forall|x: nat|
                    x < old(self).trials() ==> trial_percolates(
                        n,
                        #[trigger] state_after_trials(n, s, max, x),
                        max,
                    )
                &&& final(rng).state() == state_after_trials(
                    n,
                    s,
                    max,
                    if r {
                        done
                    } else {
                        done + 1
                    },
                )
            }),
    {
        let ghost before = self.counts@;
        let ghost s = rng.state();
        let ghost max = max_draws as nat;
        let ghost n = self.n as int;
        let mut x: usize = 0;
        while x < self.t
            invariant
                self.n >= 1,
                self.n * self.n <= usize::MAX,
                self.n == old(self).side(),
                n == self.n,
                self.t == old(self).trials(),
                before == old(self).counts(),
                s == old(rng).state(),
                max == max_draws as nat,
                self.counts@.len() == before.len() + x,
                x <= self.t,
                self.counts@.subrange(0, before.len() as int) == before,
                rng.state() == state_after_trials(n, s, max, x as nat),
                forall|y: nat|
                    y < x ==> trial_percolates(n, #[trigger] state_after_trials(n, s, max, y), max)
                        && self.counts@[(before.len() + y) as int] == trial_count(
                        n,
                        state_after_trials(n, s, max, y),
                        max,
                    ),
            decreases self.t - x,
        {
            match run_trial(self.n, rng, max_draws) {
                Some(c) => {
                    let ghost prev = self.counts@;
                    self.counts.push(c);
                    assert(self.counts@.subrange(0, before.len() as int) =~= prev.subrange(
                        0,
                        before.len() as int,
                    ));
                    assert(self.counts@[before.len() + x] == c);
                    x = x + 1;
                },
                None => {
                    return false;
                },
            }
        }
        true
    }

    /// The side of the grids.
    pub fn size(&self) -> (r: usize)
        ensures
            r == self.side(),
    {
        self.n
    }

    /// How many trials a run makes.
    pub fn number_of_trials(&self) -> (r: usize)
        ensures
            r == self.trials(),
    {
        self.t
    }

    /// For each finished trial, how many sites were open when the grid first percolated.
    pub fn opened_counts(&self) -> (r: Vec<usize>)
        ensures
            r@ == self.counts(),
    {
        self.counts.clone()
    }
}

} // verus!
