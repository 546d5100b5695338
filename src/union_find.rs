//! Disjoint sets by weighted quick-union: each element points to a parent,
//! roots point to themselves, and a union hangs the smaller tree under the
//! root of the larger one.

use vstd::prelude::*;
use vstd::arithmetic::power2::{lemma_pow2_unfold, pow2};
use vstd::set_lib::{lemma_int_range, lemma_len_subset, lemma_set_disjoint_lens, set_int_range};

verus! {

/// The elements of `0..roots.len()` whose representative is `r`.
pub open spec fn members(roots: Seq<int>, r: int) -> Set<int> {
    Set::new(|k: int| 0 <= k < roots.len() && roots[k] == r)
}

/// The number of elements whose representative is `r`.
pub open spec fn class_size(roots: Seq<int>, r: int) -> nat {
    members(roots, r).len()
}

/// `t` is the partition `s` with the classes of `p` and `q` joined.
pub open spec fn merged(s: Seq<int>, p: int, q: int, t: Seq<int>) -> bool {
    &&& t.len() == s.len()
    &&& forall|a: int, b: int|
        #![trigger t[a], t[b]]
        0 <= a < s.len() && 0 <= b < s.len() ==> ((t[a] == t[b]) == (s[a] == s[b] || (s[a]
            == s[p] && s[b] == s[q]) || (s[a] == s[q] && s[b] == s[p])))
}

/// `s` and `t` put the same elements together, whatever representatives they pick.
pub open spec fn same_partition(s: Seq<int>, t: Seq<int>) -> bool {
    &&& s.len() == t.len()
    &&& forall|a: int, b: int|
        #![trigger t[a], t[b]]
        0 <= a < s.len() && 0 <= b < s.len() ==> ((s[a] == s[b]) == (t[a] == t[b]))
}

/// Of two distinct roots, the one that stays a root when they are joined.
pub open spec fn winner(s: Seq<int>, ri: int, rj: int) -> int {
    if class_size(s, ri) < class_size(s, rj) {
        rj
    } else {
        ri
    }
}

/// Of two distinct roots, the one that is hung under the other when they are joined.
pub open spec fn loser(s: Seq<int>, ri: int, rj: int) -> int {
    if class_size(s, ri) < class_size(s, rj) {
        ri
    } else {
        rj
    }
}

/// The representatives after joining the distinct roots `ri` and `rj`: the root of the
/// smaller class goes under the other, and on a tie `rj` goes under `ri`.
pub open spec fn joined(s: Seq<int>, ri: int, rj: int) -> Seq<int> {
    let w = winner(s, ri, rj);
    Seq::new(s.len(), |k: int| if s[k] == ri || s[k] == rj { w } else { s[k] })
}

pub proof fn lemma_members_bounded(roots: Seq<int>, r: int)
    ensures
        members(roots, r).finite(),
        members(roots, r).len() <= roots.len(),
{
    lemma_int_range(0, roots.len() as int);
    lemma_len_subset(members(roots, r), set_int_range(0, roots.len() as int));
}

/// A partition of `0..n` into disjoint sets.
pub struct UF {
    parent: Vec<usize>,
    sizes: Vec<usize>,
    roots: Ghost<Seq<int>>,
    dist: Ghost<Seq<nat>>,
}

impl View for UF {
    type V = Seq<int>;

    /// For each element, the root of its tree: two elements are connected
    /// exactly when they have the same root.
    closed spec fn view(&self) -> Seq<int> {
        self.roots@
    }
}

impl UF {
    /// The tree shape is consistent with the ghost roots and distances,
    /// and each root records the size of its class.
    pub closed spec fn wf(&self) -> bool {
        let n = self.parent@.len();
        let parent = self.parent@;
        let roots = self.roots@;
        let dist = self.dist@;
        &&& self.sizes@.len() == n
        &&& roots.len() == n
        &&& dist.len() == n
        &&& forall|k: int|
            #![trigger parent[k]]
            0 <= k < n ==> {
                &&& parent[k] < n
                &&& 0 <= roots[k] < n
                &&& (parent[k] == k <==> dist[k] == 0)
                &&& (parent[k] == k ==> roots[k] == k)
                &&& (parent[k] != k ==> roots[k] == roots[parent[k] as int] && dist[k] == dist[parent[k] as int] + 1)
                &&& parent[roots[k]] == roots[k]
                &&& (parent[k] == k ==> self.sizes@[k] == class_size(roots, k))
                &&& pow2(dist[k]) <= class_size(roots, roots[k])
            }
    }

    /// Makes `n` singleton sets `{0}, ..., {n-1}`; there is no structure of size zero.
    pub fn new(n: usize) -> (r: Result<UF, UfError>)
        ensures
            n == 0 <==> r is Err,
            r matches Ok(uf) ==> {
                &&& uf.wf()
                &&& uf@ == Seq::new(n as nat, |k: int| k)
                &&& forall|p: int, q: int|
                    0 <= p < n && 0 <= q < n ==> ((uf@[p] == uf@[q]) <==> p == q)
            },
    {
        if n == 0 {
            return Err(UfError::EmptySize);
        }
        let mut parent: Vec<usize> = Vec::new();
        let mut sizes: Vec<usize> = Vec::new();
        let mut k: usize = 0;
        while k < n
            invariant
                k <= n,
                parent@.len() == k,
                sizes@.len() == k,
                forall|x: int| 0 <= x < k ==> parent@[x] == x && sizes@[x] == 1,
            decreases n - k,
        {
            parent.push(k);
            sizes.push(1);
            k = k + 1;
        }
        let ghost roots = Seq::new(n as nat, |x: int| x);
        let uf = UF { parent, sizes, roots: Ghost(roots), dist: Ghost(Seq::new(n as nat, |x: int| 0nat)) };
        assert forall|x: int| 0 <= x < n implies class_size(roots, x) == 1 by {
            assert(members(roots, x) =~= set![x]);
        }
        assert(pow2(0) == 1) by {
            reveal(vstd::arithmetic::power::pow);
        }
        Ok(uf)
    }

    /// The parent pointer of each element.
    pub closed spec fn parents(&self) -> Seq<usize> {
        self.parent@
    }

    /// The tree size recorded at each element; it counts only where the element is a root.
    pub closed spec fn recorded_sizes(&self) -> Seq<usize> {
        self.sizes@
    }

    /// A copy of the parent pointers.
    pub fn parent_vec(&self) -> (r: Vec<usize>)
        ensures
            r@ == self.parents(),
    {
        self.parent.clone()
    }

    /// A copy of the recorded tree sizes.
    pub fn size_vec(&self) -> (r: Vec<usize>)
        ensures
            r@ == self.recorded_sizes(),
    {
        self.sizes.clone()
    }

    /// The number of parent steps from `k` up to its root.
    pub closed spec fn depth(&self, k: int) -> nat {
        self.dist@[k]
    }

    /// Hanging the smaller tree under the larger keeps trees shallow: an
    /// element `d` steps below its root lies in a set of at least `2^d` elements.
    pub proof fn lemma_depth_bound(&self, k: int)
        requires
            self.wf(),
            0 <= k < self@.len(),
        ensures
            self.depth(k) == 0 <==> self.parents()[k] == k,
            self.parents()[k] != k ==> self.depth(k) == self.depth(self.parents()[k] as int) + 1,
            pow2(self.depth(k)) <= class_size(self@, self@[k]),
    {
        assert(self.parent@[k] < self@.len());
    }

    /// The number of elements.
    pub fn len(&self) -> (r: usize)
        requires
            self.wf(),
        ensures
            r == self@.len(),
    {
        self.parent.len()
    }

    /// Follows parent pointers from `i` up to its root.
    pub fn root(&self, i: usize) -> (r: usize)
        requires
            self.wf(),
            i < self@.len(),
        ensures
            r == self@[i as int],
            r < self@.len(),
            self@[r as int] == r,
    {
        let mut j = i;
        while j != self.parent[j]
            invariant
                self.wf(),
                j < self@.len(),
                self@[j as int] == self@[i as int],
            decreases self.dist@[j as int],
        {
            j = self.parent[j];
        }
        assert(self.parent@[i as int] < self@.len());
        j
    }

    /// Whether `p` and `q` are in the same set.
    pub fn connected(&self, p: usize, q: usize) -> (r: bool)
        requires
            self.wf(),
            p < self@.len(),
            q < self@.len(),
        ensures
            r == (self@[p as int] == self@[q as int]),
    {
        self.root(p) == self.root(q)
    }

    /// Joins the sets of `p` and `q`, hanging the root of the smaller set under
    /// the root of the larger one (on a tie, the root of `q` goes under that of `p`).
    pub fn union(&mut self, p: usize, q: usize)
        requires
            old(self).wf(),
            p < old(self)@.len(),
            q < old(self)@.len(),
        ensures
            final(self).wf(),
            merged(old(self)@, p as int, q as int, final(self)@),
            old(self)@[p as int] == old(self)@[q as int] ==> *final(self) == *old(self),
            old(self)@[p as int] != old(self)@[q as int] ==> {
                let ri = old(self)@[p as int];
                let rj = old(self)@[q as int];
                let w = winner(old(self)@, ri, rj);
                let l = loser(old(self)@, ri, rj);
                &&& final(self)@ == joined(old(self)@, ri, rj)
                &&& final(self).parents() == old(self).parents().update(l, w as usize)
                &&& final(self).recorded_sizes() == old(self).recorded_sizes().update(
                    w,
                    (class_size(old(self)@, ri) + class_size(old(self)@, rj)) as usize,
                )
            },
    {
        let i = self.root(p);
        let j = self.root(q);
        if i == j {
            return;
        }
        let ghost s = self.roots@;
        let ghost n = s.len();
        let ghost old_parent = self.parent@;
        let ghost d = self.dist@;
        assert(self.parent@[p as int] < n && self.parent@[q as int] < n);
        let (w, l) = if self.sizes[i] < self.sizes[j] {
            (j, i)
        } else {
            (i, j)
        };
        assert(self.parent@[i as int] == i && self.parent@[j as int] == j);
        let ghost t = Seq::new(n, |k: int| if s[k] == l { w as int } else { s[k] });
        proof {
            assert(self.parent@[w as int] == w && self.parent@[l as int] == l);
            lemma_members_bounded(s, w as int);
            lemma_members_bounded(s, l as int);
            assert(members(s, w as int).disjoint(members(s, l as int)));
            lemma_set_disjoint_lens(members(s, w as int), members(s, l as int));
            assert(members(t, w as int) =~= members(s, w as int) + members(s, l as int));
            lemma_members_bounded(t, w as int);
            assert forall|r: int| r != w && r != l implies members(t, r) =~= members(s, r) by {}
        }
        let len = self.parent.len();
        let sw = self.sizes[w];
        let sl = self.sizes[l];
        assert(sw + sl == class_size(t, w as int) && class_size(t, w as int) <= len);
        self.parent.set(l, w);
        self.sizes.set(w, sw + sl);
        self.dist = Ghost(Seq::new(n, |k: int| if s[k] == l { self.dist@[k] + 1 } else { self.dist@[k] }));
        self.roots = Ghost(t);
        proof {
            assert(t =~= joined(s, i as int, j as int));
            assert(class_size(s, l as int) <= class_size(s, w as int));
            assert forall|k: int| 0 <= k < n implies pow2(#[trigger] self.dist@[k]) <= class_size(t, t[k]) by {
                assert(old_parent[k] < n);
                if s[k] == l {
                    lemma_pow2_unfold(d[k] + 1);
                }
            }
        }
    }
}

/// After a union, its two arguments are connected, and every pair that was
/// connected before still is.
pub proof fn lemma_union_connects(s: Seq<int>, p: int, q: int, t: Seq<int>)
    requires
        0 <= p < s.len(),
        0 <= q < s.len(),
        merged(s, p, q, t),
    ensures
        t[p] == t[q],
        forall|a: int, b: int|
            0 <= a < s.len() && 0 <= b < s.len() && s[a] == s[b] ==> #[trigger] t[a] == #[trigger] t[b],
{
    assert(t[p] == t[q]);
}

/// Joining `p` with `q` and joining `q` with `p` give the same partition.
pub proof fn lemma_union_commutes(s: Seq<int>, p: int, q: int, t1: Seq<int>, t2: Seq<int>)
    requires
        0 <= p < s.len(),
        0 <= q < s.len(),
        merged(s, p, q, t1),
        merged(s, q, p, t2),
    ensures
        same_partition(t1, t2),
{
    assert forall|a: int, b: int| 0 <= a < t1.len() && 0 <= b < t1.len() implies ((t1[a] == t1[b])
        == (t2[a] == t2[b])) by {
        assert(t1[a] == t1[b] <==> (s[a] == s[b] || (s[a] == s[p] && s[b] == s[q]) || (s[a] == s[q]
            && s[b] == s[p])));
        assert(t2[a] == t2[b] <==> (s[a] == s[b] || (s[a] == s[q] && s[b] == s[p]) || (s[a] == s[p]
            && s[b] == s[q])));
    }
}

/// Joining `p` with `q` a second time leaves the partition as the first union made it.
pub proof fn lemma_union_idempotent(s: Seq<int>, p: int, q: int, t1: Seq<int>, t2: Seq<int>)
    requires
        0 <= p < s.len(),
        0 <= q < s.len(),
        merged(s, p, q, t1),
        merged(t1, p, q, t2),
    ensures
        same_partition(t1, t2),
{
    assert(t1[p] == t1[q]);
    assert forall|a: int, b: int| 0 <= a < t1.len() && 0 <= b < t1.len() implies ((t1[a] == t1[b])
        == (t2[a] == t2[b])) by {
        assert(t2[a] == t2[b] <==> (t1[a] == t1[b] || (t1[a] == t1[p] && t1[b] == t1[q]) || (t1[a]
            == t1[q] && t1[b] == t1[p])));
    }
}

/// Connectivity is transitive: if `a` is connected to `b` and `b` to `c`, then `a` is connected to `c`.
pub proof fn lemma_connected_transitive(uf: &UF, a: int, b: int, c: int)
    requires
        uf.wf(),
        0 <= a < uf@.len(),
        0 <= b < uf@.len(),
        0 <= c < uf@.len(),
        uf@[a] == uf@[b],
        uf@[b] == uf@[c],
    ensures
        uf@[a] == uf@[c],
{
}

/// Why a disjoint-set structure could not be made.
#[derive(Debug, Clone, Copy, PartialEq, Eq, Structural)]
pub enum UfError {
    /// A structure needs at least one element.
    EmptySize,
}

} // verus!
