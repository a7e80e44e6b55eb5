//! A disjoint-set forest over the indices `0..len`, with union by rank and
//! path compression.
//!
//! The abstract value of a forest is the sequence that maps every index to the
//! representative of its class. Ranks strictly grow along parent links, which
//! is what makes the walk to a representative terminate, and a forest never
//! weighs more than its length, which keeps every rank below the width of a
//! machine word.

use vstd::prelude::*;
use vstd::arithmetic::power2::{
    lemma2_to64, lemma2_to64_rest, lemma_pow2_strictly_increases, lemma_pow2_unfold, pow2,
};

verus! {

/// A partition of `0..len` into classes, each named by one of its members.
pub struct UnionFind {
    parent: Vec<usize>,
    rank: Vec<u8>,
}

impl View for UnionFind {
    type V = Seq<int>;

    /// The representative of every index, by index.
    closed spec fn view(&self) -> Seq<int> {
        Seq::new(self.parent@.len(), |i: int| root_of(self.parent@, self.rank@, i))
    }
}

impl UnionFind {
    /// How many indices the forest partitions.
    pub closed spec fn len(&self) -> nat {
        self.parent@.len()
    }

    /// The link stored for index `i`: `i` itself for a representative.
    pub closed spec fn parent_of(&self, i: int) -> int {
        self.parent@[i] as int
    }

    /// The rank stored for index `i`.
    pub closed spec fn rank_of(&self, i: int) -> int {
        self.rank@[i] as int
    }

    /// Index `i` is `x` or lies strictly between `x` and the representative of
    /// `x` on the chain of links; the representative itself never does.
    pub closed spec fn on_path(&self, x: int, i: int) -> bool {
        on_path_of(self.parent@, self.rank@, x, i)
    }

    /// The two indices are in one class.
    pub open spec fn same_set(&self, x: int, y: int) -> bool {
        self@[x] == self@[y]
    }

    /// Links stay inside the forest and climb in rank, and the roots weigh no
    /// more than the forest is long.
    pub closed spec fn wf(&self) -> bool {
        &&& forest(self.parent@, self.rank@)
        &&& weight_below(self.parent@, self.rank@, self.parent@.len() as int)
            <= self.parent@.len()
    }

    /// What a well-formed forest shows of itself through its accessors.
    pub proof fn lemma_shape(&self)
        requires
            self.wf(),
        ensures
            self@.len() == self.len(),
            forall|i: int|
                0 <= i < self.len() ==> 0 <= (#[trigger] self@[i]) < self.len() && self@[self@[i]]
                    == self@[i] && self.parent_of(self@[i]) == self@[i],
            forall|i: int|
                0 <= i < self.len() ==> 0 <= (#[trigger] self.parent_of(i)) < self.len()
                    && self@[self.parent_of(i)] == self@[i],
            forall|i: int|
                0 <= i < self.len() ==> (self@[i] == i <==> #[trigger] self.parent_of(i) == i),
            forall|i: int|
                0 <= i < self.len() && self.parent_of(i) != i ==> (#[trigger] self.rank_of(i))
                    < self.rank_of(self.parent_of(i)),
            forall|i: int| 0 <= i < self.len() ==> 0 <= (#[trigger] self.rank_of(i)) < 64,
    {
        let parent = self.parent@;
        let rank = self.rank@;
        assert forall|i: int| 0 <= i < self.len() implies 0 <= (#[trigger] self@[i]) < self.len()
            && self@[self@[i]] == self@[i] && self.parent_of(self@[i]) == self@[i] by {
            lemma_root_of_is_root(parent, rank, i);
            lemma_root_of_is_root(parent, rank, root_of(parent, rank, i));
        }
        assert forall|i: int| 0 <= i < self.len() implies 0 <= (#[trigger] self.rank_of(i))
            < 64 by {
            self.lemma_rank_small(i);
        }
    }

    /// Nothing lies on the path of a representative; on the path of any other
    /// index lie the index itself and whatever lies on the path of its link.
    pub proof fn lemma_on_path(&self, x: int, i: int)
        requires
            self.wf(),
            0 <= x < self.len(),
        ensures
            self.on_path(x, i) == (self.parent_of(x) != x && (i == x || self.on_path(
                self.parent_of(x),
                i,
            ))),
    {
    }

    /// A forest of `size` classes of one index each.
    pub fn new(size: usize) -> (uf: UnionFind)
        ensures
            uf.wf(),
            uf.len() == size,
            uf@ == Seq::new(size as nat, |i: int| i),
            forall|i: int| 0 <= i < size ==> uf.parent_of(i) == i && uf.rank_of(i) == 0,
    {
        let mut parent: Vec<usize> = Vec::new();
        let mut rank: Vec<u8> = Vec::new();
        let mut i: usize = 0;
        while i < size
            invariant
                i <= size,
                parent@.len() == i,
                rank@.len() == i,
                forall|j: int| 0 <= j < i ==> parent@[j] == j && rank@[j] == 0,
            decreases size - i,
        {
            parent.push(i);
            rank.push(0u8);
            i = i + 1;
        }
        let uf = UnionFind { parent, rank };
        proof {
            lemma_weight_of_singletons(uf.parent@, uf.rank@, size as int);
        }
        uf
    }

    /// The representative of the class of `x`. On the way back from it, `x`
    /// and every index between `x` and the representative is linked straight
    /// to the representative; no class changes.
    pub fn find(&mut self, x: usize) -> (r: usize)
        requires
            old(self).wf(),
            x < old(self).len(),
        ensures
            final(self).wf(),
            r == old(self)@[x as int],
            final(self)@ == old(self)@,
            final(self).len() == old(self).len(),
            forall|i: int|
                0 <= i < old(self).len() ==> #[trigger] final(self).rank_of(i) == old(self).rank_of(
                    i,
                ),
            forall|i: int|
                0 <= i < old(self).len() ==> #[trigger] final(self).parent_of(i) == if old(
                    self,
                ).on_path(x as int, i) {
                    r as int
                } else {
                    old(self).parent_of(i)
                },
        decreases 256 - old(self).rank_of(x as int),
    {
        let p = self.parent[x];
        if p == x {
            return x;
        }
        let r = self.find(p);
        let ghost mid = *self;
        proof {
            let parent = old(self).parent@;
            let rank = old(self).rank@;
            lemma_root_of_is_root(parent, rank, x as int);
            lemma_root_of_is_root(parent, rank, p as int);
            assert(mid.rank@ =~= rank) by {
                assert forall|i: int| 0 <= i < rank.len() implies mid.rank@[i] == rank[i] by {
                    assert(mid.rank_of(i) == old(self).rank_of(i));
                }
            }
            if on_path_of(parent, rank, p as int, x as int) {
                lemma_on_path_facts(parent, rank, p as int, x as int);
            }
            assert(mid.parent_of(x as int) == old(self).parent_of(x as int));
            lemma_root_of_is_root(mid.parent@, mid.rank@, x as int);
        }
        self.parent.set(x, r);
        proof {
            assert forall|i: int| 0 <= i < mid.len() implies root_of(
                self.parent@,
                self.rank@,
                i,
            ) == root_of(mid.parent@, mid.rank@, i) by {
                lemma_repoint_keeps_roots(mid.parent@, mid.rank@, x as int, i);
            }
            lemma_repoint_keeps_roots(mid.parent@, mid.rank@, x as int, x as int);
            lemma_weight_same(
                self.parent@,
                self.rank@,
                mid.parent@,
                mid.rank@,
                mid.parent@.len() as int,
            );
            assert forall|i: int| 0 <= i < old(self).len() implies #[trigger] self.parent_of(i)
                == if old(self).on_path(x as int, i) {
                r as int
            } else {
                old(self).parent_of(i)
            } by {
                assert(mid.parent_of(i) == if old(self).on_path(p as int, i) {
                    r as int
                } else {
                    old(self).parent_of(i)
                });
            }
        }
        r
    }

    /// The representative that the class of `x` and `y` has once the two are
    /// merged: the one of higher rank, and that of `x` when the ranks are equal.
    pub open spec fn survivor(&self, x: int, y: int) -> int {
        if self.rank_of(self@[x]) < self.rank_of(self@[y]) {
            self@[y]
        } else {
            self@[x]
        }
    }

    /// The representative that gives way when `x` and `y` are merged.
    pub open spec fn absorbed(&self, x: int, y: int) -> int {
        if self.rank_of(self@[x]) < self.rank_of(self@[y]) {
            self@[x]
        } else {
            self@[y]
        }
    }

    /// The partition in which the classes of `x` and `y` have become one.
    pub open spec fn merged(&self, x: int, y: int) -> Seq<int> {
        Seq::new(
            self.len(),
            |i: int|
                if self@[i] == self.absorbed(x, y) {
                    self.survivor(x, y)
                } else {
                    self@[i]
                },
        )
    }

    /// The link of `i` after the chains of `x` and `y` have been compressed.
    pub open spec fn compressed_parent(&self, x: int, y: int, i: int) -> int {
        if self.on_path(x, i) || self.on_path(y, i) {
            self@[i]
        } else {
            self.parent_of(i)
        }
    }

    /// Being in one class is reflexive, symmetric and transitive.
    pub proof fn lemma_same_set_is_equivalence(&self, a: int, b: int, c: int)
        ensures
            self.same_set(a, a),
            self.same_set(a, b) == self.same_set(b, a),
            self.same_set(a, b) && self.same_set(b, c) ==> self.same_set(a, c),
    {
    }

    /// Two indices are in one class of the merged partition exactly if they
    /// were in one class before, or one was with `x` and the other with `y`.
    pub proof fn lemma_merged_classes(&self, x: int, y: int, a: int, b: int)
        requires
            0 <= x < self.len(),
            0 <= y < self.len(),
            0 <= a < self.len(),
            0 <= b < self.len(),
        ensures
            self.merged(x, y)[a] == self.merged(x, y)[b] <==> self.same_set(a, b) || (
            self.same_set(a, x) && self.same_set(y, b)) || (self.same_set(a, y) && self.same_set(
                x,
                b,
            )),
    {
    }

    /// Whether `x` and `y` are in one class. Both chains are compressed on the
    /// way; no class changes.
    pub fn connected(&mut self, x: usize, y: usize) -> (b: bool)
        requires
            old(self).wf(),
            x < old(self).len(),
            y < old(self).len(),
        ensures
            final(self).wf(),
            b == old(self).same_set(x as int, y as int),
            final(self)@ == old(self)@,
            final(self).len() == old(self).len(),
            forall|i: int|
                0 <= i < old(self).len() ==> #[trigger] final(self).rank_of(i) == old(self).rank_of(
                    i,
                ),
            forall|i: int|
                0 <= i < old(self).len() ==> #[trigger] final(self).parent_of(i) == old(
                    self,
                ).compressed_parent(x as int, y as int, i),
    {
        let rx = self.find(x);
        let ghost mid = *self;
        let ry = self.find(y);
        proof {
            old(self).lemma_compressed_twice(&mid, &*self, x as int, y as int);
        }
        rx == ry
    }

    /// Merges the classes of `x` and `y`. Where they already are one class,
    /// nothing but the compression of the two chains happens. Otherwise the
    /// representative of lower rank is linked under the other; with equal
    /// ranks that of `y` goes under that of `x`, whose rank grows by one.
    pub fn union(&mut self, x: usize, y: usize)
        requires
            old(self).wf(),
            x < old(self).len(),
            y < old(self).len(),
        ensures
            final(self).wf(),
            final(self).len() == old(self).len(),
            final(self)@ == old(self).merged(x as int, y as int),
            forall|i: int|
                0 <= i < old(self).len() ==> #[trigger] final(self).rank_of(i) == if i == old(
                    self,
                ).survivor(x as int, y as int) && !old(self).same_set(x as int, y as int) && old(
                    self,
                ).rank_of(old(self)@[x as int]) == old(self).rank_of(old(self)@[y as int]) {
                    old(self).rank_of(i) + 1
                } else {
                    old(self).rank_of(i)
                },
            forall|i: int|
                0 <= i < old(self).len() ==> #[trigger] final(self).parent_of(i) == if i == old(
                    self,
                ).absorbed(x as int, y as int) {
                    old(self).survivor(x as int, y as int)
                } else {
                    old(self).compressed_parent(x as int, y as int, i)
                },
    {
        let rx = self.find(x);
        let ghost mid = *self;
        let ry = self.find(y);
        let ghost flat = *self;
        proof {
            old(self).lemma_compressed_twice(&mid, &flat, x as int, y as int);
            flat.lemma_shape();
            if old(self).on_path(x as int, rx as int) {
                lemma_on_path_facts(old(self).parent@, old(self).rank@, x as int, rx as int);
            }
            if old(self).on_path(y as int, rx as int) {
                lemma_on_path_facts(old(self).parent@, old(self).rank@, y as int, rx as int);
            }
        }
        if rx == ry {
            return ;
        }
        let kx = self.rank[rx];
        let ky = self.rank[ry];
        proof {
            assert(kx == old(self).rank_of(rx as int)) by {
                assert(flat.rank_of(rx as int) == mid.rank_of(rx as int));
            }
            assert(ky == old(self).rank_of(ry as int)) by {
                assert(flat.rank_of(ry as int) == mid.rank_of(ry as int));
            }
            flat.lemma_rank_small(rx as int);
        }
        if kx < ky {
            self.parent.set(rx, ry);
            proof {
                flat.lemma_linked(&*self, rx as int, ry as int);
            }
        } else if ky < kx {
            self.parent.set(ry, rx);
            proof {
                flat.lemma_linked(&*self, ry as int, rx as int);
            }
        } else {
            self.parent.set(ry, rx);
            self.rank.set(rx, kx + 1);
            proof {
                flat.lemma_linked(&*self, ry as int, rx as int);
            }
        }
        proof {
            assert forall|i: int| 0 <= i < old(self).len() implies #[trigger] self.rank_of(i)
                == if i == old(self).survivor(x as int, y as int) && !old(self).same_set(
                x as int,
                y as int,
            ) && old(self).rank_of(old(self)@[x as int]) == old(self).rank_of(
                old(self)@[y as int],
            ) {
                old(self).rank_of(i) + 1
            } else {
                old(self).rank_of(i)
            } by {
                assert(flat.rank_of(i) == mid.rank_of(i));
            }
            assert forall|i: int| 0 <= i < old(self).len() implies #[trigger] self.parent_of(i)
                == if i == old(self).absorbed(x as int, y as int) {
                old(self).survivor(x as int, y as int)
            } else {
                old(self).compressed_parent(x as int, y as int, i)
            } by {
                assert(flat.parent_of(i) == old(self).compressed_parent(x as int, y as int, i));
            }
        }
    }
}

// What follows is the forest as two plain sequences, and the proofs about it.

/// Node `x` has a parent other than itself, and that parent outranks it.
spec fn climbs(parent: Seq<usize>, rank: Seq<u8>, x: int) -> bool {
    &&& 0 <= x < parent.len()
    &&& parent[x] != x
    &&& parent[x] < parent.len()
    &&& rank[x] < rank[parent[x] as int]
}

/// The node reached from `x` by following parent links for as long as they climb.
spec fn root_of(parent: Seq<usize>, rank: Seq<u8>, x: int) -> int
    decreases 256 - rank[x],
{
    if climbs(parent, rank, x) {
        root_of(parent, rank, parent[x] as int)
    } else {
        x
    }
}

/// Node `i` is `x` or one of the nodes strictly between `x` and its root; a
/// root has nothing on its path.
spec fn on_path_of(parent: Seq<usize>, rank: Seq<u8>, x: int, i: int) -> bool
    decreases 256 - rank[x],
{
    climbs(parent, rank, x) && (i == x || on_path_of(parent, rank, parent[x] as int, i))
}

/// Every parent link stays inside the forest and leads to a higher rank.
spec fn forest(parent: Seq<usize>, rank: Seq<u8>) -> bool {
    &&& rank.len() == parent.len()
    &&& forall|i: int| 0 <= i < parent.len() ==> (#[trigger] parent[i]) < parent.len()
    &&& forall|i: int|
        0 <= i < parent.len() && (#[trigger] parent[i]) != i ==> rank[i] < rank[parent[i] as int]
}

/// What node `i` weighs: two to the power of its rank if it is a root, nothing otherwise.
spec fn weight_at(parent: Seq<usize>, rank: Seq<u8>, i: int) -> nat {
    if parent[i] == i {
        pow2(rank[i] as nat)
    } else {
        0
    }
}

/// The weight of the nodes `0..k` together.
spec fn weight_below(parent: Seq<usize>, rank: Seq<u8>, k: int) -> nat
    decreases k,
{
    if k <= 0 {
        0
    } else {
        weight_below(parent, rank, k - 1) + weight_at(parent, rank, k - 1)
    }
}

/// In a forest the walk from `x` ends at a root inside the forest whose rank
/// is at least that of `x`, and greater when `x` is not itself a root.
proof fn lemma_root_of_is_root(parent: Seq<usize>, rank: Seq<u8>, x: int)
    requires
        forest(parent, rank),
        0 <= x < parent.len(),
    ensures
        0 <= root_of(parent, rank, x) < parent.len(),
        parent[root_of(parent, rank, x)] == root_of(parent, rank, x),
        rank[x] <= rank[root_of(parent, rank, x)],
        parent[x] != x ==> rank[x] < rank[root_of(parent, rank, x)],
        parent[x] == x ==> root_of(parent, rank, x) == x,
        parent[x] != x ==> root_of(parent, rank, x) == root_of(parent, rank, parent[x] as int),
    decreases 256 - rank[x],
{
    if parent[x] != x {
        lemma_root_of_is_root(parent, rank, parent[x] as int);
    }
}

/// Whatever lies on the path of `x` is inside the forest, is no root, has the
/// root of `x` and ranks at least as high as `x`.
proof fn lemma_on_path_facts(parent: Seq<usize>, rank: Seq<u8>, x: int, i: int)
    requires
        forest(parent, rank),
        0 <= x < parent.len(),
        on_path_of(parent, rank, x, i),
    ensures
        0 <= i < parent.len(),
        parent[i] != i,
        root_of(parent, rank, i) == root_of(parent, rank, x),
        rank[x] <= rank[i],
    decreases 256 - rank[x],
{
    if i != x {
        lemma_on_path_facts(parent, rank, parent[x] as int, i);
    }
}

/// Two forests whose nodes weigh the same, node by node, weigh the same.
proof fn lemma_weight_same(
    first_parent: Seq<usize>,
    first_rank: Seq<u8>,
    second_parent: Seq<usize>,
    second_rank: Seq<u8>,
    k: int,
)
    requires
        forall|i: int| 0 <= i < k ==> weight_at(first_parent, first_rank, i) == weight_at(second_parent, second_rank, i),
    ensures
        weight_below(first_parent, first_rank, k) == weight_below(second_parent, second_rank, k),
    decreases k,
{
    if k > 0 {
        lemma_weight_same(first_parent, first_rank, second_parent, second_rank, k - 1);
    }
}

/// Two forests that differ in the weight of node `j` alone differ in total
/// weight by exactly that much.
proof fn lemma_weight_change(
    first_parent: Seq<usize>,
    first_rank: Seq<u8>,
    second_parent: Seq<usize>,
    second_rank: Seq<u8>,
    k: int,
    j: int,
)
    requires
        0 <= j < k,
        forall|i: int| 0 <= i < k && i != j ==> weight_at(first_parent, first_rank, i) == weight_at(second_parent, second_rank, i),
    ensures
        weight_below(second_parent, second_rank, k) + weight_at(first_parent, first_rank, j) == weight_below(first_parent, first_rank, k) + weight_at(
            second_parent,
            second_rank,
            j,
        ),
    decreases k,
{
    if j == k - 1 {
        lemma_weight_same(first_parent, first_rank, second_parent, second_rank, k - 1);
    } else {
        lemma_weight_change(first_parent, first_rank, second_parent, second_rank, k - 1, j);
    }
}

/// No two distinct nodes weigh more together than the nodes that hold them.
proof fn lemma_weight_of_two(parent: Seq<usize>, rank: Seq<u8>, k: int, a: int, b: int)
    requires
        0 <= a < k,
        0 <= b < k,
        a != b,
    ensures
        weight_at(parent, rank, a) + weight_at(parent, rank, b) <= weight_below(parent, rank, k),
    decreases k,
{
    if a == k - 1 {
        lemma_weight_of_one(parent, rank, k - 1, b);
    } else if b == k - 1 {
        lemma_weight_of_one(parent, rank, k - 1, a);
    } else {
        lemma_weight_of_two(parent, rank, k - 1, a, b);
    }
}

/// No node weighs more than the nodes that hold it.
proof fn lemma_weight_of_one(parent: Seq<usize>, rank: Seq<u8>, k: int, a: int)
    requires
        0 <= a < k,
    ensures
        weight_at(parent, rank, a) <= weight_below(parent, rank, k),
    decreases k,
{
    if a != k - 1 {
        lemma_weight_of_one(parent, rank, k - 1, a);
    }
}

/// A forest of singletons of rank zero weighs one per node.
proof fn lemma_weight_of_singletons(parent: Seq<usize>, rank: Seq<u8>, k: int)
    requires
        0 <= k,
        forall|i: int| 0 <= i < k ==> parent[i] == i && rank[i] == 0,
    ensures
        weight_below(parent, rank, k) == k,
    decreases k,
{
    if k > 0 {
        lemma_weight_of_singletons(parent, rank, k - 1);
        lemma2_to64();
    }
}

/// A power of two that fits in a machine word has an exponent below 64.
proof fn lemma_small_pow2(e: nat)
    requires
        pow2(e) <= usize::MAX,
    ensures
        e < 64,
{
    if e >= 64 {
        lemma2_to64_top();
        if e > 64 {
            lemma_pow2_strictly_increases(64, e);
        }
    }
}

/// Two to the sixty-fourth is beyond every machine word.
proof fn lemma2_to64_top()
    ensures
        pow2(64) == 0x1_0000_0000_0000_0000,
{
    lemma2_to64_rest();
}

/// Pointing the non-root `x` straight at its root leaves a forest in which
/// every node keeps its root.
proof fn lemma_repoint_keeps_roots(parent: Seq<usize>, rank: Seq<u8>, x: int, i: int)
    requires
        forest(parent, rank),
        0 <= x < parent.len(),
        0 <= i < parent.len(),
    ensures
        forest(parent.update(x, root_of(parent, rank, x) as usize), rank),
        root_of(parent.update(x, root_of(parent, rank, x) as usize), rank, i) == root_of(
            parent,
            rank,
            i,
        ),
    decreases 256 - rank[i],
{
    let t = root_of(parent, rank, x);
    let after = parent.update(x, t as usize);
    lemma_root_of_is_root(parent, rank, x);
    assert(forest(after, rank)) by {
        assert forall|j: int| 0 <= j < after.len() implies (#[trigger] after[j]) < after.len() by {
            assert(parent[j] < parent.len());
        }
        assert forall|j: int| 0 <= j < after.len() && (#[trigger] after[j]) != j implies rank[j]
            < rank[after[j] as int] by {
            assert(parent[j] < parent.len());
        }
    }
    lemma_root_of_is_root(parent, rank, i);
    if i == x {
        if parent[x] != x {
            assert(root_of(after, rank, t) == t);
        }
    } else if parent[i] != i {
        assert(after[i] == parent[i]);
        lemma_repoint_keeps_roots(parent, rank, x, parent[i] as int);
    }
}

/// Hanging the root `child` under the root `top`, with ranks that keep the
/// order, sends every node of the class of `child` to `top` and leaves the
/// other roots alone.
proof fn lemma_link_moves_roots(
    parent: Seq<usize>,
    rank: Seq<u8>,
    after_rank: Seq<u8>,
    child: int,
    top: int,
    i: int,
)
    requires
        forest(parent, rank),
        forest(parent.update(child, top as usize), after_rank),
        0 <= child < parent.len(),
        0 <= top < parent.len(),
        child != top,
        parent[child] == child,
        parent[top] == top,
        0 <= i < parent.len(),
    ensures
        root_of(parent.update(child, top as usize), after_rank, i) == if root_of(parent, rank, i)
            == child {
            top
        } else {
            root_of(parent, rank, i)
        },
    decreases 256 - rank[i],
{
    let after = parent.update(child, top as usize);
    lemma_root_of_is_root(parent, rank, i);
    if i == child {
        assert(after[child] == top);
        assert(root_of(after, after_rank, top) == top);
    } else if parent[i] != i {
        lemma_link_moves_roots(parent, rank, after_rank, child, top, parent[i] as int);
    } else {
        assert(after[i] == i);
    }
}

/// A path that passes through `y` also holds whatever lies on the path of the
/// parent of `y`.
proof fn lemma_on_path_extends(parent: Seq<usize>, rank: Seq<u8>, x: int, y: int, i: int)
    requires
        forest(parent, rank),
        0 <= x < parent.len(),
        on_path_of(parent, rank, x, y),
        on_path_of(parent, rank, parent[y] as int, i),
    ensures
        on_path_of(parent, rank, x, i),
    decreases 256 - rank[x],
{
    if x != y {
        lemma_on_path_extends(parent, rank, parent[x] as int, y, i);
    }
}

/// Once the path of `x` has been pointed at the root, the path of `y` is its
/// former path cut off where it met that of `x`.
proof fn lemma_path_after_compression(
    before: Seq<usize>,
    after: Seq<usize>,
    rank: Seq<u8>,
    x: int,
    y: int,
    i: int,
)
    requires
        forest(before, rank),
        forest(after, rank),
        0 <= x < before.len(),
        0 <= y < before.len(),
        after.len() == before.len(),
        forall|j: int|
            0 <= j < before.len() ==> #[trigger] after[j] == if on_path_of(before, rank, x, j) {
                root_of(before, rank, x)
            } else {
                before[j] as int
            },
    ensures
        on_path_of(after, rank, y, i) ==> on_path_of(before, rank, y, i),
        on_path_of(before, rank, y, i) && !on_path_of(after, rank, y, i) ==> on_path_of(
            before,
            rank,
            x,
            i,
        ),
    decreases 256 - rank[y],
{
    let t = root_of(before, rank, x);
    lemma_root_of_is_root(before, rank, x);
    lemma_root_of_is_root(before, rank, y);
    if before[y] == y {
        if on_path_of(before, rank, x, y) {
            lemma_on_path_facts(before, rank, x, y);
        }
        assert(after[y] == y);
    } else if on_path_of(before, rank, x, y) {
        lemma_on_path_facts(before, rank, x, y);
        if on_path_of(before, rank, x, t) {
            lemma_on_path_facts(before, rank, x, t);
        }
        assert(after[t] == t);
        assert(!on_path_of(after, rank, t, i));
        assert(on_path_of(after, rank, y, i) == (i == y));
        if on_path_of(before, rank, y, i) && i != y {
            lemma_on_path_extends(before, rank, x, y, i);
        }
    } else {
        lemma_path_after_compression(before, after, rank, x, before[y] as int, i);
    }
}

impl UnionFind {
    /// Every rank of a well-formed forest is below 64.
    proof fn lemma_rank_small(&self, i: int)
        requires
            self.wf(),
            0 <= i < self.len(),
        ensures
            self.rank@[i] < 64,
    {
        let parent = self.parent@;
        let rank = self.rank@;
        let t = root_of(parent, rank, i);
        lemma_root_of_is_root(parent, rank, i);
        lemma_weight_of_one(parent, rank, parent.len() as int, t);
        assert(parent.len() == self.parent.len());
        lemma_small_pow2(rank[t] as nat);
    }

    /// After the chain of `x` and then that of `y` have been compressed, the
    /// links are those of `compressed_parent`.
    proof fn lemma_compressed_twice(&self, mid: &UnionFind, last: &UnionFind, x: int, y: int)
        requires
            self.wf(),
            mid.wf(),
            last.wf(),
            0 <= x < self.len(),
            0 <= y < self.len(),
            mid.len() == self.len(),
            last.len() == self.len(),
            mid@ == self@,
            last@ == self@,
            forall|i: int|
                0 <= i < self.len() ==> #[trigger] mid.rank_of(i) == self.rank_of(i),
            forall|i: int|
                0 <= i < self.len() ==> #[trigger] mid.parent_of(i) == if self.on_path(x, i) {
                    self@[x]
                } else {
                    self.parent_of(i)
                },
            forall|i: int|
                0 <= i < self.len() ==> #[trigger] last.parent_of(i) == if mid.on_path(y, i) {
                    self@[y]
                } else {
                    mid.parent_of(i)
                },
        ensures
            forall|i: int|
                0 <= i < self.len() ==> #[trigger] last.parent_of(i) == self.compressed_parent(
                    x,
                    y,
                    i,
                ),
    {
        assert(mid.rank@ =~= self.rank@) by {
            assert forall|i: int| 0 <= i < self.len() implies mid.rank@[i] == self.rank@[i] by {
                assert(mid.rank_of(i) == self.rank_of(i));
            }
        }
        assert forall|i: int| 0 <= i < self.len() implies #[trigger] last.parent_of(i)
            == self.compressed_parent(x, y, i) by {
            assert forall|j: int| 0 <= j < self.len() implies #[trigger] mid.parent@[j] == if on_path_of(
                self.parent@,
                self.rank@,
                x,
                j,
            ) {
                root_of(self.parent@, self.rank@, x)
            } else {
                self.parent@[j] as int
            } by {
                assert(mid.parent_of(j) == if self.on_path(x, j) {
                    self@[x]
                } else {
                    self.parent_of(j)
                });
            }
            lemma_path_after_compression(self.parent@, mid.parent@, self.rank@, x, y, i);
            if self.on_path(x, i) {
                lemma_on_path_facts(self.parent@, self.rank@, x, i);
            }
            if self.on_path(y, i) {
                lemma_on_path_facts(self.parent@, self.rank@, y, i);
            }
            assert(self@[i] == root_of(self.parent@, self.rank@, i));
        }
    }

    /// What holds once the root `child` of a well-formed forest has been
    /// linked under the root `top`, whose rank was raised by one if the two
    /// ranks were equal: the forest is well-formed, and the class of `child`
    /// has gone over to `top`.
    proof fn lemma_linked(&self, after: &UnionFind, child: int, top: int)
        requires
            self.wf(),
            0 <= child < self.len(),
            0 <= top < self.len(),
            child != top,
            self.parent@[child] == child,
            self.parent@[top] == top,
            self.rank@[child] <= self.rank@[top],
            after.parent@ == self.parent@.update(child, top as usize),
            after.rank@ == if self.rank@[child] == self.rank@[top] {
                self.rank@.update(top, (self.rank@[top] + 1) as u8)
            } else {
                self.rank@
            },
        ensures
            after.wf(),
            after.len() == self.len(),
            forall|i: int|
                0 <= i < self.len() ==> #[trigger] after@[i] == if self@[i] == child {
                    top
                } else {
                    self@[i]
                },
    {
        let parent = self.parent@;
        let rank = self.rank@;
        let k = parent.len() as int;
        self.lemma_rank_small(top);
        assert(forest(after.parent@, after.rank@)) by {
            assert forall|j: int| 0 <= j < k implies (#[trigger] after.parent@[j]) < k by {
                assert(parent[j] < k);
            }
            assert forall|j: int| 0 <= j < k && (#[trigger] after.parent@[j]) != j implies after.rank@[j]
                < after.rank@[after.parent@[j] as int] by {
                assert(parent[j] < k);
            }
        }
        assert forall|i: int| 0 <= i < self.len() implies #[trigger] after@[i] == if self@[i]
            == child {
            top
        } else {
            self@[i]
        } by {
            lemma_link_moves_roots(parent, rank, after.rank@, child, top, i);
        }
        // Linking takes the weight of `child` away; a raised rank doubles that of `top`.
        assert forall|i: int| 0 <= i < k && i != child implies weight_at(parent, rank, i)
            == weight_at(after.parent@, rank, i) by {}
        lemma_weight_change(parent, rank, after.parent@, rank, k, child);
        lemma_weight_change(after.parent@, rank, after.parent@, after.rank@, k, top);
        lemma_weight_of_two(parent, rank, k, child, top);
        lemma_pow2_unfold((rank[top] + 1) as nat);
        if rank[child] < rank[top] {
            lemma_pow2_strictly_increases(rank[child] as nat, rank[top] as nat);
        }
    }
}

} // verus!
