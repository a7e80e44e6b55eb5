//! The percolation engine: opens sites one by one and keeps, in a disjoint-set
//! forest, which sites and sentinels the open sites join.
//!
//! The forest has one index per site, in row-after-row order, and two more
//! for the sentinels: the top sentinel is merged with every open site of the
//! first row, the bottom sentinel with every open site of the last. Whether the
//! lattice percolates is then one question to the forest.

use vstd::prelude::*;
use crate::error::PercolationError;
use crate::grid::Grid;
use crate::lattice::{lemma_site_index, site_index, Lattice, Node};
use crate::union_find::UnionFind;
use crate::universe::{site_records, GridPoint, Universe};

verus! {

/// A lattice of sites that is opened site by site, together with the record
/// of what the open sites join.
pub struct PercolationEngine {
    grid: Grid,
    uf: UnionFind,
    open_count: usize,
    virtual_top: usize,
    virtual_bottom: usize,
}

impl View for PercolationEngine {
    type V = Lattice;

    /// The side of the lattice and the set of its open sites.
    closed spec fn view(&self) -> Lattice {
        self.grid@
    }
}

impl PercolationEngine {
    /// The forest has an index for every site and sentinel, its classes are
    /// the sets of linked nodes, and the count of open sites is right.
    pub closed spec fn wf(&self) -> bool {
        &&& self.grid.wf()
        &&& self.uf.wf()
        &&& self.uf.len() == self.grid@.n * self.grid@.n + 2
        &&& self.virtual_top == self.grid@.n * self.grid@.n
        &&& self.virtual_bottom == self.grid@.n * self.grid@.n + 1
        &&& self.open_count == self.grid@.open_count()
        &&& tracks(self.uf@, self.grid@)
    }

    /// A well-formed engine stands for a well-formed lattice.
    pub proof fn lemma_view_wf(&self)
        requires
            self.wf(),
        ensures
            self@.wf(),
    {
        self.grid.lemma_view_wf();
    }

    /// The engine of a lattice of side `n` with every site closed, or
    /// `InvalidSize` when `n` is less than one.
    pub fn create(n: isize) -> (r: Result<PercolationEngine, PercolationError>)
        requires
            n >= 1 ==> n * n + 2 <= usize::MAX,
        ensures
            match r {
                Ok(engine) => n >= 1 && engine.wf() && engine@ == Lattice::closed(n as int)
                    && engine@.open_count() == 0 && !engine@.percolates(),
                Err(e) => n < 1 && e == PercolationError::InvalidSize,
            },
    {
        let grid = match Grid::new(n) {
            Ok(grid) => grid,
            Err(e) => {
                return Err(e);
            },
        };
        let side = grid.size();
        let sites = side * side;
        let uf = UnionFind::new(sites + 2);
        let engine = PercolationEngine {
            grid,
            uf,
            open_count: 0,
            virtual_top: sites,
            virtual_bottom: sites + 1,
        };
        proof {
            let v = engine.grid@;
            assert forall|a: Node, b: Node| v.has_node(a) && v.has_node(b) implies (
            #[trigger] joined(engine.uf@, v.n, a, b) <==> v.linked(a, b)) by {
                lemma_node_index(v.n, a, b);
                lemma_node_index(v.n, b, a);
                Lattice::lemma_closed_is_apart(v.n, a, b);
            }
        }
        Ok(engine)
    }

    /// Opens the site `(row, col)` and joins it to the open sites next to it,
    /// to the top sentinel if it is in the first row and to the bottom
    /// sentinel if it is in the last. A site that is open already is left as
    /// it is, and so is everything when the lattice has no such site, which is
    /// reported as `OutOfBounds`.
    pub fn open(&mut self, row: isize, col: isize) -> (r: Result<(), PercolationError>)
        requires
            old(self).wf(),
        ensures
            final(self).wf(),
            match r {
                Ok(()) => old(self)@.in_bounds(row as int, col as int) && final(self)@ == old(
                    self,
                )@.opened(row as int, col as int),
                Err(e) => !old(self)@.in_bounds(row as int, col as int) && e
                    == PercolationError::OutOfBounds,
            },
            !old(self)@.in_bounds(row as int, col as int) || old(self)@.is_open(
                row as int,
                col as int,
            ) ==> *final(self) == *old(self),
            final(self)@.open_count() == old(self)@.open_count() + if old(self)@.in_bounds(
                row as int,
                col as int,
            ) && !old(self)@.is_open(row as int, col as int) {
                1int
            } else {
                0int
            },
            old(self)@.percolates() ==> final(self)@.percolates(),
    {
        let index = match self.grid.to_index(row, col) {
            Ok(index) => index,
            Err(e) => {
                return Err(e);
            },
        };
        if open_site(&self.grid, row, col).is_some() {
            proof {
                old(self)@.lemma_opened_idempotent(row as int, col as int);
            }
            return Ok(());
        }
        let ghost before = old(self)@;
        let ghost target = before.opened(row as int, col as int);
        let ghost s = Node::Site(row as int, col as int);
        let ghost n = before.n;
        proof {
            self.grid.lemma_view_wf();
            target.lemma_open_count_bounded();
            assert forall|a: Node, b: Node|
                target.has_node(a) && target.has_node(b) && #[trigger] joined(
                    self.uf@,
                    n,
                    a,
                    b,
                ) implies target.linked(a, b) by {
                before.lemma_linked_monotone(target, a, b);
            }
            assert forall|a: Node, b: Node|
                before.has_node(a) && before.has_node(b) && #[trigger] before.touches(
                    a,
                    b,
                ) implies joined(self.uf@, n, a, b) by {
                before.lemma_touching_is_linked(a, b);
            }
        }
        let _ = self.grid.set_open(row, col);
        self.open_count = self.open_count + 1;
        let side = self.grid.size();
        if let Some(up) = open_site(&self.grid, row - 1, col) {
            join(
                &mut self.uf,
                index,
                up,
                Ghost(target),
                Ghost(s),
                Ghost(Node::Site(row - 1, col as int)),
            );
        }
        if let Some(down) = open_site(&self.grid, row + 1, col) {
            join(
                &mut self.uf,
                index,
                down,
                Ghost(target),
                Ghost(s),
                Ghost(Node::Site(row + 1, col as int)),
            );
        }
        if let Some(left) = open_site(&self.grid, row, col - 1) {
            join(
                &mut self.uf,
                index,
                left,
                Ghost(target),
                Ghost(s),
                Ghost(Node::Site(row as int, col - 1)),
            );
        }
        if let Some(right) = open_site(&self.grid, row, col + 1) {
            join(
                &mut self.uf,
                index,
                right,
                Ghost(target),
                Ghost(s),
                Ghost(Node::Site(row as int, col + 1)),
            );
        }
        if row == 0 {
            join(&mut self.uf, index, self.virtual_top, Ghost(target), Ghost(s), Ghost(Node::Top));
        }
        if row as usize == side - 1 {
            join(
                &mut self.uf,
                index,
                self.virtual_bottom,
                Ghost(target),
                Ghost(s),
                Ghost(Node::Bottom),
            );
        }
        proof {
            let roots = self.uf@;
            lemma_covers_opened(roots, before, row as int, col as int);
            lemma_sound_and_covering_tracks(roots, target);
            if before.percolates() {
                before.lemma_percolates_monotone(target);
            }
        }
        Ok(())
    }

    /// Whether the site `(row, col)` is open, or `OutOfBounds` when the
    /// lattice has no such site.
    pub fn is_open(&self, row: isize, col: isize) -> (r: Result<bool, PercolationError>)
        requires
            self.wf(),
        ensures
            match r {
                Ok(open) => self@.in_bounds(row as int, col as int) && open == self@.is_open(
                    row as int,
                    col as int,
                ),
                Err(e) => !self@.in_bounds(row as int, col as int) && e
                    == PercolationError::OutOfBounds,
            },
    {
        self.grid.is_open(row, col)
    }

    /// Whether the site `(row, col)` is full: open and in the class of the top
    /// sentinel. `OutOfBounds` when the lattice has no such site. The lattice
    /// stays as it is; the forest may shorten the chains that it walks, which
    /// is why the engine is borrowed mutably.
    pub fn is_full(&mut self, row: isize, col: isize) -> (r: Result<bool, PercolationError>)
        requires
            old(self).wf(),
        ensures
            final(self).wf(),
            final(self)@ == old(self)@,
            match r {
                Ok(full) => old(self)@.in_bounds(row as int, col as int) && full == old(
                    self,
                )@.full(row as int, col as int),
                Err(e) => !old(self)@.in_bounds(row as int, col as int) && e
                    == PercolationError::OutOfBounds && *final(self) == *old(self),
            },
    {
        let index = match self.grid.to_index(row, col) {
            Ok(index) => index,
            Err(e) => {
                return Err(e);
            },
        };
        if open_site(&self.grid, row, col).is_none() {
            return Ok(false);
        }
        proof {
            lemma_node_index(self.grid@.n, Node::Site(row as int, col as int), Node::Top);
            assert(joined(self.uf@, self.grid@.n, Node::Site(row as int, col as int), Node::Top)
                == self.grid@.linked(Node::Site(row as int, col as int), Node::Top));
        }
        let full = self.uf.connected(index, self.virtual_top);
        Ok(full)
    }

    /// Whether an open path leads from the first row to the last. The lattice
    /// stays as it is; the forest may shorten the chains that it walks, which
    /// is why the engine is borrowed mutably.
    pub fn percolates(&mut self) -> (b: bool)
        requires
            old(self).wf(),
        ensures
            final(self).wf(),
            final(self)@ == old(self)@,
            b == old(self)@.percolates(),
    {
        proof {
            self.grid.lemma_view_wf();
            self.grid@.lemma_percolates_is_linked();
            lemma_node_index(self.grid@.n, Node::Top, Node::Bottom);
            lemma_node_index(self.grid@.n, Node::Bottom, Node::Top);
            assert(joined(self.uf@, self.grid@.n, Node::Top, Node::Bottom) == self.grid@.linked(
                Node::Top,
                Node::Bottom,
            ));
        }
        self.uf.connected(self.virtual_top, self.virtual_bottom)
    }

    /// How many sites are open.
    pub fn number_of_open_sites(&self) -> (count: usize)
        requires
            self.wf(),
        ensures
            count == self@.open_count(),
    {
        self.open_count
    }

    /// The records of all sites, row after row.
    pub fn all_sites(&self) -> (points: Vec<GridPoint>)
        requires
            self.wf(),
        ensures
            points@ == site_records(self@),
    {
        self.grid.all_sites()
    }

    /// The lattice as it is now, for a host to keep and read.
    pub fn snapshot(&self) -> (universe: Universe)
        requires
            self.wf(),
        ensures
            universe@ == site_records(self@),
    {
        Universe::new(self.all_sites())
    }
}

// What follows ties the classes of the forest to the links of the lattice.

/// The index that stands for the node `a` in the forest of a lattice of side
/// `n`: sites first, then the top sentinel, then the bottom sentinel.
spec fn node_index(n: int, a: Node) -> int {
    match a {
        Node::Site(row, col) => site_index(n, row, col),
        Node::Top => n * n,
        Node::Bottom => n * n + 1,
    }
}

/// The partition `roots` has the two nodes in one class.
spec fn joined(roots: Seq<int>, n: int, a: Node, b: Node) -> bool {
    roots[node_index(n, a)] == roots[node_index(n, b)]
}

/// Nodes in one class of the partition are linked in the lattice.
spec fn sound(roots: Seq<int>, v: Lattice) -> bool {
    forall|a: Node, b: Node|
        v.has_node(a) && v.has_node(b) && #[trigger] joined(roots, v.n, a, b) ==> v.linked(a, b)
}

/// Nodes that share an edge of the lattice are in one class of the partition.
spec fn covers(roots: Seq<int>, v: Lattice) -> bool {
    forall|a: Node, b: Node|
        v.has_node(a) && v.has_node(b) && #[trigger] v.touches(a, b) ==> joined(roots, v.n, a, b)
}

/// The classes of the partition are exactly the sets of linked nodes.
spec fn tracks(roots: Seq<int>, v: Lattice) -> bool {
    forall|a: Node, b: Node|
        v.has_node(a) && v.has_node(b) ==> (#[trigger] joined(roots, v.n, a, b) <==> v.linked(
            a,
            b,
        ))
}

/// Whatever was in one class of `before` is in one class of `after`.
spec fn grows(before: Seq<int>, after: Seq<int>, v: Lattice) -> bool {
    forall|a: Node, b: Node|
        v.has_node(a) && v.has_node(b) && #[trigger] joined(before, v.n, a, b) ==> joined(
            after,
            v.n,
            a,
            b,
        )
}

/// Every node of the lattice has an index of its own below `n * n + 2`.
proof fn lemma_node_index(n: int, a: Node, b: Node)
    requires
        n >= 1,
        Lattice::closed(n).has_node(a),
        Lattice::closed(n).has_node(b),
    ensures
        0 <= node_index(n, a) < n * n + 2,
        node_index(n, a) == node_index(n, b) ==> a == b,
{
    match a {
        Node::Site(row, col) => {
            lemma_site_index(n, row, col);
        },
        _ => {},
    }
    match b {
        Node::Site(row, col) => {
            lemma_site_index(n, row, col);
        },
        _ => {},
    }
}

/// A walk in the connection graph stays inside one class of a partition that
/// covers the edges.
proof fn lemma_chain_is_joined(roots: Seq<int>, v: Lattice, p: Seq<Node>)
    requires
        v.wf(),
        covers(roots, v),
        v.chain(p),
    ensures
        joined(roots, v.n, p.first(), p.last()),
    decreases p.len(),
{
    if p.len() >= 2 {
        let q = p.drop_last();
        lemma_chain_is_joined(roots, v, q);
        let k = p.len() - 2;
        lemma_edge_has_nodes(v, p[k], p[k + 1]);
    }
}

/// Both ends of an edge are nodes of the lattice.
proof fn lemma_edge_has_nodes(v: Lattice, a: Node, b: Node)
    requires
        v.wf(),
        v.touches(a, b),
    ensures
        v.has_node(a),
        v.has_node(b),
{
}

/// A partition that is sound and covers the edges has the linked nodes for
/// its classes.
proof fn lemma_sound_and_covering_tracks(roots: Seq<int>, v: Lattice)
    requires
        v.wf(),
        sound(roots, v),
        covers(roots, v),
    ensures
        tracks(roots, v),
{
    assert forall|a: Node, b: Node| v.has_node(a) && v.has_node(b) implies (#[trigger] joined(
        roots,
        v.n,
        a,
        b,
    ) <==> v.linked(a, b)) by {
        if v.linked(a, b) {
            let p = choose|p: Seq<Node>| #[trigger] v.chain(p) && p.first() == a && p.last() == b;
            lemma_chain_is_joined(roots, v, p);
        }
    }
}

/// Once the site `(row, col)` is open and its class holds each node that it
/// touches, a partition that covered the edges before covers them all.
proof fn lemma_covers_opened(roots: Seq<int>, v: Lattice, row: int, col: int)
    requires
        v.wf(),
        v.in_bounds(row, col),
        !v.is_open(row, col),
        covers(roots, v),
        forall|b: Node|
            v.has_node(b) && #[trigger] v.opened(row, col).touches(Node::Site(row, col), b)
                ==> joined(roots, v.n, Node::Site(row, col), b),
    ensures
        covers(roots, v.opened(row, col)),
{
    let w = v.opened(row, col);
    let s = Node::Site(row, col);
    assert forall|a: Node, b: Node|
        w.has_node(a) && w.has_node(b) && #[trigger] w.touches(a, b) implies joined(
        roots,
        w.n,
        a,
        b,
    ) by {
        if b == s {
            w.lemma_touches_symmetric(a, b);
        } else if a != s {
            assert(v.touches(a, b));
        }
    }
}

/// The index of the site `(row, col)` if the lattice has that site and it is
/// open.
fn open_site(grid: &Grid, row: isize, col: isize) -> (r: Option<usize>)
    requires
        grid.wf(),
    ensures
        match r {
            Some(index) => grid@.in_bounds(row as int, col as int) && grid@.is_open(
                row as int,
                col as int,
            ) && index == site_index(grid@.n, row as int, col as int),
            None => !(grid@.in_bounds(row as int, col as int) && grid@.is_open(
                row as int,
                col as int,
            )),
        },
{
    match grid.is_open(row, col) {
        Ok(true) => match grid.to_index(row, col) {
            Ok(index) => Some(index),
            Err(_) => None,
        },
        _ => None,
    }
}

/// Merges the classes of the nodes `na` and `nb`, which share an edge of the
/// lattice `target`.
fn join(
    uf: &mut UnionFind,
    a: usize,
    b: usize,
    Ghost(target): Ghost<Lattice>,
    Ghost(na): Ghost<Node>,
    Ghost(nb): Ghost<Node>,
)
    requires
        old(uf).wf(),
        old(uf).len() == target.n * target.n + 2,
        target.wf(),
        target.touches(na, nb),
        a == node_index(target.n, na),
        b == node_index(target.n, nb),
        sound(old(uf)@, target),
    ensures
        final(uf).wf(),
        final(uf).len() == old(uf).len(),
        sound(final(uf)@, target),
        grows(old(uf)@, final(uf)@, target),
        joined(final(uf)@, target.n, na, nb),
{
    proof {
        lemma_edge_has_nodes(target, na, nb);
        lemma_node_index(target.n, na, nb);
        lemma_node_index(target.n, nb, na);
    }
    uf.union(a, b);
    proof {
        let n = target.n;
        let before = old(uf)@;
        let after = uf@;
        assert forall|p: Node, q: Node| target.has_node(p) && target.has_node(q) implies (joined(
            after,
            n,
            p,
            q,
        ) <==> joined(before, n, p, q) || (joined(before, n, p, na) && joined(before, n, nb, q))
            || (joined(before, n, p, nb) && joined(before, n, na, q))) by {
            lemma_node_index(n, p, q);
            lemma_node_index(n, q, p);
        }
        assert forall|p: Node, q: Node|
            target.has_node(p) && target.has_node(q) && #[trigger] joined(
                after,
                n,
                p,
                q,
            ) implies target.linked(p, q) by {
            target.lemma_touching_is_linked(na, nb);
            target.lemma_linked_symmetric(na, nb);
            if joined(before, n, p, q) {
            } else if joined(before, n, p, na) && joined(before, n, nb, q) {
                target.lemma_linked_transitive(p, na, nb);
                target.lemma_linked_transitive(p, nb, q);
            } else {
                target.lemma_linked_transitive(p, nb, na);
                target.lemma_linked_transitive(p, na, q);
            }
        }
    }
}

} // verus!
