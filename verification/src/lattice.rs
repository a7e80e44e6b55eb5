//! The mathematical model of a square lattice of sites: which sites are open,
//! which sites an open path joins, and what it means for the lattice to
//! percolate.
//!
//! Nothing here is executable. The executable types describe themselves in
//! these terms.

use vstd::prelude::*;
use vstd::arithmetic::div_mod::{lemma_fundamental_div_mod, lemma_fundamental_div_mod_converse};
use vstd::relations::injective_on;
use vstd::set_lib::{lemma_int_range, lemma_len_subset, lemma_map_size, set_int_range};

verus! {

/// A vertex of the connection graph: a site of the lattice, given by row and
/// column, or one of the two sentinels that stand for the rim above the first
/// row and the rim below the last.
pub enum Node {
    Top,
    Bottom,
    Site(int, int),
}

/// A lattice of `n` by `n` sites and the set of `(row, column)` pairs that are
/// open.
pub struct Lattice {
    pub n: int,
    pub open: Set<(int, int)>,
}

/// The two sites share an edge of the lattice: same row and adjacent columns,
/// or same column and adjacent rows.
pub open spec fn neighbours(a: (int, int), b: (int, int)) -> bool {
    ||| a.0 == b.0 && (a.1 == b.1 + 1 || b.1 == a.1 + 1)
    ||| a.1 == b.1 && (a.0 == b.0 + 1 || b.0 == a.0 + 1)
}

/// The place of the site `(row, col)` when the rows of a lattice of side `n`
/// are laid out one after the other.
pub open spec fn site_index(n: int, row: int, col: int) -> int {
    row * n + col
}

/// The row of the site at place `index`.
pub open spec fn site_row(n: int, index: int) -> int {
    index / n
}

/// The column of the site at place `index`.
pub open spec fn site_col(n: int, index: int) -> int {
    index % n
}

/// Every site of the lattice has a place in `[0, n * n)`, and row and column
/// are found again from the place.
pub proof fn lemma_site_index(n: int, row: int, col: int)
    requires
        0 <= row < n,
        0 <= col < n,
    ensures
        0 <= row * n <= site_index(n, row, col) < n * n,
        site_row(n, site_index(n, row, col)) == row,
        site_col(n, site_index(n, row, col)) == col,
{
    assert(0 <= row * n && row * n + n <= n * n) by (nonlinear_arith)
        requires
            0 <= row < n,
    ;
    lemma_fundamental_div_mod_converse(row * n + col, n, row, col);
}

/// Every place in `[0, n * n)` is that of one site of the lattice, the one
/// whose row and column are read off the place.
pub proof fn lemma_site_coord(n: int, index: int)
    requires
        1 <= n,
        0 <= index < n * n,
    ensures
        0 <= site_row(n, index) < n,
        0 <= site_col(n, index) < n,
        site_index(n, site_row(n, index), site_col(n, index)) == index,
{
    lemma_fundamental_div_mod(index, n);
    let q = index / n;
    let r = index % n;
    assert(0 <= q < n) by (nonlinear_arith)
        requires
            index == q * n + r,
            0 <= r < n,
            0 <= index < n * n,
    ;
}

impl Lattice {
    /// The lattice of side `n` with every site closed.
    pub open spec fn closed(n: int) -> Lattice {
        Lattice { n, open: Set::empty() }
    }

    /// Row and column both lie in `[0, n)`.
    pub open spec fn in_bounds(self, row: int, col: int) -> bool {
        0 <= row < self.n && 0 <= col < self.n
    }

    /// The side is at least one, and the open sites are finitely many sites of
    /// the lattice.
    pub open spec fn wf(self) -> bool {
        &&& self.n >= 1
        &&& self.open.finite()
        &&& forall|p: (int, int)| #[trigger] self.open.contains(p) ==> self.in_bounds(p.0, p.1)
    }

    /// The site is open.
    pub open spec fn is_open(self, row: int, col: int) -> bool {
        self.open.contains((row, col))
    }

    /// How many sites are open.
    pub open spec fn open_count(self) -> nat {
        self.open.len()
    }

    /// The same lattice with the site at `(row, col)` open.
    pub open spec fn opened(self, row: int, col: int) -> Lattice {
        Lattice { n: self.n, open: self.open.insert((row, col)) }
    }

    /// Every site that is open in `self` is open in `other`, a lattice of the
    /// same side.
    pub open spec fn within(self, other: Lattice) -> bool {
        self.n == other.n && self.open.subset_of(other.open)
    }

    /// A walk over open sites, each step to a neighbour.
    pub open spec fn open_path(self, p: Seq<(int, int)>) -> bool {
        &&& p.len() >= 1
        &&& forall|i: int| 0 <= i < p.len() ==> self.open.contains(#[trigger] p[i])
        &&& forall|i: int| 0 <= i < p.len() - 1 ==> neighbours(#[trigger] p[i], p[i + 1])
    }

    /// An open path leads from the site to the first row.
    pub open spec fn reaches_top(self, row: int, col: int) -> bool {
        exists|p: Seq<(int, int)>| #[trigger]
            self.open_path(p) && p.first() == (row, col) && p.last().0 == 0
    }

    /// An open path leads from the site to the last row.
    pub open spec fn reaches_bottom(self, row: int, col: int) -> bool {
        exists|p: Seq<(int, int)>| #[trigger]
            self.open_path(p) && p.first() == (row, col) && p.last().0 == self.n - 1
    }

    /// An open path leads from the first row to the last.
    pub open spec fn percolates(self) -> bool {
        exists|p: Seq<(int, int)>| #[trigger]
            self.open_path(p) && p.first().0 == 0 && p.last().0 == self.n - 1
    }

    /// The node is a sentinel or a site of the lattice.
    pub open spec fn has_node(self, a: Node) -> bool {
        match a {
            Node::Site(row, col) => self.in_bounds(row, col),
            _ => true,
        }
    }

    /// The connection graph has an edge between the two nodes: two open
    /// neighbours, the top sentinel and an open site of the first row, or the
    /// bottom sentinel and an open site of the last row.
    pub open spec fn touches(self, a: Node, b: Node) -> bool {
        match (a, b) {
            (Node::Site(r1, c1), Node::Site(r2, c2)) => self.is_open(r1, c1) && self.is_open(
                r2,
                c2,
            ) && neighbours((r1, c1), (r2, c2)),
            (Node::Top, Node::Site(r, c)) => self.is_open(r, c) && r == 0,
            (Node::Site(r, c), Node::Top) => self.is_open(r, c) && r == 0,
            (Node::Bottom, Node::Site(r, c)) => self.is_open(r, c) && r == self.n - 1,
            (Node::Site(r, c), Node::Bottom) => self.is_open(r, c) && r == self.n - 1,
            _ => false,
        }
    }

    /// A walk in the connection graph.
    pub open spec fn chain(self, p: Seq<Node>) -> bool {
        &&& p.len() >= 1
        &&& forall|i: int| 0 <= i < p.len() - 1 ==> self.touches(#[trigger] p[i], p[i + 1])
    }

    /// A walk in the connection graph leads from `a` to `b`.
    pub open spec fn linked(self, a: Node, b: Node) -> bool {
        exists|p: Seq<Node>| #[trigger] self.chain(p) && p.first() == a && p.last() == b
    }

    /// The site is open and linked to the top sentinel. Through the bottom
    /// sentinel this holds of every open site that reaches the last row, once
    /// the lattice percolates.
    pub open spec fn full(self, row: int, col: int) -> bool {
        self.is_open(row, col) && self.linked(Node::Site(row, col), Node::Top)
    }

    /// Every node is linked to itself.
    pub proof fn lemma_linked_reflexive(self, a: Node)
        ensures
            self.linked(a, a),
    {
        let p = seq![a];
        assert(self.chain(p) && p.first() == a && p.last() == a);
    }

    /// Two nodes that share an edge are linked.
    pub proof fn lemma_touching_is_linked(self, a: Node, b: Node)
        requires
            self.touches(a, b),
        ensures
            self.linked(a, b),
    {
        let p = seq![a, b];
        assert(self.chain(p) && p.first() == a && p.last() == b);
    }

    /// Edges have no direction.
    pub proof fn lemma_touches_symmetric(self, a: Node, b: Node)
        ensures
            self.touches(a, b) == self.touches(b, a),
    {
    }

    /// Links have no direction.
    pub proof fn lemma_linked_symmetric(self, a: Node, b: Node)
        ensures
            self.linked(a, b) == self.linked(b, a),
    {
        if self.linked(a, b) {
            self.lemma_linked_turned(a, b);
        }
        if self.linked(b, a) {
            self.lemma_linked_turned(b, a);
        }
    }

    proof fn lemma_linked_turned(self, a: Node, b: Node)
        requires
            self.linked(a, b),
        ensures
            self.linked(b, a),
    {
        let p = choose|p: Seq<Node>| #[trigger] self.chain(p) && p.first() == a && p.last() == b;
        let q = p.reverse();
        assert(self.chain(q) && q.first() == b && q.last() == a);
    }

    /// A link from `a` to `b` and one from `b` to `c` make one from `a` to `c`.
    pub proof fn lemma_linked_transitive(self, a: Node, b: Node, c: Node)
        requires
            self.linked(a, b),
            self.linked(b, c),
        ensures
            self.linked(a, c),
    {
        let p = choose|p: Seq<Node>| #[trigger] self.chain(p) && p.first() == a && p.last() == b;
        let q = choose|q: Seq<Node>| #[trigger] self.chain(q) && q.first() == b && q.last() == c;
        let r = p + q.drop_first();
        assert(self.chain(r));
    }

    /// Opening more sites breaks no link.
    pub proof fn lemma_linked_monotone(self, other: Lattice, a: Node, b: Node)
        requires
            self.within(other),
            self.linked(a, b),
        ensures
            other.linked(a, b),
    {
        let p = choose|p: Seq<Node>| #[trigger] self.chain(p) && p.first() == a && p.last() == b;
        assert(other.chain(p));
    }

    /// A lattice that percolates still percolates when more sites are open.
    pub proof fn lemma_percolates_monotone(self, other: Lattice)
        requires
            self.within(other),
            self.percolates(),
        ensures
            other.percolates(),
    {
        let p = choose|p: Seq<(int, int)>| #[trigger]
            self.open_path(p) && p.first().0 == 0 && p.last().0 == self.n - 1;
        assert(other.open_path(p));
    }

    /// Opening a site a second time changes nothing.
    pub proof fn lemma_opened_idempotent(self, row: int, col: int)
        ensures
            self.opened(row, col).opened(row, col) == self.opened(row, col),
            self.is_open(row, col) ==> self.opened(row, col) == self,
            self.within(self.opened(row, col)),
    {
        assert(self.open.insert((row, col)).insert((row, col)) =~= self.open.insert((row, col)));
        if self.is_open(row, col) {
            assert(self.open.insert((row, col)) =~= self.open);
        }
    }

    /// Opening a site of the lattice keeps the model well-formed and raises
    /// the count of open sites by one unless the site was open already.
    pub proof fn lemma_opened_count(self, row: int, col: int)
        requires
            self.wf(),
            self.in_bounds(row, col),
        ensures
            self.opened(row, col).wf(),
            self.opened(row, col).open_count() == self.open_count() + if self.is_open(row, col) {
                0int
            } else {
                1int
            },
    {
    }

    /// No more sites are open than the lattice has.
    pub proof fn lemma_open_count_bounded(self)
        requires
            self.wf(),
        ensures
            self.open_count() <= self.n * self.n,
    {
        let n = self.n;
        let place = |p: (int, int)| site_index(n, p.0, p.1);
        let places = self.open.map(place);
        assert(injective_on(place, self.open)) by {
            assert forall|p: (int, int), q: (int, int)|
                self.open.contains(p) && self.open.contains(q) && #[trigger] place(p)
                    == #[trigger] place(q) implies p == q by {
                lemma_site_index(n, p.0, p.1);
                lemma_site_index(n, q.0, q.1);
            }
        }
        lemma_map_size(self.open, places, place);
        lemma_int_range(0, n * n);
        assert(places.subset_of(set_int_range(0, n * n))) by {
            assert forall|i: int| places.contains(i) implies set_int_range(0, n * n).contains(
                i,
            ) by {
                let p = choose|p: (int, int)| self.open.contains(p) && i == place(p);
                lemma_site_index(n, p.0, p.1);
            }
        }
        lemma_len_subset(places, set_int_range(0, n * n));
    }

    /// With every site closed nothing is linked but each node to itself, and
    /// the lattice does not percolate.
    pub proof fn lemma_closed_is_apart(n: int, a: Node, b: Node)
        ensures
            Lattice::closed(n).wf() == (n >= 1),
            Lattice::closed(n).open_count() == 0,
            !Lattice::closed(n).percolates(),
            Lattice::closed(n).linked(a, b) == (a == b),
    {
        let v = Lattice::closed(n);
        if v.linked(a, b) {
            let p = choose|p: Seq<Node>| #[trigger] v.chain(p) && p.first() == a && p.last() == b;
            assert(p.len() == 1);
        }
        if a == b {
            v.lemma_linked_reflexive(a);
        }
    }

    /// The sites of an open path are linked, first to last.
    pub proof fn lemma_open_path_is_linked(self, p: Seq<(int, int)>)
        requires
            self.open_path(p),
        ensures
            self.linked(Node::Site(p.first().0, p.first().1), Node::Site(p.last().0, p.last().1)),
        decreases p.len(),
    {
        let a = Node::Site(p.first().0, p.first().1);
        let b = Node::Site(p.last().0, p.last().1);
        if p.len() == 1 {
            self.lemma_linked_reflexive(a);
        } else {
            let q = p.drop_last();
            self.lemma_open_path_is_linked(q);
            let m = Node::Site(q.last().0, q.last().1);
            self.lemma_touching_is_linked(m, b);
            self.lemma_linked_transitive(a, m, b);
        }
    }

    /// An open path walked backwards is an open path.
    pub proof fn lemma_open_path_reversed(self, p: Seq<(int, int)>)
        requires
            self.open_path(p),
        ensures
            self.open_path(p.reverse()),
            p.reverse().first() == p.last(),
            p.reverse().last() == p.first(),
    {
    }

    /// An open path that starts at a neighbour of the open site `(row, col)`
    /// can be entered from that site.
    proof fn lemma_open_path_entered(self, row: int, col: int, p: Seq<(int, int)>) -> (q: Seq<
        (int, int),
    >)
        requires
            self.open_path(p),
            self.is_open(row, col),
            neighbours((row, col), p.first()),
        ensures
            self.open_path(q),
            q.first() == (row, col),
            q.last() == p.last(),
    {
        seq![(row, col)] + p
    }

    /// A walk in the connection graph that ends at the bottom sentinel shows
    /// an open path to the last row: from the first row if the walk starts at
    /// the top sentinel, and from the site it starts at or from the first row
    /// otherwise.
    proof fn lemma_chain_to_bottom(self, p: Seq<Node>)
        requires
            self.chain(p),
            p.last() == Node::Bottom,
        ensures
            match p.first() {
                Node::Top => self.percolates(),
                Node::Site(row, col) => self.percolates() || self.reaches_bottom(row, col),
                Node::Bottom => true,
            },
        decreases p.len(),
    {
        if p.len() >= 2 {
            let q = p.drop_first();
            self.lemma_chain_to_bottom(q);
            match (p[0], p[1]) {
                (Node::Site(row, col), Node::Site(r, c)) => {
                    if !self.percolates() {
                        let path = choose|path: Seq<(int, int)>| #[trigger]
                            self.open_path(path) && path.first() == (r, c) && path.last().0
                                == self.n - 1;
                        let longer = self.lemma_open_path_entered(row, col, path);
                    }
                },
                (Node::Site(row, col), Node::Bottom) => {
                    let path = seq![(row, col)];
                    assert(self.open_path(path) && path.first() == (row, col) && path.last().0
                        == self.n - 1);
                },
                _ => {},
            }
        }
    }

    /// A walk in the connection graph that ends at the top sentinel shows an
    /// open path to the first row: from the last row if the walk starts at the
    /// bottom sentinel; otherwise from the site it starts at, or else from
    /// the last row together with one from that site to the last row.
    proof fn lemma_chain_to_top(self, p: Seq<Node>)
        requires
            self.chain(p),
            p.last() == Node::Top,
        ensures
            match p.first() {
                Node::Bottom => self.percolates(),
                Node::Site(row, col) => self.reaches_top(row, col) || (self.percolates()
                    && self.reaches_bottom(row, col)),
                Node::Top => true,
            },
        decreases p.len(),
    {
        if p.len() >= 2 {
            let q = p.drop_first();
            self.lemma_chain_to_top(q);
            match (p[0], p[1]) {
                (Node::Bottom, Node::Site(r, c)) => {
                    if !self.percolates() {
                        let path = choose|path: Seq<(int, int)>| #[trigger]
                            self.open_path(path) && path.first() == (r, c) && path.last().0 == 0;
                        let back = path.reverse();
                        assert(self.open_path(back) && back.first().0 == 0 && back.last().0
                            == self.n - 1);
                    }
                },
                (Node::Site(row, col), Node::Site(r, c)) => {
                    if self.reaches_top(r, c) {
                        let path = choose|path: Seq<(int, int)>| #[trigger]
                            self.open_path(path) && path.first() == (r, c) && path.last().0 == 0;
                        let longer = self.lemma_open_path_entered(row, col, path);
                    } else {
                        let path = choose|path: Seq<(int, int)>| #[trigger]
                            self.open_path(path) && path.first() == (r, c) && path.last().0
                                == self.n - 1;
                        let longer = self.lemma_open_path_entered(row, col, path);
                    }
                },
                (Node::Site(row, col), Node::Top) => {
                    let path = seq![(row, col)];
                    assert(self.open_path(path) && path.first() == (row, col) && path.last().0
                        == 0);
                },
                (Node::Site(row, col), Node::Bottom) => {
                    let path = seq![(row, col)];
                    assert(self.open_path(path) && path.first() == (row, col) && path.last().0
                        == self.n - 1);
                },
                _ => {},
            }
        }
    }

    /// The two sentinels are linked exactly if an open path leads from the
    /// first row to the last.
    pub proof fn lemma_percolates_is_linked(self)
        ensures
            self.percolates() == self.linked(Node::Top, Node::Bottom),
    {
        if self.percolates() {
            let p = choose|p: Seq<(int, int)>| #[trigger]
                self.open_path(p) && p.first().0 == 0 && p.last().0 == self.n - 1;
            let a = Node::Site(p.first().0, p.first().1);
            let b = Node::Site(p.last().0, p.last().1);
            self.lemma_open_path_is_linked(p);
            self.lemma_touching_is_linked(Node::Top, a);
            self.lemma_touching_is_linked(b, Node::Bottom);
            self.lemma_linked_transitive(Node::Top, a, b);
            self.lemma_linked_transitive(Node::Top, b, Node::Bottom);
        }
        if self.linked(Node::Top, Node::Bottom) {
            let p = choose|p: Seq<Node>| #[trigger]
                self.chain(p) && p.first() == Node::Top && p.last() == Node::Bottom;
            self.lemma_chain_to_bottom(p);
        }
    }

    /// A site is full exactly if an open path leads from it to the first row,
    /// or the lattice percolates and an open path leads from it to the last
    /// row.
    pub proof fn lemma_full_by_paths(self, row: int, col: int)
        ensures
            self.full(row, col) == (self.reaches_top(row, col) || (self.percolates()
                && self.reaches_bottom(row, col))),
    {
        let s = Node::Site(row, col);
        if self.full(row, col) {
            let p = choose|p: Seq<Node>| #[trigger]
                self.chain(p) && p.first() == s && p.last() == Node::Top;
            self.lemma_chain_to_top(p);
        }
        if self.reaches_top(row, col) {
            let p = choose|p: Seq<(int, int)>| #[trigger]
                self.open_path(p) && p.first() == (row, col) && p.last().0 == 0;
            let b = Node::Site(p.last().0, p.last().1);
            self.lemma_open_path_is_linked(p);
            self.lemma_touching_is_linked(b, Node::Top);
            self.lemma_linked_transitive(s, b, Node::Top);
        }
        if self.percolates() && self.reaches_bottom(row, col) {
            let p = choose|p: Seq<(int, int)>| #[trigger]
                self.open_path(p) && p.first() == (row, col) && p.last().0 == self.n - 1;
            let b = Node::Site(p.last().0, p.last().1);
            self.lemma_open_path_is_linked(p);
            self.lemma_touching_is_linked(b, Node::Bottom);
            self.lemma_linked_transitive(s, b, Node::Bottom);
            self.lemma_percolates_is_linked();
            self.lemma_linked_symmetric(Node::Top, Node::Bottom);
            self.lemma_linked_transitive(s, Node::Bottom, Node::Top);
        }
    }
}

} // verus!
