//! A point quadtree over a snapshot of body positions, stored as a flat arena.
use vstd::prelude::*;

use crate::geometry::{Vec2, COORD_LIMIT};
use crate::particle::{all_wf, Particle};

verus! {

/// An axis-aligned box, half-open: `min` inclusive, `max` exclusive.
#[derive(Clone, Copy, Debug, PartialEq, Eq, Structural)]
pub struct Aabb {
    pub min: Vec2,
    pub max: Vec2,
}

/// What the tree records of a body: its identity handle, position and mass.
#[derive(Clone, Copy, Debug, PartialEq, Eq, Structural)]
pub struct QuadEntry {
    pub id: u64,
    pub position: Vec2,
    pub mass: u32,
}

/// One cell of the tree. `children` is the index of the first of its four
/// consecutive children (NW, NE, SW, SE); a cell without children is a leaf.
/// `held` is the position that every entry stored in this leaf shares.
#[derive(Clone, Copy, Debug, PartialEq, Eq, Structural)]
pub struct Node {
    pub bounds: Aabb,
    pub children: Option<usize>,
    pub held: Option<Vec2>,
}

/// One line of a tree outline: a cell, its depth below the root, whether it is a
/// leaf and whether it holds entries.
#[derive(Clone, Copy, Debug, PartialEq, Eq, Structural)]
pub struct OutlineRow {
    pub node: usize,
    pub depth: usize,
    pub is_leaf: bool,
    pub has_particle: bool,
}

/// The outline of the subtree at cell `i`, in depth-first order: the cell itself,
/// then the outlines of its four children in order.
pub open spec fn outline(nodes: Seq<Node>, i: int, depth: int) -> Seq<OutlineRow>
    decreases nodes.len() - i,
{
    if 0 <= i < nodes.len() {
        let nd = nodes[i];
        let row = seq![
            OutlineRow {
                node: i as usize,
                depth: depth as usize,
                is_leaf: nd.children is None,
                has_particle: nd.held is Some,
            },
        ];
        if nd.children is Some && i < nd.children->Some_0 && nd.children->Some_0 + 3 < nodes.len() {
            let c = nd.children->Some_0 as int;
            row + outline(nodes, c, depth + 1) + outline(nodes, c + 1, depth + 1) + outline(
                nodes,
                c + 2,
                depth + 1,
            ) + outline(nodes, c + 3, depth + 1)
        } else {
            row
        }
    } else {
        Seq::empty()
    }
}

/// `b` is the root box for a snapshot: it contains every position and is tight
/// (its min corner and, one step beyond, its max corner are reached by some
/// position); with no positions it is the empty box at the origin.
pub open spec fn bounding_root(entries: Seq<QuadEntry>, b: Aabb) -> bool {
    &&& forall|k: int| 0 <= k < entries.len() ==> spec_contains(b, (#[trigger] entries[k]).position)
    &&& entries.len() > 0 ==> {
        &&& exists|k: int| 0 <= k < entries.len() && b.min.x == (#[trigger] entries[k]).position.x
        &&& exists|k: int| 0 <= k < entries.len() && b.min.y == (#[trigger] entries[k]).position.y
        &&& exists|k: int| 0 <= k < entries.len() && b.max.x == (#[trigger] entries[k]).position.x + 1
        &&& exists|k: int| 0 <= k < entries.len() && b.max.y == (#[trigger] entries[k]).position.y + 1
    }
    &&& entries.len() == 0 ==> b == (Aabb { min: Vec2 { x: 0, y: 0 }, max: Vec2 { x: 0, y: 0 } })
}

/// Half-open containment: each boundary point belongs to exactly one of two
/// neighbouring boxes.
pub open spec fn spec_contains(b: Aabb, p: Vec2) -> bool {
    b.min.x <= p.x < b.max.x && b.min.y <= p.y < b.max.y
}

/// Checks whether the box contains the point, min inclusive and max exclusive.
pub fn contains(aabb: &Aabb, pos: &Vec2) -> (r: bool)
    ensures
        r == spec_contains(*aabb, *pos),
{
    aabb.min.x <= pos.x && pos.x < aabb.max.x && aabb.min.y <= pos.y && pos.y < aabb.max.y
}

/// A box with ordered corners inside the world (the max corner one step beyond it).
pub open spec fn bounds_ok(b: Aabb) -> bool {
    &&& -COORD_LIMIT <= b.min.x <= b.max.x <= COORD_LIMIT + 1
    &&& -COORD_LIMIT <= b.min.y <= b.max.y <= COORD_LIMIT + 1
}

pub open spec fn midpoint(lo: int, hi: int) -> int {
    lo + (hi - lo) / 2
}

/// The `k`-th quadrant of `b` split at its midpoints: 0 NW, 1 NE, 2 SW, 3 SE.
pub open spec fn quadrant(b: Aabb, k: int) -> Aabb {
    let mx = midpoint(b.min.x as int, b.max.x as int) as i64;
    let my = midpoint(b.min.y as int, b.max.y as int) as i64;
    if k == 0 {
        Aabb { min: Vec2 { x: b.min.x, y: my }, max: Vec2 { x: mx, y: b.max.y } }
    } else if k == 1 {
        Aabb { min: Vec2 { x: mx, y: my }, max: Vec2 { x: b.max.x, y: b.max.y } }
    } else if k == 2 {
        Aabb { min: Vec2 { x: b.min.x, y: b.min.y }, max: Vec2 { x: mx, y: my } }
    } else {
        Aabb { min: Vec2 { x: mx, y: b.min.y }, max: Vec2 { x: b.max.x, y: my } }
    }
}

/// The index of the quadrant of `b` that claims `p`.
pub open spec fn quadrant_of(b: Aabb, p: Vec2) -> int {
    let mx = midpoint(b.min.x as int, b.max.x as int);
    let my = midpoint(b.min.y as int, b.max.y as int);
    (if p.y < my {
        2int
    } else {
        0int
    }) + (if p.x < mx {
        0int
    } else {
        1int
    })
}

/// Half the perimeter of a box, which shrinks as cells are split.
pub open spec fn extent(b: Aabb) -> int {
    (b.max.x - b.min.x) + (b.max.y - b.min.y)
}

fn midpoint_exec(lo: i64, hi: i64) -> (m: i64)
    requires
        -COORD_LIMIT <= lo <= hi <= COORD_LIMIT + 1,
    ensures
        m == midpoint(lo as int, hi as int),
        lo <= m <= hi,
{
    lo + ((hi - lo) as u64 / 2) as i64
}

fn quadrant_exec(b: &Aabb, k: usize) -> (r: Aabb)
    requires
        bounds_ok(*b),
        k < 4,
    ensures
        r == quadrant(*b, k as int),
        bounds_ok(r),
{
    let mx = midpoint_exec(b.min.x, b.max.x);
    let my = midpoint_exec(b.min.y, b.max.y);
    if k == 0 {
        Aabb { min: Vec2 { x: b.min.x, y: my }, max: Vec2 { x: mx, y: b.max.y } }
    } else if k == 1 {
        Aabb { min: Vec2 { x: mx, y: my }, max: Vec2 { x: b.max.x, y: b.max.y } }
    } else if k == 2 {
        Aabb { min: Vec2 { x: b.min.x, y: b.min.y }, max: Vec2 { x: mx, y: my } }
    } else {
        Aabb { min: Vec2 { x: mx, y: b.min.y }, max: Vec2 { x: b.max.x, y: my } }
    }
}

fn quadrant_index(b: &Aabb, p: &Vec2) -> (k: usize)
    requires
        bounds_ok(*b),
    ensures
        k == quadrant_of(*b, *p),
        k < 4,
{
    let mx = midpoint_exec(b.min.x, b.max.x);
    let my = midpoint_exec(b.min.y, b.max.y);
    let row: usize = if p.y < my {
        2
    } else {
        0
    };
    let col: usize = if p.x < mx {
        0
    } else {
        1
    };
    row + col
}

/// The quadrant that claims a point of a box contains it.
pub proof fn lemma_quadrant_of_contains(b: Aabb, p: Vec2)
    requires
        bounds_ok(b),
        spec_contains(b, p),
    ensures
        0 <= quadrant_of(b, p) < 4,
        spec_contains(quadrant(b, quadrant_of(b, p)), p),
{
}

/// A quadrant of a box holding two distinct points is smaller than the box.
pub proof fn lemma_quadrant_shrinks(b: Aabb, p: Vec2, q: Vec2, k: int)
    requires
        bounds_ok(b),
        spec_contains(b, p),
        spec_contains(b, q),
        p != q,
        0 <= k < 4,
    ensures
        0 <= extent(quadrant(b, k)) < extent(b),
{
}

/// Cell `p` is split and `x` is one of its four children.
pub open spec fn owns(nodes: Seq<Node>, p: int, x: int) -> bool {
    &&& nodes[p].children is Some
    &&& nodes[p].children->Some_0 <= x <= nodes[p].children->Some_0 + 3
}

/// Some cell has `x` among its children.
pub open spec fn has_parent(nodes: Seq<Node>, x: int) -> bool {
    exists|p: int| 0 <= p < nodes.len() && #[trigger] owns(nodes, p, x)
}

/// Every cell but the root is a child of exactly one cell.
pub open spec fn single_parents(nodes: Seq<Node>) -> bool {
    &&& forall|x: int| 1 <= x < nodes.len() ==> #[trigger] has_parent(nodes, x)
    &&& forall|p: int, q: int, x: int|
        0 <= p < nodes.len() && 0 <= q < nodes.len() && #[trigger] owns(nodes, p, x)
            && #[trigger] owns(nodes, q, x) ==> p == q
}

/// The number of split cells among the first `k` cells.
pub open spec fn split_count(nodes: Seq<Node>, k: int) -> int
    decreases k,
{
    if k <= 0 {
        0
    } else {
        split_count(nodes, k - 1) + if nodes[k - 1].children is Some {
            1int
        } else {
            0int
        }
    }
}

/// The count only sees which of the first `k` cells are split.
pub proof fn lemma_split_count_frame(a: Seq<Node>, b: Seq<Node>, k: int)
    requires
        0 <= k <= a.len(),
        k <= b.len(),
        forall|i: int| 0 <= i < k ==> (a[i].children is Some) == (b[i].children is Some),
    ensures
        split_count(a, k) == split_count(b, k),
    decreases k,
{
    if k > 0 {
        lemma_split_count_frame(a, b, k - 1);
    }
}

/// Splitting one leaf among the first `k` cells adds one to the count.
pub proof fn lemma_split_count_flip(a: Seq<Node>, b: Seq<Node>, k: int, cur: int)
    requires
        0 <= cur < k <= a.len(),
        k <= b.len(),
        a[cur].children is None,
        b[cur].children is Some,
        forall|i: int| 0 <= i < k && i != cur ==> (a[i].children is Some) == (b[i].children is Some),
    ensures
        split_count(b, k) == split_count(a, k) + 1,
    decreases k,
{
    if k - 1 == cur {
        lemma_split_count_frame(a, b, k - 1);
    } else {
        lemma_split_count_flip(a, b, k - 1, cur);
    }
}

/// No point lies in two distinct leaves.
pub open spec fn leaves_disjoint(nodes: Seq<Node>) -> bool {
    forall|i: int, j: int, p: Vec2|
        #![trigger spec_contains(nodes[i].bounds, p), spec_contains(nodes[j].bounds, p)]
        0 <= i < nodes.len() && 0 <= j < nodes.len() && nodes[i].children is None
            && nodes[j].children is None && spec_contains(nodes[i].bounds, p) && spec_contains(
            nodes[j].bounds,
            p,
        ) ==> i == j
}

/// Every position held by a cell is one of `ps`.
pub open spec fn held_witnessed(nodes: Seq<Node>, ps: Seq<Vec2>) -> bool {
    forall|i: int|
        0 <= i < nodes.len() && (#[trigger] nodes[i]).held is Some ==> ps.contains(
            nodes[i].held->Some_0,
        )
}

/// The box contains two distinct positions of `ps`.
pub open spec fn holds_two(b: Aabb, ps: Seq<Vec2>) -> bool {
    exists|u: Vec2, v: Vec2|
        #![trigger ps.contains(u), ps.contains(v)]
        ps.contains(u) && ps.contains(v) && u != v && spec_contains(b, u) && spec_contains(b, v)
}

/// Every split cell contains two distinct positions of `ps`.
pub open spec fn splits_needed(nodes: Seq<Node>, ps: Seq<Vec2>) -> bool {
    forall|i: int|
        0 <= i < nodes.len() && (#[trigger] nodes[i]).children is Some ==> holds_two(
            nodes[i].bounds,
            ps,
        )
}

/// Both properties survive one more position.
pub proof fn lemma_witnesses_grow(nodes: Seq<Node>, ps: Seq<Vec2>, x: Vec2)
    requires
        held_witnessed(nodes, ps),
        splits_needed(nodes, ps),
    ensures
        held_witnessed(nodes, ps.push(x)),
        splits_needed(nodes, ps.push(x)),
{
    let qs = ps.push(x);
    assert forall|u: Vec2| ps.contains(u) implies qs.contains(u) by {
        let k = choose|k: int| 0 <= k < ps.len() && ps[k] == u;
        assert(qs[k] == u);
    }
    assert forall|i: int|
        0 <= i < nodes.len() && (#[trigger] nodes[i]).children is Some implies holds_two(
        nodes[i].bounds, qs) by {
        let (u, v) = choose|u: Vec2, v: Vec2|
            #![trigger ps.contains(u), ps.contains(v)]
            ps.contains(u) && ps.contains(v) && u != v && spec_contains(nodes[i].bounds, u)
                && spec_contains(nodes[i].bounds, v);
        assert(qs.contains(u) && qs.contains(v));
    }
}

/// A well-formed arena: every cell's box is sound, held positions lie in their
/// cell, and an inner cell holds nothing and has its four quadrants as children,
/// stored after it.
pub open spec fn node_ok(nodes: Seq<Node>, i: int) -> bool {
    let nd = nodes[i];
    &&& bounds_ok(nd.bounds)
    &&& nd.held is Some ==> spec_contains(nd.bounds, nd.held->Some_0)
    &&& nd.children is Some ==> {
        let c = nd.children->Some_0 as int;
        &&& i < c
        &&& c + 3 < nodes.len()
        &&& nd.held is None
        &&& forall|k: int| 0 <= k < 4 ==> (#[trigger] nodes[c + k]).bounds == quadrant(nd.bounds, k)
    }
}

/// Quadtree: a flat arena of cells, the root at index 0, together with the
/// entries inserted so far and, for each entry, the index of the leaf that holds it.
#[derive(Debug)]
pub struct QuadTree {
    nodes: Vec<Node>,
    entries: Vec<QuadEntry>,
    leaf_of: Vec<usize>,
    subdivisions: usize,
}

impl QuadTree {
    pub closed spec fn spec_nodes(&self) -> Seq<Node> {
        self.nodes@
    }

    pub closed spec fn spec_entries(&self) -> Seq<QuadEntry> {
        self.entries@
    }

    pub closed spec fn spec_leaf_of(&self) -> Seq<usize> {
        self.leaf_of@
    }

    pub closed spec fn spec_subdivisions(&self) -> nat {
        self.subdivisions as nat
    }

    pub open spec fn spec_root(&self) -> Aabb {
        self.spec_nodes()[0].bounds
    }

    /// Entry `k` lives in leaf `leaf_of[k]`, which holds its position.
    pub open spec fn entry_placed(&self, k: int) -> bool {
        let leaf = self.spec_leaf_of()[k] as int;
        &&& 0 <= leaf < self.spec_nodes().len()
        &&& self.spec_nodes()[leaf].children is None
        &&& self.spec_nodes()[leaf].held == Some(self.spec_entries()[k].position)
    }

    /// The positions of the entries, in insertion order.
    pub open spec fn positions(&self) -> Seq<Vec2> {
        self.spec_entries().map_values(|e: QuadEntry| e.position)
    }

    /// A well-formed tree: its arena is well shaped, every held position belongs
    /// to an entry, and every split cell contains two distinct entry positions.
    pub open spec fn wf(&self) -> bool {
        &&& self.shape_ok()
        &&& held_witnessed(self.spec_nodes(), self.positions())
        &&& splits_needed(self.spec_nodes(), self.positions())
    }

    /// The arena is well shaped, its leaves do not overlap, each entry lies in a
    /// leaf holding its position, and the root contains every entry.
    pub open spec fn shape_ok(&self) -> bool {
        &&& self.spec_nodes().len() >= 1
        &&& self.spec_nodes().len() == 1 + 4 * self.spec_subdivisions()
        &&& forall|i: int| 0 <= i < self.spec_nodes().len() ==> node_ok(self.spec_nodes(), i)
        &&& leaves_disjoint(self.spec_nodes())
        &&& single_parents(self.spec_nodes())
        &&& self.spec_subdivisions() == split_count(self.spec_nodes(), self.spec_nodes().len() as int)
        &&& self.spec_leaf_of().len() == self.spec_entries().len()
        &&& forall|k: int| 0 <= k < self.spec_entries().len() ==> #[trigger] self.entry_placed(k)
        &&& forall|k: int|
            0 <= k < self.spec_entries().len() ==> spec_contains(
                self.spec_root(),
                #[trigger] self.spec_entries()[k].position,
            )
    }

    /// Splits leaf `cur`, which holds the position `q`, into its four quadrants;
    /// the entries it held move to the quadrant that claims `q`.
    fn subdivide(&mut self, cur: usize, q: Vec2, Ghost(p): Ghost<Vec2>, Ghost(ps): Ghost<Seq<Vec2>>)
        requires
            old(self).shape_ok(),
            held_witnessed(old(self).spec_nodes(), ps),
            splits_needed(old(self).spec_nodes(), ps),
            ps.contains(p),
            p != q,
            cur < old(self).spec_nodes().len(),
            spec_contains(old(self).spec_nodes()[cur as int].bounds, p),
            old(self).spec_nodes()[cur as int].children is None,
            old(self).spec_nodes()[cur as int].held == Some(q),
        ensures
            final(self).shape_ok(),
            held_witnessed(final(self).spec_nodes(), ps),
            splits_needed(final(self).spec_nodes(), ps),
            final(self).spec_entries() == old(self).spec_entries(),
            final(self).spec_subdivisions() == old(self).spec_subdivisions() + 1,
            final(self).spec_nodes().len() == old(self).spec_nodes().len() + 4,
            final(self).spec_nodes()[cur as int].children == Some(
                old(self).spec_nodes().len() as usize,
            ),
            forall|i: int|
                0 <= i < old(self).spec_nodes().len()
                    ==> (#[trigger] final(self).spec_nodes()[i]).bounds
                    == old(self).spec_nodes()[i].bounds,
            forall|k: int|
                0 <= k < 4
                    ==> (#[trigger] final(self).spec_nodes()[old(self).spec_nodes().len() + k]).children
                    is None,
    {
        let node = self.nodes[cur];
        assert(node_ok(self.nodes@, cur as int));
        let c = self.nodes.len();
        let qk = quadrant_index(&node.bounds, &q);
        proof {
            lemma_quadrant_of_contains(node.bounds, q);
        }
        let ghost before = self.nodes@;
        for k in 0..4
            invariant
                c == before.len(),
                before == old(self).spec_nodes(),
                self.subdivisions == old(self).spec_subdivisions(),
                self.entries@ == old(self).spec_entries(),
                self.leaf_of@ == old(self).spec_leaf_of(),
                self.nodes@.len() == c + k,
                bounds_ok(node.bounds),
                qk < 4,
                qk == quadrant_of(node.bounds, q),
                spec_contains(quadrant(node.bounds, qk as int), q),
                forall|i: int| 0 <= i < c ==> self.nodes@[i] == before[i],
                forall|j: int|
                    0 <= j < k ==> #[trigger] self.nodes@[c + j] == (Node {
                        bounds: quadrant(node.bounds, j),
                        children: None,
                        held: if j == qk {
                            Some(q)
                        } else {
                            None
                        },
                    }),
        {
            let held = if k == qk {
                Some(q)
            } else {
                None
            };
            let child = Node { bounds: quadrant_exec(&node.bounds, k), children: None, held };
            self.nodes.push(child);
        }
        let total = self.nodes.len();
        assert(total == c + 4);
        assert(self.subdivisions as int * 4 + 1 == c);
        self.nodes.set(cur, Node { bounds: node.bounds, children: Some(c), held: None });
        self.subdivisions = self.subdivisions + 1;
        let target = c + qk;
        let ghost links = self.leaf_of@;
        let ghost split_nodes = self.nodes@;
        let n = self.leaf_of.len();
        for e in 0..n
            invariant
                n == self.leaf_of@.len(),
                links.len() == n,
                self.nodes@ == split_nodes,
                self.entries@ == old(self).spec_entries(),
                self.subdivisions == old(self).spec_subdivisions() + 1,
                target == c + qk,
                forall|j: int|
                    0 <= j < e ==> #[trigger] self.leaf_of@[j] == if links[j] == cur {
                        target
                    } else {
                        links[j]
                    },
                forall|j: int| e <= j < n ==> #[trigger] self.leaf_of@[j] == links[j],
        {
            if self.leaf_of[e] == cur {
                self.leaf_of.set(e, target);
            }
        }
        assert(self.leaf_of@ =~= Seq::new(
            n as nat,
            |j: int|
                if links[j] == cur {
                    target
                } else {
                    links[j]
                },
        ));
        let ghost nodes = self.nodes@;
        assert forall|j: int| 0 <= j < c implies (#[trigger] nodes[j]).bounds == before[j].bounds by {
            if j != cur {
                assert(nodes[j] == before[j]);
            }
        }
        assert forall|i: int| 0 <= i < nodes.len() implies node_ok(nodes, i) by {
            if i < c && i != cur {
                assert(node_ok(before, i));
                let nd = before[i];
                if nd.children is Some {
                    let cc = nd.children->Some_0 as int;
                    assert forall|k: int| 0 <= k < 4 implies (#[trigger] nodes[cc + k]).bounds
                        == quadrant(nd.bounds, k) by {
                        assert(before[cc + k].bounds == quadrant(nd.bounds, k));
                    }
                }
            } else if i >= c {
                assert(nodes[c + (i - c)] == nodes[i]);
            }
        }
        assert forall|i: int, j: int, x: Vec2|
            0 <= i < nodes.len() && 0 <= j < nodes.len() && nodes[i].children is None
                && nodes[j].children is None && #[trigger] spec_contains(nodes[i].bounds, x)
                && #[trigger] spec_contains(nodes[j].bounds, x) implies i == j by {
            if i >= c {
                assert(nodes[c + (i - c)] == nodes[i]);
            }
            if j >= c {
                assert(nodes[c + (j - c)] == nodes[j]);
            }
            if i < c && j >= c {
                assert(spec_contains(before[cur as int].bounds, x));
                assert(nodes[i] == before[i]);
            } else if j < c && i >= c {
                assert(spec_contains(before[cur as int].bounds, x));
                assert(nodes[j] == before[j]);
            } else if i < c && j < c {
                assert(nodes[i] == before[i]);
                assert(nodes[j] == before[j]);
            }
        }
        assert forall|k: int| 0 <= k < self.entries@.len() implies #[trigger] self.entry_placed(
            k,
        ) by {
            assert(old(self).entry_placed(k));
            if links[k] == cur {
                assert(nodes[c + qk] == nodes[target as int]);
            }
        }
        assert(self.spec_root() == old(self).spec_root());
        assert(nodes.len() == c + 4);
        assert(split_count(nodes, c + 4) == split_count(nodes, c as int)) by {
            assert(nodes[c + 0] == nodes[c as int]);
            assert(nodes[c + 1] == nodes[c + 1]);
            assert(nodes[c + 2] == nodes[c + 2]);
            assert(nodes[c + 3] == nodes[c + 3]);
            assert(split_count(nodes, c + 1) == split_count(nodes, c as int));
            assert(split_count(nodes, c + 2) == split_count(nodes, c + 1));
            assert(split_count(nodes, c + 3) == split_count(nodes, c + 2));
            assert(split_count(nodes, c + 4) == split_count(nodes, c + 3));
        }
        assert forall|i: int| 0 <= i < c && i != cur implies (before[i].children is Some) == (
        nodes[i].children is Some) by {
            assert(nodes[i] == before[i]);
        }
        proof {
            lemma_split_count_flip(before, nodes, c as int, cur as int);
        }
        assert forall|x: int| 1 <= x < nodes.len() implies #[trigger] has_parent(nodes, x) by {
            if x >= c {
                assert(owns(nodes, cur as int, x));
            } else {
                assert(has_parent(before, x));
                let pp = choose|pp: int| 0 <= pp < before.len() && #[trigger] owns(before, pp, x);
                assert(pp != cur);
                assert(nodes[pp] == before[pp]);
                assert(owns(nodes, pp, x));
            }
        }
        assert forall|a: int, b: int, x: int|
            0 <= a < nodes.len() && 0 <= b < nodes.len() && #[trigger] owns(nodes, a, x)
                && #[trigger] owns(nodes, b, x) implies a == b by {
            if a >= c {
                assert(nodes[c + (a - c)] == nodes[a]);
            }
            if b >= c {
                assert(nodes[c + (b - c)] == nodes[b]);
            }
            if a != cur && a < c {
                assert(nodes[a] == before[a]);
                assert(node_ok(before, a));
            }
            if b != cur && b < c {
                assert(nodes[b] == before[b]);
                assert(node_ok(before, b));
            }
            if a != cur && b != cur {
                assert(owns(before, a, x));
                assert(owns(before, b, x));
            }
        }
        assert(ps.contains(q)) by {
            assert(old(self).spec_nodes()[cur as int].held is Some);
        }
        assert forall|i: int|
            0 <= i < nodes.len() && (#[trigger] nodes[i]).held is Some implies ps.contains(
            nodes[i].held->Some_0) by {
            if i < c && i != cur {
                assert(nodes[i] == before[i]);
                assert(before[i].held is Some);
            } else if i >= c {
                assert(nodes[c + (i - c)] == nodes[i]);
            }
        }
        assert forall|i: int|
            0 <= i < nodes.len() && (#[trigger] nodes[i]).children is Some implies holds_two(
            nodes[i].bounds, ps) by {
            if i == cur {
                assert(spec_contains(node.bounds, q));
                assert(ps.contains(q) && ps.contains(p) && q != p);
                assert(nodes[i].bounds == node.bounds);
            } else if i < c {
                assert(nodes[i] == before[i]);
                assert(before[i].children is Some);
                assert(holds_two(before[i].bounds, ps));
            } else {
                assert(nodes[c + (i - c)] == nodes[i]);
            }
        }
    }

    /// Adds an entry: descends to the leaf that claims its position, then either
    /// stores it there (an empty leaf, or one holding exactly the same position) or
    /// splits the leaf and goes on in the quadrant that claims the position.
    pub fn insert(&mut self, entry: QuadEntry)
        requires
            old(self).wf(),
            spec_contains(old(self).spec_root(), entry.position),
        ensures
            final(self).wf(),
            final(self).spec_entries() == old(self).spec_entries().push(entry),
            final(self).spec_root() == old(self).spec_root(),
    {
        let pos = entry.position;
        let mut cur: usize = 0;
        while self.nodes[cur].children.is_some()
            invariant
                self.wf(),
                cur < self.nodes@.len(),
                spec_contains(self.nodes@[cur as int].bounds, pos),
                self.entries@ == old(self).spec_entries(),
                self.spec_root() == old(self).spec_root(),
            decreases self.nodes@.len() - cur,
        {
            let node = self.nodes[cur];
            let len = self.nodes.len();
            assert(node_ok(self.nodes@, cur as int));
            let c = node.children.unwrap();
            assert(c + 3 < len);
            let k = quadrant_index(&node.bounds, &pos);
            proof {
                lemma_quadrant_of_contains(node.bounds, pos);
                assert(self.nodes@[c + k].bounds == quadrant(node.bounds, k as int));
            }
            cur = c + k;
        }
        let ghost ps = self.positions().push(pos);
        proof {
            lemma_witnesses_grow(self.spec_nodes(), self.positions(), pos);
        }
        loop
            invariant
                self.shape_ok(),
                held_witnessed(self.spec_nodes(), ps),
                splits_needed(self.spec_nodes(), ps),
                ps == old(self).positions().push(pos),
                cur < self.nodes@.len(),
                self.nodes@[cur as int].children is None,
                spec_contains(self.nodes@[cur as int].bounds, pos),
                self.entries@ == old(self).spec_entries(),
                self.spec_root() == old(self).spec_root(),
            ensures
                self.shape_ok(),
                held_witnessed(self.spec_nodes(), ps),
                splits_needed(self.spec_nodes(), ps),
                cur < self.nodes@.len(),
                self.nodes@[cur as int].children is None,
                self.nodes@[cur as int].held == Some(pos),
                self.entries@ == old(self).spec_entries(),
                self.spec_root() == old(self).spec_root(),
            decreases extent(self.nodes@[cur as int].bounds),
        {
            let node = self.nodes[cur];
            assert(node_ok(self.nodes@, cur as int));
            match node.held {
                None => {
                    let ghost prev = *self;
                    let ghost before = self.nodes@;
                    self.nodes.set(cur, Node { held: Some(pos), ..node });
                    proof {
                        lemma_split_count_frame(before, self.nodes@, before.len() as int);
                        assert forall|i: int| 0 <= i < before.len() implies #[trigger] self.nodes@[i].children
                            == before[i].children by {}
                        assert forall|x: int| 1 <= x < before.len() implies #[trigger] has_parent(
                            self.nodes@,
                            x,
                        ) by {
                            assert(has_parent(before, x));
                            let pp = choose|pp: int| 0 <= pp < before.len() && #[trigger] owns(before, pp, x);
                            assert(self.nodes@[pp].children == before[pp].children);
                            assert(owns(self.nodes@, pp, x));
                        }
                        assert forall|a: int, b: int, x: int|
                            0 <= a < before.len() && 0 <= b < before.len() && #[trigger] owns(self.nodes@, a, x)
                                && #[trigger] owns(self.nodes@, b, x) implies a == b by {
                            assert(self.nodes@[a].children == before[a].children);
                            assert(self.nodes@[b].children == before[b].children);
                            assert(owns(before, a, x));
                            assert(owns(before, b, x));
                        }
                    }
                    assert forall|i: int| 0 <= i < self.nodes@.len() implies node_ok(
                        self.nodes@,
                        i,
                    ) by {
                        assert(node_ok(before, i));
                        let nd = before[i];
                        if nd.children is Some {
                            let cc = nd.children->Some_0 as int;
                            assert forall|k: int| 0 <= k < 4 implies (#[trigger] self.nodes@[cc
                                + k]).bounds == quadrant(nd.bounds, k) by {
                                assert(before[cc + k].bounds == quadrant(nd.bounds, k));
                            }
                        }
                    }
                    assert forall|k: int| 0 <= k < self.entries@.len() implies #[trigger] self.entry_placed(k) by {
                        assert(prev.entry_placed(k));
                    }
                    assert(ps.contains(pos)) by {
                        assert(ps[ps.len() - 1] == pos);
                    }
                    assert forall|i: int, j: int, x: Vec2|
                        0 <= i < self.nodes@.len() && 0 <= j < self.nodes@.len()
                            && self.nodes@[i].children is None && self.nodes@[j].children is None
                            && #[trigger] spec_contains(self.nodes@[i].bounds, x)
                            && #[trigger] spec_contains(self.nodes@[j].bounds, x) implies i == j by {
                        assert(spec_contains(before[i].bounds, x));
                        assert(spec_contains(before[j].bounds, x));
                    }
                    assert forall|i: int|
                        0 <= i < self.nodes@.len() && (#[trigger] self.nodes@[i]).held is Some implies ps.contains(
                        self.nodes@[i].held->Some_0) by {
                        if i != cur {
                            assert(before[i].held is Some);
                        }
                    }
                    assert forall|i: int|
                        0 <= i < self.nodes@.len() && (#[trigger] self.nodes@[i]).children is Some implies holds_two(
                        self.nodes@[i].bounds, ps) by {
                        assert(before[i].children is Some);
                    }
                    break ;
                },
                Some(q) => {
                    if q == pos {
                        break ;
                    }
                    let c = self.nodes.len();
                    assert(ps.contains(pos)) by {
                        assert(ps[ps.len() - 1] == pos);
                    }
                    self.subdivide(cur, q, Ghost(pos), Ghost(ps));
                    let total = self.nodes.len();
                    assert(total == c + 4);
                    let k = quadrant_index(&node.bounds, &pos);
                    proof {
                        lemma_quadrant_of_contains(node.bounds, pos);
                        lemma_quadrant_shrinks(node.bounds, pos, q, k as int);
                        assert(node_ok(self.nodes@, cur as int));
                        assert(self.nodes@[c + k].bounds == quadrant(node.bounds, k as int));
                    }
                    cur = c + k;
                },
            }
        }
        let ghost before = *self;
        self.entries.push(entry);
        self.leaf_of.push(cur);
        assert forall|k: int| 0 <= k < self.entries@.len() implies #[trigger] self.entry_placed(k) by {
            if k < before.spec_entries().len() {
                assert(before.entry_placed(k));
            }
        }
        assert(self.positions() =~= ps);
    }

    /// The tree of a snapshot before any insertion: a single empty leaf whose box
    /// covers the bounding box of every position (one step wider on the max side,
    /// as boxes are half-open). With no entries the root is an empty box at the
    /// origin.
    pub fn new(entries: &Vec<QuadEntry>) -> (t: QuadTree)
        requires
            forall|k: int| 0 <= k < entries@.len() ==> (#[trigger] entries@[k]).position.in_world(),
        ensures
            t.wf(),
            t.spec_nodes().len() == 1,
            t.spec_nodes()[0].children is None,
            t.spec_nodes()[0].held is None,
            t.spec_entries().len() == 0,
            t.spec_subdivisions() == 0,
            bounding_root(entries@, t.spec_root()),
    {
        let n = entries.len();
        let mut root = Aabb { min: Vec2::zero(), max: Vec2::zero() };
        if n > 0 {
            let first = entries[0].position;
            let mut lo = first;
            let mut hi = first;
            let mut i: usize = 1;
            while i < n
                invariant
                    1 <= i <= n,
                    n == entries@.len(),
                    forall|k: int| 0 <= k < entries@.len() ==> (#[trigger] entries@[k]).position.in_world(),
                    lo.in_world(),
                    hi.in_world(),
                    forall|k: int| 0 <= k < i ==> lo.x <= (#[trigger] entries@[k]).position.x <= hi.x
                        && lo.y <= entries@[k].position.y <= hi.y,
                    exists|k: int| 0 <= k < i && lo.x == (#[trigger] entries@[k]).position.x,
                    exists|k: int| 0 <= k < i && lo.y == (#[trigger] entries@[k]).position.y,
                    exists|k: int| 0 <= k < i && hi.x == (#[trigger] entries@[k]).position.x,
                    exists|k: int| 0 <= k < i && hi.y == (#[trigger] entries@[k]).position.y,
                decreases n - i,
            {
                let p = entries[i].position;
                assert(entries@[i as int].position.in_world());
                if p.x < lo.x {
                    lo.x = p.x;
                }
                if p.y < lo.y {
                    lo.y = p.y;
                }
                if p.x > hi.x {
                    hi.x = p.x;
                }
                if p.y > hi.y {
                    hi.y = p.y;
                }
                i = i + 1;
            }
            root = Aabb { min: lo, max: Vec2 { x: hi.x + 1, y: hi.y + 1 } };
        }
        let t = QuadTree {
            nodes: vec![Node { bounds: root, children: None, held: None }],
            entries: Vec::new(),
            leaf_of: Vec::new(),
            subdivisions: 0,
        };
        assert(node_ok(t.nodes@, 0));
        assert(t.nodes@[0].children is None);
        assert(split_count(t.nodes@, 0) == 0);
        assert(split_count(t.nodes@, 1) == 0);
        assert(single_parents(t.nodes@));
        t
    }

    /// Builds the tree of a snapshot: the root from `new`, then every entry
    /// inserted in order.
    pub fn build(entries: &Vec<QuadEntry>) -> (t: QuadTree)
        requires
            forall|k: int| 0 <= k < entries@.len() ==> (#[trigger] entries@[k]).position.in_world(),
        ensures
            t.wf(),
            t.spec_entries() == entries@,
            bounding_root(entries@, t.spec_root()),
    {
        let mut t = QuadTree::new(entries);
        let ghost root = t.spec_root();
        let n = entries.len();
        for i in 0..n
            invariant
                n == entries@.len(),
                forall|k: int| 0 <= k < entries@.len() ==> (#[trigger] entries@[k]).position.in_world(),
                bounding_root(entries@, root),
                t.wf(),
                t.spec_root() == root,
                t.spec_entries() == entries@.subrange(0, i as int),
        {
            let e = entries[i];
            assert(spec_contains(root, entries@[i as int].position));
            t.insert(e);
            assert(t.spec_entries() =~= entries@.subrange(0, i + 1));
        }
        assert(t.spec_entries() =~= entries@);
        t
    }

    /// The number of cells in the arena.
    pub fn node_count(&self) -> (n: usize)
        ensures
            n == self.spec_nodes().len(),
    {
        self.nodes.len()
    }

    /// The number of splits performed while building.
    pub fn subdivisions(&self) -> (n: usize)
        ensures
            n == self.spec_subdivisions(),
    {
        self.subdivisions
    }

    /// The number of entries inserted.
    pub fn entry_count(&self) -> (n: usize)
        ensures
            n == self.spec_entries().len(),
    {
        self.entries.len()
    }

    /// The box of the root cell.
    pub fn root_bounds(&self) -> (b: Aabb)
        requires
            self.wf(),
        ensures
            b == self.spec_root(),
    {
        self.nodes[0].bounds
    }

    /// The cell at index `i` of the arena.
    pub fn node(&self, i: usize) -> (nd: Node)
        requires
            i < self.spec_nodes().len(),
        ensures
            nd == self.spec_nodes()[i as int],
    {
        self.nodes[i]
    }

    /// The `k`-th inserted entry.
    pub fn entry(&self, k: usize) -> (e: QuadEntry)
        requires
            k < self.spec_entries().len(),
        ensures
            e == self.spec_entries()[k as int],
    {
        self.entries[k]
    }

    /// The index of the leaf that holds the `k`-th inserted entry.
    pub fn leaf_of(&self, k: usize) -> (i: usize)
        requires
            k < self.spec_leaf_of().len(),
        ensures
            i == self.spec_leaf_of()[k as int],
    {
        self.leaf_of[k]
    }

    /// The boxes of every cell, in arena order, for a debug overlay.
    pub fn render(&self) -> (boxes: Vec<Aabb>)
        ensures
            boxes@.len() == self.spec_nodes().len(),
            forall|i: int| 0 <= i < boxes@.len() ==> #[trigger] boxes@[i] == self.spec_nodes()[i].bounds,
    {
        let mut boxes: Vec<Aabb> = Vec::new();
        for i in 0..self.nodes.len()
            invariant
                boxes@.len() == i,
                forall|j: int| 0 <= j < i ==> #[trigger] boxes@[j] == self.nodes@[j].bounds,
        {
            boxes.push(self.nodes[i].bounds);
        }
        boxes
    }
}

/// What the tree records of a body.
pub open spec fn entry_of(p: Particle) -> QuadEntry {
    QuadEntry { id: p.id, position: p.position, mass: p.mass.0 }
}

/// Rebuilds the tree from the current bodies. With no bodies there is nothing to
/// build and the result is `None`.
pub fn quadtree_system(particles: &Vec<Particle>) -> (t: Option<QuadTree>)
    requires
        all_wf(particles@),
    ensures
        particles@.len() == 0 <==> t is None,
        t is Some ==> {
            let tree = t->Some_0;
            &&& tree.wf()
            &&& tree.spec_entries() == particles@.map_values(|p: Particle| entry_of(p))
        },
{
    if particles.len() == 0 {
        return None;
    }
    let mut entries: Vec<QuadEntry> = Vec::new();
    for i in 0..particles.len()
        invariant
            all_wf(particles@),
            entries@ == particles@.subrange(0, i as int).map_values(|p: Particle| entry_of(p)),
    {
        let p = particles[i];
        assert(particles@[i as int].wf());
        entries.push(QuadEntry { id: p.id, position: p.position, mass: p.mass.0 });
        assert(entries@ =~= particles@.subrange(0, i + 1).map_values(|p: Particle| entry_of(p)));
    }
    assert(entries@ =~= particles@.map_values(|p: Particle| entry_of(p)));
    assert forall|k: int| 0 <= k < entries@.len() implies (#[trigger] entries@[k]).position.in_world() by {
        assert(particles@[k].wf());
    }
    Some(QuadTree::build(&entries))
}

/// Soundness of a built tree: every leaf that holds an entry contains its
/// position, the root contains every inserted position, the arena has one root
/// plus four cells per split cell, the root is nobody's child, and every other
/// cell is the child of exactly one cell.
pub proof fn lemma_quadtree_sound(t: &QuadTree)
    requires
        t.wf(),
    ensures
        forall|k: int|
            0 <= k < t.spec_entries().len() ==> {
                let leaf = #[trigger] t.spec_leaf_of()[k] as int;
                &&& 0 <= leaf < t.spec_nodes().len()
                &&& t.spec_nodes()[leaf].children is None
                &&& spec_contains(t.spec_nodes()[leaf].bounds, t.spec_entries()[k].position)
            },
        forall|k: int|
            0 <= k < t.spec_entries().len() ==> spec_contains(
                t.spec_root(),
                #[trigger] t.spec_entries()[k].position,
            ),
        t.spec_nodes().len() == 1 + 4 * t.spec_subdivisions(),
        t.spec_subdivisions() == split_count(t.spec_nodes(), t.spec_nodes().len() as int),
        forall|p: int| 0 <= p < t.spec_nodes().len() ==> !#[trigger] owns(t.spec_nodes(), p, 0),
        forall|x: int| 1 <= x < t.spec_nodes().len() ==> #[trigger] has_parent(t.spec_nodes(), x),
        forall|p: int, q: int, x: int|
            0 <= p < t.spec_nodes().len() && 0 <= q < t.spec_nodes().len() && #[trigger] owns(
                t.spec_nodes(),
                p,
                x,
            ) && #[trigger] owns(t.spec_nodes(), q, x) ==> p == q,
{
    assert forall|p: int| 0 <= p < t.spec_nodes().len() implies !#[trigger] owns(
        t.spec_nodes(),
        p,
        0,
    ) by {
        assert(node_ok(t.spec_nodes(), p));
    }
    assert forall|k: int| 0 <= k < t.spec_entries().len() implies {
        let leaf = #[trigger] t.spec_leaf_of()[k] as int;
        &&& 0 <= leaf < t.spec_nodes().len()
        &&& t.spec_nodes()[leaf].children is None
        &&& spec_contains(t.spec_nodes()[leaf].bounds, t.spec_entries()[k].position)
    } by {
        assert(t.entry_placed(k));
        assert(node_ok(t.spec_nodes(), t.spec_leaf_of()[k] as int));
    }
}

/// Splits are the ones needed to separate the entries: every split cell contains
/// two entries at distinct positions, entries at distinct positions lie in
/// distinct leaves, and entries at one same position share one leaf.
pub proof fn lemma_quadtree_splits_needed(t: &QuadTree)
    requires
        t.wf(),
    ensures
        forall|i: int|
            0 <= i < t.spec_nodes().len() && (#[trigger] t.spec_nodes()[i]).children is Some
                ==> exists|a: int, b: int|
                0 <= a < t.spec_entries().len() && 0 <= b < t.spec_entries().len()
                    && (#[trigger] t.spec_entries()[a]).position != (#[trigger] t.spec_entries()[b]).position
                    && spec_contains(t.spec_nodes()[i].bounds, t.spec_entries()[a].position)
                    && spec_contains(t.spec_nodes()[i].bounds, t.spec_entries()[b].position),
        forall|a: int, b: int|
            0 <= a < t.spec_entries().len() && 0 <= b < t.spec_entries().len()
                && (#[trigger] t.spec_entries()[a]).position != (#[trigger] t.spec_entries()[b]).position
                ==> t.spec_leaf_of()[a] != t.spec_leaf_of()[b],
        forall|a: int, b: int|
            0 <= a < t.spec_entries().len() && 0 <= b < t.spec_entries().len()
                && (#[trigger] t.spec_entries()[a]).position == (#[trigger] t.spec_entries()[b]).position
                ==> t.spec_leaf_of()[a] == t.spec_leaf_of()[b],
{
    let es = t.spec_entries();
    let ps = t.positions();
    assert forall|i: int|
        0 <= i < t.spec_nodes().len() && (#[trigger] t.spec_nodes()[i]).children is Some implies exists|a: int, b: int|
        0 <= a < es.len() && 0 <= b < es.len() && (#[trigger] es[a]).position != (#[trigger] es[b]).position
            && spec_contains(t.spec_nodes()[i].bounds, es[a].position)
            && spec_contains(t.spec_nodes()[i].bounds, es[b].position) by {
        let bx = t.spec_nodes()[i].bounds;
        assert(holds_two(bx, ps));
        let (u, v) = choose|u: Vec2, v: Vec2|
            #![trigger ps.contains(u), ps.contains(v)]
            ps.contains(u) && ps.contains(v) && u != v && spec_contains(bx, u) && spec_contains(bx, v);
        let a = choose|a: int| 0 <= a < ps.len() && ps[a] == u;
        let b = choose|b: int| 0 <= b < ps.len() && ps[b] == v;
        assert(es[a].position == u && es[b].position == v);
    }
    assert forall|a: int, b: int|
        0 <= a < es.len() && 0 <= b < es.len() && (#[trigger] es[a]).position != (#[trigger] es[b]).position
            implies t.spec_leaf_of()[a] != t.spec_leaf_of()[b] by {
        assert(t.entry_placed(a));
        assert(t.entry_placed(b));
    }
    assert forall|a: int, b: int|
        0 <= a < es.len() && 0 <= b < es.len() && (#[trigger] es[a]).position == (#[trigger] es[b]).position
            implies t.spec_leaf_of()[a] == t.spec_leaf_of()[b] by {
        assert(t.entry_placed(a));
        assert(t.entry_placed(b));
        let la = t.spec_leaf_of()[a] as int;
        let lb = t.spec_leaf_of()[b] as int;
        assert(node_ok(t.spec_nodes(), la));
        assert(node_ok(t.spec_nodes(), lb));
        assert(spec_contains(t.spec_nodes()[la].bounds, es[a].position));
        assert(spec_contains(t.spec_nodes()[lb].bounds, es[a].position));
    }
}

impl QuadTree {
    fn outline_from(&self, i: usize, depth: usize, out: &mut Vec<OutlineRow>)
        requires
            self.shape_ok(),
            i < self.spec_nodes().len(),
            depth <= i,
        ensures
            final(out)@ == old(out)@ + outline(self.spec_nodes(), i as int, depth as int),
        decreases self.spec_nodes().len() - i,
    {
        let nd = self.nodes[i];
        assert(node_ok(self.nodes@, i as int));
        out.push(
            OutlineRow {
                node: i,
                depth,
                is_leaf: nd.children.is_none(),
                has_particle: nd.held.is_some(),
            },
        );
        if let Some(c) = nd.children {
            let len = self.nodes.len();
            assert(c + 3 < len);
            self.outline_from(c, depth + 1, out);
            self.outline_from(c + 1, depth + 1, out);
            self.outline_from(c + 2, depth + 1, out);
            self.outline_from(c + 3, depth + 1, out);
            let ghost nodes = self.nodes@;
            let ghost d = depth as int + 1;
            assert(out@ =~= old(out)@ + (seq![
                OutlineRow {
                    node: i,
                    depth,
                    is_leaf: nd.children.is_none(),
                    has_particle: nd.held.is_some(),
                },
            ] + outline(nodes, c as int, d) + outline(nodes, c + 1, d) + outline(nodes, c + 2, d)
                + outline(nodes, c + 3, d)));
        } else {
            assert(out@ =~= old(out)@ + outline(self.nodes@, i as int, depth as int));
        }
    }

    /// An outline of the whole tree, one row per cell in depth-first order from
    /// the root, for printing.
    pub fn visualize(&self) -> (rows: Vec<OutlineRow>)
        requires
            self.wf(),
        ensures
            rows@ == outline(self.spec_nodes(), 0, 0),
    {
        let mut rows: Vec<OutlineRow> = Vec::new();
        self.outline_from(0, 0, &mut rows);
        assert(rows@ =~= outline(self.spec_nodes(), 0, 0));
        rows
    }
}

} // verus!
