//! The adaptive bounding-volume tree.
//!
//! A node holds an enclosing box, content items (only at leaves) and zero or
//! two children whose boxes tile the node's box exactly. Insertion grows the
//! root until the new item's box fits, then descends, lazily splitting
//! overfull leaves. The overlap query returns exactly the stored items whose
//! boxes share a point with the filter box, deduplicated; this is proved from
//! a placement invariant: wherever an item's box meets a node's box, a leaf
//! below that node stores the item and covers the meeting point.

use crate::kd_tree_traits::{BoundingBoxTrait, HittableBoundingBoxTrait, KdTreeContent};
use crate::ray_box::{BoundingBox2d, BoundingBox3d, ConstrainedRay3d, HitBoxResult, MAX_GROW_DIAG_SQ};
use vstd::prelude::*;

verus! {

/// Whether two boxes share a point.
pub open spec fn boxes_meet<B: BoundingBoxTrait>(a: B, b: B) -> bool {
    exists|p: B::Pt| a.covers(p) && b.covers(p)
}

/// Whether every point of `a` is a point of `b`.
pub open spec fn box_within<B: BoundingBoxTrait>(a: B, b: B) -> bool {
    forall|p: B::Pt| a.covers(p) ==> b.covers(p)
}

/// Whether growing `b` step by step reaches a box that contains `target`
/// before the growth ceiling; insertion requires it, as spec'd: hitting the
/// ceiling is a fatal precondition violation.
pub open spec fn grows_to_fit<B: BoundingBoxTrait>(b: B, target: B) -> bool
    decreases b.grow_fuel(),
    via grows_to_fit_decreases::<B>
{
    if box_within(target, b) {
        true
    } else if b.can_extend() {
        grows_to_fit(b.spec_extend().1, target)
    } else {
        false
    }
}

#[via_fn]
proof fn grows_to_fit_decreases<B: BoundingBoxTrait>(b: B, target: B) {
    if !box_within(target, b) && b.can_extend() {
        b.lemma_extend_fuel();
    }
}

/// No two entries of the sequence are equal.
pub open spec fn no_dups<C>(s: Seq<C>) -> bool {
    forall|i: int, j: int| 0 <= i < j < s.len() ==> s[i] != s[j]
}

struct KdNode<B: BoundingBoxTrait, C: KdTreeContent<B>> {
    enclosure: B,
    content: Vec<C>,
    children: Vec<Self>,
}

/// The spatial index: an optional root node and a count of insertions.
pub struct KdTree<B: BoundingBoxTrait, C: KdTreeContent<B>> {
    root: Option<KdNode<B, C>>,
    size: usize,
}

impl<B: BoundingBoxTrait, C: KdTreeContent<B>> KdNode<B, C> {
    /// Every content item stored in the subtree.
    spec fn items(self) -> Set<C>
        decreases self,
    {
        let base = self.content@.to_set();
        if self.children.len() == 2 {
            base.union(self.children@[0].items()).union(self.children@[1].items())
        } else {
            base
        }
    }

    /// Whether some leaf of the subtree stores `c` and covers the point `p`.
    spec fn covered(self, c: C, p: B::Pt) -> bool
        decreases self,
    {
        if self.children.len() == 2 {
            self.children@[0].covered(c, p) || self.children@[1].covered(c, p)
        } else {
            self.content@.contains(c) && self.enclosure.covers(p)
        }
    }

    /// Structural and geometric well-formedness: a node is a leaf or has two
    /// children that tile its box and are strictly smaller by measure; every
    /// stored item has a valid box meeting the node's box. The children's
    /// boxes come from splitting the node's box, or the node wraps a grown
    /// root: its second child's box grows into the node's box with the first
    /// child's box as the exposed sibling. Either way the children overlap
    /// only on their shared boundary plane.
    spec fn wf(self) -> bool
        decreases self,
    {
        &&& self.enclosure.wf()
        &&& self.children.len() == 0 || self.children.len() == 2
        &&& forall|i: int|
            0 <= i < self.content@.len() ==> (#[trigger] self.content@[i]).spec_bounding_box().wf()
        &&& forall|i: int|
            0 <= i < self.content@.len() ==> boxes_meet(
                (#[trigger] self.content@[i]).spec_bounding_box(),
                self.enclosure,
            )
        &&& self.children.len() == 2 ==> {
            let c0 = self.children@[0];
            let c1 = self.children@[1];
            &&& self.content@.len() == 0
            &&& c0.wf()
            &&& c1.wf()
            &&& c0.enclosure.measure() < self.enclosure.measure()
            &&& c1.enclosure.measure() < self.enclosure.measure()
            &&& forall|p: B::Pt|
                self.enclosure.covers(p) <==> c0.enclosure.covers(p) || c1.enclosure.covers(p)
            &&& ((c0.enclosure, c1.enclosure) == self.enclosure.spec_partition() || (
            c1.enclosure.can_extend() && c1.enclosure.spec_extend() == (c0.enclosure,
            self.enclosure)))
        }
    }
}

/// A leaf that stores an item and covers a point lies within its enclosure.
proof fn lemma_covered_in_enclosure<B: BoundingBoxTrait, C: KdTreeContent<B>>(
    node: KdNode<B, C>,
    c: C,
    p: B::Pt,
)
    requires
        node.wf(),
        node.covered(c, p),
    ensures
        node.enclosure.covers(p),
    decreases node.enclosure.measure(),
{
    if node.children.len() == 2 {
        if node.children@[0].covered(c, p) {
            lemma_covered_in_enclosure(node.children@[0], c, p);
        } else {
            lemma_covered_in_enclosure(node.children@[1], c, p);
        }
    }
}

impl<B: BoundingBoxTrait, C: KdTreeContent<B>> KdTree<B, C> {
    /// The box the root encloses.
    pub closed spec fn root_enclosure(self) -> B {
        self.root->Some_0.enclosure
    }

    /// The set of stored contents.
    pub closed spec fn items(self) -> Set<C> {
        if self.root is Some {
            self.root->Some_0.items()
        } else {
            Set::empty()
        }
    }

    /// The number of insertions performed.
    pub closed spec fn spec_size(self) -> usize {
        self.size
    }

    /// The placement invariant at the root: wherever a stored item's box
    /// meets the root's box, some leaf stores the item and covers the point.
    spec fn placed(self) -> bool {
        forall|c: C, p: B::Pt|
            self.items().contains(c) && self.root_enclosure().covers(p)
                && c.spec_bounding_box().covers(p) ==> #[trigger] self.root->Some_0.covered(c, p)
    }

    /// Every stored item has a valid box contained in the root's box.
    spec fn all_contained(self) -> bool {
        forall|c: C| #[trigger]
            self.items().contains(c) ==> c.spec_bounding_box().wf() && box_within(
                c.spec_bounding_box(),
                self.root_enclosure(),
            )
    }

    /// The tree invariant.
    pub closed spec fn wf(self) -> bool {
        &&& self.root is Some
        &&& self.root->Some_0.wf()
        &&& self.placed()
        &&& self.all_contained()
    }

    fn new_node(enclosure: B) -> (n: KdNode<B, C>)
        ensures
            n.enclosure == enclosure,
            n.content@.len() == 0,
            n.children@.len() == 0,
            n.items() == Set::<C>::empty(),
    {
        let n = KdNode::<B, C> { enclosure, content: Vec::new(), children: Vec::new() };
        proof {
            assert(n.items() =~= Set::<C>::empty());
        }
        n
    }

    /// A fresh tree: one empty leaf enclosing the default box.
    pub fn new() -> (t: Self)
        ensures
            t.wf(),
            t.items() == Set::<C>::empty(),
            t.spec_size() == 0,
            t.root_enclosure() == B::spec_default_box(),
    {
        let t = KdTree { root: Some(Self::new_node(B::default_box())), size: 0 };
        t
    }

    /// The number of insertions performed so far.
    pub fn size(&self) -> (s: usize)
        ensures
            s == self.spec_size(),
    {
        self.size
    }
}


impl<B: BoundingBoxTrait, C: KdTreeContent<B>> KdTree<B, C> {
    /// Whether the vector already holds an equal content item.
    fn vec_contains(v: &Vec<C>, x: &C) -> (r: bool)
        ensures
            r == v@.contains(*x),
    {
        let mut i: usize = 0;
        while i < v.len()
            invariant
                i <= v@.len(),
                forall|k: int| 0 <= k < i ==> v@[k] != *x,
            decreases v@.len() - i,
        {
            if v[i].equals(x) {
                return true;
            }
            i += 1;
        }
        false
    }

    fn get_intersection_internal(node: &KdNode<B, C>, filter: &B, result: &mut Vec<C>)
        requires
            node.wf(),
            filter.wf(),
            no_dups(old(result)@),
        ensures
            no_dups(final(result)@),
            forall|c: C| old(result)@.contains(c) ==> final(result)@.contains(c),
            forall|c: C|
                final(result)@.contains(c) ==> old(result)@.contains(c) || (
                node.items().contains(c) && boxes_meet(c.spec_bounding_box(), *filter)),
            forall|c: C, p: B::Pt|
                filter.covers(p) && #[trigger] node.covered(c, p) && boxes_meet(
                    c.spec_bounding_box(),
                    *filter,
                ) ==> final(result)@.contains(c),
        decreases node.enclosure.measure(),
    {
        if !node.enclosure.intersects(filter) {
            proof {
                assert forall|c: C, p: B::Pt|
                    filter.covers(p) && #[trigger] node.covered(c, p) && boxes_meet(
                        c.spec_bounding_box(),
                        *filter,
                    ) implies result@.contains(c) by {
                    lemma_covered_in_enclosure(*node, c, p);
                    assert(node.enclosure.covers(p) && filter.covers(p));
                }
            }
            return ;
        }

        let mut i: usize = 0;
        while i < node.content.len()
            invariant
                node.wf(),
                filter.wf(),
                i <= node.content@.len(),
                no_dups(result@),
                forall|c: C| old(result)@.contains(c) ==> result@.contains(c),
                forall|c: C|
                    result@.contains(c) ==> old(result)@.contains(c) || (node.items().contains(c)
                        && boxes_meet(c.spec_bounding_box(), *filter)),
                forall|k: int|
                    0 <= k < i && boxes_meet(
                        (#[trigger] node.content@[k]).spec_bounding_box(),
                        *filter,
                    ) ==> result@.contains(node.content@[k]),
            decreases node.content@.len() - i,
        {
            let cbb = node.content[i].get_bounding_box();
            proof {
                if node.children@.len() != 2 {
                    assert(node.items().contains(node.content@[i as int])) by {
                        assert(node.content@.to_set().contains(node.content@[i as int]));
                    }
                } else {
                    assert(false);
                }
            }
            if cbb.intersects(filter) {
                if !Self::vec_contains(result, &node.content[i]) {
                    let ghost prev = result@;
                    result.push(node.content[i].duplicate());
                    proof {
                        assert(result@ == prev.push(node.content@[i as int]));
                        assert(result@[prev.len() as int] == node.content@[i as int]);
                        assert forall|c: C| prev.contains(c) implies result@.contains(c) by {
                            let k = choose|k: int| 0 <= k < prev.len() && prev[k] == c;
                            assert(result@[k] == c);
                        }
                        assert(no_dups(result@)) by {
                            assert(forall|k: int|
                                0 <= k < prev.len() ==> result@[k] == prev[k]);
                        }
                    }
                }
            }
            i += 1;
        }

        if node.children.len() == 2 {
            proof {
                assert(node.children@[0].enclosure.measure() < node.enclosure.measure());
            }
            Self::get_intersection_internal(&node.children[0], filter, result);
            Self::get_intersection_internal(&node.children[1], filter, result);
        }

        proof {
            assert forall|c: C, p: B::Pt|
                filter.covers(p) && #[trigger] node.covered(c, p) && boxes_meet(
                    c.spec_bounding_box(),
                    *filter,
                ) implies result@.contains(c) by {
                if node.children@.len() == 2 {
                    if node.children@[0].covered(c, p) {
                    } else {
                        assert(node.children@[1].covered(c, p));
                    }
                } else {
                    assert(node.content@.contains(c));
                    let k = choose|k: int| 0 <= k < node.content@.len() && node.content@[k] == c;
                    assert(boxes_meet(node.content@[k].spec_bounding_box(), *filter));
                }
            }
        }
    }

    /// The overlap query: every stored item whose box shares a point with
    /// `filter`, each exactly once.
    pub fn get_intersection(&self, filter: &B) -> (result: Vec<C>)
        requires
            self.wf(),
            filter.wf(),
        ensures
            no_dups(result@),
            forall|c: C|
                result@.contains(c) == (self.items().contains(c) && boxes_meet(
                    c.spec_bounding_box(),
                    *filter,
                )),
    {
        let mut result = Vec::new();

        if let Some(node) = &self.root {
            Self::get_intersection_internal(node, filter, &mut result);
        }

        proof {
            assert forall|c: C|
                self.items().contains(c) && boxes_meet(c.spec_bounding_box(), *filter)
                implies result@.contains(c) by {
                let q = choose|q: B::Pt| c.spec_bounding_box().covers(q) && filter.covers(q);
                assert(self.root_enclosure().covers(q));
                assert(self.root->Some_0.covered(c, q));
            }
        }
        result
    }
}


/// Sequence membership before and after a push.
proof fn lemma_push_contains<A>(s: Seq<A>, x: A)
    ensures
        forall|c: A| s.push(x).contains(c) == (s.contains(c) || c == x),
{
    assert forall|c: A| s.push(x).contains(c) == (s.contains(c) || c == x) by {
        if s.contains(c) {
            let k = choose|k: int| 0 <= k < s.len() && s[k] == c;
            assert(s.push(x)[k] == c);
        }
        if c == x {
            assert(s.push(x)[s.len() as int] == c);
        }
        if s.push(x).contains(c) {
            let k = choose|k: int| 0 <= k < s.push(x).len() && s.push(x)[k] == c;
            if k < s.len() {
                assert(s[k] == c);
            }
        }
    }
}

/// The stored items of a leaf are its contents.
proof fn lemma_leaf_items<B: BoundingBoxTrait, C: KdTreeContent<B>>(n: KdNode<B, C>)
    requires
        n.children@.len() != 2,
    ensures
        n.items() == n.content@.to_set(),
{
}

/// The stored items of an inner node are its contents and its children's items.
proof fn lemma_inner_items<B: BoundingBoxTrait, C: KdTreeContent<B>>(n: KdNode<B, C>)
    requires
        n.children@.len() == 2,
    ensures
        n.items() == n.content@.to_set().union(n.children@[0].items()).union(
            n.children@[1].items(),
        ),
{
}

impl<B: BoundingBoxTrait, C: KdTreeContent<B>> KdTree<B, C> {
    /// Tries to split a leaf: on success the leaf's box is partitioned and
    /// every stored item is redistributed into each half its box meets; a
    /// degenerate box is left unchanged.
    fn split_node(node: KdNode<B, C>) -> (r: KdNode<B, C>)
        requires
            node.wf(),
            node.children@.len() == 0,
        ensures
            r.wf(),
            r.enclosure == node.enclosure,
            r.children@.len() == 0 || r.children@.len() == 2,
            r.items() == node.items(),
            forall|c: C, p: B::Pt|
                c.spec_bounding_box().covers(p) && #[trigger] node.covered(c, p) ==> r.covered(
                    c,
                    p,
                ),
    {
        let part = node.enclosure.partition();
        if part.is_none() {
            return node;
        }
        let (left_box, right_box) = part.unwrap();
        let mut left = Self::new_node(left_box);
        let mut right = Self::new_node(right_box);

        let mut i: usize = 0;
        while i < node.content.len()
            invariant
                node.wf(),
                node.children@.len() == 0,
                left_box.wf(),
                right_box.wf(),
                left_box.measure() < node.enclosure.measure(),
                right_box.measure() < node.enclosure.measure(),
                forall|p: B::Pt|
                    node.enclosure.covers(p) <==> left_box.covers(p) || right_box.covers(p),
                left.enclosure == left_box,
                left.children@.len() == 0,
                right.enclosure == right_box,
                right.children@.len() == 0,
                i <= node.content@.len(),
                forall|c: C| #[trigger]
                    left.content@.contains(c) ==> node.content@.contains(c) && boxes_meet(
                        c.spec_bounding_box(),
                        left_box,
                    ),
                forall|c: C| #[trigger]
                    right.content@.contains(c) ==> node.content@.contains(c) && boxes_meet(
                        c.spec_bounding_box(),
                        right_box,
                    ),
                forall|k: int|
                    0 <= k < i && boxes_meet(
                        (#[trigger] node.content@[k]).spec_bounding_box(),
                        left_box,
                    ) ==> left.content@.contains(node.content@[k]),
                forall|k: int|
                    0 <= k < i && boxes_meet(
                        (#[trigger] node.content@[k]).spec_bounding_box(),
                        right_box,
                    ) ==> right.content@.contains(node.content@[k]),
            decreases node.content@.len() - i,
        {
            let ghost prev_l = left.content@;
            let ghost prev_r = right.content@;
            let enclosure_i = node.content[i].get_bounding_box();
            let hit_l = enclosure_i.intersects(&left.enclosure);
            let hit_r = enclosure_i.intersects(&right.enclosure);
            proof {
                assert(node.content@.contains(node.content@[i as int]));
                assert(hit_l == boxes_meet(
                    node.content@[i as int].spec_bounding_box(),
                    left_box,
                )) by {
                    let bb = node.content@[i as int].spec_bounding_box();
                    if hit_l {
                        let p = choose|p: B::Pt| enclosure_i.covers(p) && left_box.covers(p);
                        assert(bb.covers(p) && left_box.covers(p));
                        assert(boxes_meet(bb, left_box));
                    } else if boxes_meet(bb, left_box) {
                        let p = choose|p: B::Pt| bb.covers(p) && left_box.covers(p);
                        assert(enclosure_i.covers(p) && left_box.covers(p));
                        assert(false);
                    }
                }
                assert(hit_r == boxes_meet(
                    node.content@[i as int].spec_bounding_box(),
                    right_box,
                )) by {
                    let bb = node.content@[i as int].spec_bounding_box();
                    if hit_r {
                        let p = choose|p: B::Pt| enclosure_i.covers(p) && right_box.covers(p);
                        assert(bb.covers(p) && right_box.covers(p));
                        assert(boxes_meet(bb, right_box));
                    } else if boxes_meet(bb, right_box) {
                        let p = choose|p: B::Pt| bb.covers(p) && right_box.covers(p);
                        assert(enclosure_i.covers(p) && right_box.covers(p));
                        assert(false);
                    }
                }
            }
            if hit_l {
                left.content.push(node.content[i].duplicate());
                proof {
                    lemma_push_contains(prev_l, node.content@[i as int]);
                }
            }
            if hit_r {
                right.content.push(node.content[i].duplicate());
                proof {
                    lemma_push_contains(prev_r, node.content@[i as int]);
                }
            }
            proof {
                let e = node.content@[i as int];
                assert forall|c: C| #[trigger] left.content@.contains(c) implies
                    node.content@.contains(c) && boxes_meet(c.spec_bounding_box(), left_box) by {
                    if prev_l.contains(c) {
                    } else {
                        assert(c == e);
                    }
                }
                assert forall|c: C| #[trigger] right.content@.contains(c) implies
                    node.content@.contains(c) && boxes_meet(c.spec_bounding_box(), right_box) by {
                    if prev_r.contains(c) {
                    } else {
                        assert(c == e);
                    }
                }
                assert forall|k: int|
                    0 <= k < i + 1 && boxes_meet(
                        (#[trigger] node.content@[k]).spec_bounding_box(),
                        left_box,
                    ) implies left.content@.contains(node.content@[k]) by {
                    if k < i {
                        assert(prev_l.contains(node.content@[k]));
                        if hit_l {
                            assert(left.content@.contains(node.content@[k]));
                        }
                    } else {
                        assert(hit_l);
                        assert(left.content@ == prev_l.push(e));
                        assert(prev_l.push(e).contains(e)) by {
                            assert(prev_l.push(e)[prev_l.len() as int] == e);
                        }
                        assert(left.content@.contains(e));
                    }
                }
                assert forall|k: int|
                    0 <= k < i + 1 && boxes_meet(
                        (#[trigger] node.content@[k]).spec_bounding_box(),
                        right_box,
                    ) implies right.content@.contains(node.content@[k]) by {
                    if k < i {
                        assert(prev_r.contains(node.content@[k]));
                        if hit_r {
                            assert(right.content@.contains(node.content@[k]));
                        }
                    } else {
                        assert(hit_r);
                        assert(right.content@ == prev_r.push(e));
                        assert(prev_r.push(e).contains(e)) by {
                            assert(prev_r.push(e)[prev_r.len() as int] == e);
                        }
                        assert(right.content@.contains(e));
                    }
                }
            }
            i += 1;
        }

        let mut r = KdNode::<B, C> {
            enclosure: node.enclosure,
            content: Vec::new(),
            children: Vec::new(),
        };
        r.children.push(left);
        r.children.push(right);

        proof {
            let l = r.children@[0];
            let rr = r.children@[1];
            // the halves are well-formed leaves
            assert forall|j: int| 0 <= j < l.content@.len() implies (#[trigger] l.content@[j]).spec_bounding_box().wf() && boxes_meet(l.content@[j].spec_bounding_box(), l.enclosure)
                by {
                assert(l.content@.contains(l.content@[j]));
                let k = choose|k: int|
                    0 <= k < node.content@.len() && node.content@[k] == l.content@[j];
            }
            assert forall|j: int| 0 <= j < rr.content@.len() implies (#[trigger] rr.content@[j]).spec_bounding_box().wf() && boxes_meet(
                rr.content@[j].spec_bounding_box(),
                rr.enclosure,
            ) by {
                assert(rr.content@.contains(rr.content@[j]));
                let k = choose|k: int|
                    0 <= k < node.content@.len() && node.content@[k] == rr.content@[j];
            }
            assert(l.wf());
            assert(rr.wf());
            assert(r.wf());
            lemma_inner_items(r);
            lemma_leaf_items(l);
            lemma_leaf_items(rr);
            lemma_leaf_items(node);

            // the items are exactly the old contents
            assert forall|c: C| r.items().contains(c) implies node.items().contains(c) by {
                assert(l.items().contains(c) || rr.items().contains(c));
            }
            assert forall|c: C| node.items().contains(c) implies r.items().contains(c) by {
                assert(node.content@.contains(c));
                let k = choose|k: int| 0 <= k < node.content@.len() && node.content@[k] == c;
                let q = choose|q: B::Pt|
                    c.spec_bounding_box().covers(q) && node.enclosure.covers(q);
                if left_box.covers(q) {
                    assert(boxes_meet(c.spec_bounding_box(), left_box));
                    assert(l.content@.contains(c));
                } else {
                    assert(right_box.covers(q));
                    assert(boxes_meet(c.spec_bounding_box(), right_box));
                    assert(rr.content@.contains(c));
                }
            }
            assert(r.items() =~= node.items());

            // coverage is preserved: a point of an item's box moves into the
            // half that covers it, where the item was redistributed
            assert forall|c: C, p: B::Pt|
                c.spec_bounding_box().covers(p) && #[trigger] node.covered(c, p) implies r.covered(
                c,
                p,
            ) by {
                assert(node.content@.contains(c) && node.enclosure.covers(p));
                let k = choose|k: int| 0 <= k < node.content@.len() && node.content@[k] == c;
                if left_box.covers(p) {
                    assert(boxes_meet(c.spec_bounding_box(), left_box));
                    assert(l.content@.contains(c));
                    assert(l.covered(c, p));
                } else {
                    assert(right_box.covers(p));
                    assert(boxes_meet(c.spec_bounding_box(), right_box));
                    assert(rr.content@.contains(c));
                    assert(rr.covered(c, p));
                }
            }
        }
        r
    }

    fn add_to_node(node: KdNode<B, C>, content: &C, content_enclosure: &B) -> (r: KdNode<B, C>)
        requires
            node.wf(),
            *content_enclosure == content.spec_bounding_box(),
            content_enclosure.wf(),
            boxes_meet(*content_enclosure, node.enclosure),
        ensures
            r.wf(),
            r.enclosure == node.enclosure,
            r.items() == node.items().insert(*content),
            forall|c: C, p: B::Pt|
                c.spec_bounding_box().covers(p) && #[trigger] node.covered(c, p) ==> r.covered(
                    c,
                    p,
                ),
            forall|p: B::Pt|
                node.enclosure.covers(p) && content_enclosure.covers(p) ==> #[trigger] r.covered(
                    *content,
                    p,
                ),
        decreases node.enclosure.measure(),
    {
        let mut cur = node;

        if content_enclosure.is_sub_scale(&cur.enclosure) && cur.children.len() == 0
            && cur.content.len() > 3 {
            cur = Self::split_node(cur);
        }
        let ghost mid = cur;

        if cur.children.len() == 0 {
            let ghost prev = cur.content@;
            cur.content.push(content.duplicate());
            proof {
                lemma_push_contains(prev, *content);
                lemma_leaf_items(cur);
                lemma_leaf_items(mid);
                assert(cur.content@ == prev.push(*content));
                assert forall|c: C|
                    cur.items().contains(c) == mid.items().insert(*content).contains(c) by {
                    assert(cur.content@.contains(c) == (mid.content@.contains(c) || c
                        == *content));
                }
                assert(cur.items() =~= mid.items().insert(*content));
                assert(cur.items() =~= node.items().insert(*content));
                assert forall|c: C, p: B::Pt|
                    c.spec_bounding_box().covers(p) && #[trigger] node.covered(c, p) implies
                    cur.covered(c, p) by {
                    assert(mid.covered(c, p));
                    assert(mid.content@.contains(c));
                    assert(cur.content@.contains(c));
                }
                assert forall|p: B::Pt|
                    node.enclosure.covers(p) && content_enclosure.covers(p) implies cur.covered(
                    *content,
                    p,
                ) by {
                    assert(cur.content@[prev.len() as int] == *content);
                    assert(cur.content@.contains(*content));
                }
                assert forall|j: int| 0 <= j < cur.content@.len() implies (#[trigger] cur.content@[j]).spec_bounding_box().wf() && boxes_meet(
                    cur.content@[j].spec_bounding_box(),
                    cur.enclosure,
                ) by {
                    if j < prev.len() {
                        assert(cur.content@[j] == prev[j]);
                    } else {
                        assert(cur.content@[j] == *content);
                    }
                }
                assert(cur.wf());
            }
            cur
        } else {
            proof {
                assert(mid.children@.len() == 2);
                assert(mid.children@[0].wf() && mid.children@[1].wf());
            }
            let child0 = cur.children.remove(0);
            let child1 = cur.children.remove(0);
            let ghost c0 = child0;
            let ghost c1 = child1;
            proof {
                assert(mid.children@[0] == c0);
                assert(mid.children@.remove(0)[0] == mid.children@[1]);
                assert(mid.children@[1] == c1);
                assert(c0.wf() && c1.wf());
            }
            let hit0 = content_enclosure.intersects(&child0.enclosure);
            let hit1 = content_enclosure.intersects(&child1.enclosure);
            proof {
                if !hit0 && !hit1 {
                    let q = choose|q: B::Pt|
                        content_enclosure.covers(q) && mid.enclosure.covers(q);
                    assert(c0.enclosure.covers(q) || c1.enclosure.covers(q));
                    assert(false);
                }
            }
            let child0 = if hit0 {
                Self::add_to_node(child0, content, content_enclosure)
            } else {
                child0
            };
            let child1 = if hit1 {
                Self::add_to_node(child1, content, content_enclosure)
            } else {
                child1
            };
            cur.children.push(child0);
            cur.children.push(child1);
            proof {
                assert(cur.children@[0] == child0);
                assert(cur.children@[1] == child1);
                assert(cur.content@.len() == 0);
                assert(cur.wf());

                // the items are the old ones plus the new content
                assert forall|c: C| cur.items().contains(c) implies mid.items().insert(
                    *content,
                ).contains(c) by {
                    if child0.items().contains(c) {
                        if hit0 {
                            assert(c0.items().insert(*content).contains(c));
                        }
                    } else if child1.items().contains(c) {
                        if hit1 {
                            assert(c1.items().insert(*content).contains(c));
                        }
                    }
                }
                assert forall|c: C| mid.items().insert(*content).contains(c) implies
                    cur.items().contains(c) by {
                    if c == *content {
                        if hit0 {
                            assert(child0.items().contains(c));
                        } else {
                            assert(child1.items().contains(c));
                        }
                    } else {
                        assert(mid.items().contains(c));
                    }
                }
                assert(cur.items() =~= mid.items().insert(*content));
                assert(cur.items() =~= node.items().insert(*content));

                // coverage of old items is preserved
                assert forall|c: C, p: B::Pt|
                    c.spec_bounding_box().covers(p) && #[trigger] node.covered(c, p) implies
                    cur.covered(c, p) by {
                    assert(mid.covered(c, p));
                    if c0.covered(c, p) {
                        assert(child0.covered(c, p));
                    } else {
                        assert(c1.covered(c, p));
                        assert(child1.covered(c, p));
                    }
                }

                // the new item covers every point of its box within the node
                assert forall|p: B::Pt|
                    node.enclosure.covers(p) && content_enclosure.covers(p) implies #[trigger]
                    cur.covered(*content, p) by {
                    assert(c0.enclosure.covers(p) || c1.enclosure.covers(p));
                    if c0.enclosure.covers(p) {
                        assert(boxes_meet(*content_enclosure, c0.enclosure));
                        assert(child0.covered(*content, p));
                    } else {
                        assert(boxes_meet(*content_enclosure, c1.enclosure));
                        assert(child1.covered(*content, p));
                    }
                }
            }
            cur
        }
    }

    /// Inserts a content item: the root grows until the item's box fits,
    /// then the item is placed in every leaf whose box its own box meets.
    /// Growth past the ceiling is a fatal precondition violation, so callers
    /// must stay within `grows_to_fit`.
    pub fn add(&mut self, content: C)
        requires
            old(self).wf(),
            content.spec_bounding_box().wf(),
            grows_to_fit(old(self).root_enclosure(), content.spec_bounding_box()),
            old(self).spec_size() < usize::MAX,
        ensures
            final(self).wf(),
            final(self).items() == old(self).items().insert(content),
            final(self).spec_size() == old(self).spec_size() + 1,
            box_within(content.spec_bounding_box(), final(self).root_enclosure()),
            box_within(old(self).root_enclosure(), final(self).root_enclosure()),
            box_within(content.spec_bounding_box(), old(self).root_enclosure())
                ==> final(self).root_enclosure() == old(self).root_enclosure(),
            old(self).root_enclosure().grow_ready() ==> final(self).root_enclosure().grow_ready(),
    {
        let content_enclosure = content.get_bounding_box();

        while !content_enclosure.is_contained(&self.root.as_ref().unwrap().enclosure)
            invariant
                self.root is Some,
                self.root->Some_0.wf(),
                self.placed(),
                self.all_contained(),
                self.items() == old(self).items(),
                self.size == old(self).size,
                content_enclosure == content.spec_bounding_box(),
                content_enclosure.wf(),
                grows_to_fit(self.root_enclosure(), content_enclosure),
                box_within(old(self).root_enclosure(), self.root_enclosure()),
                self.root_enclosure() == old(self).root_enclosure() || !box_within(
                    content_enclosure,
                    old(self).root_enclosure(),
                ),
                old(self).root_enclosure().grow_ready() ==> self.root_enclosure().grow_ready(),
            decreases self.root->Some_0.enclosure.grow_fuel(),
        {
            proof {
                assert(!box_within(content_enclosure, self.root_enclosure()));
                assert(self.root_enclosure().can_extend());
                self.root_enclosure().lemma_extend_fuel();
                if self.root_enclosure().grow_ready() {
                    self.root_enclosure().lemma_extend_grow_ready();
                }
            }
            let pair = self.root.as_ref().unwrap().enclosure.extend();
            let (other, parent) = pair.unwrap();

            let other_node = Self::new_node(other);
            let current_root = self.root.take().unwrap();
            let ghost old_root = current_root;
            let mut new_root = Self::new_node(parent);
            new_root.children.push(other_node);
            new_root.children.push(current_root);

            proof {
                assert(new_root.children@[1] == old_root);
                assert(new_root.children@[0].wf());
                assert(new_root.wf());
                assert forall|c: C| new_root.items().contains(c) implies old_root.items().contains(
                    c,
                ) by {
                    assert(!new_root.children@[0].items().contains(c));
                }
                assert(new_root.items() =~= old_root.items());
            }
            self.root = Some(new_root);
            proof {
                assert forall|p: B::Pt|
                    old(self).root_enclosure().covers(p) implies self.root_enclosure().covers(
                    p,
                ) by {
                    assert(old_root.enclosure.covers(p));
                }
                assert forall|c: C, p: B::Pt|
                    self.items().contains(c) && self.root_enclosure().covers(p)
                        && c.spec_bounding_box().covers(p) implies #[trigger] self.root
                    ->Some_0.covered(c, p) by {
                    assert(box_within(c.spec_bounding_box(), old_root.enclosure));
                    assert(old_root.enclosure.covers(p));
                    assert(old_root.covered(c, p));
                }
                assert forall|c: C| #[trigger] self.items().contains(c) implies
                    c.spec_bounding_box().wf() && box_within(
                    c.spec_bounding_box(),
                    self.root_enclosure(),
                ) by {
                    assert(old_root.items().contains(c));
                    assert forall|p: B::Pt| c.spec_bounding_box().covers(p) implies
                        self.root_enclosure().covers(p) by {
                        assert(old_root.enclosure.covers(p));
                    }
                }
            }
        }

        proof {
            content_enclosure.lemma_nonempty();
            let q = choose|q: B::Pt| content_enclosure.covers(q);
            assert(self.root_enclosure().covers(q));
            assert(boxes_meet(content_enclosure, self.root->Some_0.enclosure));
        }
        let ghost before = *self;
        let root = self.root.take().unwrap();
        let ghost old_root = root;
        let root = Self::add_to_node(root, &content, &content_enclosure);
        self.root = Some(root);
        self.size = self.size + 1;

        proof {
            assert(self.items() =~= before.items().insert(content));
            assert forall|c: C, p: B::Pt|
                self.items().contains(c) && self.root_enclosure().covers(p)
                    && c.spec_bounding_box().covers(p) implies #[trigger] self.root
                ->Some_0.covered(c, p) by {
                if c == content {
                    assert(root.covered(content, p));
                } else {
                    assert(before.items().contains(c));
                    assert(old_root.covered(c, p));
                }
            }
            assert forall|c: C| #[trigger] self.items().contains(c) implies
                c.spec_bounding_box().wf() && box_within(
                c.spec_bounding_box(),
                self.root_enclosure(),
            ) by {
                if c != content {
                    assert(before.items().contains(c));
                }
            }
            assert(self.items() =~= old(self).items().insert(content));
        }
    }
}

/// Targets within this window are guaranteed reachable by root growth.
pub const GROW_WINDOW: i64 = 1048576;

/// From any well-behaved root — the default box in particular — the growth
/// loop reaches a box containing any valid target within the window before
/// the growth ceiling, so insertion's precondition is establishable.
pub proof fn lemma_grows_to_fit_window_2d(b: BoundingBox2d, target: BoundingBox2d)
    requires
        b.grow_ready(),
        target.wf_box(),
        -GROW_WINDOW <= target.u.x && target.v.x <= GROW_WINDOW,
        -GROW_WINDOW <= target.u.y && target.v.y <= GROW_WINDOW,
    ensures
        grows_to_fit(b, target),
    decreases b.grow_fuel(),
{
    if !box_within(target, b) {
        let ex = b.v.x - b.u.x;
        let ey = b.v.y - b.u.y;
        let mx: int = if -b.u.x <= b.v.x {
            -b.u.x
        } else {
            b.v.x as int
        };
        let my: int = if -b.u.y <= b.v.y {
            -b.u.y
        } else {
            b.v.y as int
        };
        // a box overhanging the window on every side would contain the target
        assert(mx < GROW_WINDOW || my < GROW_WINDOW) by {
            if mx >= GROW_WINDOW && my >= GROW_WINDOW {
                assert forall|p: crate::ray_box::Point2d| target.covers(p) implies b.covers(
                    p,
                ) by {
                    assert(target.covers_pt(p) ==> b.covers_pt(p));
                }
                assert(false);
            }
        }
        // so one axis is short, and balance keeps the other comparable
        assert(ex <= 8 * GROW_WINDOW + 4 && ey <= 8 * GROW_WINDOW + 4);
        assert(b.diag_sq() <= MAX_GROW_DIAG_SQ) by (nonlinear_arith)
            requires
                0 <= ex <= 8 * GROW_WINDOW + 4,
                0 <= ey <= 8 * GROW_WINDOW + 4,
                GROW_WINDOW == 1048576,
                MAX_GROW_DIAG_SQ == 10000000000000000,
                b.diag_sq() == ex * ex + ey * ey,
        ;
        assert(b.can_extend2());
        let (sib, par) = b.spec_extend2();
        b.lemma_extend_grow_ready();
        b.lemma_extend_fuel();
        lemma_grows_to_fit_window_2d(par, target);
        assert(grows_to_fit(b, target));
    }
}

/// From any well-behaved root — the default box in particular — the growth
/// loop reaches a box containing any valid target within the window before
/// the growth ceiling, so insertion's precondition is establishable.
#[verifier::rlimit(60)]
pub proof fn lemma_grows_to_fit_window_3d(b: BoundingBox3d, target: BoundingBox3d)
    requires
        b.grow_ready(),
        target.wf_box(),
        -GROW_WINDOW <= target.u.x && target.v.x <= GROW_WINDOW,
        -GROW_WINDOW <= target.u.y && target.v.y <= GROW_WINDOW,
        -GROW_WINDOW <= target.u.z && target.v.z <= GROW_WINDOW,
    ensures
        grows_to_fit(b, target),
    decreases b.grow_fuel(),
{
    if !box_within(target, b) {
        let ex = b.v.x - b.u.x;
        let ey = b.v.y - b.u.y;
        let ez = b.v.z - b.u.z;
        let mx: int = if -b.u.x <= b.v.x {
            -b.u.x
        } else {
            b.v.x as int
        };
        let my: int = if -b.u.y <= b.v.y {
            -b.u.y
        } else {
            b.v.y as int
        };
        let mz: int = if -b.u.z <= b.v.z {
            -b.u.z
        } else {
            b.v.z as int
        };
        // a box overhanging the window on every side would contain the target
        assert(mx < GROW_WINDOW || my < GROW_WINDOW || mz < GROW_WINDOW) by {
            if mx >= GROW_WINDOW && my >= GROW_WINDOW && mz >= GROW_WINDOW {
                assert forall|p: crate::ray_box::Point3d| target.covers(p) implies b.covers(
                    p,
                ) by {
                    assert(target.covers_pt(p) ==> b.covers_pt(p));
                }
                assert(false);
            }
        }
        // so one axis is short, and balance keeps the others comparable
        assert(ex <= 8 * GROW_WINDOW + 4 && ey <= 8 * GROW_WINDOW + 4 && ez <= 8 * GROW_WINDOW
            + 4);
        assert(b.diag_sq() <= MAX_GROW_DIAG_SQ) by (nonlinear_arith)
            requires
                0 <= ex <= 8 * GROW_WINDOW + 4,
                0 <= ey <= 8 * GROW_WINDOW + 4,
                0 <= ez <= 8 * GROW_WINDOW + 4,
                GROW_WINDOW == 1048576,
                MAX_GROW_DIAG_SQ == 10000000000000000,
                b.diag_sq() == ex * ex + ey * ey + ez * ez,
        ;
        assert(b.can_extend3());
        let (sib, par) = b.spec_extend3();
        b.lemma_extend_grow_ready();
        b.lemma_extend_fuel();
        lemma_grows_to_fit_window_3d(par, target);
        assert(grows_to_fit(b, target));
    }
}

/// Idempotent query for the nearest hit: with a pure hit function, no two
/// stored items at one hit distance, and both runs meeting the query's
/// contract (soundness and completeness clauses), the two runs return the
/// same result.
pub proof fn lemma_closest_hit_idempotent<
    B: HittableBoundingBoxTrait,
    C: KdTreeContent<B>,
    F: Fn(&C, &ConstrainedRay3d) -> Option<i64>,
>(t: KdTree<B, C>, fun: &F, cray: &ConstrainedRay3d, r1: Option<C>, r2: Option<C>)
    requires
        hit_fun_deterministic(fun, cray),
        forall|ca: C, cb: C, d: i64|
            #![trigger call_ensures(*fun, (&ca, cray), Some(d)), call_ensures(*fun, (&cb, cray), Some(d))]
            t.items().contains(ca) && t.items().contains(cb) && call_ensures(
                *fun,
                (&ca, cray),
                Some(d),
            ) && call_ensures(*fun, (&cb, cray), Some(d)) ==> ca == cb,
        r1 is None ==> forall|c: C, d: i64|
            t.items().contains(c) && #[trigger] call_ensures(*fun, (&c, cray), Some(d)) ==> d
                >= cray.range.1,
        r1 matches Some(c) ==> t.items().contains(c) && exists|d: i64|
            #[trigger] call_ensures(*fun, (&c, cray), Some(d)) && d < cray.range.1 && (forall|
                c2: C,
                d2: i64,
            |
                t.items().contains(c2) && #[trigger] call_ensures(*fun, (&c2, cray), Some(d2))
                    ==> d <= d2),
        r2 is None ==> forall|c: C, d: i64|
            t.items().contains(c) && #[trigger] call_ensures(*fun, (&c, cray), Some(d)) ==> d
                >= cray.range.1,
        r2 matches Some(c) ==> t.items().contains(c) && exists|d: i64|
            #[trigger] call_ensures(*fun, (&c, cray), Some(d)) && d < cray.range.1 && (forall|
                c2: C,
                d2: i64,
            |
                t.items().contains(c2) && #[trigger] call_ensures(*fun, (&c2, cray), Some(d2))
                    ==> d <= d2),
    ensures
        r1 == r2,
{
    if r1 is Some {
        let c1 = r1->Some_0;
        let d1 = choose|d: i64|
            #[trigger] call_ensures(*fun, (&c1, cray), Some(d)) && d < cray.range.1 && (forall|
                c2: C,
                d2: i64,
            |
                t.items().contains(c2) && #[trigger] call_ensures(*fun, (&c2, cray), Some(d2))
                    ==> d <= d2);
        if r2 is Some {
            let c2r = r2->Some_0;
            let d2 = choose|d: i64|
                #[trigger] call_ensures(*fun, (&c2r, cray), Some(d)) && d < cray.range.1 && (forall|
                    c3: C,
                    d3: i64,
                |
                    t.items().contains(c3) && #[trigger] call_ensures(*fun, (&c3, cray), Some(d3))
                        ==> d <= d3);
            assert(d1 <= d2 && d2 <= d1);
            assert(c1 == c2r);
        } else {
            assert(d1 >= cray.range.1);
            assert(false);
        }
    } else {
        if r2 is Some {
            let c2r = r2->Some_0;
            let d2 = choose|d: i64|
                #[trigger] call_ensures(*fun, (&c2r, cray), Some(d)) && d < cray.range.1 && (forall|
                    c3: C,
                    d3: i64,
                |
                    t.items().contains(c3) && #[trigger] call_ensures(*fun, (&c3, cray), Some(d3))
                        ==> d <= d3);
            assert(d2 >= cray.range.1);
            assert(false);
        }
    }
}

/// Idempotent query: two results of the overlap query for one tree and one
/// filter box hold the same set of contents, since the query's contract pins
/// membership exactly.
pub proof fn lemma_query_idempotent<B: BoundingBoxTrait, C: KdTreeContent<B>>(
    t: KdTree<B, C>,
    filter: B,
    r1: Seq<C>,
    r2: Seq<C>,
)
    requires
        forall|c: C|
            r1.contains(c) == (t.items().contains(c) && boxes_meet(c.spec_bounding_box(), filter)),
        forall|c: C|
            r2.contains(c) == (t.items().contains(c) && boxes_meet(c.spec_bounding_box(), filter)),
    ensures
        r1.to_set() == r2.to_set(),
{
    assert(r1.to_set() =~= r2.to_set());
}


impl<B: HittableBoundingBoxTrait, C: KdTreeContent<B>> KdNode<B, C> {
    /// Whether the slab test is well defined for every enclosure the
    /// nearest-hit traversal may test against this ray.
    spec fn all_hit_ok(self, cray: ConstrainedRay3d) -> bool
        decreases self,
    {
        self.children.len() == 2 ==> {
            &&& self.children@[0].enclosure.hit_ok(cray)
            &&& self.children@[1].enclosure.hit_ok(cray)
            &&& self.children@[0].all_hit_ok(cray)
            &&& self.children@[1].all_hit_ok(cray)
        }
    }

    /// Whether the slab test prunes soundly on every enclosure the
    /// nearest-hit traversal may test against this ray.
    spec fn all_hit_faithful(self, cray: ConstrainedRay3d) -> bool
        decreases self,
    {
        self.children.len() == 2 ==> {
            &&& self.children@[0].enclosure.hit_faithful(cray)
            &&& self.children@[1].enclosure.hit_faithful(cray)
            &&& self.children@[0].all_hit_faithful(cray)
            &&& self.children@[1].all_hit_faithful(cray)
        }
    }
}

/// A hit function that behaves as a pure function of its arguments: at most
/// one possible output per input pair.
pub open spec fn hit_fun_deterministic<C, F: Fn(&C, &ConstrainedRay3d) -> Option<i64>>(
    fun: &F,
    cray: &ConstrainedRay3d,
) -> bool {
    forall|c: C, o1: Option<i64>, o2: Option<i64>|
        #![trigger call_ensures(*fun, (&c, cray), o1), call_ensures(*fun, (&c, cray), o2)]
        call_ensures(*fun, (&c, cray), o1) && call_ensures(*fun, (&c, cray), o2) ==> o1 == o2
}

/// A hit function that never reports a distance before the ray's range.
pub open spec fn hit_fun_in_range<C, F: Fn(&C, &ConstrainedRay3d) -> Option<i64>>(
    fun: &F,
    cray: &ConstrainedRay3d,
) -> bool {
    forall|c: C, t: i64| #[trigger]
        call_ensures(*fun, (&c, cray), Some(t)) ==> cray.range.0 <= t
}

/// A hit function whose reported distances land inside the item's own box.
pub open spec fn hit_fun_in_box<
    B: HittableBoundingBoxTrait,
    C: KdTreeContent<B>,
    F: Fn(&C, &ConstrainedRay3d) -> Option<i64>,
>(fun: &F, cray: &ConstrainedRay3d) -> bool {
    forall|c: C, t: i64| #[trigger]
        call_ensures(*fun, (&c, cray), Some(t)) ==> c.spec_bounding_box().covers(
            B::ray_pt(*cray, t),
        )
}

impl<B: HittableBoundingBoxTrait, C: KdTreeContent<B>> KdTree<B, C> {
    /// Whether the slab test is well defined for every enclosure of the tree
    /// against this ray.
    pub closed spec fn ray_ok(self, cray: ConstrainedRay3d) -> bool {
        self.root is Some && self.root->Some_0.all_hit_ok(cray)
    }

    /// Whether the slab test prunes soundly on every enclosure of the tree
    /// against this ray; under it the nearest-hit search is complete.
    pub closed spec fn ray_faithful(self, cray: ConstrainedRay3d) -> bool {
        self.root is Some && self.root->Some_0.all_hit_faithful(cray)
    }

    /// Tests one child's enclosure against the ray and descends unless the
    /// subtree provably holds no better hit: a miss is skipped, and a child
    /// entered no closer than the best distance so far is pruned.
    fn visit_child<F: Fn(&C, &ConstrainedRay3d) -> Option<i64>>(
        child: &KdNode<B, C>,
        fun: &F,
        cray: &ConstrainedRay3d,
        result_in: Option<C>,
        current_in: i64,
    ) -> (out: (Option<C>, i64))
        requires
            child.wf(),
            cray.wf_cray(),
            child.all_hit_ok(*cray),
            child.enclosure.hit_ok(*cray),
            forall|c: C| child.items().contains(c) ==> #[trigger] call_requires(*fun, (&c, cray)),
            forall|c: C, t: i64| #[trigger]
                call_ensures(*fun, (&c, cray), Some(t)) ==> -2 * crate::ray_box::COORD_LIMIT <= t
                    <= 2 * crate::ray_box::COORD_LIMIT,
            -2 * crate::ray_box::COORD_LIMIT <= current_in <= 2 * crate::ray_box::COORD_LIMIT,
            current_in <= cray.range.1,
            result_in matches Some(c) ==> call_ensures(*fun, (&c, cray), Some(current_in)),
        ensures
            out.1 <= current_in,
            out.1 == current_in ==> out.0 == result_in,
            out.0 is None ==> out.1 == current_in && result_in is None,
            result_in is None && out.0 is Some ==> out.1 < current_in,
            out.0 matches Some(c) ==> (result_in == Some(c) && out.1 == current_in) || (
            child.items().contains(c) && call_ensures(*fun, (&c, cray), Some(out.1))),
            out.0 matches Some(c) ==> call_ensures(*fun, (&c, cray), Some(out.1)),
            forall|c2: C, t2: i64|
                hit_fun_deterministic(fun, cray) && hit_fun_in_range(fun, cray)
                    && child.enclosure.hit_faithful(*cray) && child.all_hit_faithful(*cray)
                    && call_ensures(*fun, (&c2, cray), Some(t2)) && #[trigger] child.covered(
                    c2,
                    B::ray_pt(*cray, t2),
                ) ==> out.1 <= t2,
        decreases child.enclosure.measure(), 1int,
    {
        match child.enclosure.hit(cray) {
            HitBoxResult::Miss => {
                proof {
                    assert forall|c2: C, t2: i64|
                        hit_fun_deterministic(fun, cray) && hit_fun_in_range(fun, cray)
                            && child.enclosure.hit_faithful(*cray) && child.all_hit_faithful(*cray)
                            && call_ensures(*fun, (&c2, cray), Some(t2)) && #[trigger]
                        child.covered(c2, B::ray_pt(*cray, t2)) implies current_in <= t2 by {
                        lemma_covered_in_enclosure(*child, c2, B::ray_pt(*cray, t2));
                        if t2 <= cray.range.1 {
                            child.enclosure.lemma_hit_faithful(*cray, t2);
                            assert(false);
                        }
                    }
                }
                (result_in, current_in)
            },
            HitBoxResult::Inside(_) => Self::get_closest_hit_internal(
                child,
                fun,
                cray,
                result_in,
                current_in,
            ),
            HitBoxResult::Outside(close, _) => {
                if close.le_int(current_in) {
                    Self::get_closest_hit_internal(child, fun, cray, result_in, current_in)
                } else {
                    proof {
                        assert forall|c2: C, t2: i64|
                            hit_fun_deterministic(fun, cray) && hit_fun_in_range(fun, cray)
                                && child.enclosure.hit_faithful(*cray) && child.all_hit_faithful(
                                *cray,
                            ) && call_ensures(*fun, (&c2, cray), Some(t2)) && #[trigger]
                            child.covered(c2, B::ray_pt(*cray, t2)) implies current_in <= t2 by {
                            lemma_covered_in_enclosure(*child, c2, B::ray_pt(*cray, t2));
                            if t2 <= cray.range.1 {
                                child.enclosure.lemma_hit_faithful(*cray, t2);
                                assert(current_in < t2) by (nonlinear_arith)
                                    requires
                                        close.den > 0,
                                        close.num <= t2 * close.den,
                                        close.num > current_in * close.den,
                                ;
                            }
                        }
                    }
                    (result_in, current_in)
                }
            },
        }
    }

    fn get_closest_hit_internal<F: Fn(&C, &ConstrainedRay3d) -> Option<i64>>(
        node: &KdNode<B, C>,
        fun: &F,
        cray: &ConstrainedRay3d,
        result_in: Option<C>,
        current_in: i64,
    ) -> (out: (Option<C>, i64))
        requires
            node.wf(),
            cray.wf_cray(),
            node.all_hit_ok(*cray),
            forall|c: C| node.items().contains(c) ==> #[trigger] call_requires(*fun, (&c, cray)),
            forall|c: C, t: i64| #[trigger]
                call_ensures(*fun, (&c, cray), Some(t)) ==> -2 * crate::ray_box::COORD_LIMIT <= t
                    <= 2 * crate::ray_box::COORD_LIMIT,
            -2 * crate::ray_box::COORD_LIMIT <= current_in <= 2 * crate::ray_box::COORD_LIMIT,
            current_in <= cray.range.1,
            result_in matches Some(c) ==> call_ensures(*fun, (&c, cray), Some(current_in)),
        ensures
            out.1 <= current_in,
            out.1 == current_in ==> out.0 == result_in,
            out.0 is None ==> out.1 == current_in && result_in is None,
            result_in is None && out.0 is Some ==> out.1 < current_in,
            out.0 matches Some(c) ==> (result_in == Some(c) && out.1 == current_in) || (
            node.items().contains(c) && call_ensures(*fun, (&c, cray), Some(out.1))),
            out.0 matches Some(c) ==> call_ensures(*fun, (&c, cray), Some(out.1)),
            forall|c2: C, t2: i64|
                hit_fun_deterministic(fun, cray) && hit_fun_in_range(fun, cray)
                    && node.all_hit_faithful(*cray) && call_ensures(*fun, (&c2, cray), Some(t2))
                    && #[trigger] node.covered(c2, B::ray_pt(*cray, t2)) ==> out.1 <= t2,
        decreases node.enclosure.measure(), 0int,
    {
        let mut result = result_in;
        let mut current = current_in;

        let mut i: usize = 0;
        while i < node.content.len()
            invariant
                node.wf(),
                cray.wf_cray(),
                forall|c: C| node.items().contains(c) ==> #[trigger] call_requires(
                    *fun,
                    (&c, cray),
                ),
                i <= node.content@.len(),
                current <= current_in,
                current_in <= cray.range.1,
                -2 * crate::ray_box::COORD_LIMIT <= current <= 2 * crate::ray_box::COORD_LIMIT,
                forall|c: C, t: i64| #[trigger]
                    call_ensures(*fun, (&c, cray), Some(t)) ==> -2 * crate::ray_box::COORD_LIMIT
                        <= t <= 2 * crate::ray_box::COORD_LIMIT,
                current == current_in ==> result == result_in,
                result is None ==> current == current_in && result_in is None,
                result_in is None && result is Some ==> current < current_in,
                result matches Some(c) ==> (result_in == Some(c) && current == current_in) || (
                node.items().contains(c) && call_ensures(*fun, (&c, cray), Some(current))),
                result matches Some(c) ==> call_ensures(*fun, (&c, cray), Some(current)),
                hit_fun_deterministic(fun, cray) ==> forall|k: int, t2: i64|
                    0 <= k < i && #[trigger] call_ensures(
                        *fun,
                        (&node.content@[k], cray),
                        Some(t2),
                    ) ==> current <= t2,
            decreases node.content@.len() - i,
        {
            proof {
                if node.children@.len() != 2 {
                    assert(node.content@.to_set().contains(node.content@[i as int]));
                } else {
                    assert(false);
                }
                assert(node.items().contains(node.content@[i as int]));
            }
            let candidate = fun(&node.content[i], cray);
            if let Some(cand) = candidate {
                if cand < current {
                    current = cand;
                    result = Some(node.content[i].duplicate());
                }
            }
            proof {
                if hit_fun_deterministic(fun, cray) {
                    assert forall|k: int, t2: i64|
                        0 <= k < i + 1 && #[trigger] call_ensures(
                            *fun,
                            (&node.content@[k], cray),
                            Some(t2),
                        ) implies current <= t2 by {
                        if k == i {
                            assert(call_ensures(*fun, (&node.content@[i as int], cray), candidate));
                            assert(candidate == Some(t2));
                        }
                    }
                }
            }
            i += 1;
        }

        if node.children.len() == 2 {
            proof {
                assert(node.children@[0].enclosure.measure() < node.enclosure.measure());
                assert(node.children@[1].enclosure.measure() < node.enclosure.measure());
                assert(node.children@[0].wf() && node.children@[1].wf());
                assert(node.children@[0].enclosure.wf() && node.children@[1].enclosure.wf());
                assert forall|c: C|
                    node.children@[0].items().contains(c) || node.children@[1].items().contains(
                        c,
                    ) implies node.items().contains(c) by {}
            }
            let out0 = Self::visit_child(&node.children[0], fun, cray, result, current);
            result = out0.0;
            current = out0.1;
            let out1 = Self::visit_child(&node.children[1], fun, cray, result, current);
            result = out1.0;
            current = out1.1;
        }

        proof {
            assert forall|c2: C, t2: i64|
                hit_fun_deterministic(fun, cray) && hit_fun_in_range(fun, cray)
                    && node.all_hit_faithful(*cray) && call_ensures(*fun, (&c2, cray), Some(t2))
                    && #[trigger] node.covered(c2, B::ray_pt(*cray, t2)) implies current <= t2 by {
                if node.children@.len() == 2 {
                    if node.children@[0].covered(c2, B::ray_pt(*cray, t2)) {
                    } else {
                        assert(node.children@[1].covered(c2, B::ray_pt(*cray, t2)));
                    }
                } else {
                    assert(node.content@.contains(c2));
                    let k = choose|k: int| 0 <= k < node.content@.len() && node.content@[k] == c2;
                    assert(call_ensures(*fun, (&node.content@[k], cray), Some(t2)));
                }
            }
        }

        (result, current)
    }

    fn node_ray_ok(node: &KdNode<B, C>, cray: &ConstrainedRay3d) -> (r: bool)
        requires
            node.wf(),
            cray.wf_cray(),
        ensures
            r == node.all_hit_ok(*cray),
        decreases node.enclosure.measure(),
    {
        if node.children.len() == 2 {
            proof {
                assert(node.children@[0].wf() && node.children@[1].wf());
                assert(node.children@[0].enclosure.wf() && node.children@[1].enclosure.wf());
                assert(node.children@[0].enclosure.measure() < node.enclosure.measure());
                assert(node.children@[1].enclosure.measure() < node.enclosure.measure());
            }
            node.children[0].enclosure.hit_ok_check(cray) && node.children[1].enclosure.hit_ok_check(
                cray,
            ) && Self::node_ray_ok(&node.children[0], cray) && Self::node_ray_ok(
                &node.children[1],
                cray,
            )
        } else {
            true
        }
    }

    /// Decides whether the slab test is well defined on every enclosure of
    /// the tree for this ray, establishing the nearest-hit query's
    /// precondition.
    pub fn check_ray_ok(&self, cray: &ConstrainedRay3d) -> (r: bool)
        requires
            self.wf(),
            cray.wf_cray(),
        ensures
            r == self.ray_ok(*cray),
    {
        Self::node_ray_ok(self.root.as_ref().unwrap(), cray)
    }

    fn node_ray_faithful(node: &KdNode<B, C>, cray: &ConstrainedRay3d) -> (r: bool)
        requires
            node.wf(),
            cray.wf_cray(),
            node.all_hit_ok(*cray),
        ensures
            r ==> node.all_hit_faithful(*cray),
        decreases node.enclosure.measure(),
    {
        if node.children.len() == 2 {
            proof {
                assert(node.children@[0].wf() && node.children@[1].wf());
                assert(node.children@[0].enclosure.wf() && node.children@[1].enclosure.wf());
                assert(node.children@[0].enclosure.measure() < node.enclosure.measure());
                assert(node.children@[1].enclosure.measure() < node.enclosure.measure());
            }
            node.children[0].enclosure.hit_faithful_check(cray)
                && node.children[1].enclosure.hit_faithful_check(cray) && Self::node_ray_faithful(
                &node.children[0],
                cray,
            ) && Self::node_ray_faithful(&node.children[1], cray)
        } else {
            true
        }
    }

    /// A sufficient executable test for sound pruning on every enclosure of
    /// the tree for this ray: a `true` answer establishes the hypothesis
    /// under which the nearest-hit query is proved complete.
    pub fn check_ray_faithful(&self, cray: &ConstrainedRay3d) -> (r: bool)
        requires
            self.wf(),
            cray.wf_cray(),
            self.ray_ok(*cray),
        ensures
            r ==> self.ray_faithful(*cray),
    {
        Self::node_ray_faithful(self.root.as_ref().unwrap(), cray)
    }

    /// The nearest-hit ray query: walks the tree, asking the caller-supplied
    /// hit function for a distance per stored item and pruning subtrees whose
    /// enclosure the ray provably enters no closer than the best hit so far.
    /// A returned item is a stored item for which the hit function reported a
    /// distance below the ray's upper range bound.
    pub fn get_closest_hit<F: Fn(&C, &ConstrainedRay3d) -> Option<i64>>(
        &self,
        fun: &F,
        cray: &ConstrainedRay3d,
    ) -> (r: Option<C>)
        requires
            self.wf(),
            cray.wf_cray(),
            self.ray_ok(*cray),
            forall|c: C| self.items().contains(c) ==> #[trigger] call_requires(*fun, (&c, cray)),
            forall|c: C, t: i64| #[trigger]
                call_ensures(*fun, (&c, cray), Some(t)) ==> -2 * crate::ray_box::COORD_LIMIT <= t
                    <= 2 * crate::ray_box::COORD_LIMIT,
        ensures
            r matches Some(c) ==> self.items().contains(c) && exists|t: i64|
                call_ensures(*fun, (&c, cray), Some(t)) && t < cray.range.1,
            hit_fun_deterministic(fun, cray) && hit_fun_in_range(fun, cray) && hit_fun_in_box(
                fun,
                cray,
            ) && self.ray_faithful(*cray) ==> {
                &&& (r is None ==> forall|c2: C, t2: i64|
                    self.items().contains(c2) && #[trigger] call_ensures(
                        *fun,
                        (&c2, cray),
                        Some(t2),
                    ) ==> t2 >= cray.range.1)
                &&& (r matches Some(c) ==> exists|t: i64|
                    #[trigger] call_ensures(*fun, (&c, cray), Some(t)) && t < cray.range.1 && (
                    forall|c2: C, t2: i64|
                        self.items().contains(c2) && #[trigger] call_ensures(
                            *fun,
                            (&c2, cray),
                            Some(t2),
                        ) ==> t <= t2))
            },
    {
        let out = Self::get_closest_hit_internal(
            self.root.as_ref().unwrap(),
            fun,
            cray,
            None,
            cray.range.1,
        );
        proof {
            if out.0 is Some {
                let c = out.0->Some_0;
                assert(call_ensures(*fun, (&c, cray), Some(out.1)) && out.1 < cray.range.1);
            }
            if hit_fun_deterministic(fun, cray) && hit_fun_in_range(fun, cray) && hit_fun_in_box(
                fun,
                cray,
            ) && self.ray_faithful(*cray) {
                assert forall|c2: C, t2: i64|
                    self.items().contains(c2) && #[trigger] call_ensures(
                        *fun,
                        (&c2, cray),
                        Some(t2),
                    ) implies out.1 <= t2 by {
                    let p = B::ray_pt(*cray, t2);
                    assert(c2.spec_bounding_box().covers(p));
                    assert(self.root_enclosure().covers(p));
                    assert(self.root->Some_0.covered(c2, p));
                }
            }
        }
        out.0
    }
}




} // verus!
