//! Quad-bucket tree: a spatial index of elements filed under reference
//! points, queried for the elements whose bucket may concern a point.

use crate::geo::{Bbox, Vec2};
use vstd::prelude::*;

verus! {

broadcast use Bbox::lemma_with_corners;

/// Number of pairs that a leaf holds before it is split.
pub const LEAF_CAPACITY: usize = 64;

/// Spatial index of elements filed under reference points.
#[derive(Debug)]
pub struct Bvh<Elem> {
    pub root: BvhNode<Elem>,
}

/// A node of the index: a bucket of pairs, or four children that quarter the
/// node's box around its centre.
#[derive(Debug)]
pub enum BvhNode<Elem> {
    Leaf { elems: Vec<(Elem, Vec2)>, bbox: Bbox },
    Branch { bbox: Bbox, children: Vec<BvhNode<Elem>> },
}

/// What a node holds, as a mathematical value.
pub enum NodeView<Elem> {
    Leaf { elems: Seq<(Elem, Vec2)>, bbox: Bbox },
    Branch { bbox: Bbox, children: Seq<NodeView<Elem>> },
}

/// The first of `quads` that holds `r`.
pub open spec fn first_quad(quads: Seq<Bbox>, r: Vec2) -> Option<int> {
    if quads[0].spec_contains(r) {
        Some(0)
    } else if quads[1].spec_contains(r) {
        Some(1)
    } else if quads[2].spec_contains(r) {
        Some(2)
    } else if quads[3].spec_contains(r) {
        Some(3)
    } else {
        None
    }
}

/// The pairs whose reference point goes to quarter `i` of `quads`.
pub open spec fn lands_in<Elem>(quads: Seq<Bbox>, i: int) -> spec_fn((Elem, Vec2)) -> bool {
    |pair: (Elem, Vec2)| first_quad(quads, pair.1) == Some(i)
}

/// The pairs whose element satisfies `p`.
pub open spec fn keeps<Elem>(p: spec_fn(Elem) -> bool) -> spec_fn((Elem, Vec2)) -> bool {
    |pair: (Elem, Vec2)| p(pair.0)
}

impl<Elem> NodeView<Elem> {
    /// The node's box.
    pub open spec fn bbox(self) -> Bbox {
        match self {
            NodeView::Leaf { bbox, .. } => bbox,
            NodeView::Branch { bbox, .. } => bbox,
        }
    }

    /// The boxes of the four children of a branch.
    pub open spec fn child_boxes(self) -> Seq<Bbox>
        recommends
            self is Branch,
    {
        Seq::new(4, |i: int| self->children[i].bbox())
    }

    /// A leaf's box holds every reference point stored in it, and the leaf
    /// holds at most `LEAF_CAPACITY` pairs unless its box is too small to be
    /// cut, at most one unit wide and high; a branch has four well-formed
    /// children whose boxes are the quarters of its own box around its
    /// centre.
    pub open spec fn wf(self) -> bool
        decreases self,
    {
        match self {
            NodeView::Leaf { elems, bbox } => {
                &&& bbox.wf()
                &&& forall|i: int| 0 <= i < elems.len() ==> bbox.spec_contains((#[trigger] elems[i]).1)
                &&& elems.len() <= LEAF_CAPACITY || !bbox.divisible()
            },
            NodeView::Branch { bbox, children } => {
                &&& bbox.wf()
                &&& children.len() == 4
                &&& forall|i: int|
                    0 <= i < children.len() ==> {
                        &&& (#[trigger] children[i]).wf()
                        &&& children[i].bbox() == bbox.spec_split(bbox.spec_center())[i]
                    }
            },
        }
    }

    /// Every stored pair, in the order in which a query meets them: within a
    /// branch the last child first.
    pub open spec fn pairs(self) -> Seq<(Elem, Vec2)>
        decreases self,
    {
        match self {
            NodeView::Leaf { elems, .. } => elems,
            NodeView::Branch { children, .. } => if children.len() == 4 {
                children[3].pairs() + children[2].pairs() + children[1].pairs()
                    + children[0].pairs()
            } else {
                Seq::empty()
            },
        }
    }

    /// The pairs that a query for `q` meets: those of every leaf that is
    /// reached through branches whose boxes all hold `q`.
    pub open spec fn visited(self, q: Vec2) -> Seq<(Elem, Vec2)>
        decreases self,
    {
        match self {
            NodeView::Leaf { elems, .. } => elems,
            NodeView::Branch { bbox, children } => if children.len() == 4 && bbox.spec_contains(q) {
                children[3].visited(q) + children[2].visited(q) + children[1].visited(q)
                    + children[0].visited(q)
            } else {
                Seq::empty()
            },
        }
    }

    /// Whether every branch whose box holds `r` also holds `q`, so that a
    /// query for `q` reaches whatever is filed under `r`.
    pub open spec fn sees(self, r: Vec2, q: Vec2) -> bool
        decreases self,
    {
        match self {
            NodeView::Leaf { .. } => true,
            NodeView::Branch { bbox, children } => {
                &&& bbox.spec_contains(r) ==> bbox.spec_contains(q)
                &&& forall|i: int| 0 <= i < children.len() ==> (#[trigger] children[i]).sees(r, q)
            },
        }
    }

    /// Whether a pair filed under `r` finds a place: a leaf takes any point,
    /// a branch only one that a child's box holds.
    pub open spec fn accepts(self, r: Vec2) -> bool {
        match self {
            NodeView::Leaf { .. } => true,
            NodeView::Branch { .. } => first_quad(self.child_boxes(), r) is Some,
        }
    }

    /// The node that holds the pairs `elems` over the box `bbox`: a leaf
    /// where they are at most `LEAF_CAPACITY` or the box is too small to be
    /// cut, else the branch over the quarters of the box around its centre,
    /// each pair in the first quarter that holds its point and each quarter
    /// settled in the same way.
    pub open spec fn settle(elems: Seq<(Elem, Vec2)>, bbox: Bbox) -> NodeView<Elem>
        decreases bbox.span(),
    {
        if elems.len() > LEAF_CAPACITY && bbox.wf() && bbox.divisible() {
            let quads = bbox.spec_split(bbox.spec_center());
            proof {
                bbox.lemma_quarters_smaller(0);
                bbox.lemma_quarters_smaller(1);
                bbox.lemma_quarters_smaller(2);
                bbox.lemma_quarters_smaller(3);
            }
            NodeView::Branch {
                bbox,
                children: seq![
                    Self::settle(elems.filter(lands_in(quads, 0)), quads[0]),
                    Self::settle(elems.filter(lands_in(quads, 1)), quads[1]),
                    Self::settle(elems.filter(lands_in(quads, 2)), quads[2]),
                    Self::settle(elems.filter(lands_in(quads, 3)), quads[3]),
                ],
            }
        } else {
            NodeView::Leaf { elems, bbox }
        }
    }

    /// The node after `e` was filed under `r`, which it accepts: a leaf
    /// takes the pair, grows its box over the point and is settled again; a
    /// branch hands the pair to the first child whose box holds the point.
    /// Of a point that the node does not accept, which no insertion takes,
    /// this says nothing of use.
    pub open spec fn spec_insert(self, e: Elem, r: Vec2) -> NodeView<Elem>
        decreases self,
    {
        match self {
            NodeView::Leaf { elems, bbox } => Self::settle(elems.push((e, r)), bbox.spec_expand(r)),
            NodeView::Branch { bbox, children } => if children.len() == 4 {
                match first_quad(self.child_boxes(), r) {
                    Some(i) => NodeView::Branch {
                        bbox,
                        children: children.update(i, children[i].spec_insert(e, r)),
                    },
                    None => self,
                }
            } else {
                self
            },
        }
    }
}

/// Whether `out` is what a pass over `src` keeps where `f`, asked about each
/// element and `q` in turn, decides: the elements for which it answered yes,
/// in their order.
pub open spec fn selects<Elem, F: Fn(&Elem, Vec2) -> bool>(
    f: F,
    q: Vec2,
    src: Seq<(Elem, Vec2)>,
    out: Seq<&Elem>,
) -> bool
    decreases src.len(),
{
    if src.len() == 0 {
        out.len() == 0
    } else {
        let e = src.last().0;
        ||| {
            &&& call_ensures(f, (&e, q), true)
            &&& out.len() > 0
            &&& *out.last() == e
            &&& selects(f, q, src.drop_last(), out.drop_last())
        }
        ||| {
            &&& call_ensures(f, (&e, q), false)
            &&& selects(f, q, src.drop_last(), out)
        }
    }
}

impl<Elem> BvhNode<Elem> {
    /// What the node holds.
    pub open spec fn view(&self) -> NodeView<Elem>
        decreases self,
    {
        match self {
            BvhNode::Leaf { elems, bbox } => NodeView::Leaf { elems: elems@, bbox: *bbox },
            BvhNode::Branch { bbox, children } => NodeView::Branch {
                bbox: *bbox,
                children: Seq::new(
                    children.len() as nat,
                    |i: int|
                        if 0 <= i < children.len() {
                            children[i].view()
                        } else {
                            NodeView::Leaf { elems: Seq::empty(), bbox: *bbox }
                        },
                ),
            },
        }
    }

    /// Whether the node's box holds `p`.
    pub fn contains(&self, p: Vec2) -> (b: bool)
        ensures
            b == self@.bbox().spec_contains(p),
    {
        match self {
            BvhNode::Branch { bbox, .. } => bbox.contains(p),
            BvhNode::Leaf { bbox, .. } => bbox.contains(p),
        }
    }
}

/// An element of the concatenation of two sequences is an element of one
/// of them.
pub proof fn lemma_add_contains<A>(a: Seq<A>, b: Seq<A>, x: A)
    ensures
        (a + b).contains(x) <==> a.contains(x) || b.contains(x),
{
    if a.contains(x) {
        let i = choose|i: int| 0 <= i < a.len() && a[i] == x;
        assert((a + b)[i] == x);
    }
    if b.contains(x) {
        let i = choose|i: int| 0 <= i < b.len() && b[i] == x;
        assert((a + b)[a.len() + i] == x);
    }
    if (a + b).contains(x) {
        let i = choose|i: int| 0 <= i < (a + b).len() && (a + b)[i] == x;
        if i < a.len() {
            assert(a[i] == x);
        } else {
            assert(b[i - a.len()] == x);
        }
    }
}

/// An element of the concatenation of four sequences is an element of one
/// of them.
pub proof fn lemma_add4_contains<A>(a: Seq<A>, b: Seq<A>, c: Seq<A>, d: Seq<A>, x: A)
    ensures
        (a + b + c + d).contains(x) <==> a.contains(x) || b.contains(x) || c.contains(x)
            || d.contains(x),
{
    lemma_add_contains(a, b, x);
    lemma_add_contains(a + b, c, x);
    lemma_add_contains(a + b + c, d, x);
}

impl<Elem> BvhNode<Elem> {
    /// The node that holds the pairs `elems` over the box `bbox`: a leaf
    /// where they are at most `LEAF_CAPACITY` or the box is too small to be
    /// cut, else the branch over the quarters of the box, each pair dealt to
    /// the first quarter that holds its point and each quarter settled in
    /// the same way.
    fn settle(elems: Vec<(Elem, Vec2)>, bbox: Bbox) -> (node: BvhNode<Elem>)
        requires
            bbox.wf(),
        ensures
            node@ == NodeView::settle(elems@, bbox),
        decreases bbox.span(),
    {
        if elems.len() <= LEAF_CAPACITY || !bbox.is_divisible() {
            return BvhNode::Leaf { elems, bbox };
        }
        let mut elems = elems;
        let ghost all = elems@;
        let quads = bbox.split(bbox.center());
        let mut b0: Vec<(Elem, Vec2)> = Vec::with_capacity(LEAF_CAPACITY);
        let mut b1: Vec<(Elem, Vec2)> = Vec::with_capacity(LEAF_CAPACITY);
        let mut b2: Vec<(Elem, Vec2)> = Vec::with_capacity(LEAF_CAPACITY);
        let mut b3: Vec<(Elem, Vec2)> = Vec::with_capacity(LEAF_CAPACITY);
        let ghost mut done: int = 0;
        proof {
            reveal(Seq::filter);
            assert(all.take(0) =~= Seq::<(Elem, Vec2)>::empty());
        }
        while elems.len() > 0
            invariant
                0 <= done <= all.len(),
                elems@ == all.skip(done),
                b0@ == all.take(done).filter(lands_in(quads@, 0)),
                b1@ == all.take(done).filter(lands_in(quads@, 1)),
                b2@ == all.take(done).filter(lands_in(quads@, 2)),
                b3@ == all.take(done).filter(lands_in(quads@, 3)),
            decreases elems.len(),
        {
            let pair = elems.remove(0);
            proof {
                reveal(Seq::filter);
                let next = all.take(done + 1);
                assert(next.drop_last() =~= all.take(done));
                assert(next.last() == pair);
                assert(elems@ =~= all.skip(done + 1));
                done = done + 1;
            }
            if quads[0].contains(pair.1) {
                b0.push(pair);
            } else if quads[1].contains(pair.1) {
                b1.push(pair);
            } else if quads[2].contains(pair.1) {
                b2.push(pair);
            } else if quads[3].contains(pair.1) {
                b3.push(pair);
            }
        }
        assert(all.take(done) =~= all);
        proof {
            bbox.lemma_quarters_smaller(0);
            bbox.lemma_quarters_smaller(1);
            bbox.lemma_quarters_smaller(2);
            bbox.lemma_quarters_smaller(3);
        }
        let mut children: Vec<BvhNode<Elem>> = Vec::with_capacity(4);
        children.push(Self::settle(b0, quads[0]));
        children.push(Self::settle(b1, quads[1]));
        children.push(Self::settle(b2, quads[2]));
        children.push(Self::settle(b3, quads[3]));
        let node = BvhNode::Branch { bbox, children };
        assert(node@->children =~= NodeView::settle(all, bbox)->children);
        node
    }

    /// Whether a pair filed under `p` finds a place in this node.
    pub fn accepts(&self, p: Vec2) -> (b: bool)
        requires
            self@.wf(),
        ensures
            b == self@.accepts(p),
    {
        match self {
            BvhNode::Leaf { .. } => true,
            BvhNode::Branch { bbox, .. } => {
                proof {
                    lemma_branch_accepts(self@, p);
                }
                bbox.contains(p)
            },
        }
    }

    /// Files `e` under `refpoint`, which the node must accept: any point
    /// where it is a leaf, a point of its box where it is a branch. A leaf
    /// takes the pair and grows its box over the point; with more than
    /// `LEAF_CAPACITY` pairs, and a box that can be cut, it becomes a branch
    /// over the quarters of its box, each pair in the first quarter that
    /// holds its point, and a quarter that received more than
    /// `LEAF_CAPACITY` pairs is cut in the same way. A branch hands the pair
    /// to the first child whose box holds the point.
    pub fn insert(&mut self, e: Elem, refpoint: Vec2)
        requires
            old(self)@.wf(),
            old(self)@.accepts(refpoint),
        ensures
            final(self)@ == old(self)@.spec_insert(e, refpoint),
            final(self)@.wf(),
        decreases *old(self),
    {
        proof {
            lemma_insert_wf(self@, e, refpoint);
        }
        match self {
            BvhNode::Leaf { elems, bbox } => {
                elems.push((e, refpoint));
                bbox.expand(refpoint);
                if elems.len() > LEAF_CAPACITY && bbox.is_divisible() {
                    let mut taken: Vec<(Elem, Vec2)> = Vec::new();
                    core::mem::swap(elems, &mut taken);
                    let whole = *bbox;
                    *self = Self::settle(taken, whole);
                }
            },
            BvhNode::Branch { children, bbox } => {
                let ghost before = children@;
                let ghost views = old(self)@->children;
                assert(old(self)@.child_boxes() =~= Seq::new(4, |i: int| before[i]@.bbox()));
                proof {
                    assert forall|i: int|
                        0 <= i < 4 && before[i]@.bbox().spec_contains(
                            refpoint,
                        ) implies #[trigger] before[i]@.accepts(refpoint) by {
                        assert(views[i].wf());
                        if before[i]@ is Branch {
                            lemma_branch_accepts(before[i]@, refpoint);
                        }
                    }
                }
                if children[0].contains(refpoint) {
                    children[0].insert(e, refpoint);
                    assert(self@->children =~= views.update(0, views[0].spec_insert(e, refpoint)));
                } else if children[1].contains(refpoint) {
                    children[1].insert(e, refpoint);
                    assert(self@->children =~= views.update(1, views[1].spec_insert(e, refpoint)));
                } else if children[2].contains(refpoint) {
                    children[2].insert(e, refpoint);
                    assert(self@->children =~= views.update(2, views[2].spec_insert(e, refpoint)));
                } else {
                    children[3].insert(e, refpoint);
                    assert(self@->children =~= views.update(3, views[3].spec_insert(e, refpoint)));
                }
            },
        }
    }

    /// Appends to `out` what `f` keeps of the pairs that a query for `q`
    /// meets in this node.
    fn collect<'a, F: Fn(&Elem, Vec2) -> bool>(
        &'a self,
        q: Vec2,
        f: &F,
        out: &mut Vec<&'a Elem>,
        Ghost(prefix): Ghost<Seq<(Elem, Vec2)>>,
    )
        requires
            selects(*f, q, prefix, old(out)@),
            forall|pair: (Elem, Vec2)|
                self@.visited(q).contains(pair) ==> call_requires(*f, (&pair.0, q)),
        ensures
            selects(*f, q, prefix + self@.visited(q), final(out)@),
        decreases self,
    {
        match self {
            BvhNode::Leaf { elems, .. } => {
                let mut i: usize = 0;
                assert(self@.visited(q) == elems@);
                assert(prefix + elems@.take(0) =~= prefix);
                while i < elems.len()
                    invariant
                        i <= elems.len(),
                        selects(*f, q, prefix + elems@.take(i as int), out@),
                        forall|pair: (Elem, Vec2)|
                            elems@.contains(pair) ==> call_requires(*f, (&pair.0, q)),
                    decreases elems.len() - i,
                {
                    assert(elems@.contains(elems@[i as int]));
                    let keep = f(&elems[i].0, q);
                    let ghost before = out@;
                    if keep {
                        out.push(&elems[i].0);
                    }
                    proof {
                        let next = prefix + elems@.take(i + 1);
                        assert(next.drop_last() =~= prefix + elems@.take(i as int));
                        assert(next.last() == elems@[i as int]);
                        if keep {
                            assert(out@.drop_last() =~= before);
                        }
                    }
                    i += 1;
                }
                assert(elems@.take(elems.len() as int) =~= elems@);
            },
            BvhNode::Branch { children, bbox } => {
                if children.len() == 4 && bbox.contains(q) {
                    let ghost v3 = children[3]@.visited(q);
                    let ghost v2 = children[2]@.visited(q);
                    let ghost v1 = children[1]@.visited(q);
                    let ghost v0 = children[0]@.visited(q);
                    assert(self@.visited(q) == v3 + v2 + v1 + v0);
                    assert forall|pair: (Elem, Vec2)|
                        v3.contains(pair) || v2.contains(pair) || v1.contains(pair) || v0.contains(
                            pair,
                        ) implies call_requires(*f, (&pair.0, q)) by {
                        lemma_add4_contains(v3, v2, v1, v0, pair);
                    }
                    children[3].collect(q, f, out, Ghost(prefix));
                    children[2].collect(q, f, out, Ghost(prefix + v3));
                    children[1].collect(q, f, out, Ghost(prefix + v3 + v2));
                    children[0].collect(q, f, out, Ghost(prefix + v3 + v2 + v1));
                    assert(prefix + v3 + v2 + v1 + v0 =~= prefix + (v3 + v2 + v1 + v0));
                } else {
                    assert(prefix + self@.visited(q) =~= prefix);
                }
            },
        }
    }

    /// The elements that `contains` keeps, asked about each pair that a
    /// query for `refpoint` meets: every pair of a leaf, and of a branch
    /// those of its children, the last child first, where the branch's box
    /// holds `refpoint`.
    pub fn enclosing<'a>(&'a self, refpoint: Vec2, contains: impl Fn(&Elem, Vec2) -> bool) -> (found:
        Vec<&'a Elem>)
        requires
            forall|pair: (Elem, Vec2)|
                self@.visited(refpoint).contains(pair) ==> call_requires(
                    contains,
                    (&pair.0, refpoint),
                ),
        ensures
            selects(contains, refpoint, self@.visited(refpoint), found@),
    {
        let mut out: Vec<&Elem> = Vec::new();
        self.collect(refpoint, &contains, &mut out, Ghost(Seq::empty()));
        assert(Seq::<(Elem, Vec2)>::empty() + self@.visited(refpoint) =~= self@.visited(refpoint));
        out
    }
}

impl<Elem> Bvh<Elem> {
    /// What the index holds.
    pub open spec fn view(&self) -> NodeView<Elem> {
        self.root@
    }

    /// An index without pairs, whose root is a leaf with the box `bbox`.
    pub fn new(bbox: Bbox) -> (index: Self)
        requires
            bbox.wf(),
        ensures
            index@ == (NodeView::Leaf { elems: Seq::<(Elem, Vec2)>::empty(), bbox }),
            index@.wf(),
    {
        Bvh { root: BvhNode::Leaf { elems: Vec::with_capacity(LEAF_CAPACITY), bbox } }
    }

    /// Files `e` under `refpoint`, which the index must accept; see
    /// [`BvhNode::insert`].
    pub fn insert(&mut self, e: Elem, refpoint: Vec2)
        requires
            old(self)@.wf(),
            old(self)@.accepts(refpoint),
        ensures
            final(self)@ == old(self)@.spec_insert(e, refpoint),
            final(self)@.wf(),
    {
        self.root.insert(e, refpoint);
    }

    /// The elements that `contains` keeps of the pairs that a query for
    /// `refpoint` meets; see [`BvhNode::enclosing`].
    pub fn enclosing<'a>(&'a self, refpoint: Vec2, contains: impl Fn(&Elem, Vec2) -> bool) -> (found:
        Vec<&'a Elem>)
        requires
            forall|pair: (Elem, Vec2)|
                self@.visited(refpoint).contains(pair) ==> call_requires(
                    contains,
                    (&pair.0, refpoint),
                ),
        ensures
            selects(contains, refpoint, self@.visited(refpoint), found@),
    {
        self.root.enclosing(refpoint, contains)
    }

    /// Whether a pair filed under `p` finds a place in the index: any point
    /// while the root is a leaf, a point of the root's box once it is a
    /// branch.
    pub fn accepts(&self, p: Vec2) -> (b: bool)
        requires
            self@.wf(),
        ensures
            b == self@.accepts(p),
    {
        self.root.accepts(p)
    }
}

/// A branch accepts exactly the points of its box.
pub proof fn lemma_branch_accepts<Elem>(tree: NodeView<Elem>, r: Vec2)
    requires
        tree.wf(),
        tree is Branch,
    ensures
        tree.accepts(r) <==> tree.bbox().spec_contains(r),
{
    let bbox = tree.bbox();
    let pivot = bbox.spec_center();
    lemma_center_inside(bbox);
    bbox.lemma_split_covers(pivot, r);
    let quads = bbox.spec_split(pivot);
    assert(tree.child_boxes() =~= quads) by {
        assert forall|i: int| 0 <= i < 4 implies tree.child_boxes()[i] == quads[i] by {
            assert(tree->children[i].wf());
        }
    }
}

/// The centre of a well-formed box lies in it.
pub proof fn lemma_center_inside(bbox: Bbox)
    requires
        bbox.wf(),
    ensures
        bbox.spec_contains(bbox.spec_center()),
{
}

/// Pairs whose points lie in a box settle into a well-formed node with that
/// box.
pub proof fn lemma_settle_wf<Elem>(elems: Seq<(Elem, Vec2)>, bbox: Bbox)
    requires
        bbox.wf(),
        forall|i: int| 0 <= i < elems.len() ==> bbox.spec_contains((#[trigger] elems[i]).1),
    ensures
        NodeView::settle(elems, bbox).wf(),
        NodeView::settle(elems, bbox).bbox() == bbox,
    decreases bbox.span(),
{
    if elems.len() > LEAF_CAPACITY && bbox.divisible() {
        let quads = bbox.spec_split(bbox.spec_center());
        let node = NodeView::settle(elems, bbox);
        assert forall|i: int| 0 <= i < 4 implies {
            &&& (#[trigger] node->children[i]).wf()
            &&& node->children[i].bbox() == quads[i]
        } by {
            bbox.lemma_quarters_smaller(i);
            let part = elems.filter(lands_in(quads, i));
            assert forall|j: int| 0 <= j < part.len() implies quads[i].spec_contains(
                (#[trigger] part[j]).1,
            ) by {
                elems.lemma_filter_pred(lands_in(quads, i), j);
            }
            lemma_settle_wf(part, quads[i]);
        }
    }
}

/// A node settled from pairs whose points lie in its box holds exactly
/// those pairs.
pub proof fn lemma_settle_pairs<Elem>(elems: Seq<(Elem, Vec2)>, bbox: Bbox, x: (Elem, Vec2))
    requires
        bbox.wf(),
        forall|i: int| 0 <= i < elems.len() ==> bbox.spec_contains((#[trigger] elems[i]).1),
    ensures
        NodeView::settle(elems, bbox).pairs().contains(x) <==> elems.contains(x),
    decreases bbox.span(),
{
    if elems.len() > LEAF_CAPACITY && bbox.divisible() {
        let pivot = bbox.spec_center();
        let quads = bbox.spec_split(pivot);
        let node = NodeView::settle(elems, bbox);
        let f3 = elems.filter(lands_in(quads, 3));
        let f2 = elems.filter(lands_in(quads, 2));
        let f1 = elems.filter(lands_in(quads, 1));
        let f0 = elems.filter(lands_in(quads, 0));
        assert forall|i: int| 0 <= i < 4 implies (#[trigger] node->children[i]).pairs().contains(x)
            == elems.filter(lands_in(quads, i)).contains(x) by {
            bbox.lemma_quarters_smaller(i);
            let part = elems.filter(lands_in(quads, i));
            assert forall|j: int| 0 <= j < part.len() implies quads[i].spec_contains(
                (#[trigger] part[j]).1,
            ) by {
                elems.lemma_filter_pred(lands_in(quads, i), j);
            }
            lemma_settle_pairs(part, quads[i], x);
        }
        assert(node->children[3].pairs().contains(x) == f3.contains(x));
        assert(node->children[2].pairs().contains(x) == f2.contains(x));
        assert(node->children[1].pairs().contains(x) == f1.contains(x));
        assert(node->children[0].pairs().contains(x) == f0.contains(x));
        lemma_add4_contains(
            node->children[3].pairs(),
            node->children[2].pairs(),
            node->children[1].pairs(),
            node->children[0].pairs(),
            x,
        );
        if elems.contains(x) {
            let i = choose|i: int| 0 <= i < elems.len() && elems[i] == x;
            assert(bbox.spec_contains(elems[i].1));
            lemma_center_inside(bbox);
            bbox.lemma_split_covers(pivot, x.1);
            let quarter = first_quad(quads, x.1);
            assert(quarter is Some);
            elems.lemma_filter_contains(lands_in(quads, quarter->0), i);
        }
        if f3.contains(x) {
            elems.lemma_filter_contains_rev(lands_in(quads, 3), x);
        }
        if f2.contains(x) {
            elems.lemma_filter_contains_rev(lands_in(quads, 2), x);
        }
        if f1.contains(x) {
            elems.lemma_filter_contains_rev(lands_in(quads, 1), x);
        }
        if f0.contains(x) {
            elems.lemma_filter_contains_rev(lands_in(quads, 0), x);
        }
    }
}

/// The points of the pairs of a leaf, with one more pair, lie in the
/// leaf's box grown over the point of that pair.
proof fn lemma_grown_inside<Elem>(elems: Seq<(Elem, Vec2)>, bbox: Bbox, e: Elem, r: Vec2)
    requires
        bbox.wf(),
        forall|i: int| 0 <= i < elems.len() ==> bbox.spec_contains((#[trigger] elems[i]).1),
    ensures
        bbox.spec_expand(r).wf(),
        forall|i: int|
            0 <= i < elems.push((e, r)).len() ==> bbox.spec_expand(r).spec_contains(
                (#[trigger] elems.push((e, r))[i]).1,
            ),
        bbox.spec_contains(r) ==> bbox.spec_expand(r) == bbox,
{
    let grown = elems.push((e, r));
    let wider = bbox.spec_expand(r);
    assert forall|i: int| 0 <= i < grown.len() implies wider.spec_contains(
        (#[trigger] grown[i]).1,
    ) by {
        if i < elems.len() {
            assert(bbox.spec_contains(elems[i].1));
        }
    }
    bbox.lemma_corners();
}

/// Filing a pair under a point that a well-formed node's box holds leaves
/// the box as it was.
pub proof fn lemma_insert_keeps_bbox<Elem>(tree: NodeView<Elem>, e: Elem, r: Vec2)
    requires
        tree.wf(),
        tree.bbox().spec_contains(r),
    ensures
        tree.spec_insert(e, r).bbox() == tree.bbox(),
{
    match tree {
        NodeView::Leaf { elems, bbox } => {
            lemma_grown_inside(elems, bbox, e, r);
            lemma_settle_wf(elems.push((e, r)), bbox.spec_expand(r));
        },
        NodeView::Branch { .. } => {},
    }
}

/// Filing a pair shrinks no box: the box of the node holds after it what
/// it held before, and the point of the pair where the node is a leaf.
pub proof fn lemma_insert_box_grows<Elem>(tree: NodeView<Elem>, e: Elem, r: Vec2, q: Vec2)
    requires
        tree.wf(),
        tree.bbox().spec_contains(q),
    ensures
        tree.spec_insert(e, r).bbox().spec_contains(q),
        tree is Leaf ==> tree.spec_insert(e, r).bbox().spec_contains(r),
{
    match tree {
        NodeView::Leaf { elems, bbox } => {
            lemma_grown_inside(elems, bbox, e, r);
            lemma_settle_wf(elems.push((e, r)), bbox.spec_expand(r));
        },
        NodeView::Branch { .. } => {},
    }
}

/// Filing a pair keeps a well-formed node well-formed.
pub proof fn lemma_insert_wf<Elem>(tree: NodeView<Elem>, e: Elem, r: Vec2)
    requires
        tree.wf(),
    ensures
        tree.spec_insert(e, r).wf(),
    decreases tree,
{
    match tree {
        NodeView::Leaf { elems, bbox } => {
            lemma_grown_inside(elems, bbox, e, r);
            lemma_settle_wf(elems.push((e, r)), bbox.spec_expand(r));
        },
        NodeView::Branch { bbox, children } => {
            match first_quad(tree.child_boxes(), r) {
                Some(i) => {
                    lemma_insert_wf(children[i], e, r);
                    lemma_insert_keeps_bbox(children[i], e, r);
                },
                None => {},
            }
        },
    }
}

/// Every reference point stored in a well-formed node lies in the node's
/// box.
pub proof fn lemma_pairs_within_bbox<Elem>(tree: NodeView<Elem>, x: (Elem, Vec2))
    requires
        tree.wf(),
        tree.pairs().contains(x),
    ensures
        tree.bbox().spec_contains(x.1),
    decreases tree,
{
    match tree {
        NodeView::Leaf { elems, bbox } => {
            let i = choose|i: int| 0 <= i < elems.len() && elems[i] == x;
            assert(bbox.spec_contains(elems[i].1));
        },
        NodeView::Branch { bbox, children } => {
            let pivot = bbox.spec_center();
            lemma_center_inside(bbox);
            bbox.lemma_split_covers(pivot, x.1);
            lemma_add4_contains(
                children[3].pairs(),
                children[2].pairs(),
                children[1].pairs(),
                children[0].pairs(),
                x,
            );
            let i: int = if children[3].pairs().contains(x) {
                3
            } else if children[2].pairs().contains(x) {
                2
            } else if children[1].pairs().contains(x) {
                1
            } else {
                0
            };
            assert(children[i].wf());
            lemma_pairs_within_bbox(children[i], x);
            assert(bbox.spec_split(pivot)[i].spec_contains(x.1));
        },
    }
}

/// Whatever a query meets is a stored pair.
pub proof fn lemma_visited_within_pairs<Elem>(tree: NodeView<Elem>, q: Vec2, x: (Elem, Vec2))
    requires
        tree.visited(q).contains(x),
    ensures
        tree.pairs().contains(x),
    decreases tree,
{
    match tree {
        NodeView::Leaf { .. } => {},
        NodeView::Branch { bbox, children } => {
            if children.len() == 4 && bbox.spec_contains(q) {
                lemma_add4_contains(
                    children[3].visited(q),
                    children[2].visited(q),
                    children[1].visited(q),
                    children[0].visited(q),
                    x,
                );
                lemma_add4_contains(
                    children[3].pairs(),
                    children[2].pairs(),
                    children[1].pairs(),
                    children[0].pairs(),
                    x,
                );
                if children[3].visited(q).contains(x) {
                    lemma_visited_within_pairs(children[3], q, x);
                } else if children[2].visited(q).contains(x) {
                    lemma_visited_within_pairs(children[2], q, x);
                } else if children[1].visited(q).contains(x) {
                    lemma_visited_within_pairs(children[1], q, x);
                } else {
                    lemma_visited_within_pairs(children[0], q, x);
                }
            }
        },
    }
}

/// A query for `q` meets every stored pair whose reference point `q` sees:
/// in particular every pair filed under `q` itself.
pub proof fn lemma_visited_complete<Elem>(tree: NodeView<Elem>, q: Vec2, x: (Elem, Vec2))
    requires
        tree.wf(),
        tree.pairs().contains(x),
        tree.sees(x.1, q),
    ensures
        tree.visited(q).contains(x),
    decreases tree,
{
    match tree {
        NodeView::Leaf { .. } => {},
        NodeView::Branch { bbox, children } => {
            lemma_pairs_within_bbox(tree, x);
            lemma_add4_contains(
                children[3].visited(q),
                children[2].visited(q),
                children[1].visited(q),
                children[0].visited(q),
                x,
            );
            lemma_add4_contains(
                children[3].pairs(),
                children[2].pairs(),
                children[1].pairs(),
                children[0].pairs(),
                x,
            );
            let i: int = if children[3].pairs().contains(x) {
                3
            } else if children[2].pairs().contains(x) {
                2
            } else if children[1].pairs().contains(x) {
                1
            } else {
                0
            };
            assert(children[i].wf());
            assert(children[i].sees(x.1, q));
            lemma_visited_complete(children[i], q, x);
        },
    }
}

/// A point sees itself in every node.
pub proof fn lemma_sees_itself<Elem>(tree: NodeView<Elem>, q: Vec2)
    ensures
        tree.sees(q, q),
    decreases tree,
{
    match tree {
        NodeView::Leaf { .. } => {},
        NodeView::Branch { bbox, children } => {
            assert forall|i: int| 0 <= i < children.len() implies (#[trigger] children[i]).sees(
                q,
                q,
            ) by {
                lemma_sees_itself(children[i], q);
            }
        },
    }
}

/// Where the query point sees the reference point of every stored pair
/// whose element satisfies `p`, the query finds what a scan of all stored
/// pairs finds: the same elements in the same order. Without that the query
/// finds no more than the scan (see [`lemma_visited_within_pairs`]).
pub proof fn lemma_query_matches_scan<Elem>(tree: NodeView<Elem>, q: Vec2, p: spec_fn(Elem) -> bool)
    requires
        tree.wf(),
        forall|pair: (Elem, Vec2)|
            tree.pairs().contains(pair) && p(pair.0) ==> tree.sees(pair.1, q),
    ensures
        tree.visited(q).filter(keeps(p)) == tree.pairs().filter(keeps(p)),
    decreases tree,
{
    match tree {
        NodeView::Leaf { .. } => {},
        NodeView::Branch { bbox, children } => {
            let p3 = children[3].pairs();
            let p2 = children[2].pairs();
            let p1 = children[1].pairs();
            let p0 = children[0].pairs();
            if bbox.spec_contains(q) {
                let v3 = children[3].visited(q);
                let v2 = children[2].visited(q);
                let v1 = children[1].visited(q);
                let v0 = children[0].visited(q);
                assert forall|i: int| 0 <= i < 4 implies (#[trigger] children[i]).visited(q).filter(
                    keeps(p),
                ) == children[i].pairs().filter(keeps(p)) by {
                    assert(children[i].wf());
                    assert forall|pair: (Elem, Vec2)|
                        children[i].pairs().contains(pair) && p(pair.0) implies children[i].sees(
                        pair.1,
                        q,
                    ) by {
                        lemma_add4_contains(p3, p2, p1, p0, pair);
                        assert(tree.pairs() == p3 + p2 + p1 + p0);
                        assert(tree.pairs().contains(pair));
                        assert(tree.sees(pair.1, q));
                    }
                    lemma_query_matches_scan(children[i], q, p);
                }
                assert(children[3].visited(q).filter(keeps(p)) == p3.filter(keeps(p)));
                assert(children[2].visited(q).filter(keeps(p)) == p2.filter(keeps(p)));
                assert(children[1].visited(q).filter(keeps(p)) == p1.filter(keeps(p)));
                assert(children[0].visited(q).filter(keeps(p)) == p0.filter(keeps(p)));
                Seq::filter_distributes_over_add(v3, v2, keeps(p));
                Seq::filter_distributes_over_add(v3 + v2, v1, keeps(p));
                Seq::filter_distributes_over_add(v3 + v2 + v1, v0, keeps(p));
                Seq::filter_distributes_over_add(p3, p2, keeps(p));
                Seq::filter_distributes_over_add(p3 + p2, p1, keeps(p));
                Seq::filter_distributes_over_add(p3 + p2 + p1, p0, keeps(p));
            } else {
                let kept = tree.pairs().filter(keeps(p));
                if kept.len() > 0 {
                    let x = kept[0];
                    tree.pairs().lemma_filter_pred(keeps(p), 0);
                    assert(kept.contains(x));
                    tree.pairs().lemma_filter_contains_rev(keeps(p), x);
                    lemma_pairs_within_bbox(tree, x);
                    assert(tree.sees(x.1, q));
                }
                assert(kept =~= Seq::<(Elem, Vec2)>::empty());
                reveal(Seq::filter);
                assert(tree.visited(q).filter(keeps(p)) =~= Seq::<(Elem, Vec2)>::empty());
            }
        },
    }
}

/// Where the answers of `f` on the elements of `src` are those of `p`, a
/// pass that `f` decides keeps exactly the elements of `src` that satisfy
/// `p`, in their order.
pub proof fn lemma_selects_filter<Elem, F: Fn(&Elem, Vec2) -> bool>(
    f: F,
    q: Vec2,
    src: Seq<(Elem, Vec2)>,
    out: Seq<&Elem>,
    p: spec_fn(Elem) -> bool,
)
    requires
        selects(f, q, src, out),
        forall|i: int|
            0 <= i < src.len() ==> {
                &&& call_ensures(f, (&(#[trigger] src[i]).0, q), true) ==> p(src[i].0)
                &&& call_ensures(f, (&src[i].0, q), false) ==> !p(src[i].0)
            },
    ensures
        out.len() == src.filter(keeps(p)).len(),
        forall|i: int| 0 <= i < out.len() ==> *(#[trigger] out[i]) == src.filter(keeps(p))[i].0,
    decreases src.len(),
{
    reveal(Seq::filter);
    if src.len() > 0 {
        let e = src.last().0;
        let rest = src.drop_last();
        assert(src[src.len() - 1] == src.last());
        assert forall|i: int| 0 <= i < rest.len() implies {
            &&& call_ensures(f, (&(#[trigger] rest[i]).0, q), true) ==> p(rest[i].0)
            &&& call_ensures(f, (&rest[i].0, q), false) ==> !p(rest[i].0)
        } by {
            assert(rest[i] == src[i]);
        }
        if call_ensures(f, (&e, q), true) && out.len() > 0 && *out.last() == e && selects(
            f,
            q,
            rest,
            out.drop_last(),
        ) {
            assert(p(e));
            lemma_selects_filter(f, q, rest, out.drop_last(), p);
            assert forall|i: int| 0 <= i < out.len() implies *(#[trigger] out[i]) == src.filter(
                keeps(p),
            )[i].0 by {
                if i < out.len() - 1 {
                    assert(out[i] == out.drop_last()[i]);
                }
            }
        } else {
            assert(!p(e));
            lemma_selects_filter(f, q, rest, out, p);
        }
    }
}

/// What a query with a predicate returns is what a scan of all stored
/// pairs with that predicate finds: the same elements in the same order,
/// where the predicate answers as `p` does and the query point sees the
/// reference point of every stored pair whose element satisfies `p`.
pub proof fn lemma_enclosing_matches_scan<Elem, F: Fn(&Elem, Vec2) -> bool>(
    tree: NodeView<Elem>,
    f: F,
    q: Vec2,
    out: Seq<&Elem>,
    p: spec_fn(Elem) -> bool,
)
    requires
        tree.wf(),
        selects(f, q, tree.visited(q), out),
        forall|i: int|
            0 <= i < tree.visited(q).len() ==> {
                &&& call_ensures(f, (&(#[trigger] tree.visited(q)[i]).0, q), true) ==> p(
                    tree.visited(q)[i].0,
                )
                &&& call_ensures(f, (&tree.visited(q)[i].0, q), false) ==> !p(tree.visited(q)[i].0)
            },
        forall|pair: (Elem, Vec2)|
            tree.pairs().contains(pair) && p(pair.0) ==> tree.sees(pair.1, q),
    ensures
        out.len() == tree.pairs().filter(keeps(p)).len(),
        forall|i: int|
            0 <= i < out.len() ==> *(#[trigger] out[i]) == tree.pairs().filter(keeps(p))[i].0,
{
    lemma_selects_filter(f, q, tree.visited(q), out, p);
    lemma_query_matches_scan(tree, q, p);
}

/// What a query with a predicate that always answers yes returns holds the
/// element of every stored pair whose reference point the query point sees,
/// and of stored pairs only.
pub proof fn lemma_enclosing_all<Elem, F: Fn(&Elem, Vec2) -> bool>(
    tree: NodeView<Elem>,
    f: F,
    q: Vec2,
    out: Seq<&Elem>,
)
    requires
        tree.wf(),
        selects(f, q, tree.visited(q), out),
        forall|i: int|
            0 <= i < tree.visited(q).len() ==> !call_ensures(
                f,
                (&(#[trigger] tree.visited(q)[i]).0, q),
                false,
            ),
    ensures
        out.len() == tree.visited(q).len(),
        forall|i: int| 0 <= i < out.len() ==> *(#[trigger] out[i]) == tree.visited(q)[i].0,
        forall|i: int| 0 <= i < out.len() ==> tree.pairs().contains(#[trigger] tree.visited(q)[i]),
        forall|pair: (Elem, Vec2)|
            tree.pairs().contains(pair) && tree.sees(pair.1, q) ==> exists|i: int|
                0 <= i < out.len() && #[trigger] tree.visited(q)[i] == pair,
{
    lemma_selects_all(f, q, tree.visited(q), out);
    assert forall|i: int| 0 <= i < out.len() implies tree.pairs().contains(
        #[trigger] tree.visited(q)[i],
    ) by {
        assert(tree.visited(q).contains(tree.visited(q)[i]));
        lemma_visited_within_pairs(tree, q, tree.visited(q)[i]);
    }
    assert forall|pair: (Elem, Vec2)|
        tree.pairs().contains(pair) && tree.sees(pair.1, q) implies exists|i: int|
        0 <= i < out.len() && #[trigger] tree.visited(q)[i] == pair by {
        lemma_visited_complete(tree, q, pair);
        let i = choose|i: int| 0 <= i < tree.visited(q).len() && tree.visited(q)[i] == pair;
        assert(tree.visited(q)[i] == pair);
    }
}

/// A pass that never answers no keeps every element.
proof fn lemma_selects_all<Elem, F: Fn(&Elem, Vec2) -> bool>(
    f: F,
    q: Vec2,
    src: Seq<(Elem, Vec2)>,
    out: Seq<&Elem>,
)
    requires
        selects(f, q, src, out),
        forall|i: int| 0 <= i < src.len() ==> !call_ensures(f, (&(#[trigger] src[i]).0, q), false),
    ensures
        out.len() == src.len(),
        forall|i: int| 0 <= i < out.len() ==> *(#[trigger] out[i]) == src[i].0,
    decreases src.len(),
{
    if src.len() > 0 {
        let rest = src.drop_last();
        assert(src[src.len() - 1] == src.last());
        assert forall|i: int| 0 <= i < rest.len() implies !call_ensures(
            f,
            (&(#[trigger] rest[i]).0, q),
            false,
        ) by {
            assert(rest[i] == src[i]);
        }
        lemma_selects_all(f, q, rest, out.drop_last());
        assert forall|i: int| 0 <= i < out.len() implies *(#[trigger] out[i]) == src[i].0 by {
            if i < out.len() - 1 {
                assert(out[i] == out.drop_last()[i]);
            }
        }
    }
}

/// After a pair was filed in a well-formed node that accepts its point, the
/// node holds what it held before and the new pair.
pub proof fn lemma_insert_pairs<Elem>(tree: NodeView<Elem>, e: Elem, r: Vec2, x: (Elem, Vec2))
    requires
        tree.wf(),
        tree.accepts(r),
    ensures
        tree.spec_insert(e, r).pairs().contains(x) <==> tree.pairs().contains(x) || x == (e, r),
    decreases tree,
{
    match tree {
        NodeView::Leaf { elems, bbox } => {
            let grown = elems.push((e, r));
            assert(grown.contains(x) <==> elems.contains(x) || x == (e, r)) by {
                if elems.contains(x) {
                    let i = choose|i: int| 0 <= i < elems.len() && elems[i] == x;
                    assert(grown[i] == x);
                }
                if x == (e, r) {
                    assert(grown[grown.len() - 1] == x);
                }
                if grown.contains(x) {
                    let i = choose|i: int| 0 <= i < grown.len() && grown[i] == x;
                    if i < elems.len() {
                        assert(elems[i] == x);
                    }
                }
            }
            lemma_grown_inside(elems, bbox, e, r);
            lemma_settle_pairs(grown, bbox.spec_expand(r), x);
        },
        NodeView::Branch { bbox, children } => {
            let i = first_quad(tree.child_boxes(), r)->0;
            let child = children[i];
            let after = children.update(i, child.spec_insert(e, r));
            assert(child.wf());
            assert(child.accepts(r)) by {
                if child is Branch {
                    lemma_branch_accepts(child, r);
                }
            }
            lemma_insert_pairs(child, e, r, x);
            lemma_add4_contains(
                children[3].pairs(),
                children[2].pairs(),
                children[1].pairs(),
                children[0].pairs(),
                x,
            );
            assert(after.len() == 4);
            lemma_add4_contains(
                after[3].pairs(),
                after[2].pairs(),
                after[1].pairs(),
                after[0].pairs(),
                x,
            );
        },
    }
}

} // verus!
