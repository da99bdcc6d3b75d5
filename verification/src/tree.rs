//! The document tree: an arena of elements addressed by stable index, with
//! parent and child links, and the spec-level vocabulary the cascade is
//! specified with (subtrees, ancestor chains, caption exemption).

use vstd::prelude::*;

verus! {

/// The closed set of element kinds the cascade distinguishes.
#[derive(Clone, Copy, Debug, PartialEq, Eq, Structural)]
pub enum ElementKind {
    /// A container whose disabled state cascades to listed controls below it.
    GroupingContainer,
    /// The caption kind; the first caption-kind child of a container is exempt
    /// from that container's cascade.
    Caption,
    ButtonLike,
    TextInput,
    Selection,
    MultilineText,
    Other,
}

/// The four interactive control kinds that take part in the cascade.
pub open spec fn is_listed_control(k: ElementKind) -> bool {
    ||| k == ElementKind::ButtonLike
    ||| k == ElementKind::TextInput
    ||| k == ElementKind::Selection
    ||| k == ElementKind::MultilineText
}

/// Executable twin of [`is_listed_control`].
pub fn listed_control(k: ElementKind) -> (r: bool)
    ensures
        r == is_listed_control(k),
{
    match k {
        ElementKind::ButtonLike => true,
        ElementKind::TextInput => true,
        ElementKind::Selection => true,
        ElementKind::MultilineText => true,
        _ => false,
    }
}

/// One node of the document tree.
pub struct Element {
    pub kind: ElementKind,
    /// Effective disabled state, after any cascade from ancestors.
    pub disabled_state: bool,
    /// Effective enabled state; kept complementary to `disabled_state`.
    pub enabled_state: bool,
    /// Whether the element's own disabling attribute is present.
    pub own_disabled_attribute_present: bool,
    /// Index of the parent node, if attached; always below the node's own index.
    pub parent: Option<usize>,
    /// Indices of the child nodes, in insertion order; always above the node's
    /// own index.
    pub children: Vec<usize>,
}

/// The arena. Ownership lives with the tree collaborator; the cascade only
/// borrows it for the duration of one propagation pass.
pub struct Tree {
    pub nodes: Vec<Element>,
}

impl Tree {
    pub open spec fn len(self) -> int {
        self.nodes@.len() as int
    }

    pub open spec fn node(self, i: int) -> Element {
        self.nodes@[i]
    }

    pub open spec fn valid(self, i: int) -> bool {
        0 <= i < self.len()
    }

    pub open spec fn kind_of(self, i: int) -> ElementKind {
        self.node(i).kind
    }

    pub open spec fn children_of(self, i: int) -> Seq<usize> {
        self.node(i).children@
    }

    pub open spec fn parent_of(self, i: int) -> Option<usize> {
        self.node(i).parent
    }

    /// Well-formed arena: children stand strictly after their parent (so the
    /// tree is acyclic and walks terminate), child lists repeat no index, and
    /// parent links agree with child lists in both directions.
    pub open spec fn wf(self) -> bool {
        &&& forall|p: int, j: int|
            self.valid(p) && 0 <= j < self.children_of(p).len() ==> {
                let c = #[trigger] self.children_of(p)[j];
                &&& p < c as int
                &&& (c as int) < self.len()
                &&& self.parent_of(c as int) == Some(p as usize)
            }
        &&& forall|p: int, j1: int, j2: int|
            self.valid(p) && 0 <= j1 < j2 < self.children_of(p).len()
                ==> #[trigger] self.children_of(p)[j1] != #[trigger] self.children_of(p)[j2]
        &&& forall|c: int|
            self.valid(c) ==> match #[trigger] self.parent_of(c) {
                Some(p) => (p as int) < c && self.children_of(p as int).contains(c as usize),
                None => true,
            }
    }

    /// `x` lies in the subtree rooted at `r` (root included).
    pub open spec fn in_subtree(self, r: int, x: int) -> bool
        decreases self.len() - r,
    {
        if 0 <= r < self.len() {
            ||| x == r
            ||| exists|j: int|
                0 <= j < self.children_of(r).len()
                    && r < #[trigger] self.children_of(r)[j] as int
                    && (self.children_of(r)[j] as int) < self.len()
                    && self.in_subtree(self.children_of(r)[j] as int, x)
        } else {
            false
        }
    }

    /// The parent chain upward from `x` reaches `a` (`x` itself included).
    pub open spec fn chain_reaches(self, x: int, a: int) -> bool
        decreases x,
    {
        if 0 <= x < self.len() {
            ||| x == a
            ||| match self.parent_of(x) {
                Some(p) => (p as int) < x && self.chain_reaches(p as int, a),
                None => false,
            }
        } else {
            false
        }
    }

    /// `a` is a grouping container whose effective state is disabled.
    pub open spec fn disabled_container(self, a: int) -> bool {
        &&& self.kind_of(a) == ElementKind::GroupingContainer
        &&& self.node(a).disabled_state
    }

    /// Some node on the chain starting at `o` (inclusive) is a disabled
    /// grouping container.
    pub open spec fn dca_from(self, o: Option<usize>) -> bool
        decreases
                (match o {
                    Some(p) => p as int + 1,
                    None => 0,
                }),
    {
        match o {
            None => false,
            Some(p) => {
                if (p as int) < self.len() {
                    ||| self.disabled_container(p as int)
                    ||| match self.parent_of(p as int) {
                        Some(q) => (q as int) < (p as int) && self.dca_from(Some(q)),
                        None => false,
                    }
                } else {
                    false
                }
            },
        }
    }

    /// Child slot `j` of `c` is the caption-exempt slot: it holds a
    /// caption-kind child and no earlier slot does.
    pub open spec fn exempt_child_at(self, c: int, j: int) -> bool {
        &&& self.kind_of(self.children_of(c)[j] as int) == ElementKind::Caption
        &&& forall|k: int|
            0 <= k < j ==> self.kind_of(#[trigger] self.children_of(c)[k] as int)
                != ElementKind::Caption
    }

    /// `x` is a listed control that container `c`'s cascade reaches: it lies in
    /// the subtree of a non-exempt direct child of `c`.
    pub open spec fn is_cascade_target(self, c: int, x: int) -> bool {
        exists|j: int|
            0 <= j < self.children_of(c).len() && !self.exempt_child_at(c, j) && self.in_subtree(
                #[trigger] self.children_of(c)[j] as int,
                x,
            ) && is_listed_control(self.kind_of(x))
    }

    /// Some node on the chain starting at `o` reaches `a`.
    pub open spec fn chain_from(self, o: Option<usize>, a: int) -> bool {
        match o {
            Some(p) => self.chain_reaches(p as int, a),
            None => false,
        }
    }

    /// The two trees have the same shape: length, kinds, child lists and
    /// parent links (states and attributes may differ).
    pub open spec fn same_structure(self, other: Tree) -> bool {
        &&& self.len() == other.len()
        &&& forall|i: int|
            #![trigger self.node(i)]
            #![trigger other.node(i)]
            0 <= i < self.len() ==> {
                &&& other.node(i).kind == self.node(i).kind
                &&& other.node(i).children@ == self.node(i).children@
                &&& other.node(i).parent == self.node(i).parent
            }
    }

    /// Every node's own disabling attribute is the same in both trees.
    pub open spec fn same_attributes(self, other: Tree) -> bool {
        forall|i: int|
            #![trigger self.node(i)]
            #![trigger other.node(i)]
            0 <= i < self.len() ==> other.node(i).own_disabled_attribute_present == self.node(
                i,
            ).own_disabled_attribute_present
    }

    /// Node `i` holds the same effective state in both trees.
    pub open spec fn state_unchanged(self, other: Tree, i: int) -> bool {
        &&& other.node(i).disabled_state == self.node(i).disabled_state
        &&& other.node(i).enabled_state == self.node(i).enabled_state
    }

    /// Every listed control's state flags are complementary.
    pub open spec fn states_complementary(self) -> bool {
        forall|x: int|
            0 <= x < self.len() && is_listed_control(self.kind_of(x)) ==> (#[trigger] self.node(
                x,
            )).enabled_state == !self.node(x).disabled_state
    }

    /// `x` lies in the caption-exempt subtree of some grouping container.
    pub open spec fn caption_exempt(self, x: int) -> bool {
        exists|c: int, j: int|
            {
                &&& 0 <= c < self.len()
                &&& self.kind_of(c) == ElementKind::GroupingContainer
                &&& 0 <= j < self.children_of(c).len()
                &&& #[trigger] self.exempt_child_at(c, j)
                &&& self.in_subtree(self.children_of(c)[j] as int, x)
            }
    }

    /// Every listed control that the caption rule does not exempt is disabled
    /// exactly when its own disabling attribute is present or some ancestor
    /// grouping container is disabled.
    pub open spec fn controls_derived(self) -> bool {
        forall|x: int|
            0 <= x < self.len() && is_listed_control(self.kind_of(x)) && !self.caption_exempt(x)
                ==> (#[trigger] self.node(x)).disabled_state == (self.node(
                x,
            ).own_disabled_attribute_present || self.dca_from(self.parent_of(x)))
    }
}

/// Node indices fit in `usize`, so casts between `int` and `usize` round-trip
/// for every valid index.
pub proof fn lemma_len_fits(t: Tree)
    ensures
        t.len() <= usize::MAX,
{
    assert(vstd::std_specs::vec::spec_vec_len(&t.nodes) == t.nodes@.len());
}

/// Subtree membership keeps indices in range and never below the root.
pub proof fn lemma_in_subtree_bounds(t: Tree, r: int, x: int)
    requires
        t.in_subtree(r, x),
    ensures
        0 <= r <= x < t.len(),
    decreases t.len() - r,
{
    if x != r {
        let j = choose|j: int|
            0 <= j < t.children_of(r).len() && r < #[trigger] t.children_of(r)[j] as int && (
            t.children_of(r)[j] as int) < t.len() && t.in_subtree(t.children_of(r)[j] as int, x);
        lemma_in_subtree_bounds(t, t.children_of(r)[j] as int, x);
    }
}

/// In a well-formed tree the subtree of `r` is `r` plus the subtrees of its
/// children, with no side conditions.
pub proof fn lemma_in_subtree_unfold(t: Tree, r: int, x: int)
    requires
        t.wf(),
        t.valid(r),
    ensures
        t.in_subtree(r, x) <==> (x == r || exists|j: int|
            0 <= j < t.children_of(r).len() && t.in_subtree(
                #[trigger] t.children_of(r)[j] as int,
                x,
            )),
{
    if x != r && t.in_subtree(r, x) {
        let j = choose|j: int|
            0 <= j < t.children_of(r).len() && r < #[trigger] t.children_of(r)[j] as int && (
            t.children_of(r)[j] as int) < t.len() && t.in_subtree(t.children_of(r)[j] as int, x);
        assert(t.in_subtree(t.children_of(r)[j] as int, x));
    }
    if x != r && exists|j: int|
        0 <= j < t.children_of(r).len() && t.in_subtree(#[trigger] t.children_of(r)[j] as int, x) {
        let j = choose|j: int|
            0 <= j < t.children_of(r).len() && t.in_subtree(
                #[trigger] t.children_of(r)[j] as int,
                x,
            );
        assert(r < t.children_of(r)[j] as int && (t.children_of(r)[j] as int) < t.len());
        assert(t.in_subtree(r, x));
    }
}

/// A child of a node in `r`'s subtree is itself in `r`'s subtree.
pub proof fn lemma_in_subtree_child(t: Tree, r: int, p: int, j: int)
    requires
        t.wf(),
        t.in_subtree(r, p),
        0 <= j < t.children_of(p).len(),
    ensures
        t.in_subtree(r, t.children_of(p)[j] as int),
    decreases t.len() - r,
{
    lemma_in_subtree_bounds(t, r, p);
    if p == r {
        assert(t.in_subtree(t.children_of(r)[j] as int, t.children_of(r)[j] as int));
    } else {
        let j0 = choose|j0: int|
            0 <= j0 < t.children_of(r).len() && r < #[trigger] t.children_of(r)[j0] as int && (
            t.children_of(r)[j0] as int) < t.len() && t.in_subtree(t.children_of(r)[j0] as int, p);
        lemma_in_subtree_child(t, t.children_of(r)[j0] as int, p, j);
    }
}

/// The chain stays in range and never rises above the start.
pub proof fn lemma_chain_bounds(t: Tree, x: int, a: int)
    requires
        t.chain_reaches(x, a),
    ensures
        0 <= a <= x < t.len(),
    decreases x,
{
    if x != a {
        let p = t.parent_of(x)->Some_0;
        lemma_chain_bounds(t, p as int, a);
    }
}

/// Extending a chain by one parent link.
pub proof fn lemma_chain_extend(t: Tree, x: int, c: int, r: usize)
    requires
        t.wf(),
        t.chain_reaches(x, c),
        t.valid(c),
        t.parent_of(c) == Some(r),
    ensures
        t.chain_reaches(x, r as int),
    decreases x,
{
    if x == c {
        assert((r as int) < c);
        assert(t.valid(r as int));
        assert(t.chain_reaches(r as int, r as int));
    } else {
        let p = t.parent_of(x)->Some_0;
        lemma_chain_extend(t, p as int, c, r);
    }
}

/// Subtree membership gives a parent chain back to the root.
pub proof fn lemma_in_subtree_to_chain(t: Tree, r: int, x: int)
    requires
        t.wf(),
        t.in_subtree(r, x),
    ensures
        t.chain_reaches(x, r),
    decreases t.len() - r,
{
    lemma_in_subtree_bounds(t, r, x);
    if x == r {
        assert(t.chain_reaches(x, r));
    } else {
        let j = choose|j: int|
            0 <= j < t.children_of(r).len() && r < #[trigger] t.children_of(r)[j] as int && (
            t.children_of(r)[j] as int) < t.len() && t.in_subtree(t.children_of(r)[j] as int, x);
        let c = t.children_of(r)[j] as int;
        lemma_in_subtree_to_chain(t, c, x);
        lemma_len_fits(t);
        assert(t.parent_of(c) == Some(r as usize));
        lemma_chain_extend(t, x, c, r as usize);
        assert((r as usize) as int == r);
    }
}

/// A parent chain back to `r` gives subtree membership.
pub proof fn lemma_chain_to_in_subtree(t: Tree, r: int, x: int)
    requires
        t.wf(),
        t.chain_reaches(x, r),
    ensures
        t.in_subtree(r, x),
    decreases x,
{
    lemma_chain_bounds(t, x, r);
    lemma_len_fits(t);
    if x == r {
        assert(t.in_subtree(r, x));
    } else {
        let p = t.parent_of(x)->Some_0 as int;
        lemma_chain_to_in_subtree(t, r, p);
        assert(t.children_of(p).contains(x as usize));
        let j = choose|j: int| 0 <= j < t.children_of(p).len() && t.children_of(p)[j] == x as usize;
        lemma_in_subtree_child(t, r, p, j);
        assert((x as usize) as int == x);
    }
}

/// Two chains from the same node are nested: one endpoint reaches the other.
pub proof fn lemma_chain_linear(t: Tree, x: int, a: int, b: int)
    requires
        t.chain_reaches(x, a),
        t.chain_reaches(x, b),
    ensures
        t.chain_reaches(a, b) || t.chain_reaches(b, a),
    decreases x,
{
    if x == a || x == b {
    } else {
        let p = t.parent_of(x)->Some_0 as int;
        lemma_chain_linear(t, p, a, b);
    }
}

/// A disabled grouping container above `x` makes the ancestor check positive.
pub proof fn lemma_dca_of_chain(t: Tree, x: int, a: int)
    requires
        t.wf(),
        t.chain_reaches(x, a),
        a != x,
        t.disabled_container(a),
    ensures
        t.dca_from(t.parent_of(x)),
    decreases x,
{
    let p = t.parent_of(x)->Some_0;
    if p as int == a {
        assert(t.disabled_container(p as int));
    } else {
        lemma_dca_of_chain(t, p as int, a);
        assert(t.dca_from(t.parent_of(p as int)));
        let q = t.parent_of(p as int)->Some_0;
        assert((q as int) < (p as int)) by {
            assert(t.valid(p as int));
        }
    }
}

/// A positive ancestor check names a disabled grouping container above `x`.
pub proof fn lemma_dca_to_chain(t: Tree, x: int)
    requires
        t.wf(),
        t.valid(x),
        t.dca_from(t.parent_of(x)),
    ensures
        exists|a: int| t.chain_reaches(x, a) && a != x && t.disabled_container(a),
    decreases x,
{
    let p = t.parent_of(x)->Some_0 as int;
    assert(p < x) by {
        assert(t.valid(x));
    }
    assert(t.chain_reaches(p, p));
    assert(t.chain_reaches(x, p));
    if t.disabled_container(p) {
        assert(t.chain_reaches(x, p) && p != x && t.disabled_container(p));
    } else {
        lemma_dca_to_chain(t, p);
        let a = choose|a: int| t.chain_reaches(p, a) && a != p && t.disabled_container(a);
        lemma_chain_bounds(t, p, a);
        assert(t.chain_reaches(x, a) && a != x && t.disabled_container(a));
    }
}

/// The ancestor check reads only the states of grouping containers on the
/// chain: if those agree between two trees of the same shape, it agrees.
pub proof fn lemma_dca_frame(t1: Tree, t2: Tree, o: Option<usize>)
    requires
        t1.same_structure(t2),
        forall|a: int|
            0 <= a < t1.len() && t1.kind_of(a) == ElementKind::GroupingContainer && t1.chain_from(
                o,
                a,
            ) ==> t2.node(a).disabled_state == t1.node(a).disabled_state,
    ensures
        t1.dca_from(o) == t2.dca_from(o),
    decreases
            (match o {
                Some(p) => p as int + 1,
                None => 0,
            }),
{
    match o {
        None => {},
        Some(p) => {
            if (p as int) < t1.len() {
                assert(t1.chain_reaches(p as int, p as int));
                assert(t1.chain_from(o, p as int));
                assert(t2.kind_of(p as int) == t1.kind_of(p as int));
                assert(t2.parent_of(p as int) == t1.parent_of(p as int));
                match t1.parent_of(p as int) {
                    Some(q) => {
                        if (q as int) < (p as int) {
                            assert forall|a: int|
                                0 <= a < t1.len() && t1.kind_of(a)
                                    == ElementKind::GroupingContainer && t1.chain_from(
                                    Some(q),
                                    a,
                                ) implies t2.node(a).disabled_state
                                == t1.node(a).disabled_state by {
                                assert(t1.chain_reaches(p as int, a));
                            }
                            lemma_dca_frame(t1, t2, Some(q));
                        }
                    },
                    None => {},
                }
            }
        },
    }
}

/// Subtrees of two distinct children of one parent do not meet.
pub proof fn lemma_sibling_subtrees_disjoint(t: Tree, c1: int, c2: int, x: int)
    requires
        t.wf(),
        t.valid(c1),
        t.valid(c2),
        c1 != c2,
        t.parent_of(c1) == t.parent_of(c2),
        t.parent_of(c1) is Some,
        t.in_subtree(c1, x),
    ensures
        !t.in_subtree(c2, x),
{
    if t.in_subtree(c2, x) {
        let n = t.parent_of(c1)->Some_0 as int;
        lemma_in_subtree_to_chain(t, c1, x);
        lemma_in_subtree_to_chain(t, c2, x);
        lemma_chain_linear(t, x, c1, c2);
        if t.chain_reaches(c1, c2) {
            assert(n < c2) by {
                assert(t.valid(c2));
            }
            assert(t.chain_reaches(n, c2));
            lemma_chain_bounds(t, n, c2);
        } else {
            assert(n < c1) by {
                assert(t.valid(c1));
            }
            assert(t.chain_reaches(n, c1));
            lemma_chain_bounds(t, n, c1);
        }
    }
}

/// Well-formedness depends only on the tree's shape.
pub proof fn lemma_same_structure_wf(t1: Tree, t2: Tree)
    requires
        t1.same_structure(t2),
        t1.wf(),
    ensures
        t2.wf(),
{
    assert forall|p: int, j: int|
        t2.valid(p) && 0 <= j < t2.children_of(p).len() implies {
        let c = #[trigger] t2.children_of(p)[j];
        &&& p < c as int
        &&& (c as int) < t2.len()
        &&& t2.parent_of(c as int) == Some(p as usize)
    } by {
        assert(t2.children_of(p) == t1.children_of(p));
        assert(t1.children_of(p)[j] == t2.children_of(p)[j]);
        let c = t1.children_of(p)[j];
        assert(p < c as int && (c as int) < t1.len() && t1.parent_of(c as int) == Some(p as usize));
        assert(t2.parent_of(c as int) == t1.parent_of(c as int));
    }
    assert forall|p: int, j1: int, j2: int|
        t2.valid(p) && 0 <= j1 < j2 < t2.children_of(p).len() implies #[trigger] t2.children_of(p)[j1]
        != #[trigger] t2.children_of(p)[j2] by {
        assert(t2.children_of(p) == t1.children_of(p));
    }
    assert forall|c: int| t2.valid(c) implies match #[trigger] t2.parent_of(c) {
        Some(p) => (p as int) < c && t2.children_of(p as int).contains(c as usize),
        None => true,
    } by {
        assert(t2.parent_of(c) == t1.parent_of(c));
        match t1.parent_of(c) {
            Some(p) => {
                assert((p as int) < c && t1.children_of(p as int).contains(c as usize));
                assert(t2.children_of(p as int) == t1.children_of(p as int));
            },
            None => {},
        }
    }
}

/// Subtree membership depends only on the tree's shape.
pub proof fn lemma_same_structure_in_subtree(t1: Tree, t2: Tree, r: int, x: int)
    requires
        t1.same_structure(t2),
    ensures
        t1.in_subtree(r, x) == t2.in_subtree(r, x),
    decreases t1.len() - r,
{
    if 0 <= r < t1.len() {
        assert(t1.children_of(r) == t2.children_of(r));
        assert forall|j: int|
            0 <= j < t1.children_of(r).len() && r < t1.children_of(r)[j] as int && (t1.children_of(
                r,
            )[j] as int) < t1.len() implies t1.in_subtree(#[trigger] t1.children_of(r)[j] as int, x)
            == t2.in_subtree(t1.children_of(r)[j] as int, x) by {
            lemma_same_structure_in_subtree(t1, t2, t1.children_of(r)[j] as int, x);
        }
        if t1.in_subtree(r, x) && x != r {
            let j = choose|j: int|
                0 <= j < t1.children_of(r).len() && r < #[trigger] t1.children_of(r)[j] as int && (
                t1.children_of(r)[j] as int) < t1.len() && t1.in_subtree(
                    t1.children_of(r)[j] as int,
                    x,
                );
            assert(t2.in_subtree(t2.children_of(r)[j] as int, x));
            assert(t2.in_subtree(r, x));
        }
        if t2.in_subtree(r, x) && x != r {
            let j = choose|j: int|
                0 <= j < t2.children_of(r).len() && r < #[trigger] t2.children_of(r)[j] as int && (
                t2.children_of(r)[j] as int) < t2.len() && t2.in_subtree(
                    t2.children_of(r)[j] as int,
                    x,
                );
            assert(t1.in_subtree(t1.children_of(r)[j] as int, x));
            assert(t1.in_subtree(r, x));
        }
    }
}

/// Parent chains depend only on the tree's shape.
pub proof fn lemma_same_structure_chain(t1: Tree, t2: Tree, x: int, a: int)
    requires
        t1.same_structure(t2),
    ensures
        t1.chain_reaches(x, a) == t2.chain_reaches(x, a),
    decreases x,
{
    if 0 <= x < t1.len() {
        assert(t2.parent_of(x) == t1.parent_of(x));
        match t1.parent_of(x) {
            Some(p) => {
                if (p as int) < x {
                    lemma_same_structure_chain(t1, t2, p as int, a);
                }
            },
            None => {},
        }
    }
}

/// The caption-exempt slot depends only on the tree's shape.
pub proof fn lemma_same_structure_exempt(t1: Tree, t2: Tree, c: int, j: int)
    requires
        t1.same_structure(t2),
        t1.wf(),
        t1.valid(c),
        0 <= j < t1.children_of(c).len(),
    ensures
        t1.exempt_child_at(c, j) == t2.exempt_child_at(c, j),
{
    assert(t1.children_of(c) == t2.children_of(c));
    assert forall|k: int| 0 <= k <= j implies t2.kind_of(#[trigger] t2.children_of(c)[k] as int)
        == t1.kind_of(t1.children_of(c)[k] as int) by {
        assert(t1.valid(t1.children_of(c)[k] as int));
    }
}

/// Cascade targets depend only on the tree's shape.
pub proof fn lemma_same_structure_target(t1: Tree, t2: Tree, c: int, x: int)
    requires
        t1.same_structure(t2),
        t1.wf(),
        t1.valid(c),
    ensures
        t1.is_cascade_target(c, x) == t2.is_cascade_target(c, x),
{
    assert(t1.children_of(c) == t2.children_of(c));
    if t1.is_cascade_target(c, x) {
        let j = choose|j: int|
            0 <= j < t1.children_of(c).len() && !t1.exempt_child_at(c, j) && t1.in_subtree(
                #[trigger] t1.children_of(c)[j] as int,
                x,
            ) && is_listed_control(t1.kind_of(x));
        lemma_same_structure_exempt(t1, t2, c, j);
        lemma_same_structure_in_subtree(t1, t2, t1.children_of(c)[j] as int, x);
        lemma_in_subtree_bounds(t1, t1.children_of(c)[j] as int, x);
        assert(t2.kind_of(x) == t1.kind_of(x));
        assert(t2.is_cascade_target(c, x));
    }
    if t2.is_cascade_target(c, x) {
        let j = choose|j: int|
            0 <= j < t2.children_of(c).len() && !t2.exempt_child_at(c, j) && t2.in_subtree(
                #[trigger] t2.children_of(c)[j] as int,
                x,
            ) && is_listed_control(t2.kind_of(x));
        lemma_same_structure_exempt(t1, t2, c, j);
        lemma_same_structure_in_subtree(t1, t2, t1.children_of(c)[j] as int, x);
        lemma_in_subtree_bounds(t2, t2.children_of(c)[j] as int, x);
        assert(t1.kind_of(x) == t2.kind_of(x));
        assert(t1.is_cascade_target(c, x));
    }
}

/// Caption exemption depends only on the tree's shape.
pub proof fn lemma_same_structure_caption_exempt(t1: Tree, t2: Tree, x: int)
    requires
        t1.same_structure(t2),
        t1.wf(),
    ensures
        t1.caption_exempt(x) == t2.caption_exempt(x),
{
    if t1.caption_exempt(x) {
        let (c, j) = choose|c: int, j: int|
            {
                &&& 0 <= c < t1.len()
                &&& t1.kind_of(c) == ElementKind::GroupingContainer
                &&& 0 <= j < t1.children_of(c).len()
                &&& #[trigger] t1.exempt_child_at(c, j)
                &&& t1.in_subtree(t1.children_of(c)[j] as int, x)
            };
        lemma_same_structure_exempt(t1, t2, c, j);
        lemma_same_structure_in_subtree(t1, t2, t1.children_of(c)[j] as int, x);
        assert(t2.children_of(c) == t1.children_of(c));
        assert(t2.exempt_child_at(c, j) && t2.in_subtree(t2.children_of(c)[j] as int, x));
        assert(t2.caption_exempt(x));
    }
    if t2.caption_exempt(x) {
        let (c, j) = choose|c: int, j: int|
            {
                &&& 0 <= c < t2.len()
                &&& t2.kind_of(c) == ElementKind::GroupingContainer
                &&& 0 <= j < t2.children_of(c).len()
                &&& #[trigger] t2.exempt_child_at(c, j)
                &&& t2.in_subtree(t2.children_of(c)[j] as int, x)
            };
        assert(t2.children_of(c) == t1.children_of(c));
        lemma_same_structure_exempt(t1, t2, c, j);
        lemma_same_structure_in_subtree(t1, t2, t1.children_of(c)[j] as int, x);
        assert(t1.exempt_child_at(c, j) && t1.in_subtree(t1.children_of(c)[j] as int, x));
        assert(t1.caption_exempt(x));
    }
}

} // verus!
