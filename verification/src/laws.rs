//! The guarantees the cascade gives as a whole, proved from the contracts of
//! the propagator and the observer.

use vstd::prelude::*;

use crate::cascade::cascade_applied;
use crate::cascade::cascade_rel;
use crate::fieldset::AttributeMutation;
use crate::fieldset::ObserverOutcome;
use crate::fieldset::observer_rel;
use crate::tree::ElementKind;
use crate::tree::Tree;
use crate::tree::is_listed_control;
use crate::tree::lemma_chain_bounds;
use crate::tree::lemma_chain_extend;
use crate::tree::lemma_chain_to_in_subtree;
use crate::tree::lemma_dca_frame;
use crate::tree::lemma_dca_of_chain;
use crate::tree::lemma_dca_to_chain;
use crate::tree::lemma_in_subtree_bounds;
use crate::tree::lemma_in_subtree_to_chain;
use crate::tree::lemma_in_subtree_unfold;
use crate::tree::lemma_len_fits;
use crate::tree::lemma_same_structure_caption_exempt;
use crate::tree::lemma_same_structure_chain;
use crate::tree::lemma_same_structure_wf;
use crate::tree::lemma_sibling_subtrees_disjoint;

verus! {

/// A cascade pass keeps every listed control's two state flags complementary.
pub proof fn lemma_cascade_preserves_complementary(pre: Tree, post: Tree, c: int, target: bool)
    requires
        pre.wf(),
        0 <= c < pre.len(),
        cascade_rel(pre, post, c, target),
        pre.states_complementary(),
    ensures
        post.states_complementary(),
{
    assert forall|x: int|
        0 <= x < post.len() && is_listed_control(post.kind_of(x)) implies (#[trigger] post.node(
        x,
    )).enabled_state == !post.node(x).disabled_state by {
        assert(post.kind_of(x) == pre.kind_of(x));
        if pre.is_cascade_target(c, x) {
            assert(cascade_applied(post, x, target));
        } else if x != c {
            assert(pre.state_unchanged(post, x));
            assert((#[trigger] pre.node(x)).enabled_state == !pre.node(x).disabled_state);
        }
    }
}

/// A cascade pass keeps every listed control outside the caption-exempt
/// subtrees disabled exactly when its own disabling attribute is present or
/// some ancestor grouping container is disabled.
pub proof fn lemma_cascade_preserves_derivation(pre: Tree, post: Tree, c: int, target: bool)
    requires
        pre.wf(),
        0 <= c < pre.len(),
        pre.kind_of(c) == ElementKind::GroupingContainer,
        cascade_rel(pre, post, c, target),
        pre.controls_derived(),
    ensures
        post.controls_derived(),
{
    lemma_same_structure_wf(pre, post);
    lemma_len_fits(pre);
    assert forall|x: int|
        0 <= x < post.len() && is_listed_control(post.kind_of(x)) && !post.caption_exempt(x)
        implies (#[trigger] post.node(x)).disabled_state == (post.node(
        x,
    ).own_disabled_attribute_present || post.dca_from(post.parent_of(x))) by {
        assert(post.kind_of(x) == pre.kind_of(x));
        lemma_same_structure_caption_exempt(pre, post, x);
        assert(!pre.caption_exempt(x));
        assert(x != c);
        if pre.is_cascade_target(c, x) {
            assert(cascade_applied(post, x, target));
            if target {
                let j = choose|j: int|
                    0 <= j < pre.children_of(c).len() && !pre.exempt_child_at(c, j)
                        && pre.in_subtree(#[trigger] pre.children_of(c)[j] as int, x)
                        && is_listed_control(pre.kind_of(x));
                let e = pre.children_of(c)[j];
                lemma_in_subtree_to_chain(pre, e as int, x);
                assert(pre.parent_of(e as int) == Some(c as usize));
                lemma_chain_extend(pre, x, e as int, c as usize);
                assert((c as usize) as int == c);
                lemma_same_structure_chain(pre, post, x, c);
                assert(post.disabled_container(c));
                lemma_dca_of_chain(post, x, c);
            }
        } else {
            assert(pre.state_unchanged(post, x));
            assert(post.node(x).own_disabled_attribute_present == pre.node(
                x,
            ).own_disabled_attribute_present);
            assert(!pre.chain_reaches(x, c)) by {
                if pre.chain_reaches(x, c) {
                    lemma_chain_to_in_subtree(pre, c, x);
                    lemma_in_subtree_unfold(pre, c, x);
                    let j = choose|j: int|
                        0 <= j < pre.children_of(c).len() && pre.in_subtree(
                            #[trigger] pre.children_of(c)[j] as int,
                            x,
                        );
                    if pre.exempt_child_at(c, j) {
                        assert(pre.caption_exempt(x));
                    } else {
                        assert(pre.is_cascade_target(c, x));
                    }
                }
            }
            assert forall|a: int|
                0 <= a < pre.len() && pre.kind_of(a) == ElementKind::GroupingContainer
                    && pre.chain_from(pre.parent_of(x), a) implies post.node(a).disabled_state
                == pre.node(a).disabled_state by {
                let p = pre.parent_of(x)->Some_0;
                assert(pre.chain_reaches(p as int, a));
                assert((p as int) < x) by {
                    assert(pre.valid(x));
                }
                assert(pre.chain_reaches(x, a));
                assert(a != c);
                assert(!is_listed_control(pre.kind_of(a)));
                assert(!pre.is_cascade_target(c, a));
                assert(pre.state_unchanged(post, a));
            }
            lemma_dca_frame(pre, post, pre.parent_of(x));
            assert(post.parent_of(x) == pre.parent_of(x));
            assert((#[trigger] pre.node(x)).disabled_state == (pre.node(
                x,
            ).own_disabled_attribute_present || pre.dca_from(pre.parent_of(x))));
        }
    }
}

/// Both invariants survive any observer call, whatever the attribute name and
/// mutation kind delivered.
pub proof fn lemma_observer_preserves_invariants(
    pre: Tree,
    post: Tree,
    c: int,
    name: Seq<char>,
    m: AttributeMutation,
    o: ObserverOutcome,
)
    requires
        pre.wf(),
        0 <= c < pre.len(),
        pre.kind_of(c) == ElementKind::GroupingContainer,
        observer_rel(pre, post, c, name, m, o),
        pre.states_complementary(),
        pre.controls_derived(),
    ensures
        post.states_complementary(),
        post.controls_derived(),
{
    if name == "disabled"@ {
        match m {
            AttributeMutation::Assigned(prev) => match prev {
                None => {
                    lemma_cascade_preserves_complementary(pre, post, c, true);
                    lemma_cascade_preserves_derivation(pre, post, c, true);
                },
                Some(_) => {},
            },
            AttributeMutation::Removed => {
                lemma_cascade_preserves_complementary(pre, post, c, false);
                lemma_cascade_preserves_derivation(pre, post, c, false);
            },
        }
    }
}

/// Applying "set disabled" twice in a row is idempotent: the second
/// notification carries the attribute's previous value, so the observer takes
/// its deliberate no-op branch and no element changes after the first
/// application.
pub proof fn lemma_repeated_set_disabled_is_noop(
    t0: Tree,
    t1: Tree,
    t2: Tree,
    c: int,
    name: Seq<char>,
    previous: Option<String>,
    o1: ObserverOutcome,
    o2: ObserverOutcome,
)
    requires
        observer_rel(t0, t1, c, name, AttributeMutation::Assigned(None), o1),
        previous is Some,
        observer_rel(t1, t2, c, name, AttributeMutation::Assigned(previous), o2),
    ensures
        t2 == t1,
{
    if name == "disabled"@ {
    } else if name == "form"@ {
    } else {
    }
}

/// A control inside the first caption-kind child's subtree is never touched by
/// the container's cascade, whatever the target state.
pub proof fn lemma_first_caption_subtree_untouched(
    pre: Tree,
    post: Tree,
    c: int,
    target: bool,
    j: int,
    x: int,
)
    requires
        pre.wf(),
        0 <= c < pre.len(),
        cascade_rel(pre, post, c, target),
        0 <= j < pre.children_of(c).len(),
        pre.exempt_child_at(c, j),
        pre.in_subtree(pre.children_of(c)[j] as int, x),
    ensures
        pre.state_unchanged(post, x),
{
    let e = pre.children_of(c)[j] as int;
    lemma_in_subtree_bounds(pre, e, x);
    assert(c < e);
    assert(!pre.is_cascade_target(c, x)) by {
        if pre.is_cascade_target(c, x) {
            let j2 = choose|j2: int|
                0 <= j2 < pre.children_of(c).len() && !pre.exempt_child_at(c, j2)
                    && pre.in_subtree(#[trigger] pre.children_of(c)[j2] as int, x)
                    && is_listed_control(pre.kind_of(x));
            let e2 = pre.children_of(c)[j2] as int;
            assert(j2 != j);
            if j < j2 {
                assert(pre.children_of(c)[j] != pre.children_of(c)[j2]);
            } else {
                assert(pre.children_of(c)[j2] != pre.children_of(c)[j]);
            }
            assert(pre.parent_of(e2) == Some(c as usize));
            assert(pre.parent_of(e) == Some(c as usize));
            lemma_sibling_subtrees_disjoint(pre, e2, e, x);
        }
    }
    assert(pre.state_unchanged(post, x));
}

/// A control inside a caption-kind child that is not the first one is a
/// cascade target and is affected like any other.
pub proof fn lemma_later_caption_subtree_cascaded(
    pre: Tree,
    post: Tree,
    c: int,
    target: bool,
    j: int,
    x: int,
)
    requires
        pre.wf(),
        0 <= c < pre.len(),
        cascade_rel(pre, post, c, target),
        0 <= j < pre.children_of(c).len(),
        pre.kind_of(pre.children_of(c)[j] as int) == ElementKind::Caption,
        exists|k: int|
            0 <= k < j && pre.kind_of(#[trigger] pre.children_of(c)[k] as int)
                == ElementKind::Caption,
        pre.in_subtree(pre.children_of(c)[j] as int, x),
        is_listed_control(pre.kind_of(x)),
    ensures
        pre.is_cascade_target(c, x),
        cascade_applied(post, x, target),
{
    let k = choose|k: int|
        0 <= k < j && pre.kind_of(#[trigger] pre.children_of(c)[k] as int) == ElementKind::Caption;
    assert(!pre.exempt_child_at(c, j));
    assert(pre.is_cascade_target(c, x));
}

/// On enable, a cascade target whose own disabling attribute is present stays
/// disabled.
pub proof fn lemma_enable_keeps_own_attribute_disabled(pre: Tree, post: Tree, c: int, x: int)
    requires
        pre.wf(),
        0 <= c < pre.len(),
        cascade_rel(pre, post, c, false),
        pre.is_cascade_target(c, x),
        pre.node(x).own_disabled_attribute_present,
    ensures
        post.node(x).disabled_state,
        !post.node(x).enabled_state,
{
    let j = choose|j: int|
        0 <= j < pre.children_of(c).len() && !pre.exempt_child_at(c, j) && pre.in_subtree(
            #[trigger] pre.children_of(c)[j] as int,
            x,
        ) && is_listed_control(pre.kind_of(x));
    lemma_in_subtree_bounds(pre, pre.children_of(c)[j] as int, x);
    assert(cascade_applied(post, x, false));
    assert(post.node(x).own_disabled_attribute_present == pre.node(
        x,
    ).own_disabled_attribute_present);
}

/// On enable, a cascade target with no own disabling attribute and no disabled
/// grouping container above it (other than the container being enabled) becomes
/// enabled.
pub proof fn lemma_enable_clears_unconstrained(pre: Tree, post: Tree, c: int, x: int)
    requires
        pre.wf(),
        0 <= c < pre.len(),
        cascade_rel(pre, post, c, false),
        pre.is_cascade_target(c, x),
        !pre.node(x).own_disabled_attribute_present,
        forall|a: int|
            pre.chain_reaches(x, a) && a != x && a != c ==> !(#[trigger] pre.disabled_container(a)),
    ensures
        !post.node(x).disabled_state,
        post.node(x).enabled_state,
{
    lemma_same_structure_wf(pre, post);
    let j = choose|j: int|
        0 <= j < pre.children_of(c).len() && !pre.exempt_child_at(c, j) && pre.in_subtree(
            #[trigger] pre.children_of(c)[j] as int,
            x,
        ) && is_listed_control(pre.kind_of(x));
    lemma_in_subtree_bounds(pre, pre.children_of(c)[j] as int, x);
    assert(x != c);
    assert(cascade_applied(post, x, false));
    assert(post.node(x).own_disabled_attribute_present == pre.node(
        x,
    ).own_disabled_attribute_present);
    if post.dca_from(post.parent_of(x)) {
        lemma_dca_to_chain(post, x);
        let a = choose|a: int| post.chain_reaches(x, a) && a != x && post.disabled_container(a);
        lemma_same_structure_chain(pre, post, x, a);
        lemma_chain_bounds(post, x, a);
        assert(post.kind_of(a) == pre.kind_of(a));
        if a == c {
            assert(!post.node(c).disabled_state);
        } else {
            assert(pre.kind_of(a) == ElementKind::GroupingContainer);
            assert(!is_listed_control(pre.kind_of(a)));
            assert(!pre.is_cascade_target(c, a));
            assert(pre.state_unchanged(post, a));
            assert(pre.disabled_container(a));
            assert(pre.chain_reaches(x, a));
        }
    }
}

/// Enabling an outer container never enables a control that sits below another
/// grouping container whose effective state is still disabled.
pub proof fn lemma_inner_container_keeps_disabled(
    pre: Tree,
    post: Tree,
    c: int,
    inner: int,
    x: int,
)
    requires
        pre.wf(),
        0 <= c < pre.len(),
        cascade_rel(pre, post, c, false),
        pre.is_cascade_target(c, x),
        pre.chain_reaches(x, inner),
        inner != x,
        inner != c,
        pre.kind_of(inner) == ElementKind::GroupingContainer,
        pre.node(inner).disabled_state,
    ensures
        post.node(x).disabled_state,
        !post.node(x).enabled_state,
{
    lemma_same_structure_wf(pre, post);
    lemma_chain_bounds(pre, x, inner);
    assert(!is_listed_control(pre.kind_of(inner)));
    assert(!pre.is_cascade_target(c, inner));
    assert(pre.state_unchanged(post, inner));
    assert(post.disabled_container(inner));
    lemma_same_structure_chain(pre, post, x, inner);
    lemma_dca_of_chain(post, x, inner);
    assert(cascade_applied(post, x, false));
}

} // verus!
