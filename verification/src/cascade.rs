//! The cascade propagator: given a target disabled state for a grouping
//! container, set the container's own flags, then force or re-derive the state
//! of every listed control below it, skipping the first caption-kind child's
//! subtree.

use vstd::prelude::*;

use crate::tree::ElementKind;
use crate::tree::Tree;
use crate::tree::is_listed_control;
use crate::tree::lemma_dca_frame;
use crate::tree::lemma_in_subtree_bounds;
use crate::tree::lemma_in_subtree_unfold;
use crate::tree::lemma_len_fits;
use crate::tree::lemma_same_structure_wf;
use crate::tree::listed_control;

verus! {

/// What the cascade owes each target `x` once it is done. Disabling forces the
/// state; enabling re-derives it from the control's own attribute and its
/// ancestor grouping containers (read in the finished tree).
pub open spec fn cascade_applied(post: Tree, x: int, target: bool) -> bool {
    if target {
        &&& post.node(x).disabled_state
        &&& !post.node(x).enabled_state
    } else {
        &&& post.node(x).disabled_state == (post.node(x).own_disabled_attribute_present
            || post.dca_from(post.parent_of(x)))
        &&& post.node(x).enabled_state == !post.node(x).disabled_state
    }
}

/// The state change one cascade pass makes: the container's flags are set, every
/// cascade target is forced or re-derived, and every other element keeps its
/// state.
pub open spec fn cascade_states(pre: Tree, post: Tree, c: int, target: bool) -> bool {
    &&& post.node(c).disabled_state == target
    &&& post.node(c).enabled_state == !target
    &&& forall|x: int| #[trigger] pre.is_cascade_target(c, x) ==> cascade_applied(post, x, target)
    &&& forall|x: int|
        #![trigger post.node(x)]
        0 <= x < pre.len() && x != c && !pre.is_cascade_target(c, x) ==> pre.state_unchanged(
            post,
            x,
        )
}

/// Everything one cascade pass does: shape and attributes are untouched and the
/// states change as [`cascade_states`] says.
pub open spec fn cascade_rel(pre: Tree, post: Tree, c: int, target: bool) -> bool {
    &&& pre.same_structure(post)
    &&& pre.same_attributes(post)
    &&& cascade_states(pre, post, c, target)
}

/// Overwrite the two effective-state flags of node `i`, leaving everything else
/// in place.
fn set_state(t: &mut Tree, i: usize, dis: bool, en: bool)
    requires
        (i as int) < old(t).len(),
    ensures
        final(t).nodes@.len() == old(t).nodes@.len(),
        forall|k: int|
            0 <= k < final(t).len() && k != i as int ==> final(t).nodes@[k] == old(t).nodes@[k],
        final(t).node(i as int).kind == old(t).node(i as int).kind,
        final(t).node(i as int).children@ == old(t).node(i as int).children@,
        final(t).node(i as int).parent == old(t).node(i as int).parent,
        final(t).node(i as int).own_disabled_attribute_present == old(t).node(
            i as int,
        ).own_disabled_attribute_present,
        final(t).node(i as int).disabled_state == dis,
        final(t).node(i as int).enabled_state == en,
{
    let n = &mut t.nodes[i];
    n.disabled_state = dis;
    n.enabled_state = en;
}

/// Set a node's state from its own disabling attribute alone, as the external
/// attribute-driven check does.
fn check_disabled_attribute(t: &mut Tree, x: usize)
    requires
        (x as int) < old(t).len(),
    ensures
        final(t).nodes@.len() == old(t).nodes@.len(),
        forall|k: int|
            0 <= k < final(t).len() && k != x as int ==> final(t).nodes@[k] == old(t).nodes@[k],
        final(t).node(x as int).kind == old(t).node(x as int).kind,
        final(t).node(x as int).children@ == old(t).node(x as int).children@,
        final(t).node(x as int).parent == old(t).node(x as int).parent,
        final(t).node(x as int).own_disabled_attribute_present == old(t).node(
            x as int,
        ).own_disabled_attribute_present,
        final(t).node(x as int).disabled_state == old(t).node(
            x as int,
        ).own_disabled_attribute_present,
        final(t).node(x as int).enabled_state == !old(t).node(
            x as int,
        ).own_disabled_attribute_present,
{
    let present = t.nodes[x].own_disabled_attribute_present;
    set_state(t, x, present, !present);
}

/// Walk the ancestor grouping containers of `x` and force its state to disabled
/// if any of them is disabled; otherwise leave the node alone.
fn check_ancestors_disabled_state(t: &mut Tree, x: usize)
    requires
        old(t).wf(),
        (x as int) < old(t).len(),
    ensures
        final(t).nodes@.len() == old(t).nodes@.len(),
        forall|k: int|
            0 <= k < final(t).len() && k != x as int ==> final(t).nodes@[k] == old(t).nodes@[k],
        final(t).node(x as int).kind == old(t).node(x as int).kind,
        final(t).node(x as int).children@ == old(t).node(x as int).children@,
        final(t).node(x as int).parent == old(t).node(x as int).parent,
        final(t).node(x as int).own_disabled_attribute_present == old(t).node(
            x as int,
        ).own_disabled_attribute_present,
        old(t).node(x as int).disabled_state ==> final(t).node(x as int) == old(t).node(x as int),
        !old(t).node(x as int).disabled_state && old(t).dca_from(old(t).parent_of(x as int)) ==> {
            &&& final(t).node(x as int).disabled_state
            &&& !final(t).node(x as int).enabled_state
        },
        !old(t).node(x as int).disabled_state && !old(t).dca_from(old(t).parent_of(x as int))
            ==> final(t).node(x as int) == old(t).node(x as int),
{
    if t.nodes[x].disabled_state {
        return ;
    }
    let mut cur: Option<usize> = t.nodes[x].parent;
    loop
        invariant
            t == old(t),
            t.wf(),
            (x as int) < t.len(),
            !old(t).node(x as int).disabled_state,
            match cur {
                Some(p) => (p as int) < t.len(),
                None => true,
            },
            t.dca_from(t.parent_of(x as int)) == t.dca_from(cur),
        ensures
            cur is None,
            *t == *old(t),
        decreases
                (match cur {
                    Some(p) => p as int + 1,
                    None => 0,
                }),
    {
        match cur {
            None => { break ; },
            Some(p) => {
                let is_container = t.nodes[p].kind == ElementKind::GroupingContainer;
                if is_container && t.nodes[p].disabled_state {
                    assert(t.disabled_container(p as int));
                    set_state(t, x, true, false);
                    return ;
                }
                proof {
                    assert(t.valid(p as int));
                    match t.parent_of(p as int) {
                        Some(q) => {
                            assert((q as int) < (p as int));
                        },
                        None => {},
                    }
                }
                cur = t.nodes[p].parent;
            },
        }
    }
}

/// Re-derive one listed control's state from first principles: its own
/// disabling attribute, then its ancestor grouping containers.
fn rederive_control_state(t: &mut Tree, x: usize)
    requires
        old(t).wf(),
        (x as int) < old(t).len(),
        is_listed_control(old(t).kind_of(x as int)),
    ensures
        final(t).nodes@.len() == old(t).nodes@.len(),
        forall|k: int|
            0 <= k < final(t).len() && k != x as int ==> final(t).nodes@[k] == old(t).nodes@[k],
        final(t).node(x as int).kind == old(t).node(x as int).kind,
        final(t).node(x as int).children@ == old(t).node(x as int).children@,
        final(t).node(x as int).parent == old(t).node(x as int).parent,
        final(t).node(x as int).own_disabled_attribute_present == old(t).node(
            x as int,
        ).own_disabled_attribute_present,
        cascade_applied(*final(t), x as int, false),
{
    let ghost t0 = *t;
    check_disabled_attribute(t, x);
    let ghost t1 = *t;
    proof {
        assert(t0.same_structure(t1));
        lemma_same_structure_wf(t0, t1);
        assert forall|a: int|
            0 <= a < t0.len() && t0.kind_of(a) == ElementKind::GroupingContainer && t0.chain_from(
                t0.parent_of(x as int),
                a,
            ) implies t1.node(a).disabled_state == t0.node(a).disabled_state by {
            assert(a != x as int);
        }
        lemma_dca_frame(t0, t1, t0.parent_of(x as int));
    }
    check_ancestors_disabled_state(t, x);
    proof {
        let t2 = *t;
        assert(t1.same_structure(t2));
        assert forall|a: int|
            0 <= a < t1.len() && t1.kind_of(a) == ElementKind::GroupingContainer && t1.chain_from(
                t1.parent_of(x as int),
                a,
            ) implies t2.node(a).disabled_state == t1.node(a).disabled_state by {
            assert(a != x as int);
        }
        lemma_dca_frame(t1, t2, t1.parent_of(x as int));
        assert(t2.dca_from(t2.parent_of(x as int)) == t0.dca_from(t0.parent_of(x as int)));
    }
}

/// Append to `out` every listed control in the subtree rooted at `r` (root
/// included), in pre-order.
fn collect_from(t: &Tree, r: usize, out: &mut Vec<usize>)
    requires
        t.wf(),
        (r as int) < t.len(),
    ensures
        forall|x: usize|
            #![trigger final(out)@.contains(x)]
            #![trigger old(out)@.contains(x)]
            final(out)@.contains(x) <==> (old(out)@.contains(x) || (t.in_subtree(
                r as int,
                x as int,
            ) && is_listed_control(t.kind_of(x as int)))),
    decreases t.len() - r,
{
    let ghost base = out@;
    let kind = t.nodes[r].kind;
    if listed_control(kind) {
        out.push(r);
        proof {
            assert forall|x: usize|
                #![trigger out@.contains(x)]
                #![trigger base.contains(x)]
                out@.contains(x) <==> (base.contains(x) || x == r) by {
                if out@.contains(x) {
                    let i = choose|i: int| 0 <= i < out@.len() && out@[i] == x;
                    if i < base.len() {
                        assert(base[i] == x);
                    }
                }
                if base.contains(x) {
                    let i = choose|i: int| 0 <= i < base.len() && base[i] == x;
                    assert(out@[i] == x);
                }
                if x == r {
                    assert(out@[base.len() as int] == x);
                }
            }
            assert(t.in_subtree(r as int, r as int));
        }
    }
    let n = t.nodes[r].children.len();
    let mut j: usize = 0;
    while j < n
        invariant
            t.wf(),
            (r as int) < t.len(),
            n == t.children_of(r as int).len(),
            j <= n,
            forall|x: usize|
                #![trigger out@.contains(x)]
                out@.contains(x) <==> (base.contains(x) || (x == r && is_listed_control(
                    t.kind_of(r as int),
                )) || exists|k: int|
                    0 <= k < j && t.in_subtree(
                        #[trigger] t.children_of(r as int)[k] as int,
                        x as int,
                    ) && is_listed_control(t.kind_of(x as int))),
        decreases n - j,
    {
        let c = t.nodes[r].children[j];
        proof {
            assert((r as int) < c as int && (c as int) < t.len());
        }
        let ghost prev = out@;
        collect_from(t, c, out);
        proof {
            assert forall|x: usize|
                #![trigger out@.contains(x)]
                out@.contains(x) <==> (base.contains(x) || (x == r && is_listed_control(
                    t.kind_of(r as int),
                )) || exists|k: int|
                    0 <= k < j + 1 && t.in_subtree(
                        #[trigger] t.children_of(r as int)[k] as int,
                        x as int,
                    ) && is_listed_control(t.kind_of(x as int))) by {
                assert(out@.contains(x) <==> (prev.contains(x) || (t.in_subtree(
                    c as int,
                    x as int,
                ) && is_listed_control(t.kind_of(x as int)))));
                assert(t.children_of(r as int)[j as int] == c);
                if out@.contains(x) {
                    if prev.contains(x) {
                        if !base.contains(x) && !(x == r && is_listed_control(
                            t.kind_of(r as int),
                        )) {
                            let k = choose|k: int|
                                0 <= k < j && t.in_subtree(
                                    #[trigger] t.children_of(r as int)[k] as int,
                                    x as int,
                                ) && is_listed_control(t.kind_of(x as int));
                            assert(0 <= k < j + 1 && t.in_subtree(
                                t.children_of(r as int)[k] as int,
                                x as int,
                            ) && is_listed_control(t.kind_of(x as int)));
                        }
                    } else {
                        assert(t.in_subtree(t.children_of(r as int)[j as int] as int, x as int)
                            && is_listed_control(t.kind_of(x as int)));
                    }
                }
                if base.contains(x) || (x == r && is_listed_control(t.kind_of(r as int))) {
                    assert(prev.contains(x));
                    assert(out@.contains(x));
                }
                if exists|k: int|
                    0 <= k < j + 1 && t.in_subtree(
                        #[trigger] t.children_of(r as int)[k] as int,
                        x as int,
                    ) && is_listed_control(t.kind_of(x as int)) {
                    let k = choose|k: int|
                        0 <= k < j + 1 && t.in_subtree(
                            #[trigger] t.children_of(r as int)[k] as int,
                            x as int,
                        ) && is_listed_control(t.kind_of(x as int));
                    if k < j {
                        assert(prev.contains(x));
                    } else {
                        assert(t.in_subtree(c as int, x as int));
                    }
                    assert(out@.contains(x));
                }
            }
        }
        j = j + 1;
    }
    proof {
        lemma_len_fits(*t);
        assert forall|x: usize|
            #![trigger out@.contains(x)]
            #![trigger base.contains(x)]
            out@.contains(x) <==> (base.contains(x) || (t.in_subtree(r as int, x as int)
                && is_listed_control(t.kind_of(x as int)))) by {
            lemma_in_subtree_unfold(*t, r as int, x as int);
            if out@.contains(x) && !base.contains(x) && !(x == r && is_listed_control(
                t.kind_of(r as int),
            )) {
                let k = choose|k: int|
                    0 <= k < j && t.in_subtree(
                        #[trigger] t.children_of(r as int)[k] as int,
                        x as int,
                    ) && is_listed_control(t.kind_of(x as int));
                assert(t.in_subtree(r as int, x as int));
            }
            if t.in_subtree(r as int, x as int) && is_listed_control(t.kind_of(x as int)) {
                if x as int == r as int {
                    assert(x == r);
                } else {
                    let k = choose|k: int|
                        0 <= k < t.children_of(r as int).len() && t.in_subtree(
                            #[trigger] t.children_of(r as int)[k] as int,
                            x as int,
                        );
                    assert(0 <= k < j);
                }
                assert(out@.contains(x));
            }
        }
    }
}

/// Compute the eligible descendant set of container `c`: walk the direct
/// children in order, skip the first caption-kind child, and gather every
/// listed control in the other children's subtrees.
pub fn collect_cascade_targets(t: &Tree, c: usize) -> (targets: Vec<usize>)
    requires
        t.wf(),
        (c as int) < t.len(),
    ensures
        forall|x: usize|
            #![trigger targets@.contains(x)]
            targets@.contains(x) <==> t.is_cascade_target(c as int, x as int),
{
    let mut out: Vec<usize> = Vec::new();
    let mut found_caption = false;
    let n = t.nodes[c].children.len();
    let mut j: usize = 0;
    while j < n
        invariant
            t.wf(),
            (c as int) < t.len(),
            n == t.children_of(c as int).len(),
            j <= n,
            found_caption <==> exists|k: int|
                0 <= k < j && t.kind_of(#[trigger] t.children_of(c as int)[k] as int)
                    == ElementKind::Caption,
            forall|x: usize|
                #![trigger out@.contains(x)]
                out@.contains(x) <==> exists|k: int|
                    0 <= k < j && !t.exempt_child_at(c as int, k) && t.in_subtree(
                        #[trigger] t.children_of(c as int)[k] as int,
                        x as int,
                    ) && is_listed_control(t.kind_of(x as int)),
        decreases n - j,
    {
        let ch = t.nodes[c].children[j];
        proof {
            assert((c as int) < ch as int && (ch as int) < t.len());
        }
        let is_caption = t.nodes[ch].kind == ElementKind::Caption;
        if !found_caption && is_caption {
            found_caption = true;
            proof {
                assert forall|k: int| 0 <= k < j implies t.kind_of(
                    #[trigger] t.children_of(c as int)[k] as int,
                ) != ElementKind::Caption by {}
                assert(t.exempt_child_at(c as int, j as int));
                assert(t.kind_of(t.children_of(c as int)[j as int] as int)
                    == ElementKind::Caption);
                assert forall|x: usize|
                    #![trigger out@.contains(x)]
                    out@.contains(x) <==> exists|k: int|
                        0 <= k < j + 1 && !t.exempt_child_at(c as int, k) && t.in_subtree(
                            #[trigger] t.children_of(c as int)[k] as int,
                            x as int,
                        ) && is_listed_control(t.kind_of(x as int)) by {
                    if out@.contains(x) {
                        let k = choose|k: int|
                            0 <= k < j && !t.exempt_child_at(c as int, k) && t.in_subtree(
                                #[trigger] t.children_of(c as int)[k] as int,
                                x as int,
                            ) && is_listed_control(t.kind_of(x as int));
                        assert(0 <= k < j + 1 && !t.exempt_child_at(c as int, k));
                    }
                    if exists|k: int|
                        0 <= k < j + 1 && !t.exempt_child_at(c as int, k) && t.in_subtree(
                            #[trigger] t.children_of(c as int)[k] as int,
                            x as int,
                        ) && is_listed_control(t.kind_of(x as int)) {
                        let k = choose|k: int|
                            0 <= k < j + 1 && !t.exempt_child_at(c as int, k) && t.in_subtree(
                                #[trigger] t.children_of(c as int)[k] as int,
                                x as int,
                            ) && is_listed_control(t.kind_of(x as int));
                        assert(k != j);
                        assert(out@.contains(x));
                    }
                }
            }
        } else {
            proof {
                if is_caption {
                    let k0 = choose|k: int|
                        0 <= k < j && t.kind_of(#[trigger] t.children_of(c as int)[k] as int)
                            == ElementKind::Caption;
                    assert(!t.exempt_child_at(c as int, j as int));
                } else {
                    assert(!t.exempt_child_at(c as int, j as int));
                }
            }
            let ghost prev = out@;
            collect_from(t, ch, &mut out);
            proof {
                assert forall|x: usize|
                    #![trigger out@.contains(x)]
                    out@.contains(x) <==> exists|k: int|
                        0 <= k < j + 1 && !t.exempt_child_at(c as int, k) && t.in_subtree(
                            #[trigger] t.children_of(c as int)[k] as int,
                            x as int,
                        ) && is_listed_control(t.kind_of(x as int)) by {
                    assert(out@.contains(x) <==> (prev.contains(x) || (t.in_subtree(
                        ch as int,
                        x as int,
                    ) && is_listed_control(t.kind_of(x as int)))));
                    assert(t.children_of(c as int)[j as int] == ch);
                    if out@.contains(x) {
                        if prev.contains(x) {
                            let k = choose|k: int|
                                0 <= k < j && !t.exempt_child_at(c as int, k) && t.in_subtree(
                                    #[trigger] t.children_of(c as int)[k] as int,
                                    x as int,
                                ) && is_listed_control(t.kind_of(x as int));
                            assert(0 <= k < j + 1 && !t.exempt_child_at(c as int, k)
                                && t.in_subtree(
                                t.children_of(c as int)[k] as int,
                                x as int,
                            ) && is_listed_control(t.kind_of(x as int)));
                        } else {
                            assert(!t.exempt_child_at(c as int, j as int) && t.in_subtree(
                                t.children_of(c as int)[j as int] as int,
                                x as int,
                            ) && is_listed_control(t.kind_of(x as int)));
                        }
                    }
                    if exists|k: int|
                        0 <= k < j + 1 && !t.exempt_child_at(c as int, k) && t.in_subtree(
                            #[trigger] t.children_of(c as int)[k] as int,
                            x as int,
                        ) && is_listed_control(t.kind_of(x as int)) {
                        let k = choose|k: int|
                            0 <= k < j + 1 && !t.exempt_child_at(c as int, k) && t.in_subtree(
                                #[trigger] t.children_of(c as int)[k] as int,
                                x as int,
                            ) && is_listed_control(t.kind_of(x as int));
                        if k < j {
                            assert(prev.contains(x));
                        } else {
                            assert(t.in_subtree(ch as int, x as int));
                        }
                        assert(out@.contains(x));
                    }
                }
                assert forall|k: int|
                    0 <= k < j + 1 implies (t.kind_of(
                    #[trigger] t.children_of(c as int)[k] as int,
                ) == ElementKind::Caption <==> (k < j && t.kind_of(
                    t.children_of(c as int)[k] as int,
                ) == ElementKind::Caption) || (k == j && is_caption)) by {}
            }
        }
        j = j + 1;
    }
    proof {
        lemma_len_fits(*t);
        assert forall|x: usize|
            #![trigger out@.contains(x)]
            out@.contains(x) <==> t.is_cascade_target(c as int, x as int) by {
            if out@.contains(x) {
                let k = choose|k: int|
                    0 <= k < j && !t.exempt_child_at(c as int, k) && t.in_subtree(
                        #[trigger] t.children_of(c as int)[k] as int,
                        x as int,
                    ) && is_listed_control(t.kind_of(x as int));
                assert(t.is_cascade_target(c as int, x as int));
            }
            if t.is_cascade_target(c as int, x as int) {
                let k = choose|k: int|
                    0 <= k < t.children_of(c as int).len() && !t.exempt_child_at(c as int, k)
                        && t.in_subtree(
                        #[trigger] t.children_of(c as int)[k] as int,
                        x as int,
                    ) && is_listed_control(t.kind_of(x as int));
                assert(0 <= k < j);
                assert(out@.contains(x));
            }
        }
    }
    out
}

/// One full cascade pass: set the container's own flags, then force (on
/// disable) or re-derive (on enable) the state of every eligible descendant,
/// leaving every other element untouched.
pub fn propagate(t: &mut Tree, container: usize, target_disabled: bool)
    requires
        old(t).wf(),
        (container as int) < old(t).len(),
        old(t).kind_of(container as int) == ElementKind::GroupingContainer,
    ensures
        cascade_rel(*old(t), *final(t), container as int, target_disabled),
        final(t).wf(),
{
    let ghost pre = *t;
    let cc = container;
    let targets = collect_cascade_targets(t, container);
    proof {
        lemma_len_fits(pre);
        assert forall|k: int| 0 <= k < targets@.len() implies {
            let x = #[trigger] targets@[k];
            &&& (x as int) < pre.len()
            &&& is_listed_control(pre.kind_of(x as int))
            &&& pre.is_cascade_target(cc as int, x as int)
            &&& x != cc
        } by {
            let x = targets@[k];
            assert(targets@.contains(x));
            assert(pre.is_cascade_target(cc as int, x as int));
            let j = choose|j: int|
                0 <= j < pre.children_of(cc as int).len() && !pre.exempt_child_at(cc as int, j)
                    && pre.in_subtree(#[trigger] pre.children_of(cc as int)[j] as int, x as int)
                    && is_listed_control(pre.kind_of(x as int));
            lemma_in_subtree_bounds(pre, pre.children_of(cc as int)[j] as int, x as int);
            assert((cc as int) < pre.children_of(cc as int)[j] as int);
        }
        assert forall|x: int|
            #[trigger] pre.is_cascade_target(cc as int, x) implies 0 <= x < pre.len() && targets@.contains(
            x as usize,
        ) by {
            let j = choose|j: int|
                0 <= j < pre.children_of(cc as int).len() && !pre.exempt_child_at(cc as int, j)
                    && pre.in_subtree(#[trigger] pre.children_of(cc as int)[j] as int, x)
                    && is_listed_control(pre.kind_of(x));
            lemma_in_subtree_bounds(pre, pre.children_of(cc as int)[j] as int, x);
            assert((x as usize) as int == x);
            assert(pre.is_cascade_target(cc as int, (x as usize) as int));
        }
    }
    set_state(t, container, target_disabled, !target_disabled);
    proof {
        assert(pre.same_structure(*t));
        assert(pre.same_attributes(*t));
        lemma_same_structure_wf(pre, *t);
    }
    if target_disabled {
        let mut i: usize = 0;
        while i < targets.len()
            invariant
                pre.wf(),
                (cc as int) < pre.len(),
                pre.same_structure(*t),
                pre.same_attributes(*t),
                t.wf(),
                i <= targets@.len(),
                forall|k: int|
                    0 <= k < targets@.len() ==> {
                        let x = #[trigger] targets@[k];
                        &&& (x as int) < pre.len()
                        &&& is_listed_control(pre.kind_of(x as int))
                        &&& pre.is_cascade_target(cc as int, x as int)
                        &&& x != cc
                    },
                t.node(cc as int).disabled_state == true,
                t.node(cc as int).enabled_state == false,
                forall|x: int|
                    #![trigger t.node(x)]
                    0 <= x < pre.len() && x != cc as int && !pre.is_cascade_target(cc as int, x)
                        ==> pre.state_unchanged(*t, x),
                forall|k: int|
                    0 <= k < i ==> cascade_applied(*t, #[trigger] targets@[k] as int, true),
            decreases targets@.len() - i,
        {
            let x = targets[i];
            set_state(t, x, true, false);
            proof {
                assert(pre.same_structure(*t));
                lemma_same_structure_wf(pre, *t);
            }
            i = i + 1;
        }
    } else {
        let mut i: usize = 0;
        while i < targets.len()
            invariant
                pre.wf(),
                (cc as int) < pre.len(),
                pre.same_structure(*t),
                pre.same_attributes(*t),
                t.wf(),
                i <= targets@.len(),
                forall|k: int|
                    0 <= k < targets@.len() ==> {
                        let x = #[trigger] targets@[k];
                        &&& (x as int) < pre.len()
                        &&& is_listed_control(pre.kind_of(x as int))
                        &&& pre.is_cascade_target(cc as int, x as int)
                        &&& x != cc
                    },
                t.node(cc as int).disabled_state == false,
                t.node(cc as int).enabled_state == true,
                forall|x: int|
                    #![trigger t.node(x)]
                    0 <= x < pre.len() && x != cc as int && !pre.is_cascade_target(cc as int, x)
                        ==> pre.state_unchanged(*t, x),
                forall|k: int|
                    0 <= k < i ==> cascade_applied(*t, #[trigger] targets@[k] as int, false),
            decreases targets@.len() - i,
        {
            let x = targets[i];
            proof {
                assert(t.kind_of(x as int) == pre.kind_of(x as int));
            }
            let ghost tp = *t;
            rederive_control_state(t, x);
            proof {
                assert(tp.same_structure(*t));
                assert(pre.same_structure(*t));
                lemma_same_structure_wf(pre, *t);
                assert forall|k: int| 0 <= k < i + 1 implies cascade_applied(
                    *t,
                    #[trigger] targets@[k] as int,
                    false,
                ) by {
                    let y = targets@[k] as int;
                    if targets@[k] == x || k == i {
                        assert(cascade_applied(*t, x as int, false));
                    } else {
                        assert forall|a: int|
                            0 <= a < tp.len() && tp.kind_of(a) == ElementKind::GroupingContainer
                                && tp.chain_from(tp.parent_of(y), a) implies t.node(
                            a,
                        ).disabled_state == tp.node(a).disabled_state by {
                            assert(a != x as int);
                        }
                        lemma_dca_frame(tp, *t, tp.parent_of(y));
                        assert(t.node(y) == tp.node(y));
                        assert(t.parent_of(y) == tp.parent_of(y));
                    }
                }
            }
            i = i + 1;
        }
    }
    proof {
        lemma_len_fits(pre);
        assert forall|x: int| #[trigger] pre.is_cascade_target(cc as int, x) implies cascade_applied(
            *t,
            x,
            target_disabled,
        ) by {
            assert(targets@.contains(x as usize));
            let k = choose|k: int| 0 <= k < targets@.len() && targets@[k] == x as usize;
            assert(cascade_applied(*t, targets@[k] as int, target_disabled));
        }
    }
}

} // verus!
