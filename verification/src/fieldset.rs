//! The grouping container element and its attribute-mutation observer: which
//! attribute changed decides whether the cascade runs, with what target state,
//! or whether form-ownership resolution is delegated.

use vstd::prelude::*;

use crate::cascade::cascade_rel;
use crate::cascade::cascade_states;
use crate::cascade::collect_cascade_targets;
use crate::cascade::propagate;
use crate::tree::ElementKind;
use crate::tree::Element;
use crate::tree::Tree;
use crate::tree::lemma_same_structure_target;
use crate::tree::lemma_same_structure_wf;

verus! {

/// One observed change of an attribute, delivered after attribute storage has
/// already been updated.
pub enum AttributeMutation {
    /// The attribute is present after the change; the payload holds its
    /// previous text if it was already present before.
    Assigned(Option<String>),
    /// The attribute was removed.
    Removed,
}

/// What the observer did with one mutation, and what it asks of the host.
#[derive(Clone, Copy, Debug, PartialEq, Eq, Structural)]
pub enum ObserverOutcome {
    /// The cascade ran with this target disabled state.
    Cascaded(bool),
    /// Presence did not change (or the attribute is not observed): no cascade.
    NoCascade,
    /// The form-association attribute changed: the host must invoke the
    /// external form-ownership resolver.
    DelegateToFormResolver,
}

/// Relies on std's `PartialEq` for `str`: two string slices are equal exactly
/// when they hold the same characters.
#[verifier::external_body]
fn str_eq(a: &str, b: &str) -> (r: bool)
    ensures
        r == (a@ == b@),
{
    a == b
}

/// Everything one observer call does, by attribute name and mutation kind: the
/// disabling attribute cascades on a presence change and is a deliberate no-op
/// on a value-only change; the form-association attribute is delegated; any
/// other attribute is ignored.
pub open spec fn observer_rel(
    pre: Tree,
    post: Tree,
    c: int,
    name: Seq<char>,
    m: AttributeMutation,
    outcome: ObserverOutcome,
) -> bool {
    if name == "disabled"@ {
        match m {
            AttributeMutation::Assigned(prev) => match prev {
                None => cascade_rel(pre, post, c, true) && outcome == ObserverOutcome::Cascaded(
                    true,
                ),
                Some(_) => post == pre && outcome == ObserverOutcome::NoCascade,
            },
            AttributeMutation::Removed => cascade_rel(pre, post, c, false) && outcome
                == ObserverOutcome::Cascaded(false),
        }
    } else if name == "form"@ {
        post == pre && outcome == ObserverOutcome::DelegateToFormResolver
    } else {
        post == pre && outcome == ObserverOutcome::NoCascade
    }
}

/// Overwrite the own-attribute flag of node `i`, leaving everything else in
/// place (this models the attribute storage the observer is notified about).
fn set_own_attribute(t: &mut Tree, i: usize, present: bool)
    requires
        (i as int) < old(t).len(),
    ensures
        final(t).nodes@.len() == old(t).nodes@.len(),
        forall|k: int|
            0 <= k < final(t).len() && k != i as int ==> final(t).nodes@[k] == old(t).nodes@[k],
        final(t).node(i as int).kind == old(t).node(i as int).kind,
        final(t).node(i as int).children@ == old(t).node(i as int).children@,
        final(t).node(i as int).parent == old(t).node(i as int).parent,
        final(t).node(i as int).own_disabled_attribute_present == present,
        final(t).node(i as int).disabled_state == old(t).node(i as int).disabled_state,
        final(t).node(i as int).enabled_state == old(t).node(i as int).enabled_state,
{
    let n = &mut t.nodes[i];
    n.own_disabled_attribute_present = present;
}

/// The grouping container: a handle onto its element in the arena, plus the
/// weak form-owner reference that the external resolver maintains.
pub struct HTMLFieldSetElement {
    /// Index of the container's element in the arena.
    pub node: usize,
    /// The owning form, if the external form-ownership resolver found one.
    pub form_owner: Option<usize>,
}

impl HTMLFieldSetElement {
    /// The bare container element: constructed enabled, detached, with no
    /// disabling attribute.
    pub fn new_inherited() -> (e: Element)
        ensures
            e.kind == ElementKind::GroupingContainer,
            !e.disabled_state,
            e.enabled_state,
            !e.own_disabled_attribute_present,
            e.parent is None,
            e.children@ == Seq::<usize>::empty(),
    {
        Element {
            kind: ElementKind::GroupingContainer,
            disabled_state: false,
            enabled_state: true,
            own_disabled_attribute_present: false,
            parent: None,
            children: Vec::new(),
        }
    }

    /// Allocate a fresh container element in the arena and hand back its
    /// handle. The reflection of the new element to a scripting environment is
    /// the host's business, not this core's.
    pub fn new(t: &mut Tree) -> (fs: HTMLFieldSetElement)
        ensures
            final(t).len() == old(t).len() + 1,
            forall|k: int| 0 <= k < old(t).len() ==> final(t).nodes@[k] == old(t).nodes@[k],
            final(t).node(old(t).len()).kind == ElementKind::GroupingContainer,
            !final(t).node(old(t).len()).disabled_state,
            final(t).node(old(t).len()).enabled_state,
            !final(t).node(old(t).len()).own_disabled_attribute_present,
            final(t).node(old(t).len()).parent is None,
            final(t).node(old(t).len()).children@ == Seq::<usize>::empty(),
            fs.node as int == old(t).len(),
            fs.form_owner is None,
            old(t).wf() ==> final(t).wf(),
    {
        let ghost pre = *t;
        let idx = t.nodes.len();
        t.nodes.push(Self::new_inherited());
        proof {
            if pre.wf() {
                assert forall|p: int, j: int|
                    t.valid(p) && 0 <= j < t.children_of(p).len() implies {
                    let c = #[trigger] t.children_of(p)[j];
                    &&& p < c as int
                    &&& (c as int) < t.len()
                    &&& t.parent_of(c as int) == Some(p as usize)
                } by {
                    assert(p != idx as int);
                    assert(t.children_of(p) == pre.children_of(p));
                    let c = t.children_of(p)[j];
                    assert(pre.parent_of(c as int) == Some(p as usize));
                }
                assert forall|p: int, j1: int, j2: int|
                    t.valid(p) && 0 <= j1 < j2 < t.children_of(p).len() implies #[trigger] t.children_of(
                    p,
                )[j1] != #[trigger] t.children_of(p)[j2] by {
                    assert(p != idx as int);
                    assert(t.children_of(p) == pre.children_of(p));
                }
                assert forall|c: int| t.valid(c) implies match #[trigger] t.parent_of(c) {
                    Some(p) => (p as int) < c && t.children_of(p as int).contains(c as usize),
                    None => true,
                } by {
                    if c != idx as int {
                        assert(t.parent_of(c) == pre.parent_of(c));
                        match pre.parent_of(c) {
                            Some(p) => {
                                assert(pre.children_of(p as int).contains(c as usize));
                                assert(t.children_of(p as int) == pre.children_of(p as int));
                            },
                            None => {},
                        }
                    }
                }
            }
        }
        HTMLFieldSetElement { node: idx, form_owner: None }
    }

    /// The attribute-mutation observer. The host invokes it once per observed
    /// attribute change on the container, after the superclass hook has run and
    /// after attribute storage itself was updated.
    pub fn attribute_mutated(
        &self,
        t: &mut Tree,
        name: &str,
        mutation: &AttributeMutation,
    ) -> (outcome: ObserverOutcome)
        requires
            old(t).wf(),
            (self.node as int) < old(t).len(),
            old(t).kind_of(self.node as int) == ElementKind::GroupingContainer,
        ensures
            observer_rel(*old(t), *final(t), self.node as int, name@, *mutation, outcome),
            final(t).wf(),
    {
        if str_eq(name, "disabled") {
            let target = match mutation {
                AttributeMutation::Assigned(None) => true,
                AttributeMutation::Assigned(Some(_)) => {
                    return ObserverOutcome::NoCascade;
                },
                AttributeMutation::Removed => false,
            };
            propagate(t, self.node, target);
            ObserverOutcome::Cascaded(target)
        } else if str_eq(name, "form") {
            ObserverOutcome::DelegateToFormResolver
        } else {
            ObserverOutcome::NoCascade
        }
    }

    /// The read-only eligible-descendants query: the same caption-exempt
    /// computation the cascade uses, exposed for external enumeration.
    #[allow(non_snake_case)]
    pub fn Elements(&self, t: &Tree) -> (elements: Vec<usize>)
        requires
            t.wf(),
            (self.node as int) < t.len(),
        ensures
            forall|x: usize|
                #![trigger elements@.contains(x)]
                elements@.contains(x) <==> t.is_cascade_target(self.node as int, x as int),
    {
        collect_cascade_targets(t, self.node)
    }

    /// Whether the container's own disabling attribute is present.
    #[allow(non_snake_case)]
    pub fn Disabled(&self, t: &Tree) -> (r: bool)
        requires
            (self.node as int) < t.len(),
        ensures
            r == t.node(self.node as int).own_disabled_attribute_present,
    {
        t.nodes[self.node].own_disabled_attribute_present
    }

    /// Set or remove the container's own disabling attribute; a presence change
    /// updates storage and then triggers the observer, a no-change write does
    /// nothing.
    #[allow(non_snake_case)]
    pub fn SetDisabled(&self, t: &mut Tree, value: bool)
        requires
            old(t).wf(),
            (self.node as int) < old(t).len(),
            old(t).kind_of(self.node as int) == ElementKind::GroupingContainer,
        ensures
            final(t).wf(),
            old(t).same_structure(*final(t)),
            final(t).node(self.node as int).own_disabled_attribute_present == value,
            forall|k: int|
                #![trigger final(t).node(k)]
                0 <= k < old(t).len() && k != self.node as int ==> final(t).node(
                    k,
                ).own_disabled_attribute_present == old(t).node(k).own_disabled_attribute_present,
            value == old(t).node(self.node as int).own_disabled_attribute_present ==> *final(t)
                == *old(t),
            value != old(t).node(self.node as int).own_disabled_attribute_present
                ==> cascade_states(*old(t), *final(t), self.node as int, value),
    {
        let present = t.nodes[self.node].own_disabled_attribute_present;
        if value == present {
            return ;
        }
        let ghost pre = *t;
        set_own_attribute(t, self.node, value);
        let ghost mid = *t;
        proof {
            assert(pre.same_structure(mid));
            lemma_same_structure_wf(pre, mid);
        }
        let outcome = if value {
            self.attribute_mutated(t, "disabled", &AttributeMutation::Assigned(None))
        } else {
            self.attribute_mutated(t, "disabled", &AttributeMutation::Removed)
        };
        proof {
            let post = *t;
            assert(cascade_rel(mid, post, self.node as int, value));
            assert forall|x: int| #[trigger] pre.is_cascade_target(self.node as int, x)
                == mid.is_cascade_target(self.node as int, x) by {
                lemma_same_structure_target(pre, mid, self.node as int, x);
            }
            assert forall|x: int|
                0 <= x < pre.len() && x != self.node as int && !pre.is_cascade_target(
                    self.node as int,
                    x,
                ) implies pre.state_unchanged(post, x) by {
                assert((#[trigger] post.node(x)).disabled_state == mid.node(x).disabled_state
                    && post.node(x).enabled_state == mid.node(x).enabled_state);
                assert(mid.node(x).disabled_state == pre.node(x).disabled_state && mid.node(
                    x,
                ).enabled_state == pre.node(x).enabled_state);
            }
        }
    }

    /// The container's associated form, if the resolver found one.
    #[allow(non_snake_case)]
    pub fn GetForm(&self) -> (r: Option<usize>)
        ensures
            r == self.form_owner,
    {
        self.form_owner
    }

    /// The weak form-owner reference, as the form-ownership resolver reads it.
    pub fn form_owner(&self) -> (r: Option<usize>)
        ensures
            r == self.form_owner,
    {
        self.form_owner
    }

    /// Store what the form-ownership resolver decided.
    pub fn set_form_owner(&mut self, form: Option<usize>)
        ensures
            final(self).form_owner == form,
            final(self).node == old(self).node,
    {
        self.form_owner = form;
    }
}

} // verus!
