use fieldset_cascade::cascade::propagate;
use fieldset_cascade::fieldset::AttributeMutation;
use fieldset_cascade::fieldset::HTMLFieldSetElement;
use fieldset_cascade::fieldset::ObserverOutcome;
use fieldset_cascade::tree::Element;
use fieldset_cascade::tree::ElementKind;
use fieldset_cascade::tree::Tree;

fn el(kind: ElementKind, parent: Option<usize>, children: Vec<usize>) -> Element {
    Element {
        kind,
        disabled_state: false,
        enabled_state: true,
        own_disabled_attribute_present: false,
        parent,
        children,
    }
}

fn fieldset_at(node: usize) -> HTMLFieldSetElement {
    HTMLFieldSetElement { node, form_owner: None }
}

fn is_listed(kind: ElementKind) -> bool {
    matches!(
        kind,
        ElementKind::ButtonLike
            | ElementKind::TextInput
            | ElementKind::Selection
            | ElementKind::MultilineText
    )
}

fn assert_complementary(t: &Tree) {
    for n in &t.nodes {
        if is_listed(n.kind) {
            assert_eq!(n.enabled_state, !n.disabled_state);
        }
    }
}

/// Container with children `[caption{input}, input A, fieldset{input B}, input C]`.
///
/// Indices: 0 container, 1 caption, 2 input A, 3 nested fieldset, 4 input B,
/// 5 input C, 6 input inside the caption.
fn scenario_tree() -> Tree {
    Tree {
        nodes: vec![
            el(ElementKind::GroupingContainer, None, vec![1, 2, 3, 5]),
            el(ElementKind::Caption, Some(0), vec![6]),
            el(ElementKind::TextInput, Some(0), vec![]),
            el(ElementKind::GroupingContainer, Some(0), vec![4]),
            el(ElementKind::TextInput, Some(3), vec![]),
            el(ElementKind::TextInput, Some(0), vec![]),
            el(ElementKind::TextInput, Some(1), vec![]),
        ],
    }
}

#[test]
fn scenario_set_then_remove_disabled() {
    let mut t = scenario_tree();
    let fs = fieldset_at(0);

    fs.SetDisabled(&mut t, true);
    assert!(t.nodes[0].disabled_state);
    assert!(t.nodes[2].disabled_state, "input A must be disabled");
    assert!(t.nodes[4].disabled_state, "input B inside the nested fieldset must be disabled");
    assert!(t.nodes[5].disabled_state, "input C must be disabled");
    assert!(!t.nodes[6].disabled_state, "the caption's subtree must stay untouched");
    assert!(t.nodes[6].enabled_state);
    assert!(!t.nodes[1].disabled_state, "the caption child itself is never a target");
    assert!(!t.nodes[3].disabled_state, "the nested container is traversed through, not forced");
    assert_complementary(&t);

    // Input A now carries its own disabling attribute; B and C do not.
    t.nodes[2].own_disabled_attribute_present = true;
    fs.SetDisabled(&mut t, false);
    assert!(!t.nodes[0].disabled_state);
    assert!(t.nodes[2].disabled_state, "input A keeps its own attribute's state");
    assert!(!t.nodes[4].disabled_state, "input B becomes enabled");
    assert!(t.nodes[4].enabled_state);
    assert!(!t.nodes[5].disabled_state, "input C becomes enabled");
    assert!(!t.nodes[6].disabled_state);
    assert_complementary(&t);
}

#[test]
fn value_only_change_is_a_noop() {
    let mut t = scenario_tree();
    let fs = fieldset_at(0);
    fs.SetDisabled(&mut t, true);
    let before: Vec<(bool, bool)> =
        t.nodes.iter().map(|n| (n.disabled_state, n.enabled_state)).collect();

    let outcome = fs.attribute_mutated(
        &mut t,
        "disabled",
        &AttributeMutation::Assigned(Some(String::from("disabled"))),
    );
    assert_eq!(outcome, ObserverOutcome::NoCascade);
    let after: Vec<(bool, bool)> =
        t.nodes.iter().map(|n| (n.disabled_state, n.enabled_state)).collect();
    assert_eq!(before, after, "a value-only change must not alter any state");
}

#[test]
fn first_caption_exempt_second_caption_cascaded() {
    // 0 container, 1 first caption {2 input}, 3 second caption {4 input}.
    let mut t = Tree {
        nodes: vec![
            el(ElementKind::GroupingContainer, None, vec![1, 3]),
            el(ElementKind::Caption, Some(0), vec![2]),
            el(ElementKind::TextInput, Some(1), vec![]),
            el(ElementKind::Caption, Some(0), vec![4]),
            el(ElementKind::TextInput, Some(3), vec![]),
        ],
    };
    let fs = fieldset_at(0);
    fs.SetDisabled(&mut t, true);
    assert!(!t.nodes[2].disabled_state, "control under the first caption is exempt");
    assert!(t.nodes[4].disabled_state, "control under a later caption is a target");
    fs.SetDisabled(&mut t, false);
    assert!(!t.nodes[2].disabled_state);
    assert!(!t.nodes[4].disabled_state);
}

#[test]
fn no_caption_means_every_child_is_a_root() {
    // 0 container, 1 input, 2 fieldset {3 input}.
    let mut t = Tree {
        nodes: vec![
            el(ElementKind::GroupingContainer, None, vec![1, 2]),
            el(ElementKind::Selection, Some(0), vec![]),
            el(ElementKind::GroupingContainer, Some(0), vec![3]),
            el(ElementKind::ButtonLike, Some(2), vec![]),
        ],
    };
    let fs = fieldset_at(0);
    fs.SetDisabled(&mut t, true);
    assert!(t.nodes[1].disabled_state);
    assert!(t.nodes[3].disabled_state);
    assert_eq!(fs.Elements(&t), vec![1, 3]);
}

#[test]
fn control_before_the_caption_is_still_a_target() {
    // 0 container, 1 input (before the caption), 2 caption {3 input}, 4 input.
    let mut t = Tree {
        nodes: vec![
            el(ElementKind::GroupingContainer, None, vec![1, 2, 4]),
            el(ElementKind::MultilineText, Some(0), vec![]),
            el(ElementKind::Caption, Some(0), vec![3]),
            el(ElementKind::TextInput, Some(2), vec![]),
            el(ElementKind::TextInput, Some(0), vec![]),
        ],
    };
    let fs = fieldset_at(0);
    fs.SetDisabled(&mut t, true);
    assert!(t.nodes[1].disabled_state, "a sibling before the caption is a cascade root");
    assert!(!t.nodes[3].disabled_state, "the caption subtree stays exempt");
    assert!(t.nodes[4].disabled_state);
}

#[test]
fn enable_rederives_from_own_attribute() {
    // 0 container, 1 input D (own attribute), 2 input E.
    let mut t = Tree {
        nodes: vec![
            el(ElementKind::GroupingContainer, None, vec![1, 2]),
            el(ElementKind::TextInput, Some(0), vec![]),
            el(ElementKind::TextInput, Some(0), vec![]),
        ],
    };
    let fs = fieldset_at(0);
    fs.SetDisabled(&mut t, true);
    t.nodes[1].own_disabled_attribute_present = true;
    fs.SetDisabled(&mut t, false);
    assert!(t.nodes[1].disabled_state, "a control with its own attribute stays disabled");
    assert!(!t.nodes[1].enabled_state);
    assert!(!t.nodes[2].disabled_state, "an unconstrained control becomes enabled");
    assert!(t.nodes[2].enabled_state);
}

#[test]
fn inner_disabled_container_holds_its_controls() {
    // 0 outer container {1 inner container {2 input}}.
    let mut t = Tree {
        nodes: vec![
            el(ElementKind::GroupingContainer, None, vec![1]),
            el(ElementKind::GroupingContainer, Some(0), vec![2]),
            el(ElementKind::TextInput, Some(1), vec![]),
        ],
    };
    let outer = fieldset_at(0);
    let inner = fieldset_at(1);
    inner.SetDisabled(&mut t, true);
    assert!(t.nodes[1].disabled_state);
    assert!(t.nodes[2].disabled_state);
    outer.SetDisabled(&mut t, true);
    assert!(t.nodes[2].disabled_state);
    outer.SetDisabled(&mut t, false);
    assert!(!t.nodes[0].disabled_state);
    assert!(
        t.nodes[2].disabled_state,
        "the inner container still covers its control after the outer enable"
    );
    assert!(t.nodes[1].disabled_state, "the inner container's own state is not re-derived");
}

#[test]
fn observer_dispatches_by_attribute_name() {
    let mut t = scenario_tree();
    let fs = fieldset_at(0);

    let o = fs.attribute_mutated(&mut t, "disabled", &AttributeMutation::Assigned(None));
    assert_eq!(o, ObserverOutcome::Cascaded(true));
    assert!(t.nodes[2].disabled_state);

    let o = fs.attribute_mutated(&mut t, "disabled", &AttributeMutation::Removed);
    assert_eq!(o, ObserverOutcome::Cascaded(false));
    assert!(!t.nodes[2].disabled_state);

    let before: Vec<bool> = t.nodes.iter().map(|n| n.disabled_state).collect();
    let o = fs.attribute_mutated(&mut t, "form", &AttributeMutation::Removed);
    assert_eq!(o, ObserverOutcome::DelegateToFormResolver);
    let o = fs.attribute_mutated(&mut t, "name", &AttributeMutation::Assigned(None));
    assert_eq!(o, ObserverOutcome::NoCascade);
    let after: Vec<bool> = t.nodes.iter().map(|n| n.disabled_state).collect();
    assert_eq!(before, after, "neither form delegation nor a foreign attribute may cascade");
}

#[test]
fn elements_query_uses_the_caption_rule() {
    let t = scenario_tree();
    let fs = fieldset_at(0);
    let elements = fs.Elements(&t);
    assert_eq!(elements, vec![2, 4, 5]);
}

#[test]
fn propagate_disable_is_idempotent_on_states() {
    let mut t = scenario_tree();
    propagate(&mut t, 0, true);
    let once: Vec<(bool, bool)> =
        t.nodes.iter().map(|n| (n.disabled_state, n.enabled_state)).collect();
    propagate(&mut t, 0, true);
    let twice: Vec<(bool, bool)> =
        t.nodes.iter().map(|n| (n.disabled_state, n.enabled_state)).collect();
    assert_eq!(once, twice);
}

#[test]
fn set_disabled_to_same_value_changes_nothing() {
    let mut t = scenario_tree();
    let fs = fieldset_at(0);
    fs.SetDisabled(&mut t, false);
    assert!(!t.nodes[0].disabled_state);
    for n in &t.nodes {
        assert!(!n.disabled_state);
        assert!(n.enabled_state);
    }
}

#[test]
fn new_allocates_an_enabled_detached_container() {
    let mut t = Tree { nodes: vec![] };
    let fs = HTMLFieldSetElement::new(&mut t);
    assert_eq!(fs.node, 0);
    assert_eq!(t.nodes.len(), 1);
    assert_eq!(t.nodes[0].kind, ElementKind::GroupingContainer);
    assert!(!t.nodes[0].disabled_state);
    assert!(t.nodes[0].enabled_state);
    assert!(!t.nodes[0].own_disabled_attribute_present);
    assert!(t.nodes[0].parent.is_none());
    assert!(t.nodes[0].children.is_empty());
    assert!(!fs.Disabled(&t));
}

#[test]
fn form_owner_round_trip() {
    let mut t = Tree { nodes: vec![] };
    let mut fs = HTMLFieldSetElement::new(&mut t);
    assert_eq!(fs.GetForm(), None);
    assert_eq!(fs.form_owner(), None);
    fs.set_form_owner(Some(7));
    assert_eq!(fs.GetForm(), Some(7));
    assert_eq!(fs.form_owner(), Some(7));
    fs.set_form_owner(None);
    assert_eq!(fs.GetForm(), None);
}

#[test]
fn disabled_getter_reflects_the_attribute() {
    let mut t = scenario_tree();
    let fs = fieldset_at(0);
    assert!(!fs.Disabled(&t));
    fs.SetDisabled(&mut t, true);
    assert!(fs.Disabled(&t));
    fs.SetDisabled(&mut t, false);
    assert!(!fs.Disabled(&t));
}
