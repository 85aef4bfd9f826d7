use sixtyfps_compiler::expression_tree::{Expression, NamedReference};
use sixtyfps_compiler::langtype::ElementType;
use sixtyfps_compiler::object_tree::{
    find_binding, Binding, Component, Element, ObjectTree, RepeatedElementInfo,
};
use sixtyfps_compiler::passes::repeater_component::process_repeater_components;
use sixtyfps_compiler::well_formedness::{
    bindings_target_below, expression_targets_below, names_are_unique,
};

fn item(id: &str, children: Vec<usize>) -> Element {
    let mut element = Element::new(id, ElementType::Builtin("Rectangle".to_string()));
    element.children = children;
    element
}

fn bound(name: &str, expression: Expression) -> Binding {
    Binding { name: name.to_string(), expression }
}

fn reference(element: usize, name: &str) -> Expression {
    Expression::PropertyReference(NamedReference::new(element, name))
}

fn forest(elements: Vec<Element>) -> ObjectTree {
    ObjectTree { elements, components: vec![] }
}

#[test]
fn named_reference_holds_what_it_is_made_of() {
    let nr = NamedReference::new(7, "width");
    assert_eq!(nr.element(), 7);
    assert_eq!(nr.name(), "width");
    assert_eq!(nr.element, 7);
    assert_eq!(nr.name, "width");
}

#[test]
fn named_references_are_equal_by_element_and_name() {
    assert_eq!(NamedReference::new(1, "x"), NamedReference::new(1, "x"));
    assert_ne!(NamedReference::new(1, "x"), NamedReference::new(2, "x"));
    assert_ne!(NamedReference::new(1, "x"), NamedReference::new(1, "y"));
    assert_eq!(NamedReference::new(3, "$model").clone(), NamedReference::new(3, "$model"));
}

#[test]
fn default_values_hold_nothing() {
    assert_eq!(Expression::default(), Expression::Invalid);
    assert_eq!(ElementType::default(), ElementType::Invalid);
    let element = Element::default();
    assert_eq!(element, Element::new("", ElementType::Invalid));
    assert_eq!(element.id, "");
    assert!(element.children.is_empty());
    assert!(element.bindings.is_empty());
    assert_eq!(element.repeated, None);
    assert_eq!(element.enclosing_component, None);
    assert_eq!(
        Component::default(),
        Component { id: String::new(), root_element: 0, parent_element: None }
    );
}

#[test]
fn new_element_has_its_identifier_and_type() {
    let element = Element::new("row", ElementType::Component(4));
    assert_eq!(element.id, "row");
    assert_eq!(element.base_type, ElementType::Component(4));
    assert!(element.property_declarations.is_empty());
    assert!(element.property_animations.is_empty());
    assert!(element.states.is_empty());
    assert!(element.transitions.is_empty());
    assert_eq!(element.node, None);
    assert!(!element.child_of_layout);
    assert_eq!(element.layout_info_prop, None);
    assert!(!element.is_flickable_viewport);
    assert_eq!(element.item_index, None);
}

#[test]
fn element_type_tells_its_component() {
    assert_eq!(ElementType::Component(3).as_component(), Some(3));
    assert_eq!(ElementType::Builtin("Text".to_string()).as_component(), None);
    assert_eq!(ElementType::Invalid.as_component(), None);
}

#[test]
fn find_binding_gives_the_first_index() {
    let bindings = vec![
        bound("width", Expression::NumberLiteral(1)),
        bound("height", Expression::NumberLiteral(2)),
        bound("text", Expression::NumberLiteral(3)),
    ];
    assert_eq!(find_binding(&bindings, "width"), Some(0));
    assert_eq!(find_binding(&bindings, "height"), Some(1));
    assert_eq!(find_binding(&bindings, "text"), Some(2));
    assert_eq!(find_binding(&bindings, "heigh"), None);
    assert_eq!(find_binding(&bindings, ""), None);
    assert_eq!(find_binding(&Vec::new(), "width"), None);
}

#[test]
fn binding_gives_the_expression() {
    let mut element = item("a", vec![]);
    element.bindings = vec![
        bound("width", Expression::NumberLiteral(1)),
        bound("height", Expression::BoolLiteral(false)),
    ];
    assert_eq!(element.binding("height"), Some(&Expression::BoolLiteral(false)));
    assert_eq!(element.binding("width"), Some(&Expression::NumberLiteral(1)));
    assert_eq!(element.binding("text"), None);
}

#[test]
fn built_tree_is_well_formed() {
    let mut tree = ObjectTree::new();
    assert!(tree.is_well_formed());
    assert_eq!(tree.add_element(item("leaf", vec![])), 0);
    assert_eq!(tree.add_element(item("other", vec![])), 1);
    let mut parent = item("parent", vec![0, 1]);
    parent.bindings = vec![bound("width", reference(2, "height")), bound("x", reference(0, "x"))];
    assert_eq!(tree.add_element(parent), 2);
    assert_eq!(
        tree.add_component(Component {
            id: "App".to_string(),
            root_element: 2,
            parent_element: None
        }),
        0
    );
    assert!(tree.is_well_formed());
    assert_eq!(tree.elements.len(), 3);
    assert_eq!(tree.elements[2].children, vec![0, 1]);
    assert_eq!(tree.components[0].root_element, 2);
}

#[test]
fn well_formed_whatever_the_order_of_the_elements() {
    // The parent comes first.
    assert!(forest(vec![item("a", vec![1, 2]), item("b", vec![]), item("c", vec![3]), item("d", vec![])])
        .is_well_formed());
    // The parent comes last.
    assert!(forest(vec![item("d", vec![]), item("c", vec![0]), item("b", vec![]), item("a", vec![2, 1])])
        .is_well_formed());
    // Neither.
    assert!(forest(vec![item("c", vec![3]), item("a", vec![2, 0]), item("b", vec![]), item("d", vec![])])
        .is_well_formed());
}

#[test]
fn long_chain_is_well_formed() {
    let mut elements = vec![item("bottom", vec![])];
    for i in 1..50 {
        elements.push(item("link", vec![i - 1]));
    }
    assert!(forest(elements).is_well_formed());
    let mut elements = Vec::new();
    for i in 0..49 {
        elements.push(item("link", vec![i + 1]));
    }
    elements.push(item("bottom", vec![]));
    assert!(forest(elements).is_well_formed());
}

#[test]
fn missing_child_is_refused() {
    assert!(!forest(vec![item("a", vec![1])]).is_well_formed());
    assert!(!forest(vec![item("a", vec![]), item("b", vec![0, 2])]).is_well_formed());
}

#[test]
fn child_of_two_parents_is_refused() {
    assert!(!forest(vec![item("a", vec![]), item("b", vec![0]), item("c", vec![0])])
        .is_well_formed());
}

#[test]
fn child_named_twice_is_refused() {
    assert!(!forest(vec![item("a", vec![]), item("b", vec![0, 0])]).is_well_formed());
}

#[test]
fn element_below_itself_is_refused() {
    assert!(!forest(vec![item("a", vec![0])]).is_well_formed());
    assert!(!forest(vec![item("a", vec![1]), item("b", vec![0])]).is_well_formed());
    assert!(!forest(vec![
        item("a", vec![1]),
        item("b", vec![2]),
        item("c", vec![0]),
        item("d", vec![])
    ])
    .is_well_formed());
    // A ring beside a tree.
    assert!(!forest(vec![
        item("root", vec![1]),
        item("leaf", vec![]),
        item("x", vec![3]),
        item("y", vec![2])
    ])
    .is_well_formed());
}

#[test]
fn missing_reference_target_is_refused() {
    let mut element = item("a", vec![]);
    element.bindings = vec![bound("x", reference(1, "x"))];
    assert!(!forest(vec![element]).is_well_formed());
    let mut element = item("a", vec![]);
    element.bindings = vec![bound(
        "x",
        Expression::UnaryOp { sub: Box::new(reference(5, "x")), op: '-' },
    )];
    assert!(!forest(vec![element, item("b", vec![])]).is_well_formed());
}

#[test]
fn reference_to_the_element_itself_is_accepted() {
    let mut element = item("a", vec![]);
    element.bindings = vec![bound("x", reference(0, "y"))];
    assert!(forest(vec![element]).is_well_formed());
}

#[test]
fn property_bound_twice_is_refused() {
    let mut element = item("a", vec![]);
    element.bindings = vec![
        bound("x", Expression::NumberLiteral(1)),
        bound("y", Expression::NumberLiteral(2)),
        bound("x", Expression::NumberLiteral(3)),
    ];
    assert!(!forest(vec![element]).is_well_formed());
}

#[test]
fn missing_component_is_refused() {
    let mut element = item("a", vec![]);
    element.base_type = ElementType::Component(0);
    assert!(!forest(vec![element]).is_well_formed());
    let mut element = item("a", vec![]);
    element.base_type = ElementType::Component(1);
    let mut tree = forest(vec![element]);
    tree.components.push(Component { id: "A".to_string(), root_element: 0, parent_element: None });
    assert!(!tree.is_well_formed());
    tree.elements[0].base_type = ElementType::Component(0);
    assert!(tree.is_well_formed());
}

#[test]
fn missing_root_of_a_component_is_refused() {
    let mut tree = forest(vec![item("a", vec![])]);
    tree.components.push(Component { id: "A".to_string(), root_element: 1, parent_element: None });
    assert!(!tree.is_well_formed());
    tree.components[0].root_element = 0;
    assert!(tree.is_well_formed());
}

#[test]
fn enclosing_component_and_parent_element_are_not_checked() {
    let mut element = item("a", vec![]);
    element.enclosing_component = Some(12);
    let mut tree = forest(vec![element]);
    tree.components.push(Component { id: "A".to_string(), root_element: 0, parent_element: Some(40) });
    assert!(tree.is_well_formed());
}

#[test]
fn element_is_well_formed_looks_at_one_element() {
    let mut bad = item("bad", vec![0]);
    bad.bindings = vec![bound("x", reference(9, "x"))];
    let tree = forest(vec![item("a", vec![]), bad]);
    assert!(tree.element_is_well_formed(0));
    assert!(!tree.element_is_well_formed(1));
}

#[test]
fn expression_targets_are_bounded() {
    let expression = Expression::Condition {
        condition: Box::new(reference(0, "a")),
        true_expr: Box::new(Expression::BinaryExpression {
            lhs: Box::new(reference(3, "b")),
            rhs: Box::new(Expression::StringLiteral("s".to_string())),
            op: '+',
        }),
        false_expr: Box::new(Expression::UnaryOp { sub: Box::new(reference(2, "c")), op: '!' }),
    };
    assert!(expression_targets_below(&expression, 4));
    assert!(!expression_targets_below(&expression, 3));
    assert!(!expression_targets_below(&expression, 0));
    assert!(expression_targets_below(&Expression::NumberLiteral(3), 0));
    assert!(expression_targets_below(&Expression::Invalid, 0));
    assert!(!expression_targets_below(&reference(0, "a"), 0));
}

#[test]
fn binding_targets_are_bounded() {
    let bindings = vec![bound("a", reference(0, "a")), bound("b", reference(2, "b"))];
    assert!(bindings_target_below(&bindings, 3));
    assert!(!bindings_target_below(&bindings, 2));
    assert!(bindings_target_below(&Vec::new(), 0));
}

#[test]
fn unique_names_are_recognised() {
    assert!(names_are_unique(&Vec::new()));
    assert!(names_are_unique(&vec![bound("a", Expression::Invalid)]));
    assert!(names_are_unique(&vec![
        bound("a", Expression::Invalid),
        bound("b", Expression::Invalid),
        bound("c", Expression::Invalid)
    ]));
    assert!(!names_are_unique(&vec![
        bound("a", Expression::Invalid),
        bound("b", Expression::Invalid),
        bound("b", Expression::Invalid)
    ]));
    assert!(!names_are_unique(&vec![
        bound("a", Expression::Invalid),
        bound("b", Expression::Invalid),
        bound("a", Expression::Invalid)
    ]));
}

#[test]
fn pass_keeps_a_built_tree_well_formed() {
    let mut tree = ObjectTree::new();
    tree.add_element(item("label", vec![]));
    let mut row = item("row", vec![0]);
    row.repeated = Some(RepeatedElementInfo { is_conditional_element: false, is_listview: true });
    tree.add_element(row);
    let mut root = item("root", vec![1]);
    root.bindings = vec![bound("width", reference(1, "width"))];
    tree.add_element(root);
    tree.add_component(Component { id: "App".to_string(), root_element: 2, parent_element: None });
    assert!(tree.is_well_formed());
    process_repeater_components(&mut tree, 0);
    assert!(tree.is_well_formed());
    assert_eq!(tree.elements[2].bindings, vec![bound("width", reference(3, "width"))]);
    assert_eq!(tree.elements[3].children, vec![0]);
}
