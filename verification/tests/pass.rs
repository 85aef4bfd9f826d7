use sixtyfps_compiler::expression_tree::{Expression, NamedReference};
use sixtyfps_compiler::langtype::ElementType;
use sixtyfps_compiler::object_tree::{
    Binding, Component, Element, ObjectTree, PropertyAnimation, PropertyDeclaration,
    RepeatedElementInfo, SourceLocation, State, Transition,
};
use sixtyfps_compiler::passes::repeater_component::{
    adjust_expression, adjust_reference, adjust_references, create_repeater_components,
    process_repeater_components, set_enclosing_component, sub_component_root_of,
};

fn plain(id: &str, kind: &str) -> Element {
    let mut element = Element::new(id, ElementType::Builtin(kind.to_string()));
    element.enclosing_component = Some(0);
    element
}

fn repeated(id: &str, kind: &str, is_listview: bool) -> Element {
    let mut element = plain(id, kind);
    element.repeated = Some(RepeatedElementInfo { is_conditional_element: false, is_listview });
    element
}

fn bind(name: &str, expression: Expression) -> Binding {
    Binding { name: name.to_string(), expression }
}

fn prop(element: usize, name: &str) -> Expression {
    Expression::PropertyReference(NamedReference::new(element, name))
}

fn text(value: &str) -> Expression {
    Expression::StringLiteral(value.to_string())
}

fn app(elements: Vec<Element>, root_element: usize) -> ObjectTree {
    ObjectTree {
        elements,
        components: vec![Component { id: "App".to_string(), root_element, parent_element: None }],
    }
}

/// label = 0, row = 1 (repeated, holds label and a text), sibling = 2,
/// root = 3.
fn row_tree(is_listview: bool, sibling_binding: Binding) -> ObjectTree {
    let label = plain("label", "Text");
    let mut row = repeated("row", "Rectangle", is_listview);
    row.children = vec![0];
    row.bindings = vec![bind("text", text("hi"))];
    let mut sibling = plain("sibling", "Text");
    sibling.bindings = vec![sibling_binding];
    let mut root = plain("root", "Window");
    root.children = vec![1, 2];
    app(vec![label, row, sibling, root], 3)
}

/// root = 0, outer = 1 (repeated), inner = 2 (repeated, below outer),
/// leaf = 3 (below inner), rows = 4 (repeated list view, below outer):
/// every parent comes before its children.
fn nested_tree() -> ObjectTree {
    let mut root = plain("root", "Window");
    root.children = vec![1];
    let mut outer = repeated("outer", "Rectangle", false);
    outer.children = vec![2, 4];
    outer.bindings = vec![bind("width", prop(2, "width"))];
    let mut inner = repeated("inner", "Rectangle", false);
    inner.children = vec![3];
    let mut leaf = plain("leaf", "Text");
    leaf.bindings = vec![bind("text", prop(1, "title")), bind("color", prop(4, "color"))];
    let rows = repeated("rows", "Text", true);
    app(vec![root, outer, inner, leaf, rows], 0)
}

/// Checks on a tree what holds after the pass of every repeated element of
/// the component 0 that `before` had: it is an empty instance of a
/// component whose root has its identifier, its type and its children, and
/// binds what it bound.
fn assert_hollowed(before: &ObjectTree, after: &ObjectTree, repeated_elements: &[usize]) {
    for &x in repeated_elements {
        let source = &before.elements[x];
        let wrapper = &after.elements[x];
        assert!(wrapper.children.is_empty());
        assert!(wrapper.bindings.is_empty());
        assert!(wrapper.property_declarations.is_empty());
        assert!(wrapper.property_animations.is_empty());
        assert!(wrapper.states.is_empty());
        assert!(wrapper.transitions.is_empty());
        assert_eq!(wrapper.repeated, source.repeated);
        assert_eq!(wrapper.id, source.id);
        let c = match wrapper.base_type {
            ElementType::Component(c) => c,
            _ => panic!("the element {} is no instance of a component", x),
        };
        assert!(c >= before.components.len());
        let component = &after.components[c];
        assert_eq!(component.parent_element, Some(x));
        assert_eq!(component.id, "");
        assert!(component.root_element >= before.elements.len());
        let root = &after.elements[component.root_element];
        assert_eq!(root.id, source.id);
        assert_eq!(root.base_type, source.base_type);
        assert_eq!(root.children, source.children);
        assert_eq!(root.repeated, None);
        assert_eq!(root.enclosing_component, Some(c));
        let names: Vec<&str> = root.bindings.iter().map(|b| b.name.as_str()).collect();
        let mut expected: Vec<&str> = source.bindings.iter().map(|b| b.name.as_str()).collect();
        let is_listview = source.repeated.unwrap().is_listview;
        if is_listview && !expected.contains(&"height") {
            expected.push("height");
        }
        assert_eq!(names, expected);
    }
}

fn references_of(expression: &Expression, found: &mut Vec<NamedReference>) {
    match expression {
        Expression::PropertyReference(nr) => found.push(NamedReference::new(nr.element, &nr.name)),
        Expression::UnaryOp { sub, .. } => references_of(sub, found),
        Expression::BinaryExpression { lhs, rhs, .. } => {
            references_of(lhs, found);
            references_of(rhs, found);
        }
        Expression::Condition { condition, true_expr, false_expr } => {
            references_of(condition, found);
            references_of(true_expr, found);
            references_of(false_expr, found);
        }
        _ => {}
    }
}

/// Checks that no reference in a binding of the given elements names a
/// repeated element, unless it names the model.
fn assert_settled(tree: &ObjectTree, elements: &[usize]) {
    for &x in elements {
        for binding in &tree.elements[x].bindings {
            let mut found = Vec::new();
            references_of(&binding.expression, &mut found);
            for nr in found {
                assert!(
                    nr.name == "$model" || tree.elements[nr.element].repeated.is_none(),
                    "the element {} refers to the repeated element {}",
                    x,
                    nr.element
                );
            }
        }
    }
}

#[test]
fn simple_repeater() {
    let mut tree = row_tree(false, bind("text", text("other")));
    assert!(tree.is_well_formed());
    process_repeater_components(&mut tree, 0);

    assert_eq!(tree.elements.len(), 5);
    assert_eq!(tree.components.len(), 2);
    let row = &tree.elements[1];
    assert_eq!(row.children, Vec::<usize>::new());
    assert!(row.bindings.is_empty());
    assert_eq!(row.base_type, ElementType::Component(1));
    assert_eq!(
        tree.components[1],
        Component { id: String::new(), root_element: 4, parent_element: Some(1) }
    );
    let made = &tree.elements[4];
    assert_eq!(made.children, vec![0]);
    assert_eq!(made.bindings, vec![bind("text", text("hi"))]);
    assert_eq!(made.binding("text"), Some(&text("hi")));
    assert_eq!(made.id, "row");
    assert_eq!(made.base_type, ElementType::Builtin("Rectangle".to_string()));
    assert_eq!(made.repeated, None);
    assert!(tree.is_well_formed());
}

#[test]
fn simple_repeater_keeps_its_descriptor() {
    let mut tree = row_tree(false, bind("text", text("other")));
    process_repeater_components(&mut tree, 0);
    assert_eq!(
        tree.elements[1].repeated,
        Some(RepeatedElementInfo { is_conditional_element: false, is_listview: false })
    );
    assert_eq!(tree.elements[1].id, "row");
}

#[test]
fn list_view_default_height() {
    let mut tree = row_tree(true, bind("text", text("other")));
    assert!(tree.is_well_formed());
    process_repeater_components(&mut tree, 0);

    let made = &tree.elements[4];
    assert_eq!(made.binding("height"), Some(&prop(4, "preferred_height")));
    assert_eq!(
        made.bindings,
        vec![bind("text", text("hi")), bind("height", prop(4, "preferred_height"))]
    );
    assert!(made.child_of_layout);
    assert!(!tree.elements[1].child_of_layout);
    assert!(tree.is_well_formed());
}

#[test]
fn list_view_keeps_explicit_height() {
    let mut tree = row_tree(true, bind("text", text("other")));
    tree.elements[1].bindings.push(bind("height", Expression::NumberLiteral(20)));
    assert!(tree.is_well_formed());
    process_repeater_components(&mut tree, 0);

    let made = &tree.elements[4];
    assert_eq!(
        made.bindings,
        vec![bind("text", text("hi")), bind("height", Expression::NumberLiteral(20))]
    );
    assert!(made.child_of_layout);
}

#[test]
fn plain_repeater_gets_no_height() {
    let mut tree = row_tree(false, bind("text", text("other")));
    process_repeater_components(&mut tree, 0);
    assert_eq!(tree.elements[4].binding("height"), None);
    assert!(!tree.elements[4].child_of_layout);
}

#[test]
fn child_of_layout_is_kept_when_set() {
    let mut tree = row_tree(false, bind("text", text("other")));
    tree.elements[1].child_of_layout = true;
    process_repeater_components(&mut tree, 0);
    assert!(tree.elements[4].child_of_layout);
    assert!(tree.elements[1].child_of_layout);
}

#[test]
fn cross_reference_repair() {
    let mut tree = row_tree(false, bind("text", prop(1, "text")));
    assert!(tree.is_well_formed());
    process_repeater_components(&mut tree, 0);

    assert_eq!(tree.elements[1].base_type, ElementType::Component(1));
    assert_eq!(tree.components[1].root_element, 4);
    assert_eq!(tree.elements[2].bindings, vec![bind("text", prop(4, "text"))]);
}

#[test]
fn model_reference_is_not_redirected() {
    let mut tree = row_tree(false, bind("model", prop(1, "$model")));
    assert!(tree.is_well_formed());
    process_repeater_components(&mut tree, 0);

    assert_eq!(tree.elements[1].base_type, ElementType::Component(1));
    assert_eq!(tree.elements[2].bindings, vec![bind("model", prop(1, "$model"))]);
}

#[test]
fn references_in_nested_expressions_are_repaired() {
    let expression = Expression::Condition {
        condition: Box::new(Expression::UnaryOp { sub: Box::new(prop(1, "visible")), op: '!' }),
        true_expr: Box::new(Expression::BinaryExpression {
            lhs: Box::new(prop(1, "width")),
            rhs: Box::new(prop(0, "width")),
            op: '+',
        }),
        false_expr: Box::new(Expression::BinaryExpression {
            lhs: Box::new(prop(1, "$model")),
            rhs: Box::new(Expression::NumberLiteral(2)),
            op: '*',
        }),
    };
    let mut tree = row_tree(false, bind("width", expression));
    process_repeater_components(&mut tree, 0);

    let expected = Expression::Condition {
        condition: Box::new(Expression::UnaryOp { sub: Box::new(prop(4, "visible")), op: '!' }),
        true_expr: Box::new(Expression::BinaryExpression {
            lhs: Box::new(prop(4, "width")),
            rhs: Box::new(prop(0, "width")),
            op: '+',
        }),
        false_expr: Box::new(Expression::BinaryExpression {
            lhs: Box::new(prop(1, "$model")),
            rhs: Box::new(Expression::NumberLiteral(2)),
            op: '*',
        }),
    };
    assert_eq!(tree.elements[2].bindings, vec![bind("width", expected)]);
}

#[test]
fn references_inside_the_moved_content_are_repaired() {
    let mut tree = row_tree(false, bind("text", text("other")));
    tree.elements[0].bindings = vec![bind("text", prop(1, "text"))];
    tree.elements[1].bindings.push(bind("width", prop(1, "height")));
    assert!(tree.is_well_formed());
    process_repeater_components(&mut tree, 0);

    assert_eq!(tree.elements[0].bindings, vec![bind("text", prop(4, "text"))]);
    assert_eq!(
        tree.elements[4].bindings,
        vec![bind("text", text("hi")), bind("width", prop(4, "height"))]
    );
}

#[test]
fn nested_repeaters_become_a_chain() {
    let mut tree = nested_tree();
    assert!(tree.is_well_formed());
    let before = nested_tree();
    process_repeater_components(&mut tree, 0);

    assert_eq!(tree.elements.len(), 8);
    assert_eq!(tree.components.len(), 4);
    // outer -> component 1 -> element 5
    assert_eq!(tree.elements[1].base_type, ElementType::Component(1));
    assert_eq!(
        tree.components[1],
        Component { id: String::new(), root_element: 5, parent_element: Some(1) }
    );
    assert_eq!(tree.elements[5].children, vec![2, 4]);
    // inner -> component 2 -> element 6
    assert_eq!(tree.elements[2].base_type, ElementType::Component(2));
    assert_eq!(
        tree.components[2],
        Component { id: String::new(), root_element: 6, parent_element: Some(2) }
    );
    assert_eq!(tree.elements[6].children, vec![3]);
    // rows -> component 3 -> element 7
    assert_eq!(tree.elements[4].base_type, ElementType::Component(3));
    assert_eq!(
        tree.components[3],
        Component { id: String::new(), root_element: 7, parent_element: Some(4) }
    );
    assert_eq!(tree.elements[7].children, Vec::<usize>::new());
    assert_eq!(tree.elements[7].bindings, vec![bind("height", prop(7, "preferred_height"))]);
    assert_hollowed(&before, &tree, &[1, 2, 4]);
    assert!(tree.is_well_formed());
}

#[test]
fn nested_repeaters_have_their_references_repaired() {
    let mut tree = nested_tree();
    process_repeater_components(&mut tree, 0);

    // The binding that `outer` held is now held by its root.
    assert_eq!(tree.elements[5].bindings, vec![bind("width", prop(6, "width"))]);
    assert_eq!(
        tree.elements[3].bindings,
        vec![bind("text", prop(5, "title")), bind("color", prop(7, "color"))]
    );
    assert_settled(&tree, &[0, 1, 2, 3, 4, 5, 6, 7]);
}

#[test]
fn enclosing_components_follow_the_nesting() {
    let mut tree = nested_tree();
    process_repeater_components(&mut tree, 0);

    let enclosing: Vec<Option<usize>> =
        tree.elements.iter().map(|e| e.enclosing_component).collect();
    assert_eq!(
        enclosing,
        vec![Some(0), Some(0), Some(1), Some(2), Some(1), Some(1), Some(2), Some(3)]
    );
}

#[test]
fn tree_without_repeaters_is_unchanged() {
    let label = plain("label", "Text");
    let mut row = plain("row", "Rectangle");
    row.children = vec![0];
    row.bindings = vec![bind("text", prop(0, "text"))];
    let mut root = plain("root", "Window");
    root.children = vec![1];
    let mut tree = app(vec![label, row, root], 2);
    assert!(tree.is_well_formed());
    process_repeater_components(&mut tree, 0);

    let label = plain("label", "Text");
    let mut row = plain("row", "Rectangle");
    row.children = vec![0];
    row.bindings = vec![bind("text", prop(0, "text"))];
    let mut root = plain("root", "Window");
    root.children = vec![1];
    assert_eq!(tree, app(vec![label, row, root], 2));
}

#[test]
fn pass_twice_without_repeaters_is_pass_once() {
    let label = plain("label", "Text");
    let mut row = plain("row", "Rectangle");
    row.children = vec![0];
    row.bindings = vec![bind("text", prop(0, "text"))];
    let mut root = plain("root", "Window");
    root.children = vec![1];
    let mut once = app(vec![label, row, root], 2);
    process_repeater_components(&mut once, 0);

    let label = plain("label", "Text");
    let mut row = plain("row", "Rectangle");
    row.children = vec![0];
    row.bindings = vec![bind("text", prop(0, "text"))];
    let mut root = plain("root", "Window");
    root.children = vec![1];
    let mut twice = app(vec![label, row, root], 2);
    process_repeater_components(&mut twice, 0);
    assert!(twice.is_well_formed());
    process_repeater_components(&mut twice, 0);

    assert_eq!(once, twice);
}

#[test]
fn redirecting_twice_is_redirecting_once() {
    let mut once = row_tree(true, bind("text", prop(1, "text")));
    process_repeater_components(&mut once, 0);

    let mut twice = row_tree(true, bind("text", prop(1, "text")));
    process_repeater_components(&mut twice, 0);
    assert!(twice.is_well_formed());
    adjust_references(&mut twice, 0);

    assert_eq!(once, twice);
}

#[test]
fn pass_again_extracts_the_instances_again() {
    let mut tree = row_tree(false, bind("text", prop(1, "text")));
    process_repeater_components(&mut tree, 0);
    assert!(tree.is_well_formed());
    process_repeater_components(&mut tree, 0);

    assert_eq!(tree.elements.len(), 6);
    assert_eq!(tree.components.len(), 3);
    assert_eq!(tree.elements[1].base_type, ElementType::Component(2));
    assert_eq!(tree.components[2].root_element, 5);
    assert_eq!(tree.elements[5].base_type, ElementType::Component(1));
    assert!(tree.elements[5].children.is_empty());
    assert!(tree.elements[5].bindings.is_empty());
    assert_eq!(tree.elements[4].children, vec![0]);
    assert!(tree.is_well_formed());
}

#[test]
fn conditional_element_is_extracted() {
    let mut tree = row_tree(false, bind("text", prop(1, "text")));
    tree.elements[1].repeated =
        Some(RepeatedElementInfo { is_conditional_element: true, is_listview: false });
    process_repeater_components(&mut tree, 0);

    assert_eq!(tree.elements[1].base_type, ElementType::Component(1));
    assert_eq!(
        tree.elements[1].repeated,
        Some(RepeatedElementInfo { is_conditional_element: true, is_listview: false })
    );
    assert_eq!(tree.elements[4].children, vec![0]);
    assert_eq!(tree.elements[2].bindings, vec![bind("text", prop(4, "text"))]);
}

#[test]
fn content_is_moved_as_it_is() {
    let mut tree = row_tree(false, bind("text", text("other")));
    {
        let row = &mut tree.elements[1];
        row.property_declarations = vec![PropertyDeclaration {
            name: "title".to_string(),
            property_type: "string".to_string(),
        }];
        row.property_animations =
            vec![PropertyAnimation { property: "x".to_string(), duration_ms: 250 }];
        row.states = vec![State { id: "pressed".to_string() }];
        row.transitions = vec![Transition { is_out: true, state_id: "pressed".to_string() }];
        row.node = Some(SourceLocation { source_file: 3, offset: 77 });
        row.layout_info_prop = Some("layout_info".to_string());
        row.is_flickable_viewport = true;
        row.item_index = Some(9);
    }
    assert!(tree.is_well_formed());
    create_repeater_components(&mut tree, 0);

    let made = &tree.elements[4];
    assert_eq!(
        made.property_declarations,
        vec![PropertyDeclaration { name: "title".to_string(), property_type: "string".to_string() }]
    );
    assert_eq!(
        made.property_animations,
        vec![PropertyAnimation { property: "x".to_string(), duration_ms: 250 }]
    );
    assert_eq!(made.states, vec![State { id: "pressed".to_string() }]);
    assert_eq!(
        made.transitions,
        vec![Transition { is_out: true, state_id: "pressed".to_string() }]
    );
    assert_eq!(made.node, Some(SourceLocation { source_file: 3, offset: 77 }));
    assert_eq!(made.layout_info_prop, Some("layout_info".to_string()));
    assert!(made.is_flickable_viewport);
    assert_eq!(made.item_index, None);
    assert_eq!(made.enclosing_component, Some(1));

    let row = &tree.elements[1];
    assert!(row.property_declarations.is_empty());
    assert!(row.property_animations.is_empty());
    assert!(row.states.is_empty());
    assert!(row.transitions.is_empty());
    assert_eq!(row.node, Some(SourceLocation { source_file: 3, offset: 77 }));
    assert_eq!(row.layout_info_prop, None);
    assert!(row.is_flickable_viewport);
    assert_eq!(row.item_index, Some(9));
    assert_eq!(row.enclosing_component, Some(0));
}

#[test]
fn extraction_alone_redirects_nothing() {
    let mut tree = row_tree(false, bind("text", prop(1, "text")));
    create_repeater_components(&mut tree, 0);

    assert_eq!(tree.elements[1].base_type, ElementType::Component(1));
    assert_eq!(tree.elements[2].bindings, vec![bind("text", prop(1, "text"))]);
}

#[test]
fn siblings_are_not_touched() {
    let mut tree = row_tree(true, bind("text", text("other")));
    create_repeater_components(&mut tree, 0);

    let mut sibling = plain("sibling", "Text");
    sibling.bindings = vec![bind("text", text("other"))];
    assert_eq!(tree.elements[2], sibling);
    let mut root = plain("root", "Window");
    root.children = vec![1, 2];
    assert_eq!(tree.elements[3], root);
    assert_eq!(
        tree.components[0],
        Component { id: "App".to_string(), root_element: 3, parent_element: None }
    );
}

#[test]
fn repeated_instance_of_a_component_hands_its_type_on() {
    // inner root = 0, row = 1 (repeated instance of component 1), root = 2.
    let inner_root = plain("inner", "Rectangle");
    let mut row = repeated("row", "unused", false);
    row.base_type = ElementType::Component(1);
    let mut root = plain("root", "Window");
    root.children = vec![1];
    root.bindings = vec![bind("width", prop(1, "width"))];
    let mut tree = app(vec![inner_root, row, root], 2);
    tree.components.push(Component {
        id: "Inner".to_string(),
        root_element: 0,
        parent_element: None,
    });
    assert!(tree.is_well_formed());
    process_repeater_components(&mut tree, 0);

    assert_eq!(tree.elements[1].base_type, ElementType::Component(2));
    assert_eq!(tree.components[2].root_element, 3);
    assert_eq!(tree.elements[3].base_type, ElementType::Component(1));
    assert_eq!(tree.elements[2].bindings, vec![bind("width", prop(3, "width"))]);
}

#[test]
fn repeated_root_of_the_component_is_extracted() {
    let mut root = repeated("root", "Window", false);
    root.bindings = vec![bind("title", text("t"))];
    let mut tree = app(vec![root], 0);
    assert!(tree.is_well_formed());
    process_repeater_components(&mut tree, 0);

    assert_eq!(tree.components[0].root_element, 0);
    assert_eq!(tree.elements[0].base_type, ElementType::Component(1));
    assert_eq!(tree.components[1].root_element, 1);
    assert_eq!(tree.elements[1].bindings, vec![bind("title", text("t"))]);
}

#[test]
fn elements_outside_the_component_are_left_alone() {
    // The component 1 has the root 5, which holds a repeated element 4.
    let mut tree = row_tree(false, bind("text", prop(1, "text")));
    let mut stray = repeated("stray", "Text", true);
    stray.bindings = vec![bind("text", prop(1, "text"))];
    tree.elements.push(stray);
    let mut other_root = plain("other", "Window");
    other_root.children = vec![4];
    other_root.bindings = vec![bind("width", prop(1, "width"))];
    tree.elements.push(other_root);
    tree.components.push(Component {
        id: "Other".to_string(),
        root_element: 5,
        parent_element: None,
    });
    assert!(tree.is_well_formed());
    process_repeater_components(&mut tree, 0);

    assert_eq!(tree.elements.len(), 7);
    assert_eq!(tree.elements[1].base_type, ElementType::Component(2));
    assert_eq!(tree.elements[2].bindings, vec![bind("text", prop(6, "text"))]);
    let mut stray = repeated("stray", "Text", true);
    stray.bindings = vec![bind("text", prop(1, "text"))];
    assert_eq!(tree.elements[4], stray);
    let mut other_root = plain("other", "Window");
    other_root.children = vec![4];
    other_root.bindings = vec![bind("width", prop(1, "width"))];
    assert_eq!(tree.elements[5], other_root);
}

#[test]
fn hollowing_holds_of_every_repeated_element() {
    // root = 6 holds a = 5 (repeated) and b = 4 (plain); a holds c = 3
    // (repeated list view) and d = 2 (plain); d holds e = 1 (repeated),
    // which holds f = 0.
    let f = plain("f", "Text");
    let mut e = repeated("e", "Rectangle", false);
    e.children = vec![0];
    e.bindings = vec![bind("x", prop(5, "x")), bind("y", prop(3, "y"))];
    let mut d = plain("d", "Rectangle");
    d.children = vec![1];
    let mut c = repeated("c", "Text", true);
    c.bindings = vec![bind("text", prop(1, "text"))];
    let mut b = plain("b", "Text");
    b.bindings = vec![bind("text", prop(1, "$model")), bind("width", prop(3, "width"))];
    let mut a = repeated("a", "Rectangle", false);
    a.children = vec![3, 2];
    let mut root = plain("root", "Window");
    root.children = vec![5, 4];
    let build = || {
        let f = plain("f", "Text");
        let mut e = repeated("e", "Rectangle", false);
        e.children = vec![0];
        e.bindings = vec![bind("x", prop(5, "x")), bind("y", prop(3, "y"))];
        let mut d = plain("d", "Rectangle");
        d.children = vec![1];
        let mut c = repeated("c", "Text", true);
        c.bindings = vec![bind("text", prop(1, "text"))];
        let mut b = plain("b", "Text");
        b.bindings = vec![bind("text", prop(1, "$model")), bind("width", prop(3, "width"))];
        let mut a = repeated("a", "Rectangle", false);
        a.children = vec![3, 2];
        let mut root = plain("root", "Window");
        root.children = vec![5, 4];
        app(vec![f, e, d, c, b, a, root], 6)
    };
    let before = app(vec![f, e, d, c, b, a, root], 6);
    let mut tree = build();
    assert!(tree.is_well_formed());
    process_repeater_components(&mut tree, 0);

    assert_eq!(tree.elements.len(), 10);
    assert_eq!(tree.components.len(), 4);
    assert_hollowed(&before, &tree, &[1, 3, 5]);
    assert_settled(&tree, &[0, 1, 2, 3, 4, 5, 6, 7, 8, 9]);
    // a -> 7, c -> 8, e -> 9, in the order of the descent.
    assert_eq!(tree.components[1].root_element, 7);
    assert_eq!(tree.components[2].root_element, 8);
    assert_eq!(tree.components[3].root_element, 9);
    assert_eq!(tree.components[1].parent_element, Some(5));
    assert_eq!(tree.components[2].parent_element, Some(3));
    assert_eq!(tree.components[3].parent_element, Some(1));
    assert_eq!(
        tree.elements[9].bindings,
        vec![bind("x", prop(7, "x")), bind("y", prop(8, "y"))]
    );
    assert_eq!(
        tree.elements[4].bindings,
        vec![bind("text", prop(1, "$model")), bind("width", prop(8, "width"))]
    );
    assert_eq!(
        tree.elements[8].bindings,
        vec![bind("text", prop(9, "text")), bind("height", prop(8, "preferred_height"))]
    );
    assert!(tree.is_well_formed());
}

#[test]
fn adjust_reference_leaves_the_model_alone() {
    let mut tree = row_tree(false, bind("text", text("other")));
    create_repeater_components(&mut tree, 0);
    assert!(tree.is_well_formed());

    let nr = adjust_reference(&tree, NamedReference::new(1, "$model"));
    assert_eq!(nr.element(), 1);
    assert_eq!(nr.name(), "$model");
}

#[test]
fn adjust_reference_moves_to_the_root() {
    let mut tree = row_tree(false, bind("text", text("other")));
    create_repeater_components(&mut tree, 0);

    let nr = adjust_reference(&tree, NamedReference::new(1, "text"));
    assert_eq!(nr.element(), 4);
    assert_eq!(nr.name(), "text");
    assert_eq!(nr, NamedReference::new(4, "text"));
}

#[test]
fn adjust_reference_keeps_what_is_not_repeated() {
    let mut tree = row_tree(false, bind("text", text("other")));
    create_repeater_components(&mut tree, 0);

    assert_eq!(adjust_reference(&tree, NamedReference::new(0, "text")), NamedReference::new(0, "text"));
    assert_eq!(adjust_reference(&tree, NamedReference::new(4, "text")), NamedReference::new(4, "text"));
}

#[test]
fn adjust_reference_keeps_a_repeated_element_that_is_no_instance() {
    let tree = row_tree(false, bind("text", text("other")));
    assert!(tree.is_well_formed());
    assert_eq!(adjust_reference(&tree, NamedReference::new(1, "text")), NamedReference::new(1, "text"));
}

#[test]
fn adjust_expression_keeps_literals() {
    let mut tree = row_tree(false, bind("text", text("other")));
    create_repeater_components(&mut tree, 0);

    assert_eq!(adjust_expression(&tree, Expression::Invalid), Expression::Invalid);
    assert_eq!(adjust_expression(&tree, text("a")), text("a"));
    assert_eq!(
        adjust_expression(&tree, Expression::NumberLiteral(-4)),
        Expression::NumberLiteral(-4)
    );
    assert_eq!(
        adjust_expression(&tree, Expression::BoolLiteral(true)),
        Expression::BoolLiteral(true)
    );
    assert_eq!(
        adjust_expression(
            &tree,
            Expression::UnaryOp { sub: Box::new(prop(1, "x")), op: '-' }
        ),
        Expression::UnaryOp { sub: Box::new(prop(4, "x")), op: '-' }
    );
}

#[test]
fn adjust_references_goes_into_sub_components_only() {
    // root = 0 holds the instance 1 of the component 1 (root 2, parent 1)
    // and the instance 3 of the component 2 (root 4, no parent).
    let mut root = plain("root", "Window");
    root.children = vec![1, 3];
    root.bindings = vec![bind("a", prop(1, "a")), bind("b", prop(3, "b"))];
    let mut first = repeated("first", "unused", false);
    first.base_type = ElementType::Component(1);
    let mut first_root = plain("first", "Text");
    first_root.bindings = vec![bind("a", prop(1, "a"))];
    let mut second = repeated("second", "unused", false);
    second.base_type = ElementType::Component(2);
    let mut second_root = plain("second", "Text");
    second_root.bindings = vec![bind("a", prop(1, "a"))];
    let mut tree = app(vec![root, first, first_root, second, second_root], 0);
    tree.components.push(Component { id: String::new(), root_element: 2, parent_element: Some(1) });
    tree.components.push(Component { id: "User".to_string(), root_element: 4, parent_element: None });
    assert!(tree.is_well_formed());
    assert_eq!(sub_component_root_of(&tree, 0), None);
    assert_eq!(sub_component_root_of(&tree, 1), Some(2));
    assert_eq!(sub_component_root_of(&tree, 3), None);
    adjust_references(&mut tree, 0);

    assert_eq!(
        tree.elements[0].bindings,
        vec![bind("a", prop(2, "a")), bind("b", prop(4, "b"))]
    );
    assert_eq!(tree.elements[2].bindings, vec![bind("a", prop(2, "a"))]);
    assert_eq!(tree.elements[4].bindings, vec![bind("a", prop(1, "a"))]);
}

#[test]
fn set_enclosing_component_covers_the_subtree() {
    let mut tree = nested_tree();
    tree.components.push(Component { id: "Other".to_string(), root_element: 2, parent_element: None });
    assert!(tree.is_well_formed());
    set_enclosing_component(&mut tree, 2, 1);

    let enclosing: Vec<Option<usize>> =
        tree.elements.iter().map(|e| e.enclosing_component).collect();
    assert_eq!(enclosing, vec![Some(0), Some(0), Some(1), Some(1), Some(0)]);
    let mut expected = nested_tree();
    expected.components.push(Component {
        id: "Other".to_string(),
        root_element: 2,
        parent_element: None,
    });
    expected.elements[2].enclosing_component = Some(1);
    expected.elements[3].enclosing_component = Some(1);
    assert_eq!(tree, expected);
}
