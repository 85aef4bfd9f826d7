//! Makes sure that a repeated element is a component without any children.
//!
//! Every repeated element hands what it holds to the root of a component
//! made for it, and stays behind as an instance of that component. The
//! property references that named the element are then moved over to that
//! root.
use crate::expression_tree::{targets_below, ElementId, Expression, NamedReference};
use crate::langtype::{ComponentId, ElementType};
use crate::object_tree::{
    binds, find_binding, names_unique, references_below, Binding, Component, Element, ObjectTree,
};
use crate::passes::repeater_component_guarantees::{
    instantiated, lemma_pass_instantiates, lemma_pass_settles, references_settled,
    strays_are_instances,
};
use crate::passes::repeater_component_lemmas::{
    below_children, children_keep_enclosing, lemma_child_in_order, lemma_child_visited,
    lemma_opened, lemma_plain_in_order, lemma_plain_visited, lemma_repeated_in_order,
    lemma_repeated_visited, lemma_taken_out_wf, lemma_unmarked_fewer, lemma_unmarked_less,
    taken_out,
};
use vstd::prelude::*;

verus! {

/// What is left of the repeated element `source` in `wrapper` once its
/// content is taken out: nothing but what identifies it.
pub open spec fn emptied(wrapper: Element, source: Element) -> bool {
    &&& wrapper.is_hollow()
    &&& wrapper.id == source.id
    &&& wrapper.repeated == source.repeated
    &&& wrapper.node == source.node
    &&& wrapper.child_of_layout == source.child_of_layout
    &&& wrapper.layout_info_prop.is_none()
    &&& wrapper.is_flickable_viewport == source.is_flickable_viewport
    &&& wrapper.item_index == source.item_index
}

/// Whether `binding` gives the element `root` the height that it prefers.
pub open spec fn is_preferred_height(binding: Binding, root: ElementId) -> bool {
    &&& binding.name@ == "height"@
    &&& binding.expression matches Expression::PropertyReference(nr)
    &&& nr.element == root
    &&& nr.name@ == "preferred_height"@
}

/// Whether the repeated element `source` asks for a height of its own
/// making: it is shown by a list view and binds no height.
pub open spec fn wants_height(source: Element) -> bool {
    &&& source.repeated matches Some(info)
    &&& info.is_listview
    &&& !binds(source.bindings@, "height"@)
}

/// Whether `root` has taken over from the repeated element `source` all
/// that is taken out of it but the bindings.
pub open spec fn carries_over(root: Element, source: Element) -> bool {
    &&& source.repeated matches Some(info)
    &&& root.id == source.id
    &&& root.base_type == source.base_type
    &&& root.children == source.children
    &&& root.property_declarations == source.property_declarations
    &&& root.property_animations == source.property_animations
    &&& root.states == source.states
    &&& root.transitions == source.transitions
    &&& root.repeated.is_none()
    &&& root.node == source.node
    &&& root.child_of_layout == (source.child_of_layout || info.is_listview)
    &&& root.layout_info_prop == source.layout_info_prop
    &&& root.is_flickable_viewport == source.is_flickable_viewport
    &&& root.item_index.is_none()
}

/// Whether `root`, the element of index `root_id`, holds what the repeated
/// element `source` held: all that is taken out of it, and its bindings,
/// with one more for the height where `source` asks for it.
pub open spec fn holds_content_of(root: Element, source: Element, root_id: ElementId) -> bool {
    &&& carries_over(root, source)
    &&& if wants_height(source) {
        &&& root.bindings@.len() == source.bindings@.len() + 1
        &&& root.bindings@.drop_last() =~= source.bindings@
        &&& is_preferred_height(root.bindings@.last(), root_id)
    } else {
        root.bindings == source.bindings
    }
}

/// Whether the repeated element `x` of `before` is, in `after`, an empty
/// instance of a component made for it, whose root holds what the element
/// held and has that component for its enclosing component. The component
/// and its root are as many components and elements away from those that
/// `before` has.
pub open spec fn hollowed(before: &ObjectTree, after: &ObjectTree, x: int) -> bool {
    let source = before.elements@[x];
    let wrapper = after.elements@[x];
    &&& emptied(wrapper, source)
    &&& wrapper.base_type matches ElementType::Component(c)
    &&& before.components@.len() <= c < after.components@.len()
    &&& after.components@[c as int].parent_element matches Some(p)
    &&& p == x
    &&& after.components@[c as int].id@.len() == 0
    &&& before.elements@.len() <= after.components@[c as int].root_element
        < after.elements@.len()
    &&& after.components@[c as int].root_element - before.elements@.len() == c
        - before.components@.len()
    &&& holds_content_of(
        after.elements@[after.components@[c as int].root_element as int],
        source,
        after.components@[c as int].root_element,
    )
    &&& after.elements@[after.components@[c as int].root_element as int].enclosing_component
        == Some(c)
}

/// What has become of the element `x` of `before`: outside `visited` it is
/// what it was; inside, a repeated element is hollowed, and another one is
/// what it was but for its enclosing component.
pub open spec fn element_extracted(
    before: &ObjectTree,
    after: &ObjectTree,
    visited: Set<int>,
    x: int,
) -> bool {
    if !visited.contains(x) {
        after.elements@[x] == before.elements@[x]
    } else if !before.elements@[x].is_repeated() {
        before.elements@[x].same_but_enclosing(&after.elements@[x])
    } else {
        hollowed(before, after, x)
    }
}

/// Whether the element `r` of `after` is the root of a component that
/// `before` does not have, and has it for its enclosing component.
pub open spec fn is_new_root(before: &ObjectTree, after: &ObjectTree, r: int) -> bool {
    &&& after.elements@[r].enclosing_component matches Some(c)
    &&& before.components@.len() <= c < after.components@.len()
    &&& after.components@[c as int].root_element == r
}

/// Whether the component `c` of `after` is the type of a repeated element
/// of `visited`.
pub open spec fn is_new_component(
    before: &ObjectTree,
    after: &ObjectTree,
    visited: Set<int>,
    c: int,
) -> bool {
    &&& after.components@[c].parent_element matches Some(x)
    &&& x < before.elements@.len()
    &&& visited.contains(x as int)
    &&& before.elements@[x as int].is_repeated()
    &&& after.elements@[x as int].base_type matches ElementType::Component(t)
    &&& t == c
}

/// Whether every element below a root that `before` does not have has the
/// enclosing component of that root, and is an element of `visited`.
pub open spec fn roots_enclose(before: &ObjectTree, after: &ObjectTree, visited: Set<int>) -> bool {
    forall|r: int, y: int|
        before.elements@.len() <= r < after.elements@.len() && #[trigger] after.in_subtree(r, y)
            ==> after.elements@[y].enclosing_component == after.elements@[r].enclosing_component
            && (y != r ==> 0 <= y < before.elements@.len() && visited.contains(y))
}

/// Whether `after` is `before` with the repeated elements of `visited`
/// extracted:
/// - the components of `before` are what they were, and so are its
///   elements outside `visited`;
/// - a repeated element of `visited` is hollowed, and another element of
///   `visited` is what it was but for its enclosing component;
/// - the elements that `before` does not have are the roots of the
///   components that it does not have, as many as these, and these are
///   the types of the repeated elements of `visited`, one for each;
/// - the elements below such a root have its component for their enclosing
///   component.
pub open spec fn extracted(before: &ObjectTree, after: &ObjectTree, visited: Set<int>) -> bool {
    &&& before.elements@.len() <= after.elements@.len()
    &&& before.components@.len() <= after.components@.len()
    &&& after.elements@.len() - before.elements@.len() == after.components@.len()
        - before.components@.len()
    &&& forall|c: int|
        0 <= c < before.components@.len() ==> #[trigger] after.components@[c]
            == before.components@[c]
    &&& forall|x: int|
        0 <= x < before.elements@.len() ==> #[trigger] element_extracted(before, after, visited, x)
    &&& forall|r: int|
        before.elements@.len() <= r < after.elements@.len() ==> #[trigger] is_new_root(
            before,
            after,
            r,
        )
    &&& forall|c: int|
        before.components@.len() <= c < after.components@.len() ==> #[trigger] is_new_component(
            before,
            after,
            visited,
            c,
        )
    &&& roots_enclose(before, after, visited)
}

/// The root of the component that the element `x` is an instance of.
pub open spec fn root_made_for(tree: &ObjectTree, x: int) -> int {
    tree.components@[tree.elements@[x].base_type->Component_0 as int].root_element as int
}

/// Whether the roots made for the repeated elements of `visited` are
/// numbered in the order of the descent: the root made for an element that
/// the descent through `before` comes to before another has the lower
/// index.
pub open spec fn in_order(before: &ObjectTree, after: &ObjectTree, visited: Set<int>) -> bool {
    forall|x: int, y: int|
        visited.contains(x) && visited.contains(y) && before.elements@[x].is_repeated()
            && before.elements@[y].is_repeated() && #[trigger] before.visited_before(x, y)
            ==> root_made_for(after, x) < root_made_for(after, y)
}

/// Whether the elements that lie below `top` in `after` lay below it in
/// `before` and have the enclosing component that they had.
pub open spec fn keeps_enclosing(before: &ObjectTree, after: &ObjectTree, top: int) -> bool {
    forall|y: int| #[trigger]
        after.in_subtree(top, y) ==> before.in_subtree(top, y)
            && after.elements@[y].enclosing_component
            == before.elements@[y].enclosing_component
}

/// The element `element` with `component` for its enclosing component.
pub open spec fn enclosed_in(element: Element, component: ComponentId) -> Element {
    Element { enclosing_component: Some(component), ..element }
}

/// Makes `component` the enclosing component of `top` and of every element
/// below it.
pub fn set_enclosing_component(tree: &mut ObjectTree, top: ElementId, component: ComponentId)
    requires
        old(tree).wf(),
        top < old(tree).elements@.len(),
    ensures
        final(tree).wf(),
        final(tree).components == old(tree).components,
        final(tree).elements@.len() == old(tree).elements@.len(),
        forall|x: int|
            0 <= x < old(tree).elements@.len() ==> #[trigger] final(tree).elements@[x] == (
            if old(tree).in_subtree(top as int, x) {
                enclosed_in(old(tree).elements@[x], component)
            } else {
                old(tree).elements@[x]
            }),
{
    let ghost rank = choose|rank: Seq<nat>| #[trigger] tree.wf_with(rank);
    enclose_subtree(tree, top, component, Ghost(rank));
}

/// Makes `component` the enclosing component of `top` and of every element
/// below it. The rank bounds the depth of the descent.
fn enclose_subtree(
    tree: &mut ObjectTree,
    top: ElementId,
    component: ComponentId,
    Ghost(rank): Ghost<Seq<nat>>,
)
    requires
        old(tree).wf_with(rank),
        top < old(tree).elements@.len(),
    ensures
        final(tree).wf_with(rank),
        final(tree).components == old(tree).components,
        final(tree).elements@.len() == old(tree).elements@.len(),
        forall|x: int|
            0 <= x < old(tree).elements@.len() ==> #[trigger] final(tree).elements@[x] == (
            if old(tree).in_subtree(top as int, x) {
                enclosed_in(old(tree).elements@[x], component)
            } else {
                old(tree).elements@[x]
            }),
    decreases rank[top as int],
{
    tree.elements[top].enclosing_component = Some(component);
    proof {
        assert forall|x: int| 0 <= x < tree.elements@.len() implies {
            &&& (#[trigger] tree.elements@[x]).children == old(tree).elements@[x].children
            &&& names_unique(tree.elements@[x].bindings@)
            &&& references_below(
                tree.elements@[x].bindings@,
                old(tree).elements@.len() as int,
            )
            &&& (tree.elements@[x].base_type matches ElementType::Component(c) ==> c
                < tree.components@.len())
        } by {
            assert(old(tree).element_wf(x));
        }
        old(tree).lemma_wf_same_shape(tree, rank);
    }
    let count = tree.elements[top].children.len();
    let mut i: usize = 0;
    while i < count
        invariant
            0 <= i <= count,
            top < old(tree).elements@.len(),
            count == old(tree).elements@[top as int].children@.len(),
            old(tree).wf_with(rank),
            tree.wf_with(rank),
            tree.components == old(tree).components,
            tree.elements@.len() == old(tree).elements@.len(),
            forall|x: int|
                0 <= x < old(tree).elements@.len() ==> #[trigger] tree.elements@[x] == (if x
                    == top || exists|j: int|
                    0 <= j < i && old(tree).in_subtree(
                        (#[trigger] old(tree).elements@[top as int].children@[j]) as int,
                        x,
                    ) {
                    enclosed_in(old(tree).elements@[x], component)
                } else {
                    old(tree).elements@[x]
                }),
        decreases count - i,
    {
        let child = tree.elements[top].children[i];
        let ghost before = *tree;
        proof {
            assert(child == old(tree).elements@[top as int].children@[i as int]);
            assert(old(tree).elements@[top as int].children@[i as int] < old(
                tree,
            ).elements@.len());
        }
        enclose_subtree(tree, child, component, Ghost(rank));
        proof {
            assert forall|x: int| before.in_subtree(child as int, x) == old(tree).in_subtree(
                child as int,
                x,
            ) by {
                old(tree).lemma_subtree_agrees(&before, rank, child as int);
            }
            assert forall|x: int| 0 <= x < old(tree).elements@.len() implies #[trigger] tree.elements@[x]
                == (if x == top || exists|j: int|
                0 <= j < i + 1 && old(tree).in_subtree(
                    (#[trigger] old(tree).elements@[top as int].children@[j]) as int,
                    x,
                ) {
                enclosed_in(old(tree).elements@[x], component)
            } else {
                old(tree).elements@[x]
            }) by {
                if old(tree).in_subtree(child as int, x) {
                    assert(old(tree).in_subtree(
                        old(tree).elements@[top as int].children@[i as int] as int,
                        x,
                    ));
                }
            }
        }
        i = i + 1;
    }
    proof {
        assert forall|x: int| 0 <= x < old(tree).elements@.len() implies #[trigger] tree.elements@[x]
            == (if old(tree).in_subtree(top as int, x) {
            enclosed_in(old(tree).elements@[x], component)
        } else {
            old(tree).elements@[x]
        }) by {
            old(tree).lemma_subtree_top(top as int);
            if x != top && old(tree).in_subtree(top as int, x) {
                let j = old(tree).lemma_subtree_child(top as int, x);
                assert(old(tree).in_subtree(
                    old(tree).elements@[top as int].children@[j] as int,
                    x,
                ));
            }
            if exists|j: int|
                0 <= j < count && old(tree).in_subtree(
                    (#[trigger] old(tree).elements@[top as int].children@[j]) as int,
                    x,
                ) {
                let j = choose|j: int|
                    0 <= j < count && old(tree).in_subtree(
                        (#[trigger] old(tree).elements@[top as int].children@[j]) as int,
                        x,
                    );
                old(tree).lemma_subtree_of_child(top as int, j, x);
            }
        }
    }
}

/// Moves the content of a vector out and leaves it empty.
fn take_vec<T>(v: &mut Vec<T>) -> (out: Vec<T>)
    ensures
        out == *old(v),
        final(v)@.len() == 0,
{
    let mut out: Vec<T> = Vec::new();
    core::mem::swap(v, &mut out);
    out
}

/// Takes the content of the repeated element `e` out into a new element,
/// and makes a new component with that element for its root.
fn hollow_out(tree: &mut ObjectTree, e: ElementId) -> (made: (ElementId, ComponentId))
    requires
        e < old(tree).elements@.len(),
        old(tree).elements@[e as int].is_repeated(),
    ensures
        taken_out(old(tree), final(tree), e as int, made.0, made.1),
{
    let root_id = tree.elements.len();
    let component_id = tree.components.len();
    let element = &mut tree.elements[e];
    let is_listview = match element.repeated {
        Some(info) => info.is_listview,
        None => false,
    };
    let mut base_type = ElementType::Invalid;
    core::mem::swap(&mut element.base_type, &mut base_type);
    let mut layout_info_prop: Option<String> = None;
    core::mem::swap(&mut element.layout_info_prop, &mut layout_info_prop);
    let mut root = Element {
        id: element.id.clone(),
        base_type,
        bindings: take_vec(&mut element.bindings),
        property_declarations: take_vec(&mut element.property_declarations),
        property_animations: take_vec(&mut element.property_animations),
        states: take_vec(&mut element.states),
        transitions: take_vec(&mut element.transitions),
        children: take_vec(&mut element.children),
        repeated: None,
        enclosing_component: None,
        node: element.node,
        child_of_layout: element.child_of_layout || is_listview,
        layout_info_prop,
        is_flickable_viewport: element.is_flickable_viewport,
        item_index: None,
    };
    if is_listview && find_binding(&root.bindings, "height").is_none() {
        let preferred = Expression::PropertyReference(
            NamedReference::new(root_id, "preferred_height"),
        );
        root.bindings.push(Binding { name: "height".to_owned(), expression: preferred });
    }
    tree.elements.push(root);
    tree.components.push(
        Component { id: String::new(), root_element: root_id, parent_element: Some(e) },
    );
    (root_id, component_id)
}

/// Whether `longer` gives the elements that `rank` ranks the same ranks.
pub open spec fn extends_rank(rank: Seq<nat>, longer: Seq<nat>) -> bool {
    &&& rank.len() <= longer.len()
    &&& forall|x: int| 0 <= x < rank.len() ==> #[trigger] longer[x] == rank[x]
}

/// Visits the element `e` and all that lies below it: a repeated element is
/// hollowed before what it held is visited in its new place. The rank
/// bounds the depth of the descent; the result ranks the tree that is
/// left.
fn extract_repeated(tree: &mut ObjectTree, e: ElementId, Ghost(rank): Ghost<Seq<nat>>) -> (out:
    Ghost<Seq<nat>>)
    requires
        old(tree).wf_with(rank),
        e < old(tree).elements@.len(),
    ensures
        final(tree).wf_with(out@),
        extends_rank(rank, out@),
        extracted(old(tree), final(tree), old(tree).subtree(e as int)),
        keeps_enclosing(old(tree), final(tree), e as int),
        in_order(old(tree), final(tree), old(tree).subtree(e as int)),
    decreases rank[e as int],
{
    let ghost before = *tree;
    let is_repeated = tree.elements[e].repeated.is_some();
    let mut target = e;
    let mut new_component: ComponentId = 0;
    let ghost mut current = rank;
    if is_repeated {
        let made = hollow_out(tree, e);
        let ghost taken = *tree;
        proof {
            lemma_taken_out_wf(&before, &taken, e as int, made.0, made.1, rank);
            current = rank.push(rank[e as int]);
        }
        enclose_subtree(tree, made.0, made.1, Ghost(current));
        proof {
            lemma_opened(&before, &taken, tree, e as int, made.0, made.1, rank);
        }
        target = made.0;
        new_component = made.1;
    }
    let ghost base = *tree;
    let ghost base_rank = current;
    let count = tree.elements[target].children.len();
    proof {
        assert(base.elements@[target as int].children == before.elements@[e as int].children);
        assert forall|j: int| 0 <= j < count implies (
        #[trigger] base.elements@[target as int].children@[j]) < before.elements@.len()
            && rank[base.elements@[target as int].children@[j] as int] < rank[e as int] by {
            assert(before.elements@[e as int].children@[j] < before.elements@.len());
        }
        assert(below_children(&base, target as int, 0) =~= Set::<int>::empty());
    }
    let mut i: usize = 0;
    while i < count
        invariant
            0 <= i <= count,
            e < before.elements@.len() <= base.elements@.len(),
            target < base.elements@.len(),
            rank.len() == before.elements@.len(),
            count == base.elements@[target as int].children@.len(),
            forall|j: int|
                0 <= j < count ==> (#[trigger] base.elements@[target as int].children@[j])
                    < before.elements@.len() && rank[base.elements@[target as int].children@[j] as int]
                    < rank[e as int],
            base.wf_with(base_rank),
            extends_rank(rank, base_rank),
            tree.wf_with(current),
            extends_rank(base_rank, current),
            tree.elements@[target as int] == base.elements@[target as int],
            extracted(&base, tree, below_children(&base, target as int, i as int)),
            children_keep_enclosing(&base, tree, target as int, i as int),
            in_order(&base, tree, below_children(&base, target as int, i as int)),
        decreases count - i,
    {
        let child = tree.elements[target].children[i];
        let ghost prior = *tree;
        let ghost prior_rank = current;
        let next = extract_repeated(tree, child, Ghost(current));
        proof {
            current = next@;
            lemma_child_in_order(&base, &prior, tree, target as int, i as int, base_rank);
            lemma_child_visited(
                &base,
                &prior,
                tree,
                target as int,
                i as int,
                base_rank,
                prior_rank,
            );
        }
        i = i + 1;
    }
    if is_repeated {
        let ghost mid = *tree;
        tree.elements[e].base_type = ElementType::Component(new_component);
        proof {
            assert forall|x: int| 0 <= x < mid.elements@.len() implies {
                &&& (#[trigger] tree.elements@[x]).children == mid.elements@[x].children
                &&& names_unique(tree.elements@[x].bindings@)
                &&& references_below(tree.elements@[x].bindings@, mid.elements@.len() as int)
                &&& (tree.elements@[x].base_type matches ElementType::Component(c) ==> c
                    < mid.components@.len())
            } by {
                assert(mid.element_wf(x));
            }
            mid.lemma_wf_same_shape(tree, current);
            lemma_repeated_visited(
                &before,
                &base,
                &mid,
                tree,
                e as int,
                target,
                new_component,
                rank,
                current,
            );
            lemma_repeated_in_order(
                &before,
                &base,
                &mid,
                tree,
                e as int,
                target,
                new_component,
                rank,
            );
        }
    } else {
        proof {
            lemma_plain_visited(&before, tree, e as int, rank);
            lemma_plain_in_order(&before, tree, e as int, rank);
        }
    }
    Ghost(current)
}

/// Gives every repeated element in the element tree of `component` a
/// component of its own: the element hands what it holds to the root of
/// that component and stays behind as an empty instance of it.
///
/// This holds of each repeated element below the root of `component`,
/// however deep, also where it lies below another repeated element. The
/// new roots and components are numbered in the order in which a descent
/// from the root of `component` comes to the repeated elements.
pub fn create_repeater_components(tree: &mut ObjectTree, component: ComponentId)
    requires
        old(tree).wf(),
        component < old(tree).components@.len(),
    ensures
        final(tree).wf(),
        extracted(
            old(tree),
            final(tree),
            old(tree).subtree(old(tree).components@[component as int].root_element as int),
        ),
        keeps_enclosing(
            old(tree),
            final(tree),
            old(tree).components@[component as int].root_element as int,
        ),
        in_order(
            old(tree),
            final(tree),
            old(tree).subtree(old(tree).components@[component as int].root_element as int),
        ),
        forall|x: int|
            old(tree).in_subtree(old(tree).components@[component as int].root_element as int, x)
                && old(tree).elements@[x].is_repeated() ==> #[trigger] hollowed(
                old(tree),
                final(tree),
                x,
            ),
{
    proof {
        assert(tree.component_wf(component as int));
    }
    let root = tree.components[component].root_element;
    let ghost rank = choose|rank: Seq<nat>| #[trigger] tree.wf_with(rank);
    let Ghost(left) = extract_repeated(tree, root, Ghost(rank));
    proof {
        assert(tree.wf_with(left));
        assert forall|x: int|
            old(tree).in_subtree(root as int, x) && old(tree).elements@[x].is_repeated() implies #[trigger] hollowed(
            old(tree),
            tree,
            x,
        ) by {
            old(tree).lemma_subtree_exists(root as int, x);
            assert(element_extracted(old(tree), tree, old(tree).subtree(root as int), x));
        }
    }
}

/// The root that stands for the element `e` where a property of `e` is
/// named: the root of the component that `e` is an instance of, if `e` is
/// repeated and is an instance of a component.
pub open spec fn instance_root(tree: &ObjectTree, e: ElementId) -> Option<ElementId> {
    if e < tree.elements@.len() && tree.elements@[e as int].is_repeated() {
        match tree.elements@[e as int].base_type {
            ElementType::Component(c) => Some(tree.components@[c as int].root_element),
            _ => None,
        }
    } else {
        None
    }
}

/// The reference that takes the place of `nr`. A reference to the model of
/// a repeater stays as it is: the model belongs to the repeated element
/// itself. Another reference to a repeated element that is an instance of
/// a component names the same property of the root of that component.
pub open spec fn redirected(tree: &ObjectTree, nr: NamedReference) -> NamedReference {
    if nr.name@ == "$model"@ {
        nr
    } else {
        match instance_root(tree, nr.element) {
            Some(root) => NamedReference { element: root, name: nr.name },
            None => nr,
        }
    }
}

/// `redirected` as a map on references.
pub open spec fn redirection(tree: &ObjectTree) -> spec_fn(NamedReference) -> NamedReference {
    |nr: NamedReference| redirected(tree, nr)
}

/// Whether `after` holds the bindings `before` with each reference
/// redirected in `tree`.
pub open spec fn bindings_redirected(
    tree: &ObjectTree,
    before: Seq<Binding>,
    after: Seq<Binding>,
) -> bool {
    &&& after.len() == before.len()
    &&& forall|i: int|
        0 <= i < before.len() ==> (#[trigger] after[i]).name == before[i].name && after[i].expression
            == before[i].expression.map_references(redirection(tree))
}

/// What has become of the element `x` of `before`: where it is `visited`,
/// it is what it was but for its bindings, which hold every reference
/// redirected; else it is what it was.
pub open spec fn element_repaired(
    before: &ObjectTree,
    after: &ObjectTree,
    visited: bool,
    x: int,
) -> bool {
    if visited {
        before.elements@[x].same_but_bindings(&after.elements@[x]) && bindings_redirected(
            before,
            before.elements@[x].bindings@,
            after.elements@[x].bindings@,
        )
    } else {
        after.elements@[x] == before.elements@[x]
    }
}

/// Whether `after` is `before` with every reference redirected in every
/// binding of the elements of `visited`, and nothing else changed.
pub open spec fn repaired(before: &ObjectTree, after: &ObjectTree, visited: Set<int>) -> bool {
    &&& after.components == before.components
    &&& after.elements@.len() == before.elements@.len()
    &&& forall|x: int|
        0 <= x < before.elements@.len() ==> #[trigger] element_repaired(
            before,
            after,
            visited.contains(x),
            x,
        )
}

/// Whether `after` is `before` with every reference redirected in every
/// binding of the elements that `marks` marks, and nothing else changed.
pub open spec fn repaired_where(before: &ObjectTree, after: &ObjectTree, marks: Seq<bool>) -> bool {
    &&& after.components == before.components
    &&& after.elements@.len() == before.elements@.len()
    &&& marks.len() == before.elements@.len()
    &&& forall|x: int|
        0 <= x < before.elements@.len() ==> #[trigger] element_repaired(
            before,
            after,
            marks[x],
            x,
        )
}

/// The number of elements that `marks` does not mark.
pub open spec fn unmarked(marks: Seq<bool>) -> nat
    decreases marks.len(),
{
    if marks.len() == 0 {
        0
    } else {
        unmarked(marks.drop_last()) + if marks.last() {
            0nat
        } else {
            1nat
        }
    }
}

/// Redirects one reference.
pub fn adjust_reference(tree: &ObjectTree, nr: NamedReference) -> (res: NamedReference)
    requires
        tree.wf(),
        nr.element < tree.elements@.len(),
    ensures
        res == redirected(tree, nr),
        nr.name@ == "$model"@ ==> res == nr,
        res.name == nr.name,
        res.element < tree.elements@.len(),
{
    let reserved = "$model".to_owned();
    if nr.name == reserved {
        return nr;
    }
    proof {
        assert(tree.element_wf(nr.element as int));
    }
    let target = &tree.elements[nr.element];
    if target.repeated.is_some() {
        if let ElementType::Component(c) = &target.base_type {
            proof {
                assert(tree.component_wf(*c as int));
            }
            return NamedReference { element: tree.components[*c].root_element, name: nr.name };
        }
    }
    nr
}

/// Redirects every reference in an expression.
pub fn adjust_expression(tree: &ObjectTree, expression: Expression) -> (res: Expression)
    requires
        tree.wf(),
        expression.all_references(targets_below(tree.elements@.len() as int)),
    ensures
        res == expression.map_references(redirection(tree)),
        res.all_references(targets_below(tree.elements@.len() as int)),
    decreases expression,
{
    match expression {
        Expression::PropertyReference(nr) => Expression::PropertyReference(
            adjust_reference(tree, nr),
        ),
        Expression::UnaryOp { sub, op } => Expression::UnaryOp {
            sub: Box::new(adjust_expression(tree, *sub)),
            op,
        },
        Expression::BinaryExpression { lhs, rhs, op } => Expression::BinaryExpression {
            lhs: Box::new(adjust_expression(tree, *lhs)),
            rhs: Box::new(adjust_expression(tree, *rhs)),
            op,
        },
        Expression::Condition { condition, true_expr, false_expr } => Expression::Condition {
            condition: Box::new(adjust_expression(tree, *condition)),
            true_expr: Box::new(adjust_expression(tree, *true_expr)),
            false_expr: Box::new(adjust_expression(tree, *false_expr)),
        },
        other => other,
    }
}

/// Two trees redirect alike when they agree on which elements are
/// repeated, on what the elements are instances of, and on the components.
pub proof fn lemma_redirection_agrees(first: &ObjectTree, second: &ObjectTree)
    requires
        second.components@ == first.components@,
        second.elements@.len() == first.elements@.len(),
        forall|x: int|
            0 <= x < first.elements@.len() ==> (#[trigger] second.elements@[x]).repeated
                == first.elements@[x].repeated && second.elements@[x].base_type
                == first.elements@[x].base_type,
    ensures
        redirection(second) == redirection(first),
{
    assert forall|nr: NamedReference| #[trigger]
        redirected(second, nr) == redirected(first, nr) by {
        if nr.element < first.elements@.len() {
            assert(second.elements@[nr.element as int].repeated
                == first.elements@[nr.element as int].repeated);
        }
    }
    assert(redirection(second) =~= redirection(first));
}

/// Redirects every reference in the bindings.
fn adjust_bindings(tree: &ObjectTree, bindings: &mut Vec<Binding>)
    requires
        tree.wf(),
        references_below(old(bindings)@, tree.elements@.len() as int),
    ensures
        bindings_redirected(tree, old(bindings)@, final(bindings)@),
        references_below(final(bindings)@, tree.elements@.len() as int),
{
    let mut i: usize = 0;
    while i < bindings.len()
        invariant
            0 <= i <= bindings@.len(),
            tree.wf(),
            bindings@.len() == old(bindings)@.len(),
            forall|j: int|
                0 <= j < i ==> (#[trigger] bindings@[j]).name == old(bindings)@[j].name
                    && bindings@[j].expression == old(bindings)@[j].expression.map_references(
                    redirection(tree),
                ) && bindings@[j].expression.all_references(
                    targets_below(tree.elements@.len() as int),
                ),
            forall|j: int|
                i <= j < bindings@.len() ==> #[trigger] bindings@[j] == old(bindings)@[j],
            references_below(old(bindings)@, tree.elements@.len() as int),
        decreases bindings@.len() - i,
    {
        let mut expression = Expression::Invalid;
        core::mem::swap(&mut bindings[i].expression, &mut expression);
        let adjusted = adjust_expression(tree, expression);
        bindings[i].expression = adjusted;
        i = i + 1;
    }
}

/// The root of the sub-component that the element `x` is an instance of.
pub fn sub_component_root_of(tree: &ObjectTree, x: ElementId) -> (res: Option<ElementId>)
    requires
        tree.wf(),
        x < tree.elements@.len(),
    ensures
        res == tree.sub_component_root(x as int),
{
    let element = &tree.elements[x];
    if element.repeated.is_some() {
        if let ElementType::Component(c) = &element.base_type {
            proof {
                let rank = choose|rank: Seq<nat>| #[trigger] tree.wf_with(rank);
                assert(tree.element_wf(x as int));
            }
            if tree.components[*c].parent_element.is_some() {
                return Some(tree.components[*c].root_element);
            }
        }
    }
    None
}

/// Redirects every reference in the bindings of the element `x`, and goes
/// on to the sub-component that `x` is an instance of and to the children
/// of `x`. An element that is marked is passed over: no element is visited
/// twice.
fn adjust_below(
    tree: &mut ObjectTree,
    marks: &mut Vec<bool>,
    x: ElementId,
    Ghost(start): Ghost<ObjectTree>,
    Ghost(top): Ghost<int>,
    Ghost(rank): Ghost<Seq<nat>>,
)
    requires
        start.wf_with(rank),
        old(tree).wf_with(rank),
        x < start.elements@.len(),
        start.in_component_tree(top, x as int),
        repaired_where(&start, old(tree), old(marks)@),
        forall|y: int|
            0 <= y < old(marks)@.len() && #[trigger] old(marks)@[y] ==> start.in_component_tree(
                top,
                y,
            ),
    ensures
        final(tree).wf_with(rank),
        repaired_where(&start, final(tree), final(marks)@),
        forall|y: int|
            0 <= y < final(marks)@.len() && #[trigger] final(marks)@[y]
                ==> start.in_component_tree(top, y),
        forall|y: int| 0 <= y < old(marks)@.len() && old(marks)@[y] ==> #[trigger] final(marks)@[y],
        final(marks)@[x as int],
        forall|y: int, z: int|
            0 <= y < final(marks)@.len() && final(marks)@[y] && !old(marks)@[y]
                && #[trigger] start.leads_to(y, z) ==> final(marks)@[z],
    decreases unmarked(old(marks)@),
{
    if marks[x] {
        return;
    }
    let ghost entry = marks@;
    marks[x] = true;
    proof {
        lemma_unmarked_less(entry, x as int);
    }
    let ghost prior = *tree;
    let mut bindings = take_vec(&mut tree.elements[x].bindings);
    proof {
        assert(element_repaired(&start, &prior, entry[x as int], x as int));
        assert forall|y: int| 0 <= y < prior.elements@.len() implies {
            &&& (#[trigger] tree.elements@[y]).children == prior.elements@[y].children
            &&& names_unique(tree.elements@[y].bindings@)
            &&& references_below(tree.elements@[y].bindings@, prior.elements@.len() as int)
            &&& (tree.elements@[y].base_type matches ElementType::Component(c) ==> c
                < prior.components@.len())
        } by {
            assert(prior.element_wf(y));
        }
        prior.lemma_wf_same_shape(tree, rank);
        assert(prior.element_wf(x as int));
    }
    let ghost emptied_tree = *tree;
    adjust_bindings(tree, &mut bindings);
    tree.elements[x].bindings = bindings;
    proof {
        assert forall|y: int| 0 <= y < start.elements@.len() implies (
        #[trigger] emptied_tree.elements@[y]).repeated == start.elements@[y].repeated
            && emptied_tree.elements@[y].base_type == start.elements@[y].base_type by {
            assert(element_repaired(&start, &prior, entry[y], y));
            if y != x {
                assert(emptied_tree.elements@[y] == prior.elements@[y]);
            }
        }
        lemma_redirection_agrees(&start, &emptied_tree);
        assert forall|y: int| 0 <= y < prior.elements@.len() implies {
            &&& (#[trigger] tree.elements@[y]).children == prior.elements@[y].children
            &&& names_unique(tree.elements@[y].bindings@)
            &&& references_below(tree.elements@[y].bindings@, prior.elements@.len() as int)
            &&& (tree.elements@[y].base_type matches ElementType::Component(c) ==> c
                < prior.components@.len())
        } by {
            assert(prior.element_wf(y));
            if y != x {
                assert(tree.elements@[y] == emptied_tree.elements@[y]);
                assert(emptied_tree.elements@[y] == prior.elements@[y]);
            }
        }
        prior.lemma_wf_same_shape(tree, rank);
        assert forall|y: int| 0 <= y < start.elements@.len() implies #[trigger] element_repaired(
            &start,
            tree,
            marks@[y],
            y,
        ) by {
            assert(element_repaired(&start, &prior, entry[y], y));
            if y != x {
                assert(tree.elements@[y] == prior.elements@[y]);
            }
        }
    }
    let ghost own = marks@;
    let sub_root = sub_component_root_of(tree, x);
    proof {
        assert(element_repaired(&start, tree, marks@[x as int], x as int));
        assert(tree.sub_component_root(x as int) == start.sub_component_root(x as int));
    }
    if let Some(root) = sub_root {
        proof {
            let c = start.elements@[x as int].base_type->Component_0;
            assert(start.component_wf(c as int));
            assert(start.leads_to(x as int, root as int));
            start.lemma_component_tree_next(top, x as int, root as int);
            lemma_unmarked_fewer(entry.update(x as int, true), marks@);
        }
        adjust_below(tree, marks, root, Ghost(start), Ghost(top), Ghost(rank));
    }
    let count = tree.elements[x].children.len();
    proof {
        assert(element_repaired(&start, tree, marks@[x as int], x as int));
    }
    let mut i: usize = 0;
    while i < count
        invariant
            0 <= i <= count,
            x < start.elements@.len(),
            start.wf_with(rank),
            tree.wf_with(rank),
            start.in_component_tree(top, x as int),
            entry == old(marks)@,
            entry.len() == start.elements@.len(),
            marks@.len() == entry.len(),
            !entry[x as int],
            unmarked(entry.update(x as int, true)) < unmarked(entry),
            count == start.elements@[x as int].children@.len(),
            tree.elements@[x as int].children == start.elements@[x as int].children,
            repaired_where(&start, tree, marks@),
            forall|y: int|
                0 <= y < marks@.len() && #[trigger] marks@[y] ==> start.in_component_tree(top, y),
            forall|y: int| 0 <= y < entry.len() && entry[y] ==> #[trigger] marks@[y],
            marks@[x as int],
            start.sub_component_root(x as int) matches Some(root) ==> root < marks@.len()
                && marks@[root as int],
            forall|j: int|
                0 <= j < i ==> marks@[(#[trigger] start.elements@[x as int].children@[j]) as int],
            forall|y: int, z: int|
                0 <= y < marks@.len() && marks@[y] && !entry[y] && y != x
                    && #[trigger] start.leads_to(y, z) ==> marks@[z],
        decreases count - i,
    {
        let child = tree.elements[x].children[i];
        let ghost before = marks@;
        proof {
            assert(start.element_wf(x as int));
            assert(start.elements@[x as int].children@[i as int] < start.elements@.len());
            assert(start.leads_to(x as int, child as int));
            start.lemma_component_tree_next(top, x as int, child as int);
            lemma_unmarked_fewer(entry.update(x as int, true), marks@);
        }
        adjust_below(tree, marks, child, Ghost(start), Ghost(top), Ghost(rank));
        proof {
            match start.sub_component_root(x as int) {
                Some(root) => {
                    assert(before[root as int]);
                    assert(marks@[root as int]);
                },
                None => {},
            }
            assert forall|j: int| 0 <= j < i + 1 implies marks@[(
            #[trigger] start.elements@[x as int].children@[j]) as int] by {
                let other = start.elements@[x as int].children@[j] as int;
                if j < i {
                    assert(before[other]);
                    assert(marks@[other]);
                }
            }
            assert(element_repaired(&start, tree, marks@[x as int], x as int));
            assert forall|y: int, z: int|
                0 <= y < marks@.len() && marks@[y] && !entry[y] && y != x
                    && #[trigger] start.leads_to(y, z) implies marks@[z] by {
                if before[y] {
                    assert(before[z]);
                }
            }
        }
        i = i + 1;
    }
    proof {
        assert forall|y: int, z: int|
            0 <= y < marks@.len() && marks@[y] && !entry[y] && #[trigger] start.leads_to(
                y,
                z,
            ) implies marks@[z] by {
            if y == x {
                if start.sub_component_root(x as int) matches Some(root) && root == z {
                } else {
                    let j = choose|j: int|
                        0 <= j < start.elements@[x as int].children@.len()
                            && #[trigger] start.elements@[x as int].children@[j] == z;
                    assert(marks@[start.elements@[x as int].children@[j] as int]);
                }
            }
        }
    }
}

/// Makes sure that the references to a property of a repeated element name
/// the root of the component that the element is an instance of: every
/// reference is redirected in every binding of the elements of `component`
/// and of its sub-components, however deep. Nothing else changes.
pub fn adjust_references(tree: &mut ObjectTree, component: ComponentId)
    requires
        old(tree).wf(),
        component < old(tree).components@.len(),
    ensures
        final(tree).wf(),
        repaired(
            old(tree),
            final(tree),
            old(tree).component_tree(old(tree).components@[component as int].root_element as int),
        ),
{
    let ghost rank = choose|rank: Seq<nat>| #[trigger] tree.wf_with(rank);
    proof {
        assert(tree.component_wf(component as int));
    }
    let root = tree.components[component].root_element;
    let count = tree.elements.len();
    let mut marks: Vec<bool> = Vec::new();
    let mut filled: usize = 0;
    while filled < count
        invariant
            0 <= filled <= count,
            marks@.len() == filled,
            forall|y: int| 0 <= y < filled ==> !#[trigger] marks@[y],
        decreases count - filled,
    {
        marks.push(false);
        filled = filled + 1;
    }
    proof {
        old(tree).lemma_component_tree_top(root as int);
        assert forall|x: int| 0 <= x < tree.elements@.len() implies #[trigger] element_repaired(
            old(tree),
            tree,
            marks@[x],
            x,
        ) by {}
    }
    adjust_below(tree, &mut marks, root, Ghost(*old(tree)), Ghost(root as int), Ghost(rank));
    proof {
        let visited = old(tree).component_tree(root as int);
        let marked = Set::new(|y: int| 0 <= y < marks@.len() && marks@[y]);
        assert forall|x: int| 0 <= x < tree.elements@.len() implies marks@[x] == visited.contains(
            x,
        ) by {
            if visited.contains(x) {
                old(tree).lemma_component_tree_within(root as int, marked, x);
            }
        }
        assert forall|x: int| 0 <= x < tree.elements@.len() implies #[trigger] element_repaired(
            old(tree),
            tree,
            visited.contains(x),
            x,
        ) by {
            assert(element_repaired(old(tree), tree, marks@[x], x));
        }
    }
}

/// Makes sure that a repeated element is a component without any children:
/// gives every repeated element in the element tree of `component` a
/// component of its own, and then redirects every reference in every
/// binding of `component` and of its sub-components.
///
/// The result is the tree with the references redirected that the
/// extraction alone gives. In it, every repeated element of the element
/// tree of `component` is an empty instance of its component. No reference
/// in `component` and its sub-components names a repeated element any
/// more, unless it names the model of a repeater; this is owed where the
/// repeated elements outside the element tree of `component` were
/// instances of components with roots that are not repeated.
pub fn process_repeater_components(tree: &mut ObjectTree, component: ComponentId)
    requires
        old(tree).wf(),
        component < old(tree).components@.len(),
    ensures
        final(tree).wf(),
        exists|mid: ObjectTree|
            {
                &&& #[trigger] extracted(
                    old(tree),
                    &mid,
                    old(tree).subtree(old(tree).components@[component as int].root_element as int),
                )
                &&& keeps_enclosing(
                    old(tree),
                    &mid,
                    old(tree).components@[component as int].root_element as int,
                )
                &&& in_order(
                    old(tree),
                    &mid,
                    old(tree).subtree(
                        old(tree).components@[component as int].root_element as int,
                    ),
                )
                &&& mid.wf()
                &&& repaired(
                    &mid,
                    final(tree),
                    mid.component_tree(mid.components@[component as int].root_element as int),
                )
            },
        forall|x: int|
            old(tree).in_subtree(old(tree).components@[component as int].root_element as int, x)
                && old(tree).elements@[x].is_repeated() ==> #[trigger] instantiated(
                old(tree),
                final(tree),
                x,
            ),
        strays_are_instances(
            old(tree),
            old(tree).subtree(old(tree).components@[component as int].root_element as int),
        ) ==> references_settled(
            final(tree),
            final(tree).component_tree(
                old(tree).components@[component as int].root_element as int,
            ),
        ),
{
    let ghost root = tree.components@[component as int].root_element as int;
    let ghost visited = tree.subtree(root);
    create_repeater_components(tree, component);
    let ghost mid = *tree;
    adjust_references(tree, component);
    proof {
        assert(extracted(old(tree), &mid, visited));
        assert(mid.components@[component as int] == old(tree).components@[component as int]);
        assert forall|x: int|
            old(tree).in_subtree(root, x) && old(tree).elements@[x].is_repeated() implies #[trigger] instantiated(
            old(tree),
            tree,
            x,
        ) by {
            lemma_pass_instantiates(old(tree), &mid, tree, root, x);
        }
        if strays_are_instances(old(tree), visited) {
            lemma_pass_settles(old(tree), &mid, tree, visited, root);
        }
    }
}

} // verus!
