//! What holds of a tree after the repeated elements are extracted and the
//! references are redirected.
use crate::expression_tree::{targets_below, ElementId, Expression, NamedReference};
use crate::langtype::ElementType;
use crate::object_tree::ObjectTree;
use crate::passes::repeater_component::{
    carries_over, element_extracted, element_repaired, emptied, extracted, hollowed,
    instance_root, is_new_component, is_new_root, is_preferred_height, keeps_enclosing,
    lemma_redirection_agrees, redirected, redirection, repaired, wants_height,
};
use vstd::prelude::*;

verus! {

/// Whether `nr` names the model of a repeater.
pub open spec fn names_model(nr: NamedReference) -> bool {
    nr.name@ == "$model"@
}

/// `names_model` as a property of references.
pub open spec fn naming_model() -> spec_fn(NamedReference) -> bool {
    |nr: NamedReference| names_model(nr)
}

/// Whether `nr` is settled in `tree`: it names the model of a repeater, or
/// an element that is not repeated.
pub open spec fn settled(tree: &ObjectTree, nr: NamedReference) -> bool {
    names_model(nr) || (nr.element < tree.elements@.len()
        && !tree.elements@[nr.element as int].is_repeated())
}

/// `settled` as a property of references.
pub open spec fn settled_in(tree: &ObjectTree) -> spec_fn(NamedReference) -> bool {
    |nr: NamedReference| settled(tree, nr)
}

/// Whether every reference in every binding of the elements of `within`
/// is settled in `tree`.
pub open spec fn references_settled(tree: &ObjectTree, within: Set<int>) -> bool {
    forall|x: int, i: int|
        0 <= x < tree.elements@.len() && within.contains(x) && 0 <= i
            < tree.elements@[x].bindings@.len() ==> (
        #[trigger] tree.elements@[x].bindings@[i]).expression.all_references(settled_in(tree))
}

/// The redirection of references changes neither which elements are
/// repeated, nor what they are instances of, nor their children: the walks
/// through the components stay what they were.
pub proof fn lemma_repaired_same_walks(before: &ObjectTree, after: &ObjectTree, visited: Set<int>)
    requires
        repaired(before, after, visited),
    ensures
        forall|x: int|
            0 <= x < before.elements@.len() ==> (#[trigger] after.elements@[x]).repeated
                == before.elements@[x].repeated && after.elements@[x].base_type
                == before.elements@[x].base_type && after.elements@[x].children
                == before.elements@[x].children,
        forall|y: int, z: int| #[trigger] before.leads_to(y, z) == after.leads_to(y, z),
        forall|top: int, x: int|
            before.in_component_tree(top, x) == after.in_component_tree(top, x),
        redirection(after) == redirection(before),
{
    assert forall|x: int| 0 <= x < before.elements@.len() implies (
    #[trigger] after.elements@[x]).repeated == before.elements@[x].repeated
        && after.elements@[x].base_type == before.elements@[x].base_type
        && after.elements@[x].children == before.elements@[x].children by {
        assert(element_repaired(before, after, visited.contains(x), x));
    }
    assert forall|y: int, z: int| #[trigger] before.leads_to(y, z) == after.leads_to(y, z) by {
        if 0 <= y < before.elements@.len() {
            assert(after.elements@[y].children == before.elements@[y].children);
        }
    }
    assert forall|top: int, x: int|
        before.in_component_tree(top, x) == after.in_component_tree(top, x) by {
        before.lemma_component_tree_agrees(after, top);
    }
    lemma_redirection_agrees(before, after);
}

/// Whether every repeated element of `tree` is an instance of a component
/// whose root is not repeated.
pub open spec fn repeated_are_instances(tree: &ObjectTree) -> bool {
    forall|x: int|
        0 <= x < tree.elements@.len() && (#[trigger] tree.elements@[x]).is_repeated() ==> (
        tree.elements@[x].base_type matches ElementType::Component(c)
            && !tree.elements@[tree.components@[c as int].root_element as int].is_repeated())
}

/// Whether every repeated element of `tree` outside `visited` is an
/// instance of a component whose root is not repeated.
pub open spec fn strays_are_instances(tree: &ObjectTree, visited: Set<int>) -> bool {
    forall|x: int|
        0 <= x < tree.elements@.len() && (#[trigger] tree.elements@[x]).is_repeated()
            && !visited.contains(x) ==> (tree.elements@[x].base_type matches ElementType::Component(
            c,
        ) && !tree.elements@[tree.components@[c as int].root_element as int].is_repeated())
}

/// A reference to the model of a repeater is never redirected, even where
/// the element that it names is a repeated instance of a component.
pub proof fn lemma_model_reference_stays(tree: &ObjectTree, nr: NamedReference)
    requires
        names_model(nr),
    ensures
        redirected(tree, nr) == nr,
{
}

/// An expression whose references all name the model of a repeater is not
/// changed when its references are redirected.
pub proof fn lemma_model_expression_stays(tree: &ObjectTree, expression: Expression)
    requires
        expression.all_references(naming_model()),
    ensures
        expression.map_references(redirection(tree)) == expression,
    decreases expression,
{
    match expression {
        Expression::UnaryOp { sub, .. } => {
            lemma_model_expression_stays(tree, *sub);
        },
        Expression::BinaryExpression { lhs, rhs, .. } => {
            lemma_model_expression_stays(tree, *lhs);
            lemma_model_expression_stays(tree, *rhs);
        },
        Expression::Condition { condition, true_expr, false_expr } => {
            lemma_model_expression_stays(tree, *condition);
            lemma_model_expression_stays(tree, *true_expr);
            lemma_model_expression_stays(tree, *false_expr);
        },
        _ => {},
    }
}

/// Where a reference is redirected, it keeps the name of the property and
/// names the root of the component that its element was an instance of.
pub proof fn lemma_redirected_names_root(tree: &ObjectTree, nr: NamedReference)
    requires
        !names_model(nr),
        nr.element < tree.elements@.len(),
        tree.elements@[nr.element as int].is_repeated(),
        tree.elements@[nr.element as int].base_type is Component,
    ensures
        redirected(tree, nr).name == nr.name,
        redirected(tree, nr).element == tree.components@[
            tree.elements@[nr.element as int].base_type->Component_0 as int
        ].root_element,
{
}

/// After the references are redirected in a tree in which every repeated
/// element is an instance of a component with a root that is not repeated,
/// no reference names a repeated element, unless it names the model of a
/// repeater.
pub proof fn lemma_repaired_settles(before: &ObjectTree, after: &ObjectTree, visited: Set<int>)
    requires
        before.wf(),
        repaired(before, after, visited),
        repeated_are_instances(before),
    ensures
        references_settled(after, visited),
{
    lemma_repaired_same_walks(before, after, visited);
    let bound = before.elements@.len() as int;
    assert forall|nr: NamedReference| #[trigger]
        targets_below(bound)(nr) implies settled_in(after)(redirection(before)(nr)) by {
        let moved = redirected(before, nr);
        if !names_model(nr) {
            match instance_root(before, nr.element) {
                Some(root) => {
                    let rank = choose|rank: Seq<nat>| #[trigger] before.wf_with(rank);
                    let c = before.elements@[nr.element as int].base_type->Component_0;
                    assert(before.element_wf(nr.element as int));
                    assert(before.component_wf(c as int));
                },
                None => {},
            }
        }
    }
    assert forall|x: int, i: int|
        0 <= x < after.elements@.len() && visited.contains(x) && 0 <= i
            < after.elements@[x].bindings@.len() implies (
    #[trigger] after.elements@[x].bindings@[i]).expression.all_references(settled_in(after)) by {
        let rank = choose|rank: Seq<nat>| #[trigger] before.wf_with(rank);
        assert(before.element_wf(x));
        assert(element_repaired(before, after, visited.contains(x), x));
        let old_binding = before.elements@[x].bindings@[i];
        assert(after.elements@[x].bindings@[i].expression
            == old_binding.expression.map_references(redirection(before)));
        old_binding.expression.lemma_all_references_of_mapped(
            redirection(before),
            targets_below(bound),
            settled_in(after),
        );
    }
}

/// After an extraction, every repeated element is an instance of a
/// component with a root that is not repeated, if that held before of the
/// repeated elements that the extraction did not visit.
pub proof fn lemma_extracted_are_instances(
    before: &ObjectTree,
    after: &ObjectTree,
    visited: Set<int>,
)
    requires
        before.wf(),
        extracted(before, after, visited),
        strays_are_instances(before, visited),
    ensures
        repeated_are_instances(after),
{
    assert forall|x: int|
        0 <= x < after.elements@.len() && (#[trigger] after.elements@[x]).is_repeated() implies (
    after.elements@[x].base_type matches ElementType::Component(c)
        && !after.elements@[after.components@[c as int].root_element as int].is_repeated()) by {
        if x < before.elements@.len() {
            assert(element_extracted(before, after, visited, x));
            if !visited.contains(x) {
                let rank = choose|rank: Seq<nat>| #[trigger] before.wf_with(rank);
                assert(before.element_wf(x));
                let c = before.elements@[x].base_type->Component_0;
                assert(before.component_wf(c as int));
                assert(after.components@[c as int] == before.components@[c as int]);
                let root = before.components@[c as int].root_element as int;
                assert(element_extracted(before, after, visited, root));
            }
        } else {
            assert(is_new_root(before, after, x));
            let c = after.elements@[x].enclosing_component->0;
            assert(is_new_component(before, after, visited, c as int));
            let p = after.components@[c as int].parent_element->0;
            assert(element_extracted(before, after, visited, p as int));
        }
    }
}

/// After the pass, no reference in the component and its sub-components
/// names a repeated element, unless it names the model of a repeater:
/// provided that the repeated elements outside the element tree that was
/// visited were instances of components with roots that are not repeated.
pub proof fn lemma_pass_settles(
    before: &ObjectTree,
    mid: &ObjectTree,
    after: &ObjectTree,
    visited: Set<int>,
    top: int,
)
    requires
        before.wf(),
        mid.wf(),
        extracted(before, mid, visited),
        repaired(mid, after, mid.component_tree(top)),
        strays_are_instances(before, visited),
    ensures
        references_settled(after, after.component_tree(top)),
{
    lemma_extracted_are_instances(before, mid, visited);
    lemma_repaired_settles(mid, after, mid.component_tree(top));
    lemma_repaired_same_walks(mid, after, mid.component_tree(top));
    assert(after.component_tree(top) =~= mid.component_tree(top));
}

/// Whether no root that stands for a repeated element is itself stood for
/// by another root.
pub open spec fn instance_roots_plain(tree: &ObjectTree) -> bool {
    forall|x: ElementId| #[trigger]
        instance_root(tree, x) matches Some(root) ==> instance_root(tree, root).is_none()
}

/// Whether two trees are the same: they hold the same components, and
/// elements that agree in every field, their bindings taken one by one.
pub open spec fn same_tree(first: &ObjectTree, second: &ObjectTree) -> bool {
    &&& second.components@ =~= first.components@
    &&& second.elements@.len() == first.elements@.len()
    &&& forall|x: int|
        0 <= x < first.elements@.len() ==> first.elements@[x].same_but_bindings(
            &#[trigger] second.elements@[x],
        ) && second.elements@[x].bindings@ =~= first.elements@[x].bindings@
}

/// Redirecting a reference twice is redirecting it once.
pub proof fn lemma_redirected_twice(tree: &ObjectTree, nr: NamedReference)
    requires
        instance_roots_plain(tree),
    ensures
        redirected(tree, redirected(tree, nr)) == redirected(tree, nr),
{
    if !names_model(nr) {
        match instance_root(tree, nr.element) {
            Some(root) => {
                assert(instance_root(tree, root).is_none());
            },
            None => {},
        }
    }
}

/// Redirecting the references of a tree that has had them redirected
/// changes nothing. The second round may start from any tree that is the
/// same as the result of the first.
pub proof fn lemma_repair_idempotent(
    before: &ObjectTree,
    once: &ObjectTree,
    again: &ObjectTree,
    twice: &ObjectTree,
    visited: Set<int>,
)
    requires
        instance_roots_plain(before),
        repaired(before, once, visited),
        same_tree(once, again),
        repaired(again, twice, visited),
    ensures
        same_tree(once, twice),
{
    lemma_repaired_same_walks(before, once, visited);
    assert forall|x: int| 0 <= x < before.elements@.len() implies (
    #[trigger] again.elements@[x]).repeated == before.elements@[x].repeated
        && again.elements@[x].base_type == before.elements@[x].base_type by {
        assert(once.elements@[x].same_but_bindings(&again.elements@[x]));
    }
    lemma_redirection_agrees(before, again);
    let f = redirection(before);
    assert forall|nr: NamedReference| #[trigger] f(nr) == f(f(nr)) by {
        lemma_redirected_twice(before, nr);
    }
    assert forall|x: int| 0 <= x < once.elements@.len() implies once.elements@[x].same_but_bindings(
        &#[trigger] twice.elements@[x],
    ) && twice.elements@[x].bindings@ =~= once.elements@[x].bindings@ by {
        assert(element_repaired(before, once, visited.contains(x), x));
        assert(once.elements@[x].same_but_bindings(&again.elements@[x]));
        assert(element_repaired(again, twice, visited.contains(x), x));
        if visited.contains(x) {
            assert forall|i: int| 0 <= i < once.elements@[x].bindings@.len() implies (
            #[trigger] twice.elements@[x].bindings@[i]) == once.elements@[x].bindings@[i] by {
                let first = before.elements@[x].bindings@[i];
                assert(once.elements@[x].bindings@[i].expression
                    == first.expression.map_references(f));
                assert(again.elements@[x].bindings@[i] == once.elements@[x].bindings@[i]);
                first.expression.lemma_map_references_twice(f, f, f);
            }
        }
    }
}

/// An extraction on an element tree without repeated elements changes
/// nothing.
pub proof fn lemma_extracted_nothing(before: &ObjectTree, after: &ObjectTree, top: int)
    requires
        before.wf(),
        0 <= top < before.elements@.len(),
        extracted(before, after, before.subtree(top)),
        keeps_enclosing(before, after, top),
        forall|x: int| #[trigger] before.in_subtree(top, x) ==> !before.elements@[x].is_repeated(),
    ensures
        after.components@ =~= before.components@,
        after.elements@ =~= before.elements@,
{
    let visited = before.subtree(top);
    let rank = choose|rank: Seq<nat>| #[trigger] before.wf_with(rank);
    if before.components@.len() < after.components@.len() {
        let c = before.components@.len() as int;
        assert(is_new_component(before, after, visited, c));
        let p = after.components@[c].parent_element->0 as int;
        assert(before.in_subtree(top, p));
    }
    if before.elements@.len() < after.elements@.len() {
        assert(is_new_root(before, after, before.elements@.len() as int));
    }
    assert forall|x: int|
        0 <= x < before.elements@.len() && #[trigger] before.in_subtree(top, x) implies x
        < after.elements@.len() && after.elements@[x].children@
        == before.elements@[x].children@ by {
        assert(element_extracted(before, after, visited, x));
    }
    before.lemma_subtree_agrees(after, rank, top);
    assert forall|x: int| 0 <= x < before.elements@.len() implies after.elements@[x]
        == before.elements@[x] by {
        assert(element_extracted(before, after, visited, x));
        if visited.contains(x) {
            assert(after.in_subtree(top, x));
        }
    }
}

/// Running the pass twice gives the same tree as running it once, where
/// the element tree that is visited holds no repeated element and no root
/// that stands for a repeated element is itself stood for by another.
pub proof fn lemma_pass_idempotent(
    before: &ObjectTree,
    first_mid: &ObjectTree,
    once: &ObjectTree,
    second_mid: &ObjectTree,
    twice: &ObjectTree,
    top: int,
)
    requires
        before.wf(),
        once.wf(),
        0 <= top < before.elements@.len(),
        forall|x: int| #[trigger] before.in_subtree(top, x) ==> !before.elements@[x].is_repeated(),
        instance_roots_plain(before),
        extracted(before, first_mid, before.subtree(top)),
        keeps_enclosing(before, first_mid, top),
        repaired(first_mid, once, first_mid.component_tree(top)),
        extracted(once, second_mid, once.subtree(top)),
        keeps_enclosing(once, second_mid, top),
        repaired(second_mid, twice, second_mid.component_tree(top)),
    ensures
        same_tree(once, twice),
{
    lemma_extracted_nothing(before, first_mid, top);
    lemma_repaired_same_walks(first_mid, once, first_mid.component_tree(top));
    // The element tree of `once` is that of `before`.
    assert forall|x: int|
        0 <= x < before.elements@.len() && #[trigger] before.in_subtree(top, x) implies x
        < once.elements@.len() && once.elements@[x].children@
        == before.elements@[x].children@ by {
        assert(once.elements@[x].children == first_mid.elements@[x].children);
    }
    let rank = choose|rank: Seq<nat>| #[trigger] before.wf_with(rank);
    before.lemma_subtree_agrees(once, rank, top);
    assert forall|x: int| #[trigger] once.in_subtree(top, x) implies !once.elements@[x].is_repeated() by {
        assert(before.in_subtree(top, x));
        before.lemma_subtree_exists(top, x);
        assert(once.elements@[x].repeated == first_mid.elements@[x].repeated);
    }
    lemma_extracted_nothing(once, second_mid, top);
    assert(same_tree(once, second_mid));
    // The walks through `second_mid` are those through `first_mid`.
    assert forall|y: int, z: int| #[trigger]
        first_mid.leads_to(y, z) == second_mid.leads_to(y, z) by {
        if 0 <= y < once.elements@.len() {
            assert(once.elements@[y].same_but_bindings(&second_mid.elements@[y]));
            assert(once.elements@[y].children == first_mid.elements@[y].children);
            assert(once.components@ == first_mid.components@);
            assert(second_mid.components@ == once.components@);
        }
    }
    first_mid.lemma_component_tree_agrees(second_mid, top);
    assert(second_mid.component_tree(top) =~= first_mid.component_tree(top));
    assert forall|x: int| 0 <= x < before.elements@.len() implies (
    #[trigger] first_mid.elements@[x]).repeated == before.elements@[x].repeated
        && first_mid.elements@[x].base_type == before.elements@[x].base_type by {}
    assert forall|x: ElementId| #[trigger] instance_root(first_mid, x) == instance_root(before, x) by {}
    lemma_repair_idempotent(first_mid, once, second_mid, twice, first_mid.component_tree(top));
}

/// Whether the repeated element `x` of `before` is, in `after`, an empty
/// instance of a component made for it, whose root holds what the element
/// held, with the references in the bindings redirected, and has that
/// component for its enclosing component.
pub open spec fn instantiated(before: &ObjectTree, after: &ObjectTree, x: int) -> bool {
    let source = before.elements@[x];
    let wrapper = after.elements@[x];
    &&& emptied(wrapper, source)
    &&& wrapper.base_type matches ElementType::Component(c)
    &&& before.components@.len() <= c < after.components@.len()
    &&& after.components@[c as int].parent_element matches Some(p)
    &&& p == x
    &&& after.components@[c as int].id@.len() == 0
    &&& before.elements@.len() <= after.components@[c as int].root_element
        < after.elements@.len()
    &&& after.components@[c as int].root_element - before.elements@.len() == c
        - before.components@.len()
    &&& {
        let root_id = after.components@[c as int].root_element;
        let root = after.elements@[root_id as int];
        &&& carries_over(root, source)
        &&& root.enclosing_component == Some(c)
        &&& root.bindings@.len() == source.bindings@.len() + (if wants_height(source) {
            1int
        } else {
            0int
        })
        &&& forall|i: int|
            0 <= i < source.bindings@.len() ==> (#[trigger] root.bindings@[i]).name
                == source.bindings@[i].name && root.bindings@[i].expression
                == source.bindings@[i].expression.map_references(redirection(after))
        &&& wants_height(source) ==> is_preferred_height(root.bindings@.last(), root_id)
    }
}

/// After the extraction, what lay in the element tree below `top` belongs
/// to the component with the root `top` or to one of its sub-components,
/// and so does the root that holds what a repeated element held.
pub proof fn lemma_extracted_belongs(
    before: &ObjectTree,
    after: &ObjectTree,
    top: int,
    x: int,
    rank: Seq<nat>,
)
    requires
        before.wf_with(rank),
        extracted(before, after, before.subtree(top)),
        before.in_subtree(top, x),
    ensures
        after.in_component_tree(top, x),
        before.elements@[x].is_repeated() ==> after.in_component_tree(
            top,
            after.components@[after.elements@[x].base_type->Component_0 as int].root_element as int,
        ),
    decreases rank[top] - rank[x],
{
    let visited = before.subtree(top);
    before.lemma_subtree_ranks(rank, top, x);
    assert(element_extracted(before, after, visited, x));
    if x == top {
        after.lemma_component_tree_top(top);
    } else {
        let parent = before.lemma_parent_in_subtree(top, x);
        let p = parent.0;
        before.lemma_subtree_ranks(rank, top, p);
        assert(rank[before.elements@[p].children@[parent.1] as int] < rank[p]);
        lemma_extracted_belongs(before, after, top, p, rank);
        assert(element_extracted(before, after, visited, p));
        let holder = if before.elements@[p].is_repeated() {
            after.components@[after.elements@[p].base_type->Component_0 as int].root_element as int
        } else {
            p
        };
        assert(after.elements@[holder].children == before.elements@[p].children);
        assert(after.elements@[holder].children@[parent.1] == x);
        assert(after.leads_to(holder, x));
        after.lemma_component_tree_next(top, holder, x);
    }
    if before.elements@[x].is_repeated() {
        let c = after.elements@[x].base_type->Component_0;
        let root = after.components@[c as int].root_element as int;
        assert(after.sub_component_root(x) == Some(root as usize));
        assert(after.leads_to(x, root));
        after.lemma_component_tree_next(top, x, root);
    }
}

/// After the pass, a repeated element of the element tree that was visited
/// has no children and no bindings, and is an instance of a component
/// whose root holds what the element held: its identifier, its type, its
/// children, and its bindings with their references redirected.
pub proof fn lemma_pass_instantiates(
    before: &ObjectTree,
    mid: &ObjectTree,
    after: &ObjectTree,
    top: int,
    x: int,
)
    requires
        before.wf(),
        extracted(before, mid, before.subtree(top)),
        repaired(mid, after, mid.component_tree(top)),
        before.in_subtree(top, x),
        before.elements@[x].is_repeated(),
    ensures
        instantiated(before, after, x),
{
    let visited = before.subtree(top);
    let repaired_in = mid.component_tree(top);
    let rank = choose|rank: Seq<nat>| #[trigger] before.wf_with(rank);
    before.lemma_subtree_exists(top, x);
    lemma_extracted_belongs(before, mid, top, x, rank);
    assert(element_extracted(before, mid, visited, x));
    assert(hollowed(before, mid, x));
    let source = before.elements@[x];
    let c = mid.elements@[x].base_type->Component_0;
    let root_id = mid.components@[c as int].root_element;
    assert(element_repaired(mid, after, repaired_in.contains(x), x));
    assert(element_repaired(mid, after, repaired_in.contains(root_id as int), root_id as int));
    lemma_repaired_same_walks(mid, after, repaired_in);
    let made = mid.elements@[root_id as int];
    let root = after.elements@[root_id as int];
    assert forall|i: int| 0 <= i < source.bindings@.len() implies (#[trigger] root.bindings@[i]).name
        == source.bindings@[i].name && root.bindings@[i].expression
        == source.bindings@[i].expression.map_references(redirection(after)) by {
        if wants_height(source) {
            assert(made.bindings@[i] == made.bindings@.drop_last()[i]);
        }
        assert(made.bindings@[i] == source.bindings@[i]);
    }
    if wants_height(source) {
        reveal_strlit("$model");
        reveal_strlit("preferred_height");
        let last = source.bindings@.len() as int;
        assert(made.bindings@[last] == made.bindings@.last());
        assert(root.bindings@[last] == root.bindings@.last());
        assert(root.bindings@[last].name == made.bindings@[last].name);
        let nr = made.bindings@[last].expression->PropertyReference_0;
        assert(nr.name@.len() != "$model"@.len());
        assert(redirected(mid, nr) == nr);
    }
}

} // verus!
