//! Why the extraction of repeated elements does what it states.
use crate::expression_tree::{targets_below, ElementId};
use crate::langtype::{ComponentId, ElementType};
use crate::object_tree::{Element, ObjectTree};
use crate::passes::repeater_component::{
    element_extracted, emptied, enclosed_in, extracted, holds_content_of, hollowed, in_order,
    is_new_component, is_new_root, keeps_enclosing, root_made_for, unmarked, wants_height,
};
use vstd::prelude::*;

verus! {

/// Whether `after` is `before` with the content of the repeated element
/// `e` taken out into a new last element, the root of a new last component.
pub open spec fn taken_out(
    before: &ObjectTree,
    after: &ObjectTree,
    e: int,
    root: ElementId,
    component: ComponentId,
) -> bool {
    &&& root == before.elements@.len()
    &&& component == before.components@.len()
    &&& 0 <= e < before.elements@.len()
    &&& after.elements@.len() == before.elements@.len() + 1
    &&& after.components@.len() == before.components@.len() + 1
    &&& forall|c: int|
        0 <= c < before.components@.len() ==> #[trigger] after.components@[c]
            == before.components@[c]
    &&& after.components@[component as int].root_element == root
    &&& after.components@[component as int].parent_element matches Some(p)
    &&& p == e
    &&& after.components@[component as int].id@.len() == 0
    &&& forall|x: int|
        0 <= x < before.elements@.len() && x != e ==> #[trigger] after.elements@[x]
            == before.elements@[x]
    &&& emptied(after.elements@[e], before.elements@[e])
    &&& after.elements@[e].base_type == ElementType::Invalid
    &&& after.elements@[e].enclosing_component == before.elements@[e].enclosing_component
    &&& holds_content_of(after.elements@[root as int], before.elements@[e], root)
    &&& after.elements@[root as int].enclosing_component.is_none()
}

/// Taking the content of a repeated element out keeps the tree well formed.
pub proof fn lemma_taken_out_wf(
    before: &ObjectTree,
    after: &ObjectTree,
    e: int,
    made: ElementId,
    component: ComponentId,
    rank: Seq<nat>,
)
    requires
        before.wf_with(rank),
        taken_out(before, after, e, made, component),
    ensures
        after.wf_with(rank.push(rank[e])),
{
    let root = made as int;
    let bound = before.elements@.len() as int;
    assert(before.element_wf(e));
    assert forall|x: int| 0 <= x < after.elements@.len() implies #[trigger] after.element_wf(
        x,
    ) by {
        if x == root {
            let source = before.elements@[e];
            let made = after.elements@[root];
            assert(made.children == source.children);
            assert forall|i: int| 0 <= i < made.bindings@.len() implies (
            #[trigger] made.bindings@[i]).expression.all_references(targets_below(bound + 1)) by {
                if wants_height(source) && i == source.bindings@.len() {
                    assert(made.bindings@[i] == made.bindings@.last());
                } else {
                    if wants_height(source) {
                        assert(made.bindings@[i] == made.bindings@.drop_last()[i]);
                    }
                    assert(made.bindings@[i] == source.bindings@[i]);
                    source.bindings@[i].expression.lemma_all_references_implies(
                        targets_below(bound),
                        targets_below(bound + 1),
                    );
                }
            }
            assert forall|i: int, j: int| 0 <= i < j < made.bindings@.len() implies (
            #[trigger] made.bindings@[i]).name@ != (#[trigger] made.bindings@[j]).name@ by {
                if wants_height(source) {
                    assert(made.bindings@[i] == made.bindings@.drop_last()[i]);
                    if j == source.bindings@.len() {
                        assert(made.bindings@[j] == made.bindings@.last());
                        assert(made.bindings@[i] == source.bindings@[i]);
                    } else {
                        assert(made.bindings@[j] == made.bindings@.drop_last()[j]);
                    }
                }
            }
        } else if x == e {
        } else {
            assert(before.element_wf(x));
            let element = before.elements@[x];
            assert forall|i: int| 0 <= i < element.bindings@.len() implies (
            #[trigger] element.bindings@[i]).expression.all_references(
                targets_below(bound + 1),
            ) by {
                element.bindings@[i].expression.lemma_all_references_implies(
                    targets_below(bound),
                    targets_below(bound + 1),
                );
            }
        }
    }
    assert forall|c: int| 0 <= c < after.components@.len() implies #[trigger] after.component_wf(
        c,
    ) by {
        if c < before.components@.len() {
            assert(before.component_wf(c));
        }
    }
    assert forall|p: int, i: int, q: int, j: int|
        #![trigger after.elements@[p].children@[i], after.elements@[q].children@[j]]
        0 <= p < after.elements@.len() && 0 <= i < after.elements@[p].children@.len() && 0 <= q
            < after.elements@.len() && 0 <= j < after.elements@[q].children@.len()
            && after.elements@[p].children@[i] == after.elements@[q].children@[j] implies p == q
        && i == j by {
        let from = if p == root { e } else { p };
        let other = if q == root { e } else { q };
        assert(after.elements@[p].children == before.elements@[from].children);
        assert(after.elements@[q].children == before.elements@[other].children);
        assert(before.elements@[from].children@[i] == before.elements@[other].children@[j]);
    }
    let next = rank.push(rank[e]);
    assert forall|p: int, i: int|
        0 <= p < after.elements@.len() && 0 <= i < after.elements@[p].children@.len() implies (
    #[trigger] after.elements@[p].children@[i]) < after.elements@.len()
        && next[after.elements@[p].children@[i] as int] < next[p] by {
        let from = if p == root { e } else { p };
        assert(after.elements@[p].children == before.elements@[from].children);
        assert(before.elements@[from].children@[i] < before.elements@.len());
    }
}

/// Two extractions in a row, on sets of elements that share nothing, are
/// the extraction on the two sets together.
pub proof fn lemma_extracted_twice(
    first: &ObjectTree,
    second: &ObjectTree,
    third: &ObjectTree,
    earlier: Set<int>,
    later: Set<int>,
    second_rank: Seq<nat>,
)
    requires
        second.ranked(second_rank),
        extracted(first, second, earlier),
        extracted(second, third, later),
        forall|x: int| later.contains(x) ==> 0 <= x < first.elements@.len() && !earlier.contains(x),
    ensures
        extracted(first, third, earlier.union(later)),
{
    let both = earlier.union(later);
    assert forall|c: int| 0 <= c < first.components@.len() implies #[trigger] third.components@[c]
        == first.components@[c] by {
        assert(second.components@[c] == first.components@[c]);
    }
    assert forall|x: int| 0 <= x < first.elements@.len() implies #[trigger] element_extracted(
        first,
        third,
        both,
        x,
    ) by {
        assert(element_extracted(first, second, earlier, x));
        assert(element_extracted(second, third, later, x));
        if earlier.contains(x) && first.elements@[x].is_repeated() {
            let c = second.elements@[x].base_type->Component_0;
            let root = second.components@[c as int].root_element;
            assert(third.components@[c as int] == second.components@[c as int]);
            assert(element_extracted(second, third, later, root as int));
        }
    }
    assert forall|r: int| first.elements@.len() <= r < third.elements@.len() implies #[trigger] is_new_root(
        first,
        third,
        r,
    ) by {
        if r < second.elements@.len() {
            assert(is_new_root(first, second, r));
            assert(element_extracted(second, third, later, r));
            let c = second.elements@[r].enclosing_component->0;
            assert(third.components@[c as int] == second.components@[c as int]);
        } else {
            assert(is_new_root(second, third, r));
        }
    }
    assert forall|c: int|
        first.components@.len() <= c < third.components@.len() implies #[trigger] is_new_component(
        first,
        third,
        both,
        c,
    ) by {
        if c < second.components@.len() {
            assert(is_new_component(first, second, earlier, c));
            assert(third.components@[c] == second.components@[c]);
            let x = second.components@[c].parent_element->0;
            assert(element_extracted(second, third, later, x as int));
        } else {
            assert(is_new_component(second, third, later, c));
            let x = third.components@[c].parent_element->0;
            assert(element_extracted(first, second, earlier, x as int));
        }
    }
    assert forall|r: int, y: int|
        first.elements@.len() <= r < third.elements@.len() && #[trigger] third.in_subtree(
            r,
            y,
        ) implies third.elements@[y].enclosing_component == third.elements@[r].enclosing_component
        && (y != r ==> 0 <= y < first.elements@.len() && both.contains(y)) by {
        if r < second.elements@.len() {
            assert forall|z: int|
                0 <= z < second.elements@.len() && #[trigger] second.in_subtree(r, z) implies z
                < third.elements@.len() && third.elements@[z].children@
                == second.elements@[z].children@ by {
                assert(element_extracted(second, third, later, z));
            }
            second.lemma_subtree_agrees(third, second_rank, r);
            assert(second.in_subtree(r, y));
            second.lemma_subtree_top(r);
            assert(element_extracted(second, third, later, y));
            assert(element_extracted(second, third, later, r));
        }
    }
}

/// An extraction on a set of elements is an extraction on a larger set, if
/// the elements that are added are not repeated.
pub proof fn lemma_extracted_more(
    before: &ObjectTree,
    after: &ObjectTree,
    visited: Set<int>,
    more: Set<int>,
)
    requires
        extracted(before, after, visited),
        forall|x: int| visited.contains(x) ==> more.contains(x),
        forall|x: int|
            0 <= x < before.elements@.len() && more.contains(x) && !visited.contains(x)
                ==> !before.elements@[x].is_repeated(),
    ensures
        extracted(before, after, more),
{
    assert forall|x: int| 0 <= x < before.elements@.len() implies #[trigger] element_extracted(
        before,
        after,
        more,
        x,
    ) by {
        assert(element_extracted(before, after, visited, x));
    }
    assert forall|c: int|
        before.components@.len() <= c < after.components@.len() implies #[trigger] is_new_component(
        before,
        after,
        more,
        c,
    ) by {
        assert(is_new_component(before, after, visited, c));
    }
}

/// The elements that lie below one of the first `count` children of
/// `parent`.
pub open spec fn below_children(tree: &ObjectTree, parent: int, count: int) -> Set<int> {
    Set::new(
        |x: int|
            exists|j: int|
                0 <= j < count && tree.in_subtree(
                    (#[trigger] tree.elements@[parent].children@[j]) as int,
                    x,
                ),
    )
}

/// Whether the subtrees of the first `count` children of `parent` in
/// `base` have kept their enclosing components in `after`.
pub open spec fn children_keep_enclosing(
    base: &ObjectTree,
    after: &ObjectTree,
    parent: int,
    count: int,
) -> bool {
    forall|j: int|
        0 <= j < count ==> keeps_enclosing(
            base,
            after,
            (#[trigger] base.elements@[parent].children@[j]) as int,
        )
}

/// What holds after the first `i` children of `parent` have been visited
/// holds for `i + 1` children after the visit of the next one.
pub proof fn lemma_child_visited(
    base: &ObjectTree,
    before: &ObjectTree,
    after: &ObjectTree,
    parent: int,
    i: int,
    base_rank: Seq<nat>,
    before_rank: Seq<nat>,
)
    requires
        base.wf_with(base_rank),
        before.ranked(before_rank),
        0 <= parent < base.elements@.len(),
        0 <= i < base.elements@[parent].children@.len(),
        extracted(base, before, below_children(base, parent, i)),
        children_keep_enclosing(base, before, parent, i),
        extracted(
            before,
            after,
            before.subtree(base.elements@[parent].children@[i] as int),
        ),
        keeps_enclosing(before, after, base.elements@[parent].children@[i] as int),
    ensures
        extracted(base, after, below_children(base, parent, i + 1)),
        children_keep_enclosing(base, after, parent, i + 1),
        after.elements@[parent] == base.elements@[parent],
{
    let kids = base.elements@[parent].children@;
    let child = kids[i] as int;
    let done = below_children(base, parent, i);
    let now = before.subtree(child);
    assert(base.element_wf(parent));
    assert(kids[i] < base.elements@.len());
    // The subtree of the child has not been touched so far.
    assert forall|x: int| #[trigger] base.in_subtree(child, x) implies 0 <= x
        < base.elements@.len() && !done.contains(x) && before.elements@[x]
        == base.elements@[x] by {
        base.lemma_subtree_exists(child, x);
        if done.contains(x) {
            let j = choose|j: int|
                0 <= j < i && base.in_subtree(
                    (#[trigger] base.elements@[parent].children@[j]) as int,
                    x,
                );
            base.lemma_siblings_disjoint(base_rank, parent, i, j, x);
        }
        assert(element_extracted(base, before, done, x));
    }
    base.lemma_subtree_agrees(before, base_rank, child);
    assert(!done.contains(parent)) by {
        if done.contains(parent) {
            let j = choose|j: int|
                0 <= j < i && base.in_subtree(
                    (#[trigger] base.elements@[parent].children@[j]) as int,
                    parent,
                );
            base.lemma_subtree_ranks(base_rank, kids[j] as int, parent);
        }
    }
    assert(!now.contains(parent)) by {
        if now.contains(parent) {
            base.lemma_subtree_ranks(base_rank, child, parent);
        }
    }
    assert(element_extracted(base, before, done, parent));
    assert(element_extracted(before, after, now, parent));
    lemma_extracted_twice(base, before, after, done, now, before_rank);
    assert(below_children(base, parent, i + 1) =~= done.union(now)) by {
        assert forall|x: int| below_children(base, parent, i + 1).contains(x) implies done.union(
            now,
        ).contains(x) by {
            let j = choose|j: int|
                0 <= j < i + 1 && base.in_subtree(
                    (#[trigger] base.elements@[parent].children@[j]) as int,
                    x,
                );
            if j < i {
                assert(done.contains(x));
            }
        }
        assert forall|x: int| done.union(now).contains(x) implies below_children(
            base,
            parent,
            i + 1,
        ).contains(x) by {
            if done.contains(x) {
                let j = choose|j: int|
                    0 <= j < i && base.in_subtree(
                        (#[trigger] base.elements@[parent].children@[j]) as int,
                        x,
                    );
                assert(base.in_subtree(base.elements@[parent].children@[j] as int, x));
            } else {
                assert(base.in_subtree(base.elements@[parent].children@[i] as int, x));
            }
        }
    }
    assert forall|j: int| 0 <= j < i + 1 implies keeps_enclosing(
        base,
        after,
        (#[trigger] base.elements@[parent].children@[j]) as int,
    ) by {
        let other = kids[j] as int;
        if j == i {
            assert forall|y: int| #[trigger] after.in_subtree(other, y) implies base.in_subtree(
                other,
                y,
            ) && after.elements@[y].enclosing_component
                == base.elements@[y].enclosing_component by {
                assert(before.in_subtree(other, y));
                assert(base.in_subtree(other, y));
            }
        } else {
            assert(keeps_enclosing(base, before, other));
            // What lies below an earlier child is not touched by this visit.
            assert forall|z: int|
                0 <= z < before.elements@.len() && #[trigger] before.in_subtree(
                    other,
                    z,
                ) implies z < after.elements@.len() && after.elements@[z]
                == before.elements@[z] by {
                assert(base.in_subtree(other, z));
                if now.contains(z) {
                    base.lemma_siblings_disjoint(base_rank, parent, i, j, z);
                }
                assert(element_extracted(before, after, now, z));
            }
            assert(kids[j] < base.elements@.len());
            before.lemma_subtree_agrees(after, before_rank, other);
            assert forall|y: int| #[trigger] after.in_subtree(other, y) implies base.in_subtree(
                other,
                y,
            ) && after.elements@[y].enclosing_component
                == base.elements@[y].enclosing_component by {
                assert(before.in_subtree(other, y));
                base.lemma_subtree_exists(other, y);
            }
        }
    }
}

/// The visit of an element that is not repeated is done when its children
/// are: the tree is extracted on its subtree.
pub proof fn lemma_plain_visited(
    before: &ObjectTree,
    after: &ObjectTree,
    e: int,
    rank: Seq<nat>,
)
    requires
        before.wf_with(rank),
        0 <= e < before.elements@.len(),
        !before.elements@[e].is_repeated(),
        extracted(
            before,
            after,
            below_children(before, e, before.elements@[e].children@.len() as int),
        ),
        children_keep_enclosing(
            before,
            after,
            e,
            before.elements@[e].children@.len() as int,
        ),
        after.elements@[e] == before.elements@[e],
    ensures
        extracted(before, after, before.subtree(e)),
        keeps_enclosing(before, after, e),
{
    let count = before.elements@[e].children@.len() as int;
    let below = below_children(before, e, count);
    assert(before.element_wf(e));
    assert forall|x: int| below.contains(x) implies before.subtree(e).contains(x) by {
        let j = choose|j: int|
            0 <= j < count && before.in_subtree(
                (#[trigger] before.elements@[e].children@[j]) as int,
                x,
            );
        before.lemma_subtree_of_child(e, j, x);
    }
    assert forall|x: int|
        0 <= x < before.elements@.len() && before.subtree(e).contains(x) && !below.contains(
            x,
        ) implies !before.elements@[x].is_repeated() by {
        if x != e {
            let j = before.lemma_subtree_child(e, x);
            assert(before.in_subtree(before.elements@[e].children@[j] as int, x));
        }
    }
    lemma_extracted_more(before, after, below, before.subtree(e));
    assert forall|y: int| #[trigger] after.in_subtree(e, y) implies before.in_subtree(e, y)
        && after.elements@[y].enclosing_component
        == before.elements@[y].enclosing_component by {
        if y != e {
            let j = after.lemma_subtree_child(e, y);
            assert(keeps_enclosing(
                before,
                after,
                before.elements@[e].children@[j] as int,
            ));
            before.lemma_subtree_of_child(e, j, y);
        } else {
            before.lemma_subtree_top(e);
        }
    }
}

/// Whether `after` is `before` with the content of the repeated element
/// `e` taken out into a new last element, the root of a new last component
/// that encloses it and all that lies below it.
pub open spec fn opened(
    before: &ObjectTree,
    after: &ObjectTree,
    e: int,
    root: ElementId,
    component: ComponentId,
) -> bool {
    &&& root == before.elements@.len()
    &&& component == before.components@.len()
    &&& 0 <= e < before.elements@.len()
    &&& after.elements@.len() == before.elements@.len() + 1
    &&& after.components@.len() == before.components@.len() + 1
    &&& forall|c: int|
        0 <= c < before.components@.len() ==> #[trigger] after.components@[c]
            == before.components@[c]
    &&& after.components@[component as int].root_element == root
    &&& after.components@[component as int].parent_element matches Some(p)
    &&& p == e
    &&& after.components@[component as int].id@.len() == 0
    &&& forall|x: int|
        0 <= x < before.elements@.len() && x != e ==> #[trigger] after.elements@[x] == (
        if before.in_subtree(e, x) {
            enclosed_in(before.elements@[x], component)
        } else {
            before.elements@[x]
        })
    &&& emptied(after.elements@[e], before.elements@[e])
    &&& after.elements@[e].base_type == ElementType::Invalid
    &&& after.elements@[e].enclosing_component == before.elements@[e].enclosing_component
    &&& holds_content_of(after.elements@[root as int], before.elements@[e], root)
    &&& after.elements@[root as int].enclosing_component == Some(component)
}

/// The subtree of a child of the repeated element `e` is the same before
/// and after the content of `e` is taken out, whatever became of the
/// enclosing components.
proof fn lemma_child_subtree_kept(
    before: &ObjectTree,
    after: &ObjectTree,
    e: int,
    j: int,
    rank: Seq<nat>,
)
    requires
        before.wf_with(rank),
        0 <= e < before.elements@.len(),
        0 <= j < before.elements@[e].children@.len(),
        before.elements@.len() <= after.elements@.len(),
        forall|x: int|
            0 <= x < before.elements@.len() && x != e ==> (#[trigger] after.elements@[x]).children
                == before.elements@[x].children,
    ensures
        forall|x: int|
            before.in_subtree(before.elements@[e].children@[j] as int, x) == after.in_subtree(
                before.elements@[e].children@[j] as int,
                x,
            ),
{
    let child = before.elements@[e].children@[j] as int;
    assert(before.element_wf(e));
    assert(before.elements@[e].children@[j] < before.elements@.len());
    assert forall|x: int|
        0 <= x < before.elements@.len() && #[trigger] before.in_subtree(child, x) implies x
        < after.elements@.len() && after.elements@[x].children@
        == before.elements@[x].children@ by {
        before.lemma_subtree_ranks(rank, child, x);
        assert(after.elements@[x].children == before.elements@[x].children);
    }
    before.lemma_subtree_agrees(after, rank, child);
}

/// Taking the content of a repeated element out, and then making the new
/// component the enclosing component of all that lies below the new root,
/// opens the element.
pub proof fn lemma_opened(
    before: &ObjectTree,
    taken: &ObjectTree,
    after: &ObjectTree,
    e: int,
    made: ElementId,
    component: ComponentId,
    rank: Seq<nat>,
)
    requires
        before.wf_with(rank),
        taken_out(before, taken, e, made, component),
        after.components == taken.components,
        after.elements@.len() == taken.elements@.len(),
        forall|x: int|
            0 <= x < taken.elements@.len() ==> #[trigger] after.elements@[x] == (
            if taken.in_subtree(made as int, x) {
                enclosed_in(taken.elements@[x], component)
            } else {
                taken.elements@[x]
            }),
    ensures
        opened(before, after, e, made, component),
{
    let root = made as int;
    assert(before.element_wf(e));
    assert(taken.elements@[root].children == before.elements@[e].children);
    assert forall|x: int| 0 <= x < before.elements@.len() implies (taken.in_subtree(root, x) <==> x
        != e && before.in_subtree(e, x)) by {
        if taken.in_subtree(root, x) {
            let j = taken.lemma_subtree_child(root, x);
            lemma_child_subtree_kept(before, taken, e, j, rank);
            before.lemma_subtree_of_child(e, j, x);
            before.lemma_subtree_ranks(rank, before.elements@[e].children@[j] as int, x);
        }
        if x != e && before.in_subtree(e, x) {
            let j = before.lemma_subtree_child(e, x);
            lemma_child_subtree_kept(before, taken, e, j, rank);
            assert(taken.in_subtree(taken.elements@[root].children@[j] as int, x));
            taken.lemma_subtree_of_child(root, j, x);
        }
    }
    taken.lemma_subtree_top(root);
    assert(after.elements@[root] == enclosed_in(taken.elements@[root], component));
    assert(after.elements@[e] == taken.elements@[e]);
    assert forall|x: int| 0 <= x < before.elements@.len() && x != e implies #[trigger] after.elements@[x]
        == (if before.in_subtree(e, x) {
        enclosed_in(before.elements@[x], component)
    } else {
        before.elements@[x]
    }) by {
        assert(taken.elements@[x] == before.elements@[x]);
    }
}

/// Whether `after` is `before` with `component` for the type of the
/// element `e`.
pub open spec fn typed(
    before: &ObjectTree,
    after: &ObjectTree,
    e: int,
    component: ComponentId,
) -> bool {
    &&& after.components == before.components
    &&& after.elements@.len() == before.elements@.len()
    &&& forall|x: int|
        0 <= x < before.elements@.len() && x != e ==> #[trigger] after.elements@[x]
            == before.elements@[x]
    &&& after.elements@[e] == (Element {
        base_type: ElementType::Component(component),
        ..before.elements@[e]
    })
}

/// The visit of a repeated element is done when the element is opened,
/// the children that are now those of the new root are visited, and the
/// element has the new component for its type: the tree is extracted on
/// its subtree.
pub proof fn lemma_repeated_visited(
    before: &ObjectTree,
    base: &ObjectTree,
    mid: &ObjectTree,
    after: &ObjectTree,
    e: int,
    made: ElementId,
    new_component: ComponentId,
    rank: Seq<nat>,
    mid_rank: Seq<nat>,
)
    requires
        before.wf_with(rank),
        mid.ranked(mid_rank),
        0 <= e < before.elements@.len(),
        before.elements@[e].is_repeated(),
        opened(before, base, e, made, new_component),
        extracted(
            base,
            mid,
            below_children(
                base,
                made as int,
                base.elements@[made as int].children@.len() as int,
            ),
        ),
        children_keep_enclosing(
            base,
            mid,
            made as int,
            base.elements@[made as int].children@.len() as int,
        ),
        mid.elements@[made as int] == base.elements@[made as int],
        typed(mid, after, e, new_component),
    ensures
        extracted(before, after, before.subtree(e)),
        keeps_enclosing(before, after, e),
{
    let root = made as int;
    let component = new_component as int;
    let count = base.elements@[root].children@.len() as int;
    let below = below_children(base, root, count);
    let whole = before.subtree(e);
    assert(before.element_wf(e));
    assert(base.elements@[root].children == before.elements@[e].children);
    assert forall|x: int| 0 <= x < before.elements@.len() && x != e implies (
    #[trigger] base.elements@[x]).children == before.elements@[x].children by {}
    // The elements below the new root are those that lay below `e`.
    assert forall|x: int| below.contains(x) <==> x != e && before.in_subtree(e, x) by {
        if below.contains(x) {
            let j = choose|j: int|
                0 <= j < count && base.in_subtree(
                    (#[trigger] base.elements@[root].children@[j]) as int,
                    x,
                );
            lemma_child_subtree_kept(before, base, e, j, rank);
            before.lemma_subtree_of_child(e, j, x);
            before.lemma_subtree_ranks(rank, e, x);
            before.lemma_subtree_ranks(rank, before.elements@[e].children@[j] as int, x);
        }
        if x != e && before.in_subtree(e, x) {
            let j = before.lemma_subtree_child(e, x);
            lemma_child_subtree_kept(before, base, e, j, rank);
            assert(base.in_subtree(base.elements@[root].children@[j] as int, x));
        }
    }
    assert forall|x: int| below.contains(x) implies 0 <= x < before.elements@.len() && x != e by {
        before.lemma_subtree_exists(e, x);
    }
    before.lemma_subtree_top(e);
    assert(element_extracted(base, mid, below, e));
    assert(mid.elements@[e] == base.elements@[e]);
    assert(mid.components@[component] == base.components@[component]);
    // The subtrees of `after` are those of `mid`.
    assert forall|top: int, y: int| 0 <= top < mid.elements@.len() implies (#[trigger] after.in_subtree(
        top,
        y,
    ) == mid.in_subtree(top, y)) by {
        assert forall|z: int|
            0 <= z < mid.elements@.len() && #[trigger] mid.in_subtree(top, z) implies z
            < after.elements@.len() && after.elements@[z].children@
            == mid.elements@[z].children@ by {
            if z != e {
                assert(after.elements@[z] == mid.elements@[z]);
            }
        }
        mid.lemma_subtree_agrees(after, mid_rank, top);
    }
    assert forall|c: int| 0 <= c < before.components@.len() implies #[trigger] after.components@[c]
        == before.components@[c] by {
        assert(mid.components@[c] == base.components@[c]);
        assert(base.components@[c] == before.components@[c]);
    }
    assert forall|x: int| 0 <= x < before.elements@.len() implies #[trigger] element_extracted(
        before,
        after,
        whole,
        x,
    ) by {
        assert(element_extracted(base, mid, below, x));
        if x == e {
            assert(after.elements@[root] == mid.elements@[root]);
            assert(hollowed(before, after, x));
        } else {
            assert(after.elements@[x] == mid.elements@[x]);
            if whole.contains(x) {
                assert(base.elements@[x] == enclosed_in(before.elements@[x], new_component));
                if before.elements@[x].is_repeated() {
                    let c = mid.elements@[x].base_type->Component_0;
                    let made = mid.components@[c as int].root_element as int;
                    assert(after.elements@[made] == mid.elements@[made]);
                    assert(hollowed(before, after, x));
                }
            } else {
                assert(base.elements@[x] == before.elements@[x]);
            }
        }
    }
    assert forall|r: int| before.elements@.len() <= r < after.elements@.len() implies #[trigger] is_new_root(
        before,
        after,
        r,
    ) by {
        assert(after.elements@[r] == mid.elements@[r]);
        if r != root {
            assert(is_new_root(base, mid, r));
        }
    }
    assert forall|c: int|
        before.components@.len() <= c < after.components@.len() implies #[trigger] is_new_component(
        before,
        after,
        whole,
        c,
    ) by {
        if c != component {
            assert(is_new_component(base, mid, below, c));
            let x = mid.components@[c].parent_element->0 as int;
            assert(below.contains(x));
            assert(after.elements@[x] == mid.elements@[x]);
        }
    }
    assert forall|r: int, y: int|
        before.elements@.len() <= r < after.elements@.len() && #[trigger] after.in_subtree(
            r,
            y,
        ) implies after.elements@[y].enclosing_component == after.elements@[r].enclosing_component
        && (y != r ==> 0 <= y < before.elements@.len() && whole.contains(y)) by {
        assert(mid.in_subtree(r, y));
        assert(after.elements@[r] == mid.elements@[r]);
        if y != r {
            if r == root {
                let j = mid.lemma_subtree_child(root, y);
                assert(keeps_enclosing(base, mid, base.elements@[root].children@[j] as int));
                assert(base.in_subtree(base.elements@[root].children@[j] as int, y));
                assert(below.contains(y));
                assert(after.elements@[y] == mid.elements@[y]);
            } else {
                assert(below.contains(y));
                assert(after.elements@[y] == mid.elements@[y]);
            }
        }
    }
    assert forall|y: int| #[trigger] after.in_subtree(e, y) implies before.in_subtree(e, y)
        && after.elements@[y].enclosing_component
        == before.elements@[y].enclosing_component by {
        assert(after.elements@[e].children@.len() == 0);
        if y != e {
            let j = after.lemma_subtree_child(e, y);
        }
    }
}

/// The order of the descent within a subtree is the same in two trees
/// whose elements have the same children throughout the subtree.
pub proof fn lemma_visited_before_agrees(
    first: &ObjectTree,
    second: &ObjectTree,
    rank: Seq<nat>,
    top: int,
    x: int,
    y: int,
)
    requires
        first.single_parent(),
        first.ranked(rank),
        forall|z: int|
            0 <= z < first.elements@.len() && #[trigger] first.in_subtree(top, z) ==> z
                < second.elements@.len() && second.elements@[z].children@
                == first.elements@[z].children@,
        first.in_subtree(top, x),
        first.in_subtree(top, y),
        first.visited_before(x, y),
    ensures
        second.visited_before(x, y),
{
    first.lemma_subtree_exists(top, x);
    first.lemma_subtree_exists(top, y);
    if x != y && first.in_subtree(x, y) {
        lemma_subtree_agrees_within(first, second, rank, top, x);
    } else {
        let (p, i, j) = choose|p: int, i: int, j: int|
            0 <= p < first.elements@.len() && 0 <= i < j < first.elements@[p].children@.len()
                && first.in_subtree((#[trigger] first.elements@[p].children@[i]) as int, x)
                && first.in_subtree((#[trigger] first.elements@[p].children@[j]) as int, y);
        first.lemma_fork_within(rank, p, i, j, top, x, y);
        let left = first.elements@[p].children@[i] as int;
        let right = first.elements@[p].children@[j] as int;
        first.lemma_subtree_exists(left, x);
        first.lemma_subtree_exists(right, y);
        first.lemma_subtree_top(left);
        first.lemma_subtree_top(right);
        first.lemma_subtree_of_child(p, i, left);
        first.lemma_subtree_of_child(p, j, right);
        first.lemma_subtree_transitive(top, p, left);
        first.lemma_subtree_transitive(top, p, right);
        lemma_subtree_agrees_within(first, second, rank, top, left);
        lemma_subtree_agrees_within(first, second, rank, top, right);
        assert(second.elements@[p].children@ == first.elements@[p].children@);
        assert(second.in_subtree(second.elements@[p].children@[i] as int, x));
        assert(second.in_subtree(second.elements@[p].children@[j] as int, y));
    }
}

/// A subtree within a subtree is the same in two trees whose elements
/// have the same children throughout the outer one.
proof fn lemma_subtree_agrees_within(
    first: &ObjectTree,
    second: &ObjectTree,
    rank: Seq<nat>,
    top: int,
    inner: int,
)
    requires
        first.ranked(rank),
        forall|z: int|
            0 <= z < first.elements@.len() && #[trigger] first.in_subtree(top, z) ==> z
                < second.elements@.len() && second.elements@[z].children@
                == first.elements@[z].children@,
        first.in_subtree(top, inner),
    ensures
        forall|z: int| first.in_subtree(inner, z) == second.in_subtree(inner, z),
{
    first.lemma_subtree_exists(top, inner);
    assert forall|z: int|
        0 <= z < first.elements@.len() && #[trigger] first.in_subtree(inner, z) implies z
        < second.elements@.len() && second.elements@[z].children@
        == first.elements@[z].children@ by {
        first.lemma_subtree_transitive(top, inner, z);
    }
    first.lemma_subtree_agrees(second, rank, inner);
}

/// What holds of the order of the roots after the first `i` children of
/// `parent` have been visited holds for `i + 1` children after the visit
/// of the next one.
pub proof fn lemma_child_in_order(
    base: &ObjectTree,
    before: &ObjectTree,
    after: &ObjectTree,
    parent: int,
    i: int,
    base_rank: Seq<nat>,
)
    requires
        base.wf_with(base_rank),
        0 <= parent < base.elements@.len(),
        0 <= i < base.elements@[parent].children@.len(),
        extracted(base, before, below_children(base, parent, i)),
        extracted(
            before,
            after,
            before.subtree(base.elements@[parent].children@[i] as int),
        ),
        in_order(base, before, below_children(base, parent, i)),
        in_order(before, after, before.subtree(base.elements@[parent].children@[i] as int)),
    ensures
        in_order(base, after, below_children(base, parent, i + 1)),
{
    let kids = base.elements@[parent].children@;
    let child = kids[i] as int;
    let done = below_children(base, parent, i);
    let now = before.subtree(child);
    assert(base.element_wf(parent));
    assert(kids[i] < base.elements@.len());
    assert forall|x: int| #[trigger] base.in_subtree(child, x) implies 0 <= x
        < base.elements@.len() && !done.contains(x) && before.elements@[x]
        == base.elements@[x] by {
        base.lemma_subtree_exists(child, x);
        if done.contains(x) {
            let j = choose|j: int|
                0 <= j < i && base.in_subtree(
                    (#[trigger] base.elements@[parent].children@[j]) as int,
                    x,
                );
            base.lemma_siblings_disjoint(base_rank, parent, i, j, x);
        }
        assert(element_extracted(base, before, done, x));
    }
    base.lemma_subtree_agrees(before, base_rank, child);
    assert forall|x: int, y: int|
        below_children(base, parent, i + 1).contains(x) && below_children(
            base,
            parent,
            i + 1,
        ).contains(y) && base.elements@[x].is_repeated() && base.elements@[y].is_repeated()
            && #[trigger] base.visited_before(x, y) implies root_made_for(after, x)
        < root_made_for(after, y) by {
        let a = choose|a: int|
            0 <= a < i + 1 && base.in_subtree(
                (#[trigger] base.elements@[parent].children@[a]) as int,
                x,
            );
        let b = choose|b: int|
            0 <= b < i + 1 && base.in_subtree(
                (#[trigger] base.elements@[parent].children@[b]) as int,
                y,
            );
        assert(kids[a] < base.elements@.len());
        assert(kids[b] < base.elements@.len());
        base.lemma_subtree_exists(kids[a] as int, x);
        base.lemma_subtree_exists(kids[b] as int, y);
        assert(element_extracted(base, before, done, x));
        assert(element_extracted(base, before, done, y));
        assert(element_extracted(before, after, now, x));
        assert(element_extracted(before, after, now, y));
        if a < i {
            assert(done.contains(x));
            assert(!now.contains(x));
            let c = before.elements@[x].base_type->Component_0;
            assert(after.components@[c as int] == before.components@[c as int]);
        }
        if b < i {
            assert(done.contains(y));
            assert(!now.contains(y));
            let c = before.elements@[y].base_type->Component_0;
            assert(after.components@[c as int] == before.components@[c as int]);
        }
        if a == i && b < i {
            base.lemma_later_child_later(base_rank, parent, b, a, y, x);
        }
        if a == i && b == i {
            lemma_visited_before_agrees(base, before, base_rank, child, x, y);
        }
    }
}

/// The roots made below an element that is not repeated are in order when
/// those made below its children are.
pub proof fn lemma_plain_in_order(
    before: &ObjectTree,
    after: &ObjectTree,
    e: int,
    rank: Seq<nat>,
)
    requires
        before.wf_with(rank),
        0 <= e < before.elements@.len(),
        !before.elements@[e].is_repeated(),
        in_order(
            before,
            after,
            below_children(before, e, before.elements@[e].children@.len() as int),
        ),
    ensures
        in_order(before, after, before.subtree(e)),
{
    let below = below_children(before, e, before.elements@[e].children@.len() as int);
    assert forall|x: int| before.subtree(e).contains(x) && before.elements@[x].is_repeated() implies below.contains(
        x,
    ) by {
        let j = before.lemma_subtree_child(e, x);
        assert(before.in_subtree(before.elements@[e].children@[j] as int, x));
    }
}

/// The roots made below a repeated element are in order when those made
/// below the children that are now those of its root are: the root of the
/// element comes first.
pub proof fn lemma_repeated_in_order(
    before: &ObjectTree,
    base: &ObjectTree,
    mid: &ObjectTree,
    after: &ObjectTree,
    e: int,
    made: ElementId,
    new_component: ComponentId,
    rank: Seq<nat>,
)
    requires
        before.wf_with(rank),
        0 <= e < before.elements@.len(),
        before.elements@[e].is_repeated(),
        opened(before, base, e, made, new_component),
        extracted(
            base,
            mid,
            below_children(
                base,
                made as int,
                base.elements@[made as int].children@.len() as int,
            ),
        ),
        in_order(
            base,
            mid,
            below_children(
                base,
                made as int,
                base.elements@[made as int].children@.len() as int,
            ),
        ),
        typed(mid, after, e, new_component),
    ensures
        in_order(before, after, before.subtree(e)),
{
    let root = made as int;
    let count = base.elements@[root].children@.len() as int;
    let below = below_children(base, root, count);
    assert(before.element_wf(e));
    assert(base.elements@[root].children == before.elements@[e].children);
    assert forall|z: int| 0 <= z < before.elements@.len() && z != e implies (
    #[trigger] base.elements@[z]).children == before.elements@[z].children by {}
    // What lies below `e` but is not `e` has the same subtree in `base`.
    assert forall|x: int, z: int|
        x != e && before.in_subtree(e, x) implies (#[trigger] before.in_subtree(x, z)
        == base.in_subtree(x, z)) by {
        before.lemma_subtree_ranks(rank, e, x);
        assert forall|w: int|
            0 <= w < before.elements@.len() && #[trigger] before.in_subtree(x, w) implies w
            < base.elements@.len() && base.elements@[w].children@
            == before.elements@[w].children@ by {
            before.lemma_subtree_ranks(rank, x, w);
            assert(base.elements@[w].children == before.elements@[w].children);
        }
        before.lemma_subtree_agrees(base, rank, x);
    }
    assert forall|x: int| x != e && before.in_subtree(e, x) implies below.contains(x) by {
        let j = before.lemma_subtree_child(e, x);
        let child = before.elements@[e].children@[j] as int;
        before.lemma_subtree_exists(child, x);
        before.lemma_subtree_top(child);
        before.lemma_subtree_of_child(e, j, child);
        before.lemma_subtree_ranks(rank, child, x);
        assert(rank[before.elements@[e].children@[j] as int] < rank[e]);
        assert(before.in_subtree(child, x) == base.in_subtree(child, x));
        assert(base.in_subtree(base.elements@[root].children@[j] as int, x));
    }
    assert forall|x: int, y: int|
        before.subtree(e).contains(x) && before.subtree(e).contains(y)
            && before.elements@[x].is_repeated() && before.elements@[y].is_repeated()
            && #[trigger] before.visited_before(x, y) implies root_made_for(after, x)
        < root_made_for(after, y) by {
        before.lemma_subtree_exists(e, x);
        before.lemma_subtree_exists(e, y);
        before.lemma_below_comes_later(rank, e, x);
        assert(y != e);
        assert(below.contains(y));
        assert(element_extracted(base, mid, below, y));
        assert(after.elements@[y] == mid.elements@[y]);
        assert(base.elements@[y] == enclosed_in(before.elements@[y], new_component));
        assert(hollowed(base, mid, y));
        if x != e {
            assert(below.contains(x));
            assert(element_extracted(base, mid, below, x));
            assert(after.elements@[x] == mid.elements@[x]);
            assert(base.elements@[x] == enclosed_in(before.elements@[x], new_component));
            if x != y && before.in_subtree(x, y) {
                assert(base.in_subtree(x, y));
            } else {
                let (p, i, j) = choose|p: int, i: int, j: int|
                    0 <= p < before.elements@.len() && 0 <= i < j
                        < before.elements@[p].children@.len() && before.in_subtree(
                        (#[trigger] before.elements@[p].children@[i]) as int,
                        x,
                    ) && before.in_subtree(
                        (#[trigger] before.elements@[p].children@[j]) as int,
                        y,
                    );
                before.lemma_fork_within(rank, p, i, j, e, x, y);
                let left = before.elements@[p].children@[i] as int;
                let right = before.elements@[p].children@[j] as int;
                before.lemma_subtree_exists(left, x);
                before.lemma_subtree_exists(right, y);
                before.lemma_subtree_top(left);
                before.lemma_subtree_top(right);
                before.lemma_subtree_of_child(p, i, left);
                before.lemma_subtree_of_child(p, j, right);
                before.lemma_subtree_transitive(e, p, left);
                before.lemma_subtree_transitive(e, p, right);
                assert(rank[before.elements@[p].children@[i] as int] < rank[p]);
                assert(rank[before.elements@[p].children@[j] as int] < rank[p]);
                before.lemma_subtree_ranks(rank, e, p);
                assert(before.in_subtree(left, x) == base.in_subtree(left, x));
                assert(before.in_subtree(right, y) == base.in_subtree(right, y));
                let q = if p == e {
                    root
                } else {
                    p
                };
                assert(base.elements@[q].children == before.elements@[p].children);
                assert(base.in_subtree(base.elements@[q].children@[i] as int, x));
                assert(base.in_subtree(base.elements@[q].children@[j] as int, y));
            }
            assert(base.visited_before(x, y));
        } else {
            assert(mid.components@[new_component as int] == base.components@[
                new_component as int
            ]);
        }
    }
}

/// Marking one more element leaves fewer elements unmarked.
pub proof fn lemma_unmarked_less(marks: Seq<bool>, x: int)
    requires
        0 <= x < marks.len(),
        !marks[x],
    ensures
        unmarked(marks.update(x, true)) < unmarked(marks),
    decreases marks.len(),
{
    let marked = marks.update(x, true);
    if x == marks.len() - 1 {
        assert(marked.drop_last() =~= marks.drop_last());
    } else {
        assert(marked.drop_last() =~= marks.drop_last().update(x, true));
        lemma_unmarked_less(marks.drop_last(), x);
    }
}

/// Marks that hold all of other marks leave no more elements unmarked.
pub proof fn lemma_unmarked_fewer(fewer: Seq<bool>, more: Seq<bool>)
    requires
        fewer.len() == more.len(),
        forall|y: int| 0 <= y < fewer.len() && fewer[y] ==> #[trigger] more[y],
    ensures
        unmarked(more) <= unmarked(fewer),
    decreases fewer.len(),
{
    if fewer.len() > 0 {
        assert forall|y: int|
            0 <= y < fewer.drop_last().len() && fewer.drop_last()[y] implies #[trigger] more.drop_last()[y] by {
            assert(more[y]);
        }
        lemma_unmarked_fewer(fewer.drop_last(), more.drop_last());
        if fewer.last() {
            assert(more[fewer.len() - 1]);
        }
    }
}

} // verus!
