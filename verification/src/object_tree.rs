//! The object tree: elements organised into components.
//!
//! The elements and the components of one tree live in two vectors and name
//! each other by index. An element owns its children; a component owns its
//! root element. The references from an element to its enclosing component
//! and from a component to the element that instantiates it are plain
//! indices that own nothing.
use crate::expression_tree::{targets_below, ElementId, Expression};
use crate::langtype::{ComponentId, ElementType};
use vstd::prelude::*;

verus! {

/// A location in the source text, for diagnostics.
#[derive(Debug, Clone, Copy, PartialEq, Eq)]
pub struct SourceLocation {
    pub source_file: u32,
    pub offset: u32,
}

/// What marks an element as stemming from a `for` or an `if` construct.
#[derive(Debug, Clone, Copy, PartialEq, Eq)]
pub struct RepeatedElementInfo {
    /// The element stems from an `if`.
    pub is_conditional_element: bool,
    /// The repetition is shown by a list view, which lays its rows out.
    pub is_listview: bool,
}

/// An expression bound to a property of an element.
#[derive(Debug, PartialEq, Eq)]
pub struct Binding {
    pub name: String,
    pub expression: Expression,
}

/// A property that an element declares.
#[derive(Debug, PartialEq, Eq)]
pub struct PropertyDeclaration {
    pub name: String,
    pub property_type: String,
}

/// An animation of a property of an element.
#[derive(Debug, PartialEq, Eq)]
pub struct PropertyAnimation {
    pub property: String,
    pub duration_ms: u64,
}

/// A state that an element can be in.
#[derive(Debug, PartialEq, Eq)]
pub struct State {
    pub id: String,
}

/// A transition into or out of a state of an element.
#[derive(Debug, PartialEq, Eq)]
pub struct Transition {
    pub is_out: bool,
    pub state_id: String,
}

/// A node of the object tree.
#[derive(Debug, PartialEq, Eq)]
pub struct Element {
    /// The identifier in the source; may be empty.
    pub id: String,
    pub base_type: ElementType,
    /// The bound properties; no name occurs twice.
    pub bindings: Vec<Binding>,
    pub property_declarations: Vec<PropertyDeclaration>,
    pub property_animations: Vec<PropertyAnimation>,
    pub states: Vec<State>,
    pub transitions: Vec<Transition>,
    /// The owned children, in the order of the source.
    pub children: Vec<ElementId>,
    /// Present if and only if the element is repeated.
    pub repeated: Option<RepeatedElementInfo>,
    /// The component that the element lives in; owns nothing.
    pub enclosing_component: Option<ComponentId>,
    pub node: Option<SourceLocation>,
    pub child_of_layout: bool,
    /// The name of the property that holds the layout information.
    pub layout_info_prop: Option<String>,
    pub is_flickable_viewport: bool,
    /// The index among the items of the component, once it is determined.
    pub item_index: Option<usize>,
}

/// A named unit that can be instantiated on its own.
#[derive(Debug, PartialEq, Eq)]
pub struct Component {
    /// The name in the source; empty for a component made from a repeated
    /// element.
    pub id: String,
    /// The body of the component.
    pub root_element: ElementId,
    /// The element whose type this component is, for a component made from
    /// a repeated element; owns nothing.
    pub parent_element: Option<ElementId>,
}

/// The elements and components of one tree.
#[derive(Debug, PartialEq, Eq)]
pub struct ObjectTree {
    pub elements: Vec<Element>,
    pub components: Vec<Component>,
}

/// Whether some binding of `bindings` has the name `name`.
pub open spec fn binds(bindings: Seq<Binding>, name: Seq<char>) -> bool {
    exists|i: int| 0 <= i < bindings.len() && (#[trigger] bindings[i]).name@ == name
}

/// No name occurs twice among `bindings`.
pub open spec fn names_unique(bindings: Seq<Binding>) -> bool {
    forall|i: int, j: int|
        0 <= i < j < bindings.len() ==> (#[trigger] bindings[i]).name@ != (
        #[trigger] bindings[j]).name@
}

/// Every property reference in `bindings` names one of the first `bound`
/// elements.
pub open spec fn references_below(bindings: Seq<Binding>, bound: int) -> bool {
    forall|i: int|
        0 <= i < bindings.len() ==> (#[trigger] bindings[i]).expression.all_references(
            targets_below(bound),
        )
}

/// The index of the first binding of `bindings` with the name `name`.
pub fn find_binding(bindings: &Vec<Binding>, name: &str) -> (res: Option<usize>)
    ensures
        match res {
            Some(i) => i < bindings@.len() && bindings@[i as int].name@ == name@ && forall|j: int|
                0 <= j < i ==> (#[trigger] bindings@[j]).name@ != name@,
            None => !binds(bindings@, name@),
        },
{
    let wanted = name.to_owned();
    let mut i: usize = 0;
    while i < bindings.len()
        invariant
            0 <= i <= bindings@.len(),
            wanted@ == name@,
            forall|j: int| 0 <= j < i ==> (#[trigger] bindings@[j]).name@ != name@,
        decreases bindings@.len() - i,
    {
        if bindings[i].name == wanted {
            return Some(i);
        }
        i = i + 1;
    }
    None
}

impl Default for Component {
    /// A component without a name and a parent element, around the first
    /// element.
    fn default() -> (res: Self)
        ensures
            res.id@.len() == 0,
            res.root_element == 0,
            res.parent_element.is_none(),
    {
        Component { id: String::new(), root_element: 0, parent_element: None }
    }
}

impl Default for Element {
    /// An element without a type that holds nothing.
    fn default() -> (res: Self)
        ensures
            res.id@.len() == 0,
            res.base_type == ElementType::Invalid,
            res.is_hollow(),
            res.repeated.is_none(),
            res.enclosing_component.is_none(),
            res.node.is_none(),
            !res.child_of_layout,
            res.layout_info_prop.is_none(),
            !res.is_flickable_viewport,
            res.item_index.is_none(),
    {
        Element {
            id: String::new(),
            base_type: ElementType::Invalid,
            bindings: Vec::new(),
            property_declarations: Vec::new(),
            property_animations: Vec::new(),
            states: Vec::new(),
            transitions: Vec::new(),
            children: Vec::new(),
            repeated: None,
            enclosing_component: None,
            node: None,
            child_of_layout: false,
            layout_info_prop: None,
            is_flickable_viewport: false,
            item_index: None,
        }
    }
}

impl Element {
    /// An element with the identifier `id` and the type `base_type` that
    /// holds nothing.
    pub fn new(id: &str, base_type: ElementType) -> (res: Self)
        ensures
            res.id@ == id@,
            res.base_type == base_type,
            res.is_hollow(),
            res.repeated.is_none(),
            res.enclosing_component.is_none(),
            res.node.is_none(),
            !res.child_of_layout,
            res.layout_info_prop.is_none(),
            !res.is_flickable_viewport,
            res.item_index.is_none(),
    {
        Element {
            id: id.to_owned(),
            base_type,
            bindings: Vec::new(),
            property_declarations: Vec::new(),
            property_animations: Vec::new(),
            states: Vec::new(),
            transitions: Vec::new(),
            children: Vec::new(),
            repeated: None,
            enclosing_component: None,
            node: None,
            child_of_layout: false,
            layout_info_prop: None,
            is_flickable_viewport: false,
            item_index: None,
        }
    }

    /// The expression bound to the property `name`, if one is: that of the
    /// first binding with this name.
    pub fn binding(&self, name: &str) -> (res: Option<&Expression>)
        ensures
            match res {
                Some(expression) => exists|i: int|
                    0 <= i < self.bindings@.len() && (#[trigger] self.bindings@[i]).name@
                        == name@ && *expression == self.bindings@[i].expression && forall|j: int|
                        0 <= j < i ==> (#[trigger] self.bindings@[j]).name@ != name@,
                None => !binds(self.bindings@, name@),
            },
    {
        match find_binding(&self.bindings, name) {
            Some(i) => Some(&self.bindings[i].expression),
            None => None,
        }
    }

    /// Whether the element is a repeated one.
    pub open spec fn is_repeated(&self) -> bool {
        self.repeated.is_some()
    }

    /// Whether the element holds nothing of its own: the state of a
    /// repeated element that has been made an instantiation site.
    pub open spec fn is_hollow(&self) -> bool {
        &&& self.children@.len() == 0
        &&& self.bindings@.len() == 0
        &&& self.property_declarations@.len() == 0
        &&& self.property_animations@.len() == 0
        &&& self.states@.len() == 0
        &&& self.transitions@.len() == 0
    }

    /// Whether `other` differs from this element in its enclosing component
    /// at most.
    pub open spec fn same_but_enclosing(&self, other: &Element) -> bool {
        *other == (Element { enclosing_component: other.enclosing_component, ..*self })
    }

    /// Whether `other` differs from this element in its bindings at most.
    pub open spec fn same_but_bindings(&self, other: &Element) -> bool {
        *other == (Element { bindings: other.bindings, ..*self })
    }
}

impl ObjectTree {
    /// Element `e` names only what exists and binds no property twice.
    pub open spec fn element_wf(&self, e: int) -> bool {
        let element = self.elements@[e];
        &&& forall|i: int|
            0 <= i < element.children@.len() ==> (#[trigger] element.children@[i])
                < self.elements@.len()
        &&& (element.base_type matches ElementType::Component(c) ==> c
            < self.components@.len())
        &&& names_unique(element.bindings@)
        &&& references_below(element.bindings@, self.elements@.len() as int)
    }

    /// The root of component `c` exists.
    pub open spec fn component_wf(&self, c: int) -> bool {
        self.components@[c].root_element < self.elements@.len()
    }

    /// No element is a child twice, of one element or of two.
    pub open spec fn single_parent(&self) -> bool {
        forall|p: int, i: int, q: int, j: int|
            #![trigger self.elements@[p].children@[i], self.elements@[q].children@[j]]
            0 <= p < self.elements@.len() && 0 <= i < self.elements@[p].children@.len() && 0
                <= q < self.elements@.len() && 0 <= j < self.elements@[q].children@.len()
                && self.elements@[p].children@[i] == self.elements@[q].children@[j] ==> p == q
                && i == j
    }

    /// Whether `rank` gives every element a number that is higher than
    /// those of its children.
    pub open spec fn ranked(&self, rank: Seq<nat>) -> bool {
        &&& rank.len() == self.elements@.len()
        &&& forall|p: int, i: int|
            0 <= p < self.elements@.len() && 0 <= i < self.elements@[p].children@.len() ==> (
            #[trigger] self.elements@[p].children@[i]) < self.elements@.len()
                && rank[self.elements@[p].children@[i] as int] < rank[p]
    }

    /// The tree is well formed but for the order of the children edges,
    /// which `ranked` states.
    pub open spec fn wf_unranked(&self) -> bool {
        &&& forall|e: int| 0 <= e < self.elements@.len() ==> #[trigger] self.element_wf(e)
        &&& forall|c: int| 0 <= c < self.components@.len() ==> #[trigger] self.component_wf(c)
        &&& self.single_parent()
    }

    /// The tree is well formed, and `rank` shows that no element lies
    /// below itself.
    pub open spec fn wf_with(&self, rank: Seq<nat>) -> bool {
        self.wf_unranked() && self.ranked(rank)
    }

    /// The tree is well formed: every index names something, no element
    /// binds a property twice, and the children edges form a forest: no
    /// element is a child twice, and none lies below itself.
    pub open spec fn wf(&self) -> bool {
        exists|rank: Seq<nat>| #[trigger] self.wf_with(rank)
    }

    /// Whether `steps` children edges lead from the element `top` down to
    /// the element `x`.
    pub open spec fn reaches(&self, top: int, x: int, steps: nat) -> bool
        decreases steps,
    {
        0 <= top < self.elements@.len() && if steps == 0 {
            x == top
        } else {
            exists|i: int|
                0 <= i < self.elements@[top].children@.len() && self.reaches(
                    (#[trigger] self.elements@[top].children@[i]) as int,
                    x,
                    (steps - 1) as nat,
                )
        }
    }

    /// Whether the element `x` is the element `top` or lies below it,
    /// following the children edges.
    pub open spec fn in_subtree(&self, top: int, x: int) -> bool {
        exists|steps: nat| #[trigger] self.reaches(top, x, steps)
    }

    /// The elements of the subtree below and including `top`.
    pub open spec fn subtree(&self, top: int) -> Set<int> {
        Set::new(|x: int| self.in_subtree(top, x))
    }

    /// Whether a descent that goes through the children of an element one
    /// after the other, from the first, comes to the element `x` before it
    /// comes to the element `y`: `y` lies below `x`, or `x` lies below a
    /// child of some element that comes before the child below which `y`
    /// lies.
    pub open spec fn visited_before(&self, x: int, y: int) -> bool {
        ||| x != y && self.in_subtree(x, y)
        ||| exists|p: int, i: int, j: int|
            0 <= p < self.elements@.len() && 0 <= i < j < self.elements@[p].children@.len()
                && self.in_subtree((#[trigger] self.elements@[p].children@[i]) as int, x)
                && self.in_subtree((#[trigger] self.elements@[p].children@[j]) as int, y)
    }

    /// The root of the sub-component that the element `x` is an instance
    /// of: `x` is repeated, and its type is a component that has a parent
    /// element.
    pub open spec fn sub_component_root(&self, x: int) -> Option<ElementId> {
        if self.elements@[x].is_repeated() {
            match self.elements@[x].base_type {
                ElementType::Component(c) => if c < self.components@.len()
                    && self.components@[c as int].parent_element.is_some() {
                    Some(self.components@[c as int].root_element)
                } else {
                    None
                },
                _ => None,
            }
        } else {
            None
        }
    }

    /// Whether a walk through a component and its sub-components goes on
    /// from the element `x` to the element `y`: `y` is a child of `x`, or
    /// the root of the sub-component that `x` is an instance of.
    pub open spec fn leads_to(&self, x: int, y: int) -> bool {
        &&& 0 <= x < self.elements@.len()
        &&& 0 <= y < self.elements@.len()
        &&& {
            ||| exists|i: int|
                0 <= i < self.elements@[x].children@.len()
                    && #[trigger] self.elements@[x].children@[i] == y
            ||| (self.sub_component_root(x) matches Some(root) && root == y)
        }
    }

    /// Whether `steps` steps of such a walk lead from the element `top` to
    /// the element `x`.
    pub open spec fn walks_to(&self, top: int, x: int, steps: nat) -> bool
        decreases steps,
    {
        if steps == 0 {
            x == top && 0 <= top < self.elements@.len()
        } else {
            exists|via: int|
                self.walks_to(top, via, (steps - 1) as nat) && #[trigger] self.leads_to(via, x)
        }
    }

    /// Whether the element `x` belongs to the component with the root
    /// `top` or to one of its sub-components, however deep.
    pub open spec fn in_component_tree(&self, top: int, x: int) -> bool {
        exists|steps: nat| #[trigger] self.walks_to(top, x, steps)
    }

    /// The elements of the component with the root `top` and of its
    /// sub-components.
    pub open spec fn component_tree(&self, top: int) -> Set<int> {
        Set::new(|x: int| self.in_component_tree(top, x))
    }

    /// A tree without elements and components.
    pub fn new() -> (tree: Self)
        ensures
            tree.elements@.len() == 0,
            tree.components@.len() == 0,
            tree.wf(),
    {
        let tree = ObjectTree { elements: Vec::new(), components: Vec::new() };
        proof {
            assert(tree.wf_with(Seq::<nat>::empty()));
        }
        tree
    }

    /// Whether the element `c` is a child of some element.
    pub open spec fn is_child(&self, c: int) -> bool {
        exists|p: int, i: int|
            0 <= p < self.elements@.len() && 0 <= i < self.elements@[p].children@.len()
                && #[trigger] self.elements@[p].children@[i] == c
    }

    /// Whether `element` can become the next element of the tree: its
    /// children exist, are no children yet and differ from each other, its
    /// type exists, it binds no property twice, and its references name
    /// elements of the tree or the element itself.
    pub open spec fn accepts(&self, element: &Element) -> bool {
        &&& forall|i: int|
            0 <= i < element.children@.len() ==> (#[trigger] element.children@[i])
                < self.elements@.len() && !self.is_child(element.children@[i] as int)
        &&& forall|i: int, j: int|
            0 <= i < j < element.children@.len() ==> (#[trigger] element.children@[i]) != (
            #[trigger] element.children@[j])
        &&& (element.base_type matches ElementType::Component(c) ==> c
            < self.components@.len())
        &&& names_unique(element.bindings@)
        &&& references_below(element.bindings@, self.elements@.len() as int + 1)
    }

    /// Adds an element to the tree, above the children that it names.
    pub fn add_element(&mut self, element: Element) -> (id: ElementId)
        requires
            old(self).wf(),
            old(self).accepts(&element),
        ensures
            final(self).wf(),
            id == old(self).elements@.len(),
            final(self).elements@ == old(self).elements@.push(element),
            final(self).components == old(self).components,
    {
        let id = self.elements.len();
        self.elements.push(element);
        proof {
            let rank = choose|rank: Seq<nat>| #[trigger] old(self).wf_with(rank);
            old(self).lemma_wf_with_element(self, element, rank);
        }
        id
    }

    /// Adds a component to the tree, around the root that it names.
    pub fn add_component(&mut self, component: Component) -> (id: ComponentId)
        requires
            old(self).wf(),
            component.root_element < old(self).elements@.len(),
        ensures
            final(self).wf(),
            id == old(self).components@.len(),
            final(self).components@ == old(self).components@.push(component),
            final(self).elements == old(self).elements,
    {
        let id = self.components.len();
        self.components.push(component);
        proof {
            let rank = choose|rank: Seq<nat>| #[trigger] old(self).wf_with(rank);
            assert forall|e: int| 0 <= e < self.elements@.len() implies #[trigger] self.element_wf(
                e,
            ) by {
                assert(old(self).element_wf(e));
            }
            assert forall|c: int| 0 <= c < self.components@.len() implies #[trigger] self.component_wf(
                c,
            ) by {
                if c < old(self).components@.len() {
                    assert(old(self).component_wf(c));
                }
            }
            assert(self.wf_with(rank));
        }
        id
    }
}

} // verus!
