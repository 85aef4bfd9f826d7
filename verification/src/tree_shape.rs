//! Facts about the forest that the children edges of an object tree form.
use crate::langtype::ElementType;
use crate::expression_tree::targets_below;
use crate::object_tree::{names_unique, references_below, Element, ObjectTree};
use vstd::prelude::*;

verus! {

/// A number above every number of `rank`.
pub open spec fn above(rank: Seq<nat>) -> nat
    decreases rank.len(),
{
    if rank.len() == 0 {
        0
    } else if above(rank.drop_last()) > rank.last() {
        above(rank.drop_last())
    } else {
        rank.last() + 1
    }
}

/// `above` is above every number of `rank`.
pub proof fn lemma_above(rank: Seq<nat>, i: int)
    requires
        0 <= i < rank.len(),
    ensures
        rank[i] < above(rank),
    decreases rank.len(),
{
    if i < rank.len() - 1 {
        lemma_above(rank.drop_last(), i);
    }
}

impl ObjectTree {
    /// A well formed tree stays well formed with one more element that it
    /// accepts.
    pub proof fn lemma_wf_with_element(&self, other: &ObjectTree, element: Element, rank: Seq<nat>)
        requires
            self.wf_with(rank),
            self.accepts(&element),
            other.components == self.components,
            other.elements@ == self.elements@.push(element),
        ensures
            other.wf_with(rank.push(above(rank))),
    {
        let bound = self.elements@.len() as int;
        let next = rank.push(above(rank));
        assert forall|e: int| 0 <= e < other.elements@.len() implies #[trigger] other.element_wf(
            e,
        ) by {
            if e < bound {
                assert(self.element_wf(e));
                let old_element = self.elements@[e];
                assert forall|i: int| 0 <= i < old_element.bindings@.len() implies (
                #[trigger] old_element.bindings@[i]).expression.all_references(
                    targets_below(bound + 1),
                ) by {
                    old_element.bindings@[i].expression.lemma_all_references_implies(
                        targets_below(bound),
                        targets_below(bound + 1),
                    );
                }
            }
        }
        assert forall|c: int| 0 <= c < other.components@.len() implies #[trigger] other.component_wf(
            c,
        ) by {
            assert(self.component_wf(c));
        }
        assert forall|p: int, i: int, q: int, j: int|
            #![trigger other.elements@[p].children@[i], other.elements@[q].children@[j]]
            0 <= p < other.elements@.len() && 0 <= i < other.elements@[p].children@.len() && 0
                <= q < other.elements@.len() && 0 <= j < other.elements@[q].children@.len()
                && other.elements@[p].children@[i] == other.elements@[q].children@[j] implies p
            == q && i == j by {
            if p < bound && q < bound {
                assert(self.elements@[p].children@[i] == self.elements@[q].children@[j]);
            } else if p < bound {
                assert(self.is_child(self.elements@[p].children@[i] as int));
                assert(!self.is_child(element.children@[j] as int));
            } else if q < bound {
                assert(self.is_child(self.elements@[q].children@[j] as int));
                assert(!self.is_child(element.children@[i] as int));
            } else {
                if i < j {
                    assert(element.children@[i] != element.children@[j]);
                }
                if j < i {
                    assert(element.children@[j] != element.children@[i]);
                }
            }
        }
        assert forall|p: int, i: int|
            0 <= p < other.elements@.len() && 0 <= i < other.elements@[p].children@.len() implies (
        #[trigger] other.elements@[p].children@[i]) < other.elements@.len()
            && next[other.elements@[p].children@[i] as int] < next[p] by {
            if p < bound {
                assert(self.elements@[p].children@[i] < self.elements@.len());
            } else {
                lemma_above(rank, element.children@[i] as int);
            }
        }
    }

    /// A tree stays well formed when its elements keep their children, bind
    /// no property twice, and name only elements and components that
    /// exist.
    pub proof fn lemma_wf_same_shape(&self, other: &ObjectTree, rank: Seq<nat>)
        requires
            self.wf_with(rank),
            other.components == self.components,
            other.elements@.len() == self.elements@.len(),
            forall|x: int|
                0 <= x < self.elements@.len() ==> {
                    &&& (#[trigger] other.elements@[x]).children == self.elements@[x].children
                    &&& names_unique(other.elements@[x].bindings@)
                    &&& references_below(
                        other.elements@[x].bindings@,
                        self.elements@.len() as int,
                    )
                    &&& (other.elements@[x].base_type matches ElementType::Component(c) ==> c
                        < self.components@.len())
                },
        ensures
            other.wf_with(rank),
    {
        assert forall|e: int| 0 <= e < other.elements@.len() implies #[trigger] other.element_wf(
            e,
        ) by {
            assert(self.element_wf(e));
            assert(other.elements@[e].children == self.elements@[e].children);
        }
        assert forall|c: int| 0 <= c < other.components@.len() implies #[trigger] other.component_wf(
            c,
        ) by {
            assert(self.component_wf(c));
        }
        assert forall|p: int, i: int, q: int, j: int|
            #![trigger other.elements@[p].children@[i], other.elements@[q].children@[j]]
            0 <= p < other.elements@.len() && 0 <= i < other.elements@[p].children@.len() && 0
                <= q < other.elements@.len() && 0 <= j < other.elements@[q].children@.len()
                && other.elements@[p].children@[i] == other.elements@[q].children@[j] implies p
            == q && i == j by {
            assert(other.elements@[p].children == self.elements@[p].children);
            assert(other.elements@[q].children == self.elements@[q].children);
            assert(self.elements@[p].children@[i] == self.elements@[q].children@[j]);
        }
        assert forall|p: int, i: int|
            0 <= p < other.elements@.len() && 0 <= i < other.elements@[p].children@.len() implies (
        #[trigger] other.elements@[p].children@[i]) < other.elements@.len()
            && rank[other.elements@[p].children@[i] as int] < rank[p] by {
            assert(other.elements@[p].children == self.elements@[p].children);
            assert(self.elements@[p].children@[i] < self.elements@.len());
        }
    }

    /// An element lies in its own subtree.
    pub proof fn lemma_subtree_top(&self, top: int)
        requires
            0 <= top < self.elements@.len(),
        ensures
            self.in_subtree(top, top),
    {
        assert(self.reaches(top, top, 0));
    }

    /// What lies below a child lies below its parent.
    pub proof fn lemma_subtree_of_child(&self, top: int, i: int, x: int)
        requires
            0 <= top < self.elements@.len(),
            0 <= i < self.elements@[top].children@.len(),
            self.in_subtree(self.elements@[top].children@[i] as int, x),
        ensures
            self.in_subtree(top, x),
    {
        let steps = choose|steps: nat| #[trigger]
            self.reaches(self.elements@[top].children@[i] as int, x, steps);
        assert(self.reaches(top, x, steps + 1));
    }

    /// The elements of a subtree exist.
    pub proof fn lemma_subtree_exists(&self, top: int, x: int)
        requires
            self.in_subtree(top, x),
        ensures
            0 <= top < self.elements@.len(),
            0 <= x < self.elements@.len(),
    {
        let steps = choose|steps: nat| #[trigger] self.reaches(top, x, steps);
        self.lemma_reached_exists(top, x, steps);
    }

    /// `lemma_subtree_exists` for a given number of edges.
    proof fn lemma_reached_exists(&self, top: int, x: int, steps: nat)
        requires
            self.reaches(top, x, steps),
        ensures
            0 <= top < self.elements@.len(),
            0 <= x < self.elements@.len(),
        decreases steps,
    {
        if steps > 0 {
            let i = choose|i: int|
                0 <= i < self.elements@[top].children@.len() && self.reaches(
                    (#[trigger] self.elements@[top].children@[i]) as int,
                    x,
                    (steps - 1) as nat,
                );
            self.lemma_reached_exists(
                self.elements@[top].children@[i] as int,
                x,
                (steps - 1) as nat,
            );
        }
    }

    /// An element of a subtree other than its top lies below a child of
    /// the top.
    pub proof fn lemma_subtree_child(&self, top: int, x: int) -> (i: int)
        requires
            self.in_subtree(top, x),
            x != top,
        ensures
            0 <= top < self.elements@.len(),
            0 <= i < self.elements@[top].children@.len(),
            self.in_subtree(self.elements@[top].children@[i] as int, x),
    {
        let steps = choose|steps: nat| #[trigger] self.reaches(top, x, steps);
        let i = choose|i: int|
            0 <= i < self.elements@[top].children@.len() && self.reaches(
                (#[trigger] self.elements@[top].children@[i]) as int,
                x,
                (steps - 1) as nat,
            );
        i
    }

    /// An element of a subtree has no higher rank than the top: a lower
    /// one, unless it is the top.
    pub proof fn lemma_subtree_ranks(&self, rank: Seq<nat>, top: int, x: int)
        requires
            self.ranked(rank),
            self.in_subtree(top, x),
        ensures
            0 <= top < self.elements@.len(),
            0 <= x < self.elements@.len(),
            rank[x] <= rank[top],
            x != top ==> rank[x] < rank[top],
    {
        let steps = choose|steps: nat| #[trigger] self.reaches(top, x, steps);
        self.lemma_reaches_ranks(rank, top, x, steps);
    }

    /// `lemma_subtree_ranks` for a given number of edges.
    proof fn lemma_reaches_ranks(&self, rank: Seq<nat>, top: int, x: int, steps: nat)
        requires
            self.ranked(rank),
            self.reaches(top, x, steps),
        ensures
            0 <= top < self.elements@.len(),
            0 <= x < self.elements@.len(),
            rank[x] <= rank[top],
            x != top ==> rank[x] < rank[top],
        decreases steps,
    {
        if steps > 0 {
            let i = choose|i: int|
                0 <= i < self.elements@[top].children@.len() && self.reaches(
                    (#[trigger] self.elements@[top].children@[i]) as int,
                    x,
                    (steps - 1) as nat,
                );
            self.lemma_reaches_ranks(
                rank,
                self.elements@[top].children@[i] as int,
                x,
                (steps - 1) as nat,
            );
        }
    }

    /// What lies below an element of a subtree lies in the subtree.
    pub proof fn lemma_subtree_transitive(&self, a: int, b: int, x: int)
        requires
            self.in_subtree(a, b),
            self.in_subtree(b, x),
        ensures
            self.in_subtree(a, x),
    {
        let first = choose|steps: nat| #[trigger] self.reaches(a, b, steps);
        let second = choose|steps: nat| #[trigger] self.reaches(b, x, steps);
        self.lemma_reaches_transitive(a, b, x, first, second);
    }

    /// `lemma_subtree_transitive` for a given number of edges.
    proof fn lemma_reaches_transitive(&self, a: int, b: int, x: int, first: nat, second: nat)
        requires
            self.reaches(a, b, first),
            self.reaches(b, x, second),
        ensures
            self.reaches(a, x, first + second),
        decreases first,
    {
        if first > 0 {
            let i = choose|i: int|
                0 <= i < self.elements@[a].children@.len() && self.reaches(
                    (#[trigger] self.elements@[a].children@[i]) as int,
                    b,
                    (first - 1) as nat,
                );
            self.lemma_reaches_transitive(
                self.elements@[a].children@[i] as int,
                b,
                x,
                (first - 1) as nat,
                second,
            );
            assert(self.reaches(
                self.elements@[a].children@[i] as int,
                x,
                (first + second - 1) as nat,
            ));
        }
    }

    /// A subtree is the same in two trees whose elements have the same
    /// children throughout it.
    pub proof fn lemma_subtree_agrees(&self, other: &ObjectTree, rank: Seq<nat>, top: int)
        requires
            self.ranked(rank),
            0 <= top < self.elements@.len(),
            forall|x: int|
                0 <= x < self.elements@.len() && #[trigger] self.in_subtree(top, x) ==> x
                    < other.elements@.len() && other.elements@[x].children@
                    == self.elements@[x].children@,
        ensures
            forall|x: int| self.in_subtree(top, x) == other.in_subtree(top, x),
    {
        self.lemma_subtree_top(top);
        assert forall|x: int| self.in_subtree(top, x) == other.in_subtree(top, x) by {
            if self.in_subtree(top, x) {
                let steps = choose|steps: nat| #[trigger] self.reaches(top, x, steps);
                self.lemma_reaches_agrees(other, rank, top, top, x, steps);
            }
            if other.in_subtree(top, x) {
                let steps = choose|steps: nat| #[trigger] other.reaches(top, x, steps);
                self.lemma_reaches_agrees(other, rank, top, top, x, steps);
            }
        }
    }

    /// `lemma_subtree_agrees` for a given number of edges.
    proof fn lemma_reaches_agrees(
        &self,
        other: &ObjectTree,
        rank: Seq<nat>,
        top: int,
        from: int,
        x: int,
        steps: nat,
    )
        requires
            self.ranked(rank),
            0 <= top < self.elements@.len(),
            forall|x: int|
                0 <= x < self.elements@.len() && #[trigger] self.in_subtree(top, x) ==> x
                    < other.elements@.len() && other.elements@[x].children@
                    == self.elements@[x].children@,
            self.in_subtree(top, from),
        ensures
            self.reaches(from, x, steps) == other.reaches(from, x, steps),
        decreases steps,
    {
        self.lemma_subtree_exists(top, from);
        if steps > 0 {
            assert(other.elements@[from].children@ == self.elements@[from].children@);
            assert forall|i: int| 0 <= i < self.elements@[from].children@.len() implies self.reaches(
                (#[trigger] self.elements@[from].children@[i]) as int,
                x,
                (steps - 1) as nat,
            ) == other.reaches(
                self.elements@[from].children@[i] as int,
                x,
                (steps - 1) as nat,
            ) by {
                let child = self.elements@[from].children@[i] as int;
                self.lemma_subtree_top(child);
                self.lemma_subtree_of_child(from, i, child);
                self.lemma_subtree_transitive(top, from, child);
                self.lemma_reaches_agrees(other, rank, top, child, x, (steps - 1) as nat);
            }
            if self.reaches(from, x, steps) {
                let i = choose|i: int|
                    0 <= i < self.elements@[from].children@.len() && self.reaches(
                        (#[trigger] self.elements@[from].children@[i]) as int,
                        x,
                        (steps - 1) as nat,
                    );
                assert(other.reaches(
                    other.elements@[from].children@[i] as int,
                    x,
                    (steps - 1) as nat,
                ));
            }
            if other.reaches(from, x, steps) {
                let i = choose|i: int|
                    0 <= i < other.elements@[from].children@.len() && other.reaches(
                        (#[trigger] other.elements@[from].children@[i]) as int,
                        x,
                        (steps - 1) as nat,
                    );
                assert(self.reaches(
                    self.elements@[from].children@[i] as int,
                    x,
                    (steps - 1) as nat,
                ));
            }
        }
    }

    /// An element of a subtree other than its top is the child of an
    /// element of the subtree.
    pub proof fn lemma_parent_in_subtree(&self, top: int, x: int) -> (parent: (int, int))
        requires
            self.in_subtree(top, x),
            x != top,
        ensures
            0 <= parent.0 < self.elements@.len(),
            0 <= parent.1 < self.elements@[parent.0].children@.len(),
            self.elements@[parent.0].children@[parent.1] == x,
            self.in_subtree(top, parent.0),
    {
        let steps = choose|steps: nat| #[trigger] self.reaches(top, x, steps);
        let parent = self.lemma_parent_reached(top, x, steps);
        (parent.0, parent.1)
    }

    /// `lemma_parent_in_subtree` for a given number of edges.
    proof fn lemma_parent_reached(&self, top: int, x: int, steps: nat) -> (parent: (int, int))
        requires
            self.reaches(top, x, steps),
            steps > 0,
        ensures
            0 <= parent.0 < self.elements@.len(),
            0 <= parent.1 < self.elements@[parent.0].children@.len(),
            self.elements@[parent.0].children@[parent.1] == x,
            self.reaches(top, parent.0, (steps - 1) as nat),
        decreases steps,
    {
        let i = choose|i: int|
            0 <= i < self.elements@[top].children@.len() && self.reaches(
                (#[trigger] self.elements@[top].children@[i]) as int,
                x,
                (steps - 1) as nat,
            );
        let child = self.elements@[top].children@[i] as int;
        if steps == 1 {
            (top, i)
        } else {
            let parent = self.lemma_parent_reached(child, x, (steps - 1) as nat);
            assert(self.reaches(top, parent.0, (steps - 1) as nat));
            parent
        }
    }

    /// Of two subtrees that share an element, one holds the top of the
    /// other.
    pub proof fn lemma_subtrees_nested(&self, a: int, b: int, x: int)
        requires
            self.single_parent(),
            self.in_subtree(a, x),
            self.in_subtree(b, x),
        ensures
            self.in_subtree(a, b) || self.in_subtree(b, a),
    {
        let first = choose|steps: nat| #[trigger] self.reaches(a, x, steps);
        let second = choose|steps: nat| #[trigger] self.reaches(b, x, steps);
        self.lemma_reaches_nested(a, b, x, first, second);
    }

    /// `lemma_subtrees_nested` for a given number of edges.
    proof fn lemma_reaches_nested(&self, a: int, b: int, x: int, first: nat, second: nat)
        requires
            self.single_parent(),
            self.reaches(a, x, first),
            self.reaches(b, x, second),
        ensures
            self.in_subtree(a, b) || self.in_subtree(b, a),
        decreases first,
    {
        if first == 0 {
            assert(self.reaches(b, a, second));
        } else if second == 0 {
            assert(self.reaches(a, b, first));
        } else {
            let p = self.lemma_parent_reached(a, x, first);
            let q = self.lemma_parent_reached(b, x, second);
            assert(self.elements@[p.0].children@[p.1] == self.elements@[q.0].children@[q.1]);
            self.lemma_reaches_nested(a, b, p.0, (first - 1) as nat, (second - 1) as nat);
        }
    }

    /// The subtrees of two children of one element share nothing.
    pub proof fn lemma_siblings_disjoint(
        &self,
        rank: Seq<nat>,
        parent: int,
        i: int,
        j: int,
        x: int,
    )
        requires
            self.single_parent(),
            self.ranked(rank),
            0 <= parent < self.elements@.len(),
            0 <= i < self.elements@[parent].children@.len(),
            0 <= j < self.elements@[parent].children@.len(),
            i != j,
            self.in_subtree(self.elements@[parent].children@[i] as int, x),
        ensures
            !self.in_subtree(self.elements@[parent].children@[j] as int, x),
    {
        let a = self.elements@[parent].children@[i] as int;
        let b = self.elements@[parent].children@[j] as int;
        if self.in_subtree(b, x) {
            self.lemma_subtrees_nested(a, b, x);
            assert(self.elements@[parent].children@[i] != self.elements@[parent].children@[j]);
            if self.in_subtree(a, b) {
                let p = self.lemma_parent_in_subtree(a, b);
                self.lemma_subtree_ranks(rank, a, p.0);
                assert(self.elements@[p.0].children@[p.1]
                    == self.elements@[parent].children@[j]);
            } else {
                let p = self.lemma_parent_in_subtree(b, a);
                self.lemma_subtree_ranks(rank, b, p.0);
                assert(self.elements@[p.0].children@[p.1]
                    == self.elements@[parent].children@[i]);
            }
        }
    }

    /// An element below which two elements lie, one below one child and the
    /// other below another, lies in every subtree that holds the two.
    pub proof fn lemma_fork_within(
        &self,
        rank: Seq<nat>,
        fork: int,
        i: int,
        j: int,
        top: int,
        x: int,
        y: int,
    )
        requires
            self.single_parent(),
            self.ranked(rank),
            0 <= fork < self.elements@.len(),
            0 <= i < self.elements@[fork].children@.len(),
            0 <= j < self.elements@[fork].children@.len(),
            i != j,
            self.in_subtree(self.elements@[fork].children@[i] as int, x),
            self.in_subtree(self.elements@[fork].children@[j] as int, y),
            self.in_subtree(top, x),
            self.in_subtree(top, y),
        ensures
            self.in_subtree(top, fork),
    {
        self.lemma_subtree_of_child(fork, i, x);
        self.lemma_subtrees_nested(fork, top, x);
        if !self.in_subtree(top, fork) {
            self.lemma_subtree_top(fork);
            let k = self.lemma_subtree_child(fork, top);
            let branch = self.elements@[fork].children@[k] as int;
            self.lemma_subtree_transitive(branch, top, x);
            self.lemma_subtree_transitive(branch, top, y);
            if k != i {
                self.lemma_siblings_disjoint(rank, fork, k, i, x);
            }
            if k != j {
                self.lemma_siblings_disjoint(rank, fork, k, j, y);
            }
        }
    }

    /// There is one element only below which two elements lie in the
    /// subtrees of two children, and the two children are the same.
    pub proof fn lemma_fork_unique(
        &self,
        rank: Seq<nat>,
        fork: int,
        i: int,
        j: int,
        other: int,
        k: int,
        l: int,
        x: int,
        y: int,
    )
        requires
            self.single_parent(),
            self.ranked(rank),
            0 <= fork < self.elements@.len(),
            0 <= i < self.elements@[fork].children@.len(),
            0 <= j < self.elements@[fork].children@.len(),
            i != j,
            self.in_subtree(self.elements@[fork].children@[i] as int, x),
            self.in_subtree(self.elements@[fork].children@[j] as int, y),
            0 <= other < self.elements@.len(),
            0 <= k < self.elements@[other].children@.len(),
            0 <= l < self.elements@[other].children@.len(),
            k != l,
            self.in_subtree(self.elements@[other].children@[k] as int, x),
            self.in_subtree(self.elements@[other].children@[l] as int, y),
        ensures
            fork == other,
            i == k,
            j == l,
    {
        self.lemma_subtree_of_child(fork, i, x);
        self.lemma_subtree_of_child(fork, j, y);
        self.lemma_subtree_of_child(other, k, x);
        self.lemma_subtree_of_child(other, l, y);
        self.lemma_fork_within(rank, fork, i, j, other, x, y);
        self.lemma_fork_within(rank, other, k, l, fork, x, y);
        self.lemma_subtree_ranks(rank, other, fork);
        self.lemma_subtree_ranks(rank, fork, other);
        if i != k {
            self.lemma_siblings_disjoint(rank, fork, i, k, x);
        }
        if j != l {
            self.lemma_siblings_disjoint(rank, fork, j, l, y);
        }
    }

    /// Below a later child of an element, the descent comes to no element
    /// before it comes to one below an earlier child.
    pub proof fn lemma_later_child_later(
        &self,
        rank: Seq<nat>,
        parent: int,
        i: int,
        j: int,
        x: int,
        y: int,
    )
        requires
            self.single_parent(),
            self.ranked(rank),
            0 <= parent < self.elements@.len(),
            0 <= i < j < self.elements@[parent].children@.len(),
            self.in_subtree(self.elements@[parent].children@[i] as int, x),
            self.in_subtree(self.elements@[parent].children@[j] as int, y),
        ensures
            !self.visited_before(y, x),
    {
        if y != x && self.in_subtree(y, x) {
            self.lemma_subtree_transitive(self.elements@[parent].children@[j] as int, y, x);
            self.lemma_siblings_disjoint(rank, parent, i, j, x);
        }
        if exists|p: int, a: int, b: int|
            0 <= p < self.elements@.len() && 0 <= a < b < self.elements@[p].children@.len()
                && self.in_subtree((#[trigger] self.elements@[p].children@[a]) as int, y)
                && self.in_subtree((#[trigger] self.elements@[p].children@[b]) as int, x) {
            let (p, a, b) = choose|p: int, a: int, b: int|
                0 <= p < self.elements@.len() && 0 <= a < b < self.elements@[p].children@.len()
                    && self.in_subtree((#[trigger] self.elements@[p].children@[a]) as int, y)
                    && self.in_subtree((#[trigger] self.elements@[p].children@[b]) as int, x);
            self.lemma_fork_unique(rank, p, b, a, parent, i, j, x, y);
        }
    }

    /// An element is not come to before itself, and an element below
    /// another one not before that one.
    pub proof fn lemma_below_comes_later(&self, rank: Seq<nat>, top: int, x: int)
        requires
            self.single_parent(),
            self.ranked(rank),
            self.in_subtree(top, x),
        ensures
            !self.visited_before(x, top),
    {
        if x != top && self.in_subtree(x, top) {
            self.lemma_subtree_ranks(rank, x, top);
            self.lemma_subtree_ranks(rank, top, x);
        }
        if exists|p: int, a: int, b: int|
            0 <= p < self.elements@.len() && 0 <= a < b < self.elements@[p].children@.len()
                && self.in_subtree((#[trigger] self.elements@[p].children@[a]) as int, x)
                && self.in_subtree((#[trigger] self.elements@[p].children@[b]) as int, top) {
            let (p, a, b) = choose|p: int, a: int, b: int|
                0 <= p < self.elements@.len() && 0 <= a < b < self.elements@[p].children@.len()
                    && self.in_subtree((#[trigger] self.elements@[p].children@[a]) as int, x)
                    && self.in_subtree((#[trigger] self.elements@[p].children@[b]) as int, top);
            self.lemma_subtree_transitive(self.elements@[p].children@[b] as int, top, x);
            self.lemma_siblings_disjoint(rank, p, a, b, x);
        }
    }

    /// The root of a component belongs to it.
    pub proof fn lemma_component_tree_top(&self, top: int)
        requires
            0 <= top < self.elements@.len(),
        ensures
            self.in_component_tree(top, top),
    {
        assert(self.walks_to(top, top, 0));
    }

    /// What a walk goes on to from an element of a component belongs to
    /// the component or to one of its sub-components.
    pub proof fn lemma_component_tree_next(&self, top: int, x: int, y: int)
        requires
            self.in_component_tree(top, x),
            self.leads_to(x, y),
        ensures
            self.in_component_tree(top, y),
    {
        let steps = choose|steps: nat| #[trigger] self.walks_to(top, x, steps);
        assert(self.walks_to(top, y, steps + 1));
    }

    /// A set of elements that holds the root of a component, and with an
    /// element all that a walk goes on to from it, holds the component and
    /// its sub-components.
    pub proof fn lemma_component_tree_within(&self, top: int, closed: Set<int>, x: int)
        requires
            closed.contains(top),
            forall|y: int, z: int| closed.contains(y) && #[trigger] self.leads_to(y, z) ==> closed.contains(z),
            self.in_component_tree(top, x),
        ensures
            closed.contains(x),
    {
        let steps = choose|steps: nat| #[trigger] self.walks_to(top, x, steps);
        self.lemma_walk_within(top, closed, x, steps);
    }

    /// `lemma_component_tree_within` for a given number of steps.
    proof fn lemma_walk_within(&self, top: int, closed: Set<int>, x: int, steps: nat)
        requires
            closed.contains(top),
            forall|y: int, z: int| closed.contains(y) && #[trigger] self.leads_to(y, z) ==> closed.contains(z),
            self.walks_to(top, x, steps),
        ensures
            closed.contains(x),
        decreases steps,
    {
        if steps > 0 {
            let via = choose|via: int|
                self.walks_to(top, via, (steps - 1) as nat) && #[trigger] self.leads_to(via, x);
            self.lemma_walk_within(top, closed, via, (steps - 1) as nat);
        }
    }

    /// Two trees whose walks go on alike have the same component trees.
    pub proof fn lemma_component_tree_agrees(&self, other: &ObjectTree, top: int)
        requires
            forall|y: int, z: int| #[trigger] self.leads_to(y, z) == other.leads_to(y, z),
            other.elements@.len() == self.elements@.len(),
        ensures
            forall|x: int| self.in_component_tree(top, x) == other.in_component_tree(top, x),
    {
        assert forall|x: int| self.in_component_tree(top, x) == other.in_component_tree(
            top,
            x,
        ) by {
            if self.in_component_tree(top, x) {
                let steps = choose|steps: nat| #[trigger] self.walks_to(top, x, steps);
                self.lemma_walk_agrees(other, top, x, steps);
            }
            if other.in_component_tree(top, x) {
                let steps = choose|steps: nat| #[trigger] other.walks_to(top, x, steps);
                self.lemma_walk_agrees(other, top, x, steps);
            }
        }
    }

    /// `lemma_component_tree_agrees` for a given number of steps.
    proof fn lemma_walk_agrees(&self, other: &ObjectTree, top: int, x: int, steps: nat)
        requires
            forall|y: int, z: int| #[trigger] self.leads_to(y, z) == other.leads_to(y, z),
            other.elements@.len() == self.elements@.len(),
        ensures
            self.walks_to(top, x, steps) == other.walks_to(top, x, steps),
        decreases steps,
    {
        if steps > 0 {
            if self.walks_to(top, x, steps) {
                let via = choose|via: int|
                    self.walks_to(top, via, (steps - 1) as nat) && #[trigger] self.leads_to(
                        via,
                        x,
                    );
                self.lemma_walk_agrees(other, top, via, (steps - 1) as nat);
                assert(other.leads_to(via, x));
            }
            if other.walks_to(top, x, steps) {
                let via = choose|via: int|
                    other.walks_to(top, via, (steps - 1) as nat) && #[trigger] other.leads_to(
                        via,
                        x,
                    );
                self.lemma_walk_agrees(other, top, via, (steps - 1) as nat);
                assert(self.leads_to(via, x));
            }
        }
    }
}

} // verus!
