//! Deciding whether an object tree is well formed.
use crate::expression_tree::{targets_below, ElementId, Expression};
use crate::langtype::ElementType;
use crate::object_tree::{names_unique, references_below, Binding, ObjectTree};
use vstd::prelude::*;

verus! {

/// Whether every property reference in the expression names one of the
/// first `bound` elements.
pub fn expression_targets_below(expression: &Expression, bound: usize) -> (res: bool)
    ensures
        res == expression.all_references(targets_below(bound as int)),
    decreases expression,
{
    match expression {
        Expression::PropertyReference(nr) => nr.element < bound,
        Expression::UnaryOp { sub, .. } => expression_targets_below(&**sub, bound),
        Expression::BinaryExpression { lhs, rhs, .. } => {
            expression_targets_below(&**lhs, bound) && expression_targets_below(&**rhs, bound)
        },
        Expression::Condition { condition, true_expr, false_expr } => {
            expression_targets_below(&**condition, bound) && expression_targets_below(
                &**true_expr,
                bound,
            ) && expression_targets_below(&**false_expr, bound)
        },
        _ => true,
    }
}

/// Whether every property reference in the bindings names one of the first
/// `bound` elements.
pub fn bindings_target_below(bindings: &Vec<Binding>, bound: usize) -> (res: bool)
    ensures
        res == references_below(bindings@, bound as int),
{
    let mut i: usize = 0;
    while i < bindings.len()
        invariant
            0 <= i <= bindings@.len(),
            forall|j: int|
                0 <= j < i ==> (#[trigger] bindings@[j]).expression.all_references(
                    targets_below(bound as int),
                ),
        decreases bindings@.len() - i,
    {
        if !expression_targets_below(&bindings[i].expression, bound) {
            return false;
        }
        i = i + 1;
    }
    true
}

/// Whether no name occurs twice among the bindings.
pub fn names_are_unique(bindings: &Vec<Binding>) -> (res: bool)
    ensures
        res == names_unique(bindings@),
{
    let mut j: usize = 0;
    while j < bindings.len()
        invariant
            0 <= j <= bindings@.len(),
            forall|a: int, b: int|
                0 <= a < b < j ==> (#[trigger] bindings@[a]).name@ != (#[trigger] bindings@[b]).name@,
        decreases bindings@.len() - j,
    {
        let mut i: usize = 0;
        while i < j
            invariant
                0 <= i <= j < bindings@.len(),
                forall|a: int| 0 <= a < i ==> (#[trigger] bindings@[a]).name@ != bindings@[j as int].name@,
            decreases j - i,
        {
            if bindings[i].name == bindings[j].name {
                return false;
            }
            i = i + 1;
        }
        j = j + 1;
    }
    true
}

/// Whether `parent` gives, for every element, the element that it is a
/// child of, or the number of elements where it is no child.
pub open spec fn parents_of(tree: &ObjectTree, parent: Seq<usize>) -> bool {
    &&& parent.len() == tree.elements@.len()
    &&& forall|p: int, i: int|
        0 <= p < tree.elements@.len() && 0 <= i < tree.elements@[p].children@.len()
            ==> parent[(#[trigger] tree.elements@[p].children@[i]) as int] == p
    &&& forall|c: int|
        0 <= c < parent.len() && #[trigger] parent[c] != parent.len() ==> has_child(
            tree,
            parent[c] as int,
            c,
        )
}

/// Whether `c` is a child of the element `p`.
pub open spec fn has_child(tree: &ObjectTree, p: int, c: int) -> bool {
    0 <= p < tree.elements@.len() && exists|i: int|
        0 <= i < tree.elements@[p].children@.len() && #[trigger] tree.elements@[p].children@[i]
            == c
}

/// Whether the child `i` of `p` comes before the child `j` of `q` in the
/// order in which `find_parents` goes through the children.
pub open spec fn comes_before(p: int, i: int, q: int, j: int) -> bool {
    p < q || (p == q && i < j)
}

/// The element that `steps` parent edges lead to from `x`, or the number
/// of elements if they lead out of the tree.
pub open spec fn ancestor(parent: Seq<usize>, x: int, steps: nat) -> int
    decreases steps,
{
    if steps == 0 {
        x
    } else if 0 <= x < parent.len() && parent[x] < parent.len() {
        ancestor(parent, parent[x] as int, (steps - 1) as nat)
    } else {
        parent.len() as int
    }
}

/// Whether `x` is an element without a parent.
pub open spec fn is_top(parent: Seq<usize>, x: int) -> bool {
    0 <= x < parent.len() && parent[x] == parent.len()
}

/// One more step leads from an ancestor to its parent.
proof fn lemma_ancestor_step(parent: Seq<usize>, x: int, steps: nat)
    requires
        forall|c: int| 0 <= c < parent.len() ==> #[trigger] parent[c] <= parent.len(),
        0 <= x < parent.len(),
    ensures
        ({
            let a = ancestor(parent, x, steps);
            &&& 0 <= a <= parent.len()
            &&& ancestor(parent, x, steps + 1) == if a < parent.len() {
                parent[a] as int
            } else {
                parent.len() as int
            }
        }),
    decreases steps,
{
    reveal_with_fuel(ancestor, 2);
    if steps > 0 {
        if parent[x] < parent.len() {
            lemma_ancestor_step(parent, parent[x] as int, (steps - 1) as nat);
        } else {
            assert(ancestor(parent, x, steps) == parent.len());
            assert(ancestor(parent, x, steps + 1) == parent.len());
        }
    }
}

/// No element is found above an element without a parent.
proof fn lemma_above_top(parent: Seq<usize>, x: int, steps: nat, more: nat)
    requires
        forall|c: int| 0 <= c < parent.len() ==> #[trigger] parent[c] <= parent.len(),
        0 <= x < parent.len(),
        is_top(parent, ancestor(parent, x, steps)),
        more > steps,
    ensures
        ancestor(parent, x, more) == parent.len(),
    decreases more,
{
    lemma_ancestor_step(parent, x, (more - 1) as nat);
    if more - 1 > steps {
        lemma_above_top(parent, x, steps, (more - 1) as nat);
    }
}

/// A tree with a chain of parent edges that leads through more elements
/// than there are cannot be ranked.
proof fn lemma_long_climb_unranked(tree: &ObjectTree, parent: Seq<usize>, x: int, rank: Seq<nat>)
    requires
        parents_of(tree, parent),
        0 <= x < parent.len(),
        forall|k: nat|
            k <= parent.len() ==> 0 <= #[trigger] ancestor(parent, x, k) < parent.len()
                && parent[ancestor(parent, x, k)] != parent.len(),
    ensures
        !tree.ranked(rank),
{
    if tree.ranked(rank) {
        lemma_long_climb_counts(tree, parent, x, rank);
    }
}

/// Along a chain of parent edges in a ranked tree, fewer elements are
/// passed than there are.
proof fn lemma_long_climb_counts(tree: &ObjectTree, parent: Seq<usize>, x: int, rank: Seq<nat>)
    requires
        parents_of(tree, parent),
        0 <= x < parent.len(),
        forall|k: nat|
            k <= parent.len() ==> 0 <= #[trigger] ancestor(parent, x, k) < parent.len()
                && parent[ancestor(parent, x, k)] != parent.len(),
        tree.ranked(rank),
    ensures
        parent.len() + 1 <= parent.len(),
{
    let n = parent.len();
    assert forall|c: int| 0 <= c < parent.len() implies #[trigger] parent[c] <= parent.len() by {
        if parent[c] != parent.len() {
            assert(has_child(tree, parent[c] as int, c));
        }
    }
    let chain = Seq::new(n + 1, |k: int| ancestor(parent, x, k as nat));
    assert forall|k: nat| k < n implies rank[#[trigger] ancestor(parent, x, k)] < rank[ancestor(
        parent,
        x,
        k + 1,
    )] by {
        let a = ancestor(parent, x, k);
        lemma_ancestor_step(parent, x, k);
        assert(has_child(tree, parent[a] as int, a));
        let i = choose|i: int|
            0 <= i < tree.elements@[parent[a] as int].children@.len()
                && #[trigger] tree.elements@[parent[a] as int].children@[i] == a;
        assert(rank[tree.elements@[parent[a] as int].children@[i] as int] < rank[parent[
            a
        ] as int]);
    }
    assert forall|j: int, k: int| 0 <= j < k <= n implies rank[chain[j]] < rank[chain[k]] by {
        lemma_ranks_climb(parent, x, rank, j as nat, k as nat);
    }
    assert(chain.no_duplicates());
    chain.unique_seq_to_set();
    vstd::set_lib::lemma_int_range(0, n as int);
    assert forall|a: int| chain.to_set().contains(a) implies vstd::set_lib::set_int_range(
        0,
        n as int,
    ).contains(a) by {
        let k = choose|k: int| 0 <= k < chain.len() && chain[k] == a;
        assert(0 <= ancestor(parent, x, k as nat) < n);
    }
    vstd::set_lib::lemma_len_subset(chain.to_set(), vstd::set_lib::set_int_range(0, n as int));
}

/// Along a chain of parent edges whose every step goes up in rank, a later
/// element has a higher rank than an earlier one.
proof fn lemma_ranks_climb(parent: Seq<usize>, x: int, rank: Seq<nat>, j: nat, k: nat)
    requires
        j < k <= parent.len(),
        forall|k: nat|
            k < parent.len() ==> rank[#[trigger] ancestor(parent, x, k)] < rank[ancestor(
                parent,
                x,
                k + 1,
            )],
    ensures
        rank[ancestor(parent, x, j)] < rank[ancestor(parent, x, k)],
    decreases k - j,
{
    assert(rank[ancestor(parent, x, (k - 1) as nat)] < rank[ancestor(parent, x, k)]) by {
        assert(ancestor(parent, x, ((k - 1) as nat + 1) as nat) == ancestor(parent, x, k));
    }
    if j + 1 < k {
        lemma_ranks_climb(parent, x, rank, j, (k - 1) as nat);
    }
}

/// The number of parent edges that lead from `x` up to an element without
/// a parent, if fewer than there are elements do.
fn depth_of(parent: &Vec<usize>, x: usize) -> (res: Option<usize>)
    requires
        x < parent@.len(),
        forall|c: int| 0 <= c < parent@.len() ==> #[trigger] parent@[c] <= parent@.len(),
    ensures
        match res {
            Some(depth) => depth < parent@.len() && is_top(
                parent@,
                ancestor(parent@, x as int, depth as nat),
            ),
            None => forall|k: nat|
                k <= parent@.len() ==> 0 <= #[trigger] ancestor(parent@, x as int, k)
                    < parent@.len() && parent@[ancestor(parent@, x as int, k)] != parent@.len(),
        },
{
    let n = parent.len();
    let mut current = x;
    let mut steps: usize = 0;
    while parent[current] != n
        invariant
            n == parent@.len(),
            x < n,
            forall|c: int| 0 <= c < parent@.len() ==> #[trigger] parent@[c] <= parent@.len(),
            0 <= steps <= n,
            current < n,
            current == ancestor(parent@, x as int, steps as nat),
            forall|k: nat|
                k < steps ==> 0 <= #[trigger] ancestor(parent@, x as int, k) < n
                    && parent@[ancestor(parent@, x as int, k)] != n,
        decreases n - steps,
    {
        if steps == n {
            return None;
        }
        proof {
            lemma_ancestor_step(parent@, x as int, steps as nat);
        }
        current = parent[current];
        steps = steps + 1;
    }
    proof {
        if steps == n {
            // All elements but one lie on the chain below; the chain
            // holds no element twice, so this cannot be.
            lemma_top_is_near(parent@, x as int, steps as nat);
        }
    }
    Some(steps)
}

/// An element without a parent is found after fewer steps than there are
/// elements.
proof fn lemma_top_is_near(parent: Seq<usize>, x: int, steps: nat)
    requires
        forall|c: int| 0 <= c < parent.len() ==> #[trigger] parent[c] <= parent.len(),
        0 <= x < parent.len(),
        is_top(parent, ancestor(parent, x, steps)),
        forall|k: nat|
            k < steps ==> 0 <= #[trigger] ancestor(parent, x, k) < parent.len()
                && parent[ancestor(parent, x, k)] != parent.len(),
    ensures
        steps < parent.len(),
{
    let n = parent.len();
    if steps >= n {
        let chain = Seq::new(n + 1, |k: int| ancestor(parent, x, k as nat));
        assert forall|j: int, k: int| 0 <= j < k <= n implies chain[j] != chain[k] by {
            lemma_ancestors_differ(parent, x, j as nat, k as nat, steps);
        }
        assert(chain.no_duplicates());
        chain.unique_seq_to_set();
        vstd::set_lib::lemma_int_range(0, n as int);
        assert forall|a: int| chain.to_set().contains(a) implies vstd::set_lib::set_int_range(
            0,
            n as int,
        ).contains(a) by {
            let k = choose|k: int| 0 <= k < chain.len() && chain[k] == a;
            if k < steps {
                assert(0 <= ancestor(parent, x, k as nat) < n);
            }
        }
        vstd::set_lib::lemma_len_subset(
            chain.to_set(),
            vstd::set_lib::set_int_range(0, n as int),
        );
    }
}

/// The ancestors of an ancestor of an element are ancestors of the
/// element.
proof fn lemma_ancestor_of_ancestor(parent: Seq<usize>, x: int, first: nat, second: nat)
    requires
        forall|c: int| 0 <= c < parent.len() ==> #[trigger] parent[c] <= parent.len(),
        0 <= x < parent.len(),
        0 <= ancestor(parent, x, first) < parent.len(),
    ensures
        ancestor(parent, ancestor(parent, x, first), second) == ancestor(
            parent,
            x,
            first + second,
        ),
    decreases first,
{
    if first > 0 {
        if parent[x] < parent.len() {
            lemma_ancestor_of_ancestor(parent, parent[x] as int, (first - 1) as nat, second);
        }
    }
}

/// A chain of parent edges that comes to an element without a parent
/// comes by no element twice before.
proof fn lemma_ancestors_differ(parent: Seq<usize>, x: int, j: nat, k: nat, steps: nat)
    requires
        forall|c: int| 0 <= c < parent.len() ==> #[trigger] parent[c] <= parent.len(),
        0 <= x < parent.len(),
        j < k <= steps,
        is_top(parent, ancestor(parent, x, steps)),
        forall|k: nat|
            k < steps ==> 0 <= #[trigger] ancestor(parent, x, k) < parent.len()
                && parent[ancestor(parent, x, k)] != parent.len(),
    ensures
        ancestor(parent, x, j) != ancestor(parent, x, k),
{
    // From the earlier of the two, the top is `steps - j` steps away; from
    // the later one, `steps - k`: so they are not one element.
    let a = ancestor(parent, x, j);
    assert(0 <= a < parent.len());
    assert(parent[a] != parent.len());
    if ancestor(parent, x, k) == a && k < steps {
        lemma_ancestor_of_ancestor(parent, x, j, (steps - k) as nat);
        lemma_ancestor_of_ancestor(parent, x, k, (steps - k) as nat);
        let early = (j + (steps - k)) as nat;
        assert(ancestor(parent, x, early) == ancestor(parent, x, steps));
        assert(parent[ancestor(parent, x, early)] != parent.len());
    }
}

impl ObjectTree {
    /// Whether element `e` names only what exists and binds no property
    /// twice.
    pub fn element_is_well_formed(&self, e: ElementId) -> (res: bool)
        requires
            e < self.elements@.len(),
        ensures
            res == self.element_wf(e as int),
    {
        let element = &self.elements[e];
        let mut i: usize = 0;
        while i < element.children.len()
            invariant
                0 <= i <= element.children@.len(),
                e < self.elements@.len(),
                *element == self.elements@[e as int],
                forall|j: int|
                    0 <= j < i ==> (#[trigger] element.children@[j]) < self.elements@.len(),
            decreases element.children@.len() - i,
        {
            if element.children[i] >= self.elements.len() {
                proof {
                    assert(!(self.elements@[e as int].children@[i as int]
                        < self.elements@.len()));
                }
                return false;
            }
            i = i + 1;
        }
        let type_exists = match &element.base_type {
            ElementType::Component(c) => *c < self.components.len(),
            _ => true,
        };
        type_exists && names_are_unique(&element.bindings) && bindings_target_below(
            &element.bindings,
            self.elements.len(),
        )
    }

    /// For every element, the element that it is a child of, or the number
    /// of elements where it is no child: if no element is a child twice.
    fn find_parents(&self) -> (res: Option<Vec<usize>>)
        requires
            forall|e: int| 0 <= e < self.elements@.len() ==> #[trigger] self.element_wf(e),
        ensures
            match res {
                Some(parent) => self.single_parent() && parents_of(self, parent@),
                None => !self.single_parent(),
            },
    {
        let n = self.elements.len();
        let mut parent: Vec<usize> = Vec::new();
        let mut filled: usize = 0;
        while filled < n
            invariant
                0 <= filled <= n,
                parent@.len() == filled,
                forall|c: int| 0 <= c < filled ==> #[trigger] parent@[c] == n,
            decreases n - filled,
        {
            parent.push(n);
            filled = filled + 1;
        }
        let mut p: usize = 0;
        while p < n
            invariant
                0 <= p <= n,
                n == self.elements@.len(),
                parent@.len() == n,
                forall|e: int| 0 <= e < self.elements@.len() ==> #[trigger] self.element_wf(e),
                forall|q: int, j: int|
                    0 <= q < p && 0 <= j < self.elements@[q].children@.len() ==> parent@[(
                    #[trigger] self.elements@[q].children@[j]) as int] == q,
                forall|c: int|
                    0 <= c < n && #[trigger] parent@[c] != n ==> parent@[c] < p && has_child(
                        self,
                        parent@[c] as int,
                        c,
                    ),
                forall|q: int, j: int, r: int, k: int|
                    #![trigger self.elements@[q].children@[j], self.elements@[r].children@[k]]
                    0 <= q < p && 0 <= j < self.elements@[q].children@.len() && 0 <= r < p && 0
                        <= k < self.elements@[r].children@.len()
                        && self.elements@[q].children@[j] == self.elements@[r].children@[k] ==> q
                        == r && j == k,
            decreases n - p,
        {
            let children = &self.elements[p].children;
            let mut i: usize = 0;
            while i < children.len()
                invariant
                    0 <= i <= children@.len(),
                    p < n,
                    n == self.elements@.len(),
                    parent@.len() == n,
                    children@ == self.elements@[p as int].children@,
                    forall|e: int| 0 <= e < self.elements@.len() ==> #[trigger] self.element_wf(e),
                    forall|q: int, j: int|
                        0 <= q < self.elements@.len() && 0 <= j
                            < self.elements@[q].children@.len() && comes_before(
                            q,
                            j,
                            p as int,
                            i as int,
                        ) ==> parent@[(#[trigger] self.elements@[q].children@[j]) as int] == q,
                    forall|c: int|
                        0 <= c < n && #[trigger] parent@[c] != n ==> parent@[c] <= p && has_child(
                            self,
                            parent@[c] as int,
                            c,
                        ),
                    forall|c: int|
                        0 <= c < n && #[trigger] parent@[c] == p ==> exists|j: int|
                            0 <= j < i && #[trigger] self.elements@[p as int].children@[j] == c,
                    forall|q: int, j: int, r: int, k: int|
                        #![trigger self.elements@[q].children@[j], self.elements@[r].children@[k]]
                        0 <= q < n && 0 <= j < self.elements@[q].children@.len() && 0 <= r < n
                            && 0 <= k < self.elements@[r].children@.len() && comes_before(
                            q,
                            j,
                            p as int,
                            i as int,
                        ) && comes_before(r, k, p as int, i as int)
                            && self.elements@[q].children@[j] == self.elements@[r].children@[k]
                            ==> q == r && j == k,
                decreases children@.len() - i,
            {
                let child = children[i];
                proof {
                    assert(self.element_wf(p as int));
                    assert(self.elements@[p as int].children@[i as int] < n);
                }
                if parent[child] != n {
                    proof {
                        let q = parent@[child as int] as int;
                        assert(has_child(self, q, child as int));
                        let j = choose|j: int|
                            0 <= j < self.elements@[q].children@.len()
                                && #[trigger] self.elements@[q].children@[j] == child;
                        if q == p {
                            let k = choose|k: int|
                                0 <= k < i && #[trigger] self.elements@[p as int].children@[k]
                                    == child;
                            assert(self.elements@[p as int].children@[k]
                                == self.elements@[p as int].children@[i as int]);
                        } else {
                            assert(self.elements@[q].children@[j]
                                == self.elements@[p as int].children@[i as int]);
                        }
                    }
                    return None;
                }
                let ghost earlier = parent@;
                parent[child] = p;
                proof {
                    assert forall|q: int, j: int|
                        0 <= q < self.elements@.len() && 0 <= j
                            < self.elements@[q].children@.len() && comes_before(
                            q,
                            j,
                            p as int,
                            i as int,
                        ) implies (#[trigger] self.elements@[q].children@[j]) != child by {
                        assert(self.element_wf(q));
                        if self.elements@[q].children@[j] == child {
                            assert(earlier[self.elements@[q].children@[j] as int] == q);
                        }
                    }
                    assert forall|q: int, j: int|
                        0 <= q < self.elements@.len() && 0 <= j
                            < self.elements@[q].children@.len() && comes_before(
                            q,
                            j,
                            p as int,
                            i + 1,
                        ) implies parent@[(#[trigger] self.elements@[q].children@[j]) as int]
                        == q by {
                        assert(self.element_wf(q));
                        if comes_before(q, j, p as int, i as int) {
                            assert(earlier[self.elements@[q].children@[j] as int] == q);
                        }
                    }
                    assert(has_child(self, p as int, child as int)) by {
                        assert(self.elements@[p as int].children@[i as int] == child);
                    }
                    assert forall|c: int| 0 <= c < n && #[trigger] parent@[c] == p implies exists|
                        j: int,
                    |
                        0 <= j < i + 1 && #[trigger] self.elements@[p as int].children@[j]
                            == c by {
                        if c == child {
                            assert(self.elements@[p as int].children@[i as int] == c);
                        } else {
                            let j = choose|j: int|
                                0 <= j < i && #[trigger] self.elements@[p as int].children@[j]
                                    == c;
                            assert(self.elements@[p as int].children@[j] == c);
                        }
                    }
                }
                i = i + 1;
            }
            p = p + 1;
        }
        Some(parent)
    }

    /// Whether no element lies below itself, given the parents of the
    /// elements.
    fn is_ranked(&self, parent: &Vec<usize>) -> (res: bool)
        requires
            parents_of(self, parent@),
            forall|e: int| 0 <= e < self.elements@.len() ==> #[trigger] self.element_wf(e),
        ensures
            res == exists|rank: Seq<nat>| #[trigger] self.ranked(rank),
    {
        let n = self.elements.len();
        proof {
            assert forall|c: int| 0 <= c < parent@.len() implies #[trigger] parent@[c]
                <= parent@.len() by {
                if parent@[c] != parent@.len() {
                    assert(has_child(self, parent@[c] as int, c));
                }
            }
        }
        let mut depths: Vec<usize> = Vec::new();
        let mut x: usize = 0;
        while x < n
            invariant
                0 <= x <= n,
                n == self.elements@.len(),
                parents_of(self, parent@),
                forall|c: int| 0 <= c < parent@.len() ==> #[trigger] parent@[c] <= parent@.len(),
                depths@.len() == x,
                forall|y: int|
                    0 <= y < x ==> (#[trigger] depths@[y]) < n && is_top(
                        parent@,
                        ancestor(parent@, y, depths@[y] as nat),
                    ),
            decreases n - x,
        {
            match depth_of(parent, x) {
                Some(depth) => {
                    depths.push(depth);
                },
                None => {
                    proof {
                        assert forall|rank: Seq<nat>| !#[trigger] self.ranked(rank) by {
                            lemma_long_climb_unranked(self, parent@, x as int, rank);
                        }
                    }
                    return false;
                },
            }
            x = x + 1;
        }
        proof {
            let rank = Seq::new(n as nat, |y: int| (n - depths@[y]) as nat);
            assert forall|p: int, i: int|
                0 <= p < self.elements@.len() && 0 <= i
                    < self.elements@[p].children@.len() implies (
            #[trigger] self.elements@[p].children@[i]) < self.elements@.len()
                && rank[self.elements@[p].children@[i] as int] < rank[p] by {
                assert(self.element_wf(p));
                let c = self.elements@[p].children@[i] as int;
                assert(parent@[c] == p);
                let deep = depths@[c] as nat;
                let high = depths@[p] as nat;
                // The top above `c` is the top above `p`, one step nearer.
                assert(deep > 0);
                assert(ancestor(parent@, c, deep) == ancestor(parent@, p, (deep - 1) as nat));
                if deep - 1 < high {
                    lemma_above_top(parent@, p, (deep - 1) as nat, high);
                } else if deep - 1 > high {
                    lemma_above_top(parent@, p, high, (deep - 1) as nat);
                }
            }
            assert(self.ranked(rank));
        }
        true
    }

    /// Whether the tree is well formed.
    pub fn is_well_formed(&self) -> (res: bool)
        ensures
            res == self.wf(),
    {
        let mut e: usize = 0;
        while e < self.elements.len()
            invariant
                0 <= e <= self.elements@.len(),
                forall|x: int| 0 <= x < e ==> #[trigger] self.element_wf(x),
            decreases self.elements@.len() - e,
        {
            if !self.element_is_well_formed(e) {
                proof {
                    assert forall|rank: Seq<nat>| !#[trigger] self.wf_with(rank) by {}
                }
                return false;
            }
            e = e + 1;
        }
        let mut c: usize = 0;
        while c < self.components.len()
            invariant
                0 <= c <= self.components@.len(),
                forall|x: int| 0 <= x < c ==> #[trigger] self.component_wf(x),
            decreases self.components@.len() - c,
        {
            if self.components[c].root_element >= self.elements.len() {
                proof {
                    assert(!self.component_wf(c as int));
                    assert forall|rank: Seq<nat>| !#[trigger] self.wf_with(rank) by {}
                }
                return false;
            }
            c = c + 1;
        }
        match self.find_parents() {
            None => {
                proof {
                    assert forall|rank: Seq<nat>| !#[trigger] self.wf_with(rank) by {}
                }
                false
            },
            Some(parent) => {
                let ranked = self.is_ranked(&parent);
                proof {
                    if ranked {
                        let rank = choose|rank: Seq<nat>| #[trigger] self.ranked(rank);
                        assert(self.wf_with(rank));
                    } else {
                        assert forall|rank: Seq<nat>| !#[trigger] self.wf_with(rank) by {}
                    }
                }
                ranked
            },
        }
    }
}

} // verus!
