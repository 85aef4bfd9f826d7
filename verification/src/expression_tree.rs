//! Expressions bound to properties, and the property references inside them.
use vstd::prelude::*;
use vstd::std_specs::cmp::PartialEqSpecImpl;

verus! {

/// Index of an element in the `elements` of an object tree.
pub type ElementId = usize;

/// A symbolic pointer to a property: the element that owns it and its name.
#[derive(Debug, Eq)]
pub struct NamedReference {
    pub element: ElementId,
    pub name: String,
}

impl NamedReference {
    /// A reference to the property `name` of the element `element`.
    pub fn new(element: ElementId, name: &str) -> (res: Self)
        ensures
            res.element == element,
            res.name@ == name@,
    {
        NamedReference { element, name: name.to_owned() }
    }

    /// The name of the property that is referred to.
    pub fn name(&self) -> (res: &str)
        ensures
            res@ == self.name@,
    {
        self.name.as_str()
    }

    /// The element that owns the property.
    pub fn element(&self) -> (res: ElementId)
        ensures
            res == self.element,
    {
        self.element
    }

    /// Two references denote the same property when they name the same
    /// element and the same property string.
    pub open spec fn denotes_same(&self, other: &NamedReference) -> bool {
        self.element == other.element && self.name@ == other.name@
    }
}

impl Clone for NamedReference {
    fn clone(&self) -> (res: Self)
        ensures
            res == *self,
    {
        NamedReference { element: self.element, name: self.name.clone() }
    }
}

impl PartialEq for NamedReference {
    fn eq(&self, other: &NamedReference) -> (res: bool) {
        self.element == other.element && self.name == other.name
    }
}

impl PartialEqSpecImpl for NamedReference {
    open spec fn obeys_eq_spec() -> bool {
        true
    }

    open spec fn eq_spec(&self, other: &NamedReference) -> bool {
        self.denotes_same(other)
    }
}

/// An expression bound to a property.
#[derive(Debug, PartialEq, Eq)]
pub enum Expression {
    /// Nothing: the state of a default expression.
    Invalid,
    StringLiteral(String),
    NumberLiteral(i64),
    BoolLiteral(bool),
    /// The value of a property of some element.
    PropertyReference(NamedReference),
    UnaryOp { sub: Box<Expression>, op: char },
    BinaryExpression { lhs: Box<Expression>, rhs: Box<Expression>, op: char },
    Condition {
        condition: Box<Expression>,
        true_expr: Box<Expression>,
        false_expr: Box<Expression>,
    },
}

impl Expression {
    /// The expression with `f` applied to each property reference in it.
    pub open spec fn map_references(
        self,
        f: spec_fn(NamedReference) -> NamedReference,
    ) -> Expression
        decreases self,
    {
        match self {
            Expression::PropertyReference(nr) => Expression::PropertyReference(f(nr)),
            Expression::UnaryOp { sub, op } => Expression::UnaryOp {
                sub: Box::new(sub.map_references(f)),
                op,
            },
            Expression::BinaryExpression { lhs, rhs, op } => Expression::BinaryExpression {
                lhs: Box::new(lhs.map_references(f)),
                rhs: Box::new(rhs.map_references(f)),
                op,
            },
            Expression::Condition { condition, true_expr, false_expr } => Expression::Condition {
                condition: Box::new(condition.map_references(f)),
                true_expr: Box::new(true_expr.map_references(f)),
                false_expr: Box::new(false_expr.map_references(f)),
            },
            other => other,
        }
    }

    /// Whether `p` holds of each property reference in the expression.
    pub open spec fn all_references(self, p: spec_fn(NamedReference) -> bool) -> bool
        decreases self,
    {
        match self {
            Expression::PropertyReference(nr) => p(nr),
            Expression::UnaryOp { sub, .. } => sub.all_references(p),
            Expression::BinaryExpression { lhs, rhs, .. } => {
                lhs.all_references(p) && rhs.all_references(p)
            },
            Expression::Condition { condition, true_expr, false_expr } => {
                condition.all_references(p) && true_expr.all_references(p)
                    && false_expr.all_references(p)
            },
            _ => true,
        }
    }

    /// A property of the references that follows from another one, reference
    /// by reference, holds of the expression where the other one does.
    pub proof fn lemma_all_references_implies(
        self,
        p: spec_fn(NamedReference) -> bool,
        q: spec_fn(NamedReference) -> bool,
    )
        requires
            self.all_references(p),
            forall|nr: NamedReference| #[trigger] p(nr) ==> q(nr),
        ensures
            self.all_references(q),
        decreases self,
    {
        match self {
            Expression::UnaryOp { sub, .. } => {
                sub.lemma_all_references_implies(p, q);
            },
            Expression::BinaryExpression { lhs, rhs, .. } => {
                lhs.lemma_all_references_implies(p, q);
                rhs.lemma_all_references_implies(p, q);
            },
            Expression::Condition { condition, true_expr, false_expr } => {
                condition.lemma_all_references_implies(p, q);
                true_expr.lemma_all_references_implies(p, q);
                false_expr.lemma_all_references_implies(p, q);
            },
            _ => {},
        }
    }

    /// The references of a mapped expression are the images of the
    /// references of the expression.
    pub proof fn lemma_all_references_of_mapped(
        self,
        f: spec_fn(NamedReference) -> NamedReference,
        p: spec_fn(NamedReference) -> bool,
        q: spec_fn(NamedReference) -> bool,
    )
        requires
            self.all_references(p),
            forall|nr: NamedReference| #[trigger] p(nr) ==> q(f(nr)),
        ensures
            self.map_references(f).all_references(q),
        decreases self,
    {
        match self {
            Expression::UnaryOp { sub, .. } => {
                sub.lemma_all_references_of_mapped(f, p, q);
            },
            Expression::BinaryExpression { lhs, rhs, .. } => {
                lhs.lemma_all_references_of_mapped(f, p, q);
                rhs.lemma_all_references_of_mapped(f, p, q);
            },
            Expression::Condition { condition, true_expr, false_expr } => {
                condition.lemma_all_references_of_mapped(f, p, q);
                true_expr.lemma_all_references_of_mapped(f, p, q);
                false_expr.lemma_all_references_of_mapped(f, p, q);
            },
            _ => {},
        }
    }

    /// Mapping twice is mapping once with the two maps composed.
    pub proof fn lemma_map_references_twice(
        self,
        f: spec_fn(NamedReference) -> NamedReference,
        g: spec_fn(NamedReference) -> NamedReference,
        h: spec_fn(NamedReference) -> NamedReference,
    )
        requires
            forall|nr: NamedReference| #[trigger] h(nr) == g(f(nr)),
        ensures
            self.map_references(f).map_references(g) == self.map_references(h),
        decreases self,
    {
        match self {
            Expression::UnaryOp { sub, .. } => {
                sub.lemma_map_references_twice(f, g, h);
            },
            Expression::BinaryExpression { lhs, rhs, .. } => {
                lhs.lemma_map_references_twice(f, g, h);
                rhs.lemma_map_references_twice(f, g, h);
            },
            Expression::Condition { condition, true_expr, false_expr } => {
                condition.lemma_map_references_twice(f, g, h);
                true_expr.lemma_map_references_twice(f, g, h);
                false_expr.lemma_map_references_twice(f, g, h);
            },
            _ => {},
        }
    }
}

impl Default for Expression {
    fn default() -> (res: Self)
        ensures
            res == Expression::Invalid,
    {
        Expression::Invalid
    }
}

/// The references whose element is one of the first `bound` elements.
pub open spec fn targets_below(bound: int) -> spec_fn(NamedReference) -> bool {
    |nr: NamedReference| nr.element < bound
}

} // verus!
