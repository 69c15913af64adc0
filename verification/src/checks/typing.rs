//! The type-checking pass: walks the syntax tree once, in source order,
//! building a mapping from identifier to type and validating every
//! expression. Redeclaration and type mismatches are rejected; the first
//! violation aborts the pass.
//!
//! The pass deliberately keeps two loosenesses of the language: a binary
//! operation only requires its operands to have one and the same type (so
//! string concatenation by `+` — or any operator — type-checks), and a
//! unary operation leaves its operand's type untouched, whatever it is.

use crate::parser::expression::{Expression, ExpressionView};
use crate::parser::{AstNode, AstNodeView};
use crate::token::LiteralKind;
use vstd::prelude::*;

verus! {

/// Each of the possible types that can be expressed. Boolean literals
/// exist lexically, so they are given a type of their own here: that is
/// this pass's policy for them.
#[derive(Copy, Clone, Debug, PartialEq, Eq, Structural)]
pub enum Type {
    Integer,
    String,
    Boolean,
}

/// All of the possible type errors that could arise through type checking.
#[derive(Debug, PartialEq)]
pub enum TypeError {
    /// An identifier was referenced before its `let` was processed.
    UnknownIdent(String),
    /// A `let` tried to bind an identifier that is already bound.
    IdentRedeclared(String),
    /// The two operands of a binary operation have different types.
    MismatchedTypes { lhs: Type, rhs: Type },
}

/// The mathematical value of a type error.
pub enum TypeErrorView {
    UnknownIdent(Seq<char>),
    IdentRedeclared(Seq<char>),
    MismatchedTypes { lhs: Type, rhs: Type },
}

impl View for TypeError {
    type V = TypeErrorView;

    open spec fn view(&self) -> TypeErrorView {
        match self {
            TypeError::UnknownIdent(name) => TypeErrorView::UnknownIdent(name@),
            TypeError::IdentRedeclared(name) => TypeErrorView::IdentRedeclared(name@),
            TypeError::MismatchedTypes { lhs, rhs } => TypeErrorView::MismatchedTypes {
                lhs: *lhs,
                rhs: *rhs,
            },
        }
    }
}

/// The type of an expression under the bindings in `env`, or the first
/// type error met. Operands of a binary operation must agree; the
/// operator itself neither refines nor restricts the type.
pub open spec fn spec_expr_type(env: Map<Seq<char>, Type>, e: ExpressionView) -> Result<
    Type,
    TypeErrorView,
>
    decreases e,
{
    match e {
        ExpressionView::Ident(name) => {
            if env.contains_key(name) {
                Ok(env[name])
            } else {
                Err(TypeErrorView::UnknownIdent(name))
            }
        },
        ExpressionView::BinaryOperation { operation, lhs, rhs } => match spec_expr_type(
            env,
            *lhs,
        ) {
            Err(e1) => Err(e1),
            Ok(lhs_type) => match spec_expr_type(env, *rhs) {
                Err(e2) => Err(e2),
                Ok(rhs_type) => {
                    if lhs_type == rhs_type {
                        Ok(lhs_type)
                    } else {
                        Err(TypeErrorView::MismatchedTypes { lhs: lhs_type, rhs: rhs_type })
                    }
                },
            },
        },
        ExpressionView::UnaryOperation { operation, rhs } => spec_expr_type(env, *rhs),
        ExpressionView::Literal { kind, chars } => Ok(
            match kind {
                LiteralKind::Integer => Type::Integer,
                LiteralKind::String => Type::String,
                LiteralKind::Boolean => Type::Boolean,
            },
        ),
    }
}

/// The environment after checking `nodes` in order, starting from `env`,
/// or the first type error met. A `let` first types its right-hand side,
/// then rejects redeclaration, then binds; a bare expression is typed and
/// its type discarded.
pub open spec fn spec_check_nodes(nodes: Seq<AstNodeView>, env: Map<Seq<char>, Type>) -> Result<
    Map<Seq<char>, Type>,
    TypeErrorView,
>
    decreases nodes.len(),
{
    if nodes.len() == 0 {
        Ok(env)
    } else {
        match nodes[0] {
            AstNodeView::Let(l) => match spec_expr_type(env, l.rhs) {
                Err(e) => Err(e),
                Ok(t) => {
                    if env.contains_key(l.ident) {
                        Err(TypeErrorView::IdentRedeclared(l.ident))
                    } else {
                        spec_check_nodes(nodes.skip(1), env.insert(l.ident, t))
                    }
                },
            },
            AstNodeView::Expression(e) => match spec_expr_type(env, e) {
                Err(er) => Err(er),
                Ok(_) => spec_check_nodes(nodes.skip(1), env),
            },
        }
    }
}

/// The mapping of the entry list, later entries winning; with distinct
/// keys (the environment's invariant) the order cannot matter.
spec fn al_map(entries: Seq<(String, Type)>) -> Map<Seq<char>, Type>
    decreases entries.len(),
{
    if entries.len() == 0 {
        Map::empty()
    } else {
        al_map(entries.drop_last()).insert(entries.last().0@, entries.last().1)
    }
}

/// A key is in the mapping exactly when some entry carries it.
proof fn lemma_al_map_contains(entries: Seq<(String, Type)>, key: Seq<char>)
    ensures
        al_map(entries).contains_key(key) <==> exists|i: int|
            0 <= i < entries.len() && #[trigger] entries[i].0@ == key,
    decreases entries.len(),
{
    if entries.len() > 0 {
        lemma_al_map_contains(entries.drop_last(), key);
        if entries.last().0@ == key {
            assert(entries[entries.len() - 1].0@ == key);
        } else {
            assert forall|i: int| 0 <= i < entries.len() && #[trigger] entries[i].0@ == key implies
                al_map(entries).contains_key(key) by {
                assert(entries.drop_last()[i] == entries[i]);
            }
        }
    }
}

/// With distinct keys, the mapping sends each entry's key to its type.
proof fn lemma_al_map_get(entries: Seq<(String, Type)>, i: int)
    requires
        forall|p: int, q: int|
            0 <= p < q < entries.len() ==> #[trigger] entries[p].0@ != #[trigger] entries[q].0@,
        0 <= i < entries.len(),
    ensures
        al_map(entries).contains_key(entries[i].0@),
        al_map(entries)[entries[i].0@] == entries[i].1,
    decreases entries.len(),
{
    lemma_al_map_contains(entries, entries[i].0@);
    if i < entries.len() - 1 {
        assert forall|p: int, q: int|
            0 <= p < q < entries.drop_last().len() implies #[trigger] entries.drop_last()[p].0@
            != #[trigger] entries.drop_last()[q].0@ by {
            assert(entries.drop_last()[p] == entries[p]);
            assert(entries.drop_last()[q] == entries[q]);
        }
        assert(entries.drop_last()[i] == entries[i]);
        lemma_al_map_get(entries.drop_last(), i);
        assert(entries[i].0@ != entries.last().0@);
    }
}

/// With distinct keys, the mapping has exactly one binding per entry.
proof fn lemma_al_map_len(entries: Seq<(String, Type)>)
    requires
        forall|p: int, q: int|
            0 <= p < q < entries.len() ==> #[trigger] entries[p].0@ != #[trigger] entries[q].0@,
    ensures
        al_map(entries).dom().finite(),
        al_map(entries).len() == entries.len(),
    decreases entries.len(),
{
    if entries.len() > 0 {
        assert forall|p: int, q: int|
            0 <= p < q < entries.drop_last().len() implies #[trigger] entries.drop_last()[p].0@
            != #[trigger] entries.drop_last()[q].0@ by {
            assert(entries.drop_last()[p] == entries[p]);
            assert(entries.drop_last()[q] == entries[q]);
        }
        lemma_al_map_len(entries.drop_last());
        lemma_al_map_contains(entries.drop_last(), entries.last().0@);
        assert forall|i: int| 0 <= i < entries.drop_last().len() implies #[trigger] entries.drop_last()[i].0@
            != entries.last().0@ by {
            assert(entries.drop_last()[i] == entries[i]);
            assert(entries[i].0@ != entries[entries.len() - 1].0@);
        }
        assert(!al_map(entries.drop_last()).contains_key(entries.last().0@));
    }
}

/// A mapping from identifier to inferred type, keys unique for its whole
/// lifetime: no shadowing and no redeclaration.
#[derive(Debug)]
pub struct TypeEnvironment {
    ident_types: Vec<(String, Type)>,
}

impl View for TypeEnvironment {
    type V = Map<Seq<char>, Type>;

    closed spec fn view(&self) -> Map<Seq<char>, Type> {
        al_map(self.ident_types@)
    }
}

impl Default for TypeEnvironment {
    /// The empty environment.
    fn default() -> (env: Self)
        ensures
            env@ == Map::<Seq<char>, Type>::empty(),
            env.wf(),
    {
        TypeEnvironment { ident_types: Vec::new() }
    }
}

impl TypeEnvironment {
    /// The environment's invariant: no two entries bind the same
    /// identifier.
    pub closed spec fn wf(&self) -> bool {
        forall|p: int, q: int|
            0 <= p < q < self.ident_types@.len() ==> #[trigger] self.ident_types@[p].0@
                != #[trigger] self.ident_types@[q].0@
    }

    /// The type bound to `ident`, if any.
    pub fn get(&self, ident: &String) -> (r: Option<Type>)
        requires
            self.wf(),
        ensures
            r == (if self@.contains_key(ident@) {
                Some(self@[ident@])
            } else {
                None::<Type>
            }),
    {
        proof {
            lemma_al_map_contains(self.ident_types@, ident@);
        }
        let mut i: usize = 0;
        while i < self.ident_types.len()
            invariant
                self.wf(),
                i <= self.ident_types@.len(),
                forall|j: int| 0 <= j < i ==> #[trigger] self.ident_types@[j].0@ != ident@,
                al_map(self.ident_types@).contains_key(ident@) <==> exists|j: int|
                    0 <= j < self.ident_types@.len() && #[trigger] self.ident_types@[j].0@
                        == ident@,
            decreases self.ident_types@.len() - i,
        {
            if self.ident_types[i].0 == *ident {
                proof {
                    lemma_al_map_get(self.ident_types@, i as int);
                }
                return Some(self.ident_types[i].1);
            }
            i += 1;
        }
        None
    }

    /// How many identifiers are bound.
    pub fn len(&self) -> (n: usize)
        requires
            self.wf(),
        ensures
            n == self@.len(),
    {
        proof {
            lemma_al_map_len(self.ident_types@);
        }
        self.ident_types.len()
    }

    /// Bind a fresh identifier.
    fn insert_type(&mut self, ident: String, t: Type)
        requires
            old(self).wf(),
            !old(self)@.contains_key(ident@),
        ensures
            final(self).wf(),
            final(self)@ == old(self)@.insert(ident@, t),
    {
        proof {
            lemma_al_map_contains(self.ident_types@, ident@);
        }
        self.ident_types.push((ident, t));
        proof {
            assert(self.ident_types@.drop_last() =~= old(self).ident_types@);
            assert(forall|j: int| 0 <= j < old(self).ident_types@.len()
                ==> #[trigger] old(self).ident_types@[j].0@ != ident@);
            assert forall|p: int, q: int|
                0 <= p < q < self.ident_types@.len() implies #[trigger] self.ident_types@[p].0@
                != #[trigger] self.ident_types@[q].0@ by {
                if q < self.ident_types@.len() - 1 {
                    assert(old(self).ident_types@[p] == self.ident_types@[p]);
                    assert(old(self).ident_types@[q] == self.ident_types@[q]);
                } else {
                    assert(old(self).ident_types@[p] == self.ident_types@[p]);
                }
            }
        }
    }

    /// Determines the type of an expression under the current bindings.
    pub fn get_expression_type(&self, expression: &Expression) -> (r: Result<Type, TypeError>)
        requires
            self.wf(),
        ensures
            match spec_expr_type(self@, expression@) {
                Ok(t) => r == Ok::<Type, TypeError>(t),
                Err(ev) => r matches Err(err) && err@ == ev,
            },
        decreases expression,
    {
        match expression {
            Expression::Ident(ident) => match self.get(ident) {
                Some(t) => Ok(t),
                None => Err(TypeError::UnknownIdent(ident.clone())),
            },
            Expression::BinaryOperation { lhs, rhs, .. } => {
                let lhs_type = match self.get_expression_type(lhs) {
                    Ok(t) => t,
                    Err(e) => {
                        return Err(e);
                    },
                };
                let rhs_type = match self.get_expression_type(rhs) {
                    Ok(t) => t,
                    Err(e) => {
                        return Err(e);
                    },
                };
                if lhs_type == rhs_type {
                    Ok(lhs_type)
                } else {
                    Err(TypeError::MismatchedTypes { lhs: lhs_type, rhs: rhs_type })
                }
            },
            Expression::UnaryOperation { rhs, .. } => self.get_expression_type(rhs),
            Expression::Literal { kind, .. } => Ok(
                match kind {
                    LiteralKind::Integer => Type::Integer,
                    LiteralKind::String => Type::String,
                    LiteralKind::Boolean => Type::Boolean,
                },
            ),
        }
    }

    /// Creates a typed environment from a syntax tree, processing the
    /// statements strictly in source order and stopping at the first
    /// violation.
    pub fn from_ast(ast: Vec<AstNode>) -> (r: Result<Self, TypeError>)
        ensures
            match spec_check_nodes(ast@.map_values(|a: AstNode| a@), Map::empty()) {
                Ok(m) => r matches Ok(env) && env@ == m && env.wf(),
                Err(ev) => r matches Err(err) && err@ == ev,
            },
    {
        let ghost nodes0 = ast@.map_values(|a: AstNode| a@);
        let mut environment = TypeEnvironment::default();
        let mut i: usize = 0;
        proof {
            assert(nodes0.skip(0) =~= nodes0);
        }
        while i < ast.len()
            invariant
                nodes0 == ast@.map_values(|a: AstNode| a@),
                i <= ast@.len(),
                environment.wf(),
                match spec_check_nodes(nodes0.skip(i as int), environment@) {
                    Ok(m) => spec_check_nodes(nodes0, Map::empty()) == Ok::<
                        Map<Seq<char>, Type>,
                        TypeErrorView,
                    >(m),
                    Err(ev) => spec_check_nodes(nodes0, Map::empty()) == Err::<
                        Map<Seq<char>, Type>,
                        TypeErrorView,
                    >(ev),
                },
            decreases ast@.len() - i,
        {
            proof {
                assert(nodes0.skip(i as int).skip(1) =~= nodes0.skip(i + 1));
            }
            match &ast[i] {
                AstNode::Let(let_node) => {
                    let expression_type = match environment.get_expression_type(&let_node.rhs) {
                        Ok(t) => t,
                        Err(e) => {
                            return Err(e);
                        },
                    };
                    match environment.get(&let_node.ident) {
                        Some(_) => {
                            return Err(TypeError::IdentRedeclared(let_node.ident.clone()));
                        },
                        None => {
                            environment.insert_type(let_node.ident.clone(), expression_type);
                        },
                    }
                },
                AstNode::Expression(expression_node) => {
                    match environment.get_expression_type(expression_node) {
                        Ok(_) => {},
                        Err(e) => {
                            return Err(e);
                        },
                    }
                },
            }
            i += 1;
        }
        proof {
            assert(nodes0.skip(ast@.len() as int) =~= Seq::<AstNodeView>::empty());
        }
        Ok(environment)
    }
}

} // verus!
