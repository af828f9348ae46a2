//! Parsed queries.

use vstd::prelude::*;

use crate::text::concat3;
use crate::value::{DataType, Keyword};
use crate::variable::{Name, Variable};

verus! {

/// A constant that is no integer. A floating-point number is held as its bit pattern, an
/// instant as microseconds since the epoch; a big integer that does not fit in 128 bits is
/// given by its digits and has no value.
#[derive(Debug, PartialEq, Eq)]
pub enum NonIntegerConstant {
    Boolean(bool),
    BigInteger(i128),
    HugeInteger(String),
    Float(u64),
    Text(String),
    Instant(i64),
    Uuid(u128),
}

/// What a constant is.
pub enum ConstantView {
    Boolean(bool),
    BigInteger(i128),
    HugeInteger(Seq<char>),
    Float(u64),
    Text(Seq<char>),
    Instant(i64),
    Uuid(u128),
}

impl View for NonIntegerConstant {
    type V = ConstantView;

    open spec fn view(&self) -> ConstantView {
        match self {
            NonIntegerConstant::Boolean(x) => ConstantView::Boolean(*x),
            NonIntegerConstant::BigInteger(x) => ConstantView::BigInteger(*x),
            NonIntegerConstant::HugeInteger(x) => ConstantView::HugeInteger(x@),
            NonIntegerConstant::Float(x) => ConstantView::Float(*x),
            NonIntegerConstant::Text(x) => ConstantView::Text(x@),
            NonIntegerConstant::Instant(x) => ConstantView::Instant(*x),
            NonIntegerConstant::Uuid(x) => ConstantView::Uuid(*x),
        }
    }
}

impl Clone for NonIntegerConstant {
    fn clone(&self) -> (r: Self)
        ensures
            r@ == self@,
    {
        match self {
            NonIntegerConstant::Boolean(x) => NonIntegerConstant::Boolean(*x),
            NonIntegerConstant::BigInteger(x) => NonIntegerConstant::BigInteger(*x),
            NonIntegerConstant::HugeInteger(x) => NonIntegerConstant::HugeInteger(x.clone()),
            NonIntegerConstant::Float(x) => NonIntegerConstant::Float(*x),
            NonIntegerConstant::Text(x) => NonIntegerConstant::Text(x.clone()),
            NonIntegerConstant::Instant(x) => NonIntegerConstant::Instant(*x),
            NonIntegerConstant::Uuid(x) => NonIntegerConstant::Uuid(*x),
        }
    }
}

/// What stands in the entity or the attribute position of a pattern.
#[derive(Debug, PartialEq, Eq)]
pub enum PatternNonValuePlace {
    Placeholder,
    Variable(Variable),
    Entid(i64),
    Ident(Keyword),
}

/// What stands in the value position of a pattern.
#[derive(Debug, PartialEq, Eq)]
pub enum PatternValuePlace {
    Placeholder,
    Variable(Variable),
    EntidOrInteger(i64),
    IdentOrKeyword(Keyword),
    Constant(NonIntegerConstant),
}

/// What stands in a position of a pattern.
pub enum PlaceView {
    Placeholder,
    Variable(Name),
    Number(i64),
    Ident(Seq<char>),
    Constant(ConstantView),
}

impl View for PatternNonValuePlace {
    type V = PlaceView;

    open spec fn view(&self) -> PlaceView {
        match self {
            PatternNonValuePlace::Placeholder => PlaceView::Placeholder,
            PatternNonValuePlace::Variable(v) => PlaceView::Variable(v@),
            PatternNonValuePlace::Entid(x) => PlaceView::Number(*x),
            PatternNonValuePlace::Ident(k) => PlaceView::Ident(k@),
        }
    }
}

impl View for PatternValuePlace {
    type V = PlaceView;

    open spec fn view(&self) -> PlaceView {
        match self {
            PatternValuePlace::Placeholder => PlaceView::Placeholder,
            PatternValuePlace::Variable(v) => PlaceView::Variable(v@),
            PatternValuePlace::EntidOrInteger(x) => PlaceView::Number(*x),
            PatternValuePlace::IdentOrKeyword(k) => PlaceView::Ident(k@),
            PatternValuePlace::Constant(c) => PlaceView::Constant(c@),
        }
    }
}

impl Clone for PatternNonValuePlace {
    fn clone(&self) -> (r: Self)
        ensures
            r@ == self@,
    {
        match self {
            PatternNonValuePlace::Placeholder => PatternNonValuePlace::Placeholder,
            PatternNonValuePlace::Variable(v) => PatternNonValuePlace::Variable(v.clone()),
            PatternNonValuePlace::Entid(x) => PatternNonValuePlace::Entid(*x),
            PatternNonValuePlace::Ident(k) => PatternNonValuePlace::Ident(k.clone()),
        }
    }
}

impl Clone for PatternValuePlace {
    fn clone(&self) -> (r: Self)
        ensures
            r@ == self@,
    {
        match self {
            PatternValuePlace::Placeholder => PatternValuePlace::Placeholder,
            PatternValuePlace::Variable(v) => PatternValuePlace::Variable(v.clone()),
            PatternValuePlace::EntidOrInteger(x) => PatternValuePlace::EntidOrInteger(*x),
            PatternValuePlace::IdentOrKeyword(k) => PatternValuePlace::IdentOrKeyword(k.clone()),
            PatternValuePlace::Constant(c) => PatternValuePlace::Constant(c.clone()),
        }
    }
}

/// A triple pattern: entity, attribute and value.
#[derive(Debug, PartialEq, Eq)]
pub struct Pattern {
    pub entity: PatternNonValuePlace,
    pub attribute: PatternNonValuePlace,
    pub value: PatternValuePlace,
}

/// What a pattern is.
pub struct PatternView {
    pub entity: PlaceView,
    pub attribute: PlaceView,
    pub value: PlaceView,
}

impl View for Pattern {
    type V = PatternView;

    open spec fn view(&self) -> PatternView {
        PatternView {
            entity: self.entity@,
            attribute: self.attribute@,
            value: self.value@,
        }
    }
}

impl Clone for Pattern {
    fn clone(&self) -> (r: Self)
        ensures
            r@ == self@,
    {
        Pattern {
            entity: self.entity.clone(),
            attribute: self.attribute.clone(),
            value: self.value.clone(),
        }
    }
}

/// An argument of a function or a predicate. One of another kind is not supported, and held as
/// it is shown.
#[derive(Debug, PartialEq, Eq)]
pub enum FnArg {
    Variable(Variable),
    EntidOrInteger(i64),
    IdentOrKeyword(Keyword),
    Constant(NonIntegerConstant),
    SExpr(String, Vec<FnArg>),
    Unsupported(String),
}

/// How a result or an input is bound to variables.
#[derive(Debug, PartialEq, Eq)]
pub enum Binding {
    BindScalar(Variable),
    BindColl(Variable),
    BindTuple(Vec<Option<Variable>>),
    BindRel(Vec<Option<Variable>>),
}

/// A condition on bound variables.
#[derive(Debug, PartialEq, Eq)]
pub struct Predicate {
    pub expr: FnArg,
}

/// A function whose result is bound.
#[derive(Debug, PartialEq, Eq)]
pub struct WhereFn {
    pub expr: FnArg,
    pub binding: Binding,
}

/// A disjunction.
#[derive(Debug, PartialEq, Eq)]
pub struct OrJoin {
    pub clauses: Vec<OrWhereClause>,
}

/// One branch of a disjunction.
#[derive(Debug, PartialEq, Eq)]
pub enum OrWhereClause {
    Clause(WhereClause),
    And(Vec<WhereClause>),
}

/// A negation.
#[derive(Debug, PartialEq, Eq)]
pub struct NotJoin {
    pub clauses: Vec<WhereClause>,
}

/// One clause of a query. Rules and type annotations, these with what they say, are not supported.
#[derive(Debug, PartialEq, Eq)]
pub enum WhereClause {
    Pattern(Pattern),
    Pred(Predicate),
    WhereFn(WhereFn),
    OrJoin(OrJoin),
    NotJoin(NotJoin),
    RuleExpr,
    TypeAnnotation(String),
}

/// How errors show a clause that is not supported.
pub open spec fn unsupported(clause: WhereClause) -> Seq<char> {
    match clause {
        WhereClause::TypeAnnotation(said) => "TypeAnnotation("@ + said@ + ")"@,
        _ => "RuleExpr"@,
    }
}

/// How errors show a clause that is not supported.
pub fn unsupported_text(clause: &WhereClause) -> (r: String)
    requires
        clause is RuleExpr || clause is TypeAnnotation,
    ensures
        r@ == unsupported(*clause),
{
    match clause {
        WhereClause::TypeAnnotation(said) => concat3("TypeAnnotation(", said.as_str(), ")"),
        _ => "RuleExpr".to_owned(),
    }
}

/// An aggregate in a find clause.
#[derive(Debug, PartialEq, Eq)]
pub struct Aggregate {
    pub func: String,
    pub args: Vec<FnArg>,
}

/// One element of a find clause.
#[derive(Debug, PartialEq, Eq)]
pub enum Element {
    Variable(Variable),
    Aggregate(Aggregate),
    Corresponding,
    Pull,
}

/// What a query asks for.
#[derive(Debug, PartialEq, Eq)]
pub enum FindSpec {
    FindRel(Vec<Element>),
    FindColl(Element),
    FindTuple(Vec<Element>),
    FindScalar(Element),
}

/// The direction of an order.
#[derive(Clone, Copy, Debug, PartialEq, Eq, Structural)]
pub enum Direction {
    Ascending,
    Descending,
}

/// A variable to order by.
#[derive(Debug, PartialEq, Eq)]
pub struct Order {
    pub direction: Direction,
    pub variable: Variable,
}

/// How many rows to keep.
#[derive(Debug, PartialEq, Eq)]
pub enum Limit {
    Unlimited,
    Fixed(u64),
    Variable(Variable),
}

/// A query.
#[derive(Debug, PartialEq, Eq)]
pub struct ParsedQuery {
    pub find_spec: FindSpec,
    pub in_bindings: Vec<Binding>,
    pub where_clauses: Vec<WhereClause>,
    pub order: Option<Vec<Order>>,
    pub limit: Limit,
}

/// An argument of a query.
#[derive(Debug, PartialEq, Eq)]
pub enum QueryArg {
    Scalar(DataType),
    Collection(Vec<DataType>),
}

/// A clause that is not supported is shown by its kind, and a type annotation with what it says.
pub proof fn law_unsupported_clauses(clause: WhereClause, r: String)
    requires
        clause is RuleExpr || clause is TypeAnnotation,
        call_ensures(unsupported_text, (&clause,), r),
    ensures
        clause is RuleExpr ==> r@ == "RuleExpr"@,
        clause matches WhereClause::TypeAnnotation(said) ==> r@ == "TypeAnnotation("@ + said@ + ")"@,
{
}

} // verus!
