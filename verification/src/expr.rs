//! Expressions of predicates and functions.

use vstd::prelude::*;

use crate::value::{DataType, Value};
use crate::variable::{self, Name, Variable};

verus! {

/// The compiled form of a regular expression.
#[verifier::external_type_specification]
#[verifier::external_body]
pub struct ExRegex(regex::Regex);

/// An operator of two operands.
#[derive(Clone, Copy, Debug, PartialEq, Eq, Structural)]
pub enum BinaryOp {
    Lt,
    LtEq,
    Gt,
    GtEq,
    Eq,
    NotEq,
    Add,
    Sub,
    Mul,
    Div,
    Mod,
    Concat,
}

/// An operator of one operand.
#[derive(Clone, Copy, Debug, PartialEq, Eq, Structural)]
pub enum UnaryOp {
    Not,
    Abs,
    Upper,
    Lower,
    Strlen,
    Str,
    Year,
    Month,
}

/// An operation on two operands.
#[derive(Debug)]
pub struct BinaryExpr {
    pub left: Box<Expr>,
    pub op: BinaryOp,
    pub right: Box<Expr>,
}

/// An operation on one operand.
#[derive(Debug)]
pub struct UnaryExpr {
    pub op: UnaryOp,
    pub operand: Box<Expr>,
}

/// A choice.
#[derive(Debug)]
pub struct IfExpr {
    pub condition: Box<Expr>,
    pub then_expr: Box<Expr>,
    pub else_expr: Box<Expr>,
}

/// A match of a regular expression, compiled once.
#[derive(Debug)]
pub struct RegexpLikeExpr {
    pub pattern_src: String,
    pub pattern: regex::Regex,
    pub subject: Box<Expr>,
}

/// An expression.
#[derive(Debug)]
pub enum Expr {
    Literal(DataType),
    Variable(Variable),
    BinaryExpr(BinaryExpr),
    UnaryExpr(UnaryExpr),
    IfExpr(IfExpr),
    RegexpLike(RegexpLikeExpr),
}

/// A list followed by those elements of `more` that it lacks, each once.
pub open spec fn with_new<A>(names: Seq<A>, more: Seq<A>) -> Seq<A>
    decreases more.len(),
{
    if more.len() == 0 {
        names
    } else {
        let earlier = with_new(names, more.drop_last());
        if earlier.contains(more.last()) {
            earlier
        } else {
            earlier.push(more.last())
        }
    }
}

/// What an expression is. Where a regular expression is matched, it is given with its compiled
/// form.
pub enum ExprView {
    Literal(Value),
    Variable(Name),
    Binary(BinaryOp, Box<ExprView>, Box<ExprView>),
    Unary(UnaryOp, Box<ExprView>),
    If(Box<ExprView>, Box<ExprView>, Box<ExprView>),
    RegexpLike(Seq<char>, regex::Regex, Box<ExprView>),
}

/// What an expression is.
pub open spec fn expr_view(expr: Expr) -> ExprView
    decreases expr,
{
    match expr {
        Expr::Literal(x) => ExprView::Literal(x@),
        Expr::Variable(v) => ExprView::Variable(v@),
        Expr::BinaryExpr(e) => ExprView::Binary(
            e.op,
            Box::new(expr_view(*e.left)),
            Box::new(expr_view(*e.right)),
        ),
        Expr::UnaryExpr(e) => ExprView::Unary(e.op, Box::new(expr_view(*e.operand))),
        Expr::IfExpr(e) => ExprView::If(
            Box::new(expr_view(*e.condition)),
            Box::new(expr_view(*e.then_expr)),
            Box::new(expr_view(*e.else_expr)),
        ),
        Expr::RegexpLike(e) => ExprView::RegexpLike(
            e.pattern_src@,
            e.pattern,
            Box::new(expr_view(*e.subject)),
        ),
    }
}

impl View for Expr {
    type V = ExprView;

    open spec fn view(&self) -> ExprView {
        expr_view(*self)
    }
}

/// Every occurrence of a variable in an expression, from left to right.
pub open spec fn occurrences(expr: ExprView) -> Seq<Name>
    decreases expr,
{
    match expr {
        ExprView::Literal(_) => Seq::empty(),
        ExprView::Variable(v) => seq![v],
        ExprView::Binary(_, left, right) => occurrences(*left) + occurrences(*right),
        ExprView::Unary(_, operand) => occurrences(*operand),
        ExprView::If(condition, then_expr, else_expr) => occurrences(*condition) + occurrences(
            *then_expr,
        ) + occurrences(*else_expr),
        ExprView::RegexpLike(_, _, subject) => occurrences(*subject),
    }
}

/// The variables of an expression, each once, in the order of their first occurrence.
pub open spec fn variables_of(expr: ExprView) -> Seq<Name> {
    with_new(Seq::empty(), occurrences(expr))
}

/// Adds a variable that a list lacks.
pub fn add_new(out: &mut Vec<Variable>, v: &Variable)
    ensures
        final(out).deep_view() == with_new(old(out).deep_view(), seq![v@]),
{
    let ghost names = out.deep_view();
    proof {
        assert(seq![v@].drop_last() =~= Seq::<Name>::empty());
        assert(with_new(names, Seq::empty()) == names);
    }
    if !variable::contains(out, v) {
        let copy = v.clone();
        let ghost earlier = *out;
        out.push(copy);
        proof {
            crate::byte_string::lemma_deep_push(earlier, *out, copy);
        }
    }
}

/// Adds the variables that a list lacks.
pub fn add_all_new(out: &mut Vec<Variable>, more: &[Variable])
    ensures
        final(out).deep_view() == with_new(old(out).deep_view(), more.deep_view()),
{
    let ghost names = out.deep_view();
    let mut i: usize = 0;
    while i < more.len()
        invariant
            i <= more@.len(),
            out.deep_view() == with_new(names, more.deep_view().take(i as int)),
        decreases more@.len() - i,
    {
        add_new(out, &more[i]);
        proof {
            lemma_with_new_split(
                names,
                more.deep_view().take(i as int),
                seq![more.deep_view()[i as int]],
            );
            assert(more.deep_view().take(i as int) + seq![more.deep_view()[i as int]]
                =~= more.deep_view().take(i + 1));
        }
        i += 1;
    }
    assert(more.deep_view().take(i as int) =~= more.deep_view());
}

/// Adding two lists is adding one after the other.
pub proof fn lemma_with_new_split<A>(names: Seq<A>, a: Seq<A>, b: Seq<A>)
    ensures
        with_new(names, a + b) == with_new(with_new(names, a), b),
    decreases b.len(),
{
    if b.len() == 0 {
        assert(a + b =~= a);
    } else {
        assert((a + b).drop_last() =~= a + b.drop_last());
        lemma_with_new_split(names, a, b.drop_last());
    }
}

/// Adding new elements keeps a list distinct, keeps what it held in front, and brings in
/// exactly the new elements.
pub proof fn lemma_with_new<A>(names: Seq<A>, more: Seq<A>)
    ensures
        variable::unique(names) ==> variable::unique(with_new(names, more)),
        with_new(names, more).len() >= names.len(),
        with_new(names, more).take(names.len() as int) == names,
        forall|x: A|
            #![trigger with_new(names, more).contains(x)]
            with_new(names, more).contains(x) == (names.contains(x) || more.contains(x)),
    decreases more.len(),
{
    if more.len() == 0 {
        assert(names.take(names.len() as int) =~= names);
    } else {
        let earlier = with_new(names, more.drop_last());
        let last = more.last();
        lemma_with_new(names, more.drop_last());
        if !earlier.contains(last) {
            if variable::unique(names) {
                crate::query::binding_bag::lemma_unique_push(earlier, last);
            }
            assert(earlier.push(last).take(names.len() as int) =~= names) by {
                assert(earlier.take(names.len() as int) =~= names);
            }
        }
        assert forall|x: A|
            #![trigger with_new(names, more).contains(x)]
            with_new(names, more).contains(x) == (names.contains(x) || more.contains(x)) by {
            crate::query::binding_bag::lemma_contains_split(more, x);
            if !earlier.contains(last) {
                crate::query::binding_bag::lemma_contains_split(earlier.push(last), x);
                assert(earlier.push(last).drop_last() =~= earlier);
            }
        }
    }
}

/// Adds the variables of an expression that a list lacks.
fn collect(expr: &Expr, out: &mut Vec<Variable>)
    ensures
        final(out).deep_view() == with_new(old(out).deep_view(), occurrences(expr@)),
    decreases *expr,
{
    let ghost names = out.deep_view();
    match expr {
        Expr::Literal(_) => {},
        Expr::Variable(v) => {
            add_new(out, v);
        },
        Expr::BinaryExpr(e) => {
            collect(&e.left, out);
            collect(&e.right, out);
            proof {
                lemma_with_new_split(names, occurrences(e.left@), occurrences(e.right@));
            }
        },
        Expr::UnaryExpr(e) => {
            collect(&e.operand, out);
        },
        Expr::IfExpr(e) => {
            collect(&e.condition, out);
            collect(&e.then_expr, out);
            collect(&e.else_expr, out);
            proof {
                let first = occurrences(e.condition@);
                let second = occurrences(e.then_expr@);
                lemma_with_new_split(names, first, second);
                lemma_with_new_split(names, first + second, occurrences(e.else_expr@));
            }
        },
        Expr::RegexpLike(e) => {
            collect(&e.subject, out);
        },
    }
}

/// The variables of an expression, each once, in the order of their first occurrence.
pub fn expr_variables(expr: &Expr) -> (r: Vec<Variable>)
    ensures
        r.deep_view() == variables_of(expr@),
{
    let mut out: Vec<Variable> = Vec::new();
    assert(out.deep_view() =~= Seq::<Name>::empty());
    collect(expr, &mut out);
    out
}

/// Whether a variable stands somewhere in an expression.
pub open spec fn mentions(expr: Expr, x: Name) -> bool
    decreases expr,
{
    match expr {
        Expr::Literal(_) => false,
        Expr::Variable(v) => v.name@ == x,
        Expr::BinaryExpr(e) => mentions(*e.left, x) || mentions(*e.right, x),
        Expr::UnaryExpr(e) => mentions(*e.operand, x),
        Expr::IfExpr(e) => mentions(*e.condition, x) || mentions(*e.then_expr, x) || mentions(
            *e.else_expr,
            x,
        ),
        Expr::RegexpLike(e) => mentions(*e.subject, x),
    }
}

/// The variables that occur are those that stand in the expression.
proof fn lemma_mentions(expr: Expr, x: Name)
    ensures
        occurrences(expr@).contains(x) == mentions(expr, x),
    decreases expr,
{
    match expr {
        Expr::Literal(_) => {
            assert(!Seq::<Name>::empty().contains(x));
        },
        Expr::Variable(v) => {
            assert(seq![v@][0] == v@);
        },
        Expr::BinaryExpr(e) => {
            lemma_mentions(*e.left, x);
            lemma_mentions(*e.right, x);
            crate::query::plan::lemma_concat_contains(
                occurrences(e.left@),
                occurrences(e.right@),
                x,
            );
        },
        Expr::UnaryExpr(e) => {
            lemma_mentions(*e.operand, x);
        },
        Expr::IfExpr(e) => {
            lemma_mentions(*e.condition, x);
            lemma_mentions(*e.then_expr, x);
            lemma_mentions(*e.else_expr, x);
            let a = occurrences(e.condition@);
            let b = occurrences(e.then_expr@);
            let c = occurrences(e.else_expr@);
            crate::query::plan::lemma_concat_contains(a, b, x);
            crate::query::plan::lemma_concat_contains(a + b, c, x);
        },
        Expr::RegexpLike(e) => {
            lemma_mentions(*e.subject, x);
        },
    }
}

/// The variables of an expression are those that stand in it, each once.
pub proof fn law_variables_of_an_expression(expr: Expr, r: Vec<Variable>, x: Name)
    requires
        call_ensures(expr_variables, (&expr,), r),
    ensures
        variable::unique(r.deep_view()),
        r.deep_view().contains(x) == mentions(expr, x),
{
    lemma_with_new(Seq::<Name>::empty(), occurrences(expr@));
    lemma_mentions(expr, x);
    assert(!Seq::<Name>::empty().contains(x));
    assert(with_new(Seq::<Name>::empty(), occurrences(expr@)).contains(x) == (Seq::<
        Name,
    >::empty().contains(x) || occurrences(expr@).contains(x)));
}

} // verus!
