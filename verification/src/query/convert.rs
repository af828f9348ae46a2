//! From the clauses of a query to expressions, values and the order of its variables.

use vstd::prelude::*;

use crate::byte_string;
use crate::error::{self, Error, ErrorView};
use crate::expr::{
    self, add_all_new, expr_variables, BinaryExpr, BinaryOp, Expr, ExprView, IfExpr,
    RegexpLikeExpr, UnaryExpr, UnaryOp,
};
use crate::query::ast::{
    Binding, ConstantView, FnArg, NonIntegerConstant, OrWhereClause, Pattern,
    PatternNonValuePlace, PatternValuePlace, PatternView, PlaceView, Predicate, WhereClause,
    WhereFn,
};
use crate::value::{DataType, Keyword, Value};
use crate::variable::{Name, Variable};

verus! {

/// The compiled form of a regular expression, or why it cannot be compiled.
pub uninterp spec fn compiled(pattern: Seq<char>) -> Result<regex::Regex, Seq<char>>;

/// Compiles a regular expression with `regex::Regex::new`. What it gives, or the text of its
/// error, depends on the pattern alone. The limit on the compiled size counts machine words, so
/// that a pattern close to the limit is one for machines of the same word size only.
#[verifier::external_body]
fn compile_regex(pattern: &str) -> (r: Result<regex::Regex, String>)
    ensures
        match r {
            Ok(regex) => compiled(pattern@) == Ok::<regex::Regex, Seq<char>>(regex),
            Err(cause) => compiled(pattern@) == Err::<regex::Regex, Seq<char>>(cause@),
        },
{
    match regex::Regex::new(pattern) {
        Ok(regex) => Ok(regex),
        Err(error) => Err(error.to_string()),
    }
}

/// Whether two texts are the same.
pub fn same_text(a: &str, b: &str) -> (r: bool)
    ensures
        r == (a@ == b@),
{
    a.to_owned() == b.to_owned()
}

/// A function whose result is bound to a variable.
#[derive(Debug)]
pub struct FnExpr {
    pub expr: Expr,
    pub output: Variable,
}

impl FnExpr {
    /// The variables that the function reads.
    pub fn input_variables(&self) -> (r: Vec<Variable>)
        ensures
            r.deep_view() == expr::variables_of(self.expr@),
    {
        expr_variables(&self.expr)
    }
}

/// The variables of a pattern: entity, attribute, value.
pub open spec fn pattern_names(p: PatternView) -> Seq<Name> {
    place_names(p.entity) + place_names(p.attribute) + place_names(p.value)
}

/// The variable that stands in a position, if one does.
pub open spec fn place_names(place: PlaceView) -> Seq<Name> {
    match place {
        PlaceView::Variable(v) => seq![v],
        _ => Seq::empty(),
    }
}

/// Adds a variable at the end of a list.
fn push_variable(out: &mut Vec<Variable>, v: &Variable)
    ensures
        final(out).deep_view() == old(out).deep_view().push(v@),
{
    let copy = v.clone();
    let ghost earlier = *out;
    out.push(copy);
    proof {
        byte_string::lemma_deep_push(earlier, *out, copy);
    }
}

/// The variables of a pattern: entity, attribute, value.
pub fn pattern_variables(pattern: &Pattern) -> (r: Vec<Variable>)
    ensures
        r.deep_view() == pattern_names(pattern@),
{
    let mut vars: Vec<Variable> = Vec::new();
    assert(vars.deep_view() =~= Seq::<Name>::empty());
    if let PatternNonValuePlace::Variable(v) = &pattern.entity {
        push_variable(&mut vars, v);
    }
    assert(vars.deep_view() =~= place_names(pattern@.entity));
    if let PatternNonValuePlace::Variable(v) = &pattern.attribute {
        push_variable(&mut vars, v);
    }
    assert(vars.deep_view() =~= place_names(pattern@.entity) + place_names(pattern@.attribute));
    if let PatternValuePlace::Variable(v) = &pattern.value {
        push_variable(&mut vars, v);
    }
    assert(vars.deep_view() =~= pattern_names(pattern@));
    vars
}

/// The names of attributes, each with the attribute's number.
pub type IdentMap = Vec<(Keyword, i64)>;

/// The number of the attribute of that name: of entries with the same name the first counts.
pub open spec fn attribute_of(idents: Seq<(Keyword, i64)>, name: Seq<char>) -> Option<i64>
    decreases idents.len(),
{
    if idents.len() == 0 {
        None
    } else if idents[0].0@ == name {
        Some(idents[0].1)
    } else {
        attribute_of(idents.drop_first(), name)
    }
}

/// What an attribute position stands for.
pub open spec fn resolved(place: PlaceView, idents: Seq<(Keyword, i64)>) -> Result<i64, ErrorView> {
    match place {
        PlaceView::Ident(name) => match attribute_of(idents, name) {
            Some(id) => Ok(id),
            None => Err(ErrorView::UnknownAttribute(name)),
        },
        PlaceView::Number(id) => Ok(id),
        _ => Err(ErrorView::NotAnAttribute),
    }
}

/// The number of the attribute that stands in the attribute position of a pattern.
pub fn resolve_attribute_from_pattern(
    attr: &PatternNonValuePlace,
    ident_map: &[(Keyword, i64)],
) -> (r: Result<i64, Error>)
    ensures
        error::told(r) == resolved(attr@, ident_map@),
{
    match attr {
        PatternNonValuePlace::Ident(name) => {
            let mut i: usize = 0;
            assert(ident_map@.skip(0) =~= ident_map@);
            while i < ident_map.len()
                invariant
                    i <= ident_map@.len(),
                    attr@ == PlaceView::Ident(name@),
                    attribute_of(ident_map@, name@) == attribute_of(
                        ident_map@.skip(i as int),
                        name@,
                    ),
                decreases ident_map@.len() - i,
            {
                assert(ident_map@.skip(i as int).drop_first() =~= ident_map@.skip(i + 1));
                if ident_map[i].0.same(name) {
                    return Ok(ident_map[i].1);
                }
                i += 1;
            }
            Err(Error::UnknownAttribute(name.name.clone()))
        },
        PatternNonValuePlace::Entid(id) => Ok(*id),
        _ => Err(Error::NotAnAttribute),
    }
}

/// The value of a constant, if it has one.
pub open spec fn constant_value(c: ConstantView) -> Option<Value> {
    match c {
        ConstantView::Boolean(x) => Some(Value::Boolean(x)),
        ConstantView::BigInteger(x) => Some(Value::BigInt(x)),
        ConstantView::HugeInteger(_) => None,
        ConstantView::Float(x) => Some(Value::Double(x)),
        ConstantView::Text(x) => Some(Value::String(x)),
        ConstantView::Instant(x) => Some(Value::Instant(x)),
        ConstantView::Uuid(x) => Some(Value::Uuid(x)),
    }
}

/// The constant value in a position, if one stands there.
pub open spec fn place_value(place: PlaceView) -> Option<Value> {
    match place {
        PlaceView::Placeholder => None,
        PlaceView::Variable(_) => None,
        PlaceView::Number(x) => Some(Value::Long(x)),
        PlaceView::Ident(k) => Some(Value::Keyword(k)),
        PlaceView::Constant(c) => constant_value(c),
    }
}

/// What an optional value is.
pub open spec fn value_view(v: Option<DataType>) -> Option<Value> {
    match v {
        Some(x) => Some(x@),
        None => None,
    }
}

/// The constant value in an entity or attribute position, if one stands there.
pub fn non_value_place_to_datatype(place: &PatternNonValuePlace) -> (r: Option<DataType>)
    ensures
        value_view(r) == place_value(place@),
{
    match place {
        PatternNonValuePlace::Entid(id) => Some(DataType::Long(*id)),
        PatternNonValuePlace::Ident(name) => Some(DataType::Keyword(name.clone())),
        _ => None,
    }
}

/// The constant value in a value position, if one stands there.
pub fn value_place_to_datatype(place: &PatternValuePlace) -> (r: Option<DataType>)
    ensures
        value_view(r) == place_value(place@),
{
    match place {
        PatternValuePlace::EntidOrInteger(i) => Some(DataType::Long(*i)),
        PatternValuePlace::IdentOrKeyword(name) => Some(DataType::Keyword(name.clone())),
        PatternValuePlace::Constant(c) => non_integer_constant_to_datatype(c),
        _ => None,
    }
}

/// The value of a constant, if it has one: a big integer has one where it fits in 128 bits.
pub fn non_integer_constant_to_datatype(c: &NonIntegerConstant) -> (r: Option<DataType>)
    ensures
        value_view(r) == constant_value(c@),
{
    match c {
        NonIntegerConstant::Boolean(b) => Some(DataType::Boolean(*b)),
        NonIntegerConstant::BigInteger(x) => Some(DataType::BigInt(*x)),
        NonIntegerConstant::HugeInteger(_) => None,
        NonIntegerConstant::Float(f) => Some(DataType::Double(*f)),
        NonIntegerConstant::Text(s) => Some(DataType::String(s.clone())),
        NonIntegerConstant::Instant(x) => Some(DataType::Instant(*x)),
        NonIntegerConstant::Uuid(x) => Some(DataType::Uuid(*x)),
    }
}

/// The operator of two operands with that name.
pub open spec fn binary_op(name: Seq<char>) -> Option<BinaryOp> {
    if name == "<"@ {
        Some(BinaryOp::Lt)
    } else if name == "<="@ {
        Some(BinaryOp::LtEq)
    } else if name == ">"@ {
        Some(BinaryOp::Gt)
    } else if name == ">="@ {
        Some(BinaryOp::GtEq)
    } else if name == "="@ {
        Some(BinaryOp::Eq)
    } else if name == "not="@ || name == "!="@ {
        Some(BinaryOp::NotEq)
    } else if name == "+"@ {
        Some(BinaryOp::Add)
    } else if name == "-"@ {
        Some(BinaryOp::Sub)
    } else if name == "*"@ {
        Some(BinaryOp::Mul)
    } else if name == "/"@ || name == "quot"@ {
        Some(BinaryOp::Div)
    } else if name == "mod"@ {
        Some(BinaryOp::Mod)
    } else if name == "concat"@ {
        Some(BinaryOp::Concat)
    } else {
        None
    }
}

/// The operator of one operand with that name.
pub open spec fn unary_op(name: Seq<char>) -> Option<UnaryOp> {
    if name == "not"@ {
        Some(UnaryOp::Not)
    } else if name == "abs"@ {
        Some(UnaryOp::Abs)
    } else if name == "upper"@ {
        Some(UnaryOp::Upper)
    } else if name == "lower"@ {
        Some(UnaryOp::Lower)
    } else if name == "strlen"@ {
        Some(UnaryOp::Strlen)
    } else if name == "str"@ {
        Some(UnaryOp::Str)
    } else if name == "year"@ {
        Some(UnaryOp::Year)
    } else if name == "month"@ {
        Some(UnaryOp::Month)
    } else {
        None
    }
}

/// The operator of two operands with that name.
pub fn convert_binary_op(name: &str) -> (r: Result<BinaryOp, Error>)
    ensures
        match r {
            Ok(op) => binary_op(name@) == Some(op),
            Err(e) => e@ == ErrorView::UnsupportedOperator(name@) && binary_op(name@) is None,
        },
{
    if same_text(name, "<") {
        Ok(BinaryOp::Lt)
    } else if same_text(name, "<=") {
        Ok(BinaryOp::LtEq)
    } else if same_text(name, ">") {
        Ok(BinaryOp::Gt)
    } else if same_text(name, ">=") {
        Ok(BinaryOp::GtEq)
    } else if same_text(name, "=") {
        Ok(BinaryOp::Eq)
    } else if same_text(name, "not=") || same_text(name, "!=") {
        Ok(BinaryOp::NotEq)
    } else if same_text(name, "+") {
        Ok(BinaryOp::Add)
    } else if same_text(name, "-") {
        Ok(BinaryOp::Sub)
    } else if same_text(name, "*") {
        Ok(BinaryOp::Mul)
    } else if same_text(name, "/") || same_text(name, "quot") {
        Ok(BinaryOp::Div)
    } else if same_text(name, "mod") {
        Ok(BinaryOp::Mod)
    } else if same_text(name, "concat") {
        Ok(BinaryOp::Concat)
    } else {
        Err(Error::UnsupportedOperator(name.to_owned()))
    }
}

/// The operator of one operand with that name.
pub fn convert_unary_op(name: &str) -> (r: Result<UnaryOp, Error>)
    ensures
        match r {
            Ok(op) => unary_op(name@) == Some(op),
            Err(e) => e@ == ErrorView::UnsupportedUnary(name@) && unary_op(name@) is None,
        },
{
    if same_text(name, "not") {
        Ok(UnaryOp::Not)
    } else if same_text(name, "abs") {
        Ok(UnaryOp::Abs)
    } else if same_text(name, "upper") {
        Ok(UnaryOp::Upper)
    } else if same_text(name, "lower") {
        Ok(UnaryOp::Lower)
    } else if same_text(name, "strlen") {
        Ok(UnaryOp::Strlen)
    } else if same_text(name, "str") {
        Ok(UnaryOp::Str)
    } else if same_text(name, "year") {
        Ok(UnaryOp::Year)
    } else if same_text(name, "month") {
        Ok(UnaryOp::Month)
    } else {
        Err(Error::UnsupportedUnary(name.to_owned()))
    }
}

/// The expression of an argument.
pub open spec fn converted(arg: FnArg) -> Result<ExprView, ErrorView>
    decreases arg,
{
    match arg {
        FnArg::Variable(v) => Ok(ExprView::Variable(v@)),
        FnArg::EntidOrInteger(i) => Ok(ExprView::Literal(Value::Long(i))),
        FnArg::IdentOrKeyword(k) => Ok(ExprView::Literal(Value::Keyword(k@))),
        FnArg::Constant(c) => match constant_value(c@) {
            Some(value) => Ok(ExprView::Literal(value)),
            None => Err(ErrorView::UnsupportedConstant),
        },
        FnArg::SExpr(name, args) => converted_call(name@, args@),
        FnArg::Unsupported(_) => Err(ErrorView::UnsupportedArgument),
    }
}

/// The expression of a call. The first argument without an expression decides the error.
pub open spec fn converted_call(name: Seq<char>, args: Seq<FnArg>) -> Result<ExprView, ErrorView>
    decreases args,
{
    if name == "regexp_like"@ {
        if args.len() != 2 {
            Err(ErrorView::RegexpArguments(args.len() as usize))
        } else {
            match converted(args[0]) {
                Err(e) => Err(e),
                Ok(subject) => match text_literal(args[1]) {
                    None => Err(ErrorView::PatternNotLiteral),
                    Some(text) => match compiled(text) {
                        Err(cause) => Err(ErrorView::InvalidRegex(text, cause)),
                        Ok(regex) => Ok(ExprView::RegexpLike(text, regex, Box::new(subject))),
                    },
                },
            }
        }
    } else if name == "if"@ {
        if args.len() != 3 {
            Err(ErrorView::IfArguments(args.len() as usize))
        } else {
            match (converted(args[0]), converted(args[1]), converted(args[2])) {
                (Ok(a), Ok(b), Ok(c)) => Ok(ExprView::If(Box::new(a), Box::new(b), Box::new(c))),
                (Err(e), _, _) => Err(e),
                (_, Err(e), _) => Err(e),
                (_, _, Err(e)) => Err(e),
            }
        }
    } else if args.len() == 2 && binary_op(name) is Some {
        match (converted(args[0]), converted(args[1])) {
            (Ok(a), Ok(b)) => Ok(
                ExprView::Binary(binary_op(name).unwrap(), Box::new(a), Box::new(b)),
            ),
            (Err(e), _) => Err(e),
            (_, Err(e)) => Err(e),
        }
    } else if args.len() == 1 && unary_op(name) is Some {
        match converted(args[0]) {
            Ok(a) => Ok(ExprView::Unary(unary_op(name).unwrap(), Box::new(a))),
            Err(e) => Err(e),
        }
    } else {
        Err(ErrorView::UnsupportedFunction(name, args.len() as usize))
    }
}

/// The text of an argument that is a text literal.
pub open spec fn text_literal(arg: FnArg) -> Option<Seq<char>> {
    match arg {
        FnArg::Constant(NonIntegerConstant::Text(s)) => Some(s@),
        _ => None,
    }
}

/// What a converted expression is.
pub open spec fn outcome(r: Result<Expr, Error>) -> Result<ExprView, ErrorView> {
    match r {
        Ok(e) => Ok(e@),
        Err(e) => Err(e@),
    }
}

/// The text of an argument that is a text literal.
fn fn_arg_as_text_literal(arg: &FnArg) -> (r: Option<&str>)
    ensures
        match r {
            Some(s) => text_literal(*arg) == Some(s@),
            None => text_literal(*arg) is None,
        },
{
    match arg {
        FnArg::Constant(NonIntegerConstant::Text(s)) => Some(s.as_str()),
        _ => None,
    }
}

/// The expression of an argument.
pub fn convert_fn_arg(arg: &FnArg) -> (r: Result<Expr, Error>)
    ensures
        outcome(r) == converted(*arg),
    decreases *arg,
{
    match arg {
        FnArg::Variable(v) => Ok(Expr::Variable(v.clone())),
        FnArg::EntidOrInteger(i) => Ok(Expr::Literal(DataType::Long(*i))),
        FnArg::IdentOrKeyword(name) => Ok(Expr::Literal(DataType::Keyword(name.clone()))),
        FnArg::Constant(c) => match non_integer_constant_to_datatype(c) {
            Some(value) => Ok(Expr::Literal(value)),
            None => Err(Error::UnsupportedConstant),
        },
        FnArg::SExpr(name, args) => convert_sexpr(name.as_str(), args),
        FnArg::Unsupported(_) => Err(Error::UnsupportedArgument),
    }
}

/// The expression of a match of a regular expression: the first argument is the subject, the
/// second the pattern, a text literal that is compiled here.
fn build_regexp_like(args: &Vec<FnArg>) -> (r: Result<Expr, Error>)
    ensures
        outcome(r) == converted_call("regexp_like"@, args@),
    decreases args@, 0int,
{
    if args.len() != 2 {
        return Err(Error::RegexpArguments(args.len()));
    }
    let subject = match convert_fn_arg(&args[0]) {
        Ok(subject) => subject,
        Err(e) => {
            return Err(e);
        },
    };
    let pattern_src = match fn_arg_as_text_literal(&args[1]) {
        Some(text) => text,
        None => {
            return Err(Error::PatternNotLiteral);
        },
    };
    let pattern = match compile_regex(pattern_src) {
        Ok(pattern) => pattern,
        Err(cause) => {
            return Err(Error::InvalidRegex(pattern_src.to_owned(), cause));
        },
    };
    Ok(
        Expr::RegexpLike(
            RegexpLikeExpr {
                pattern_src: pattern_src.to_owned(),
                pattern,
                subject: Box::new(subject),
            },
        ),
    )
}

/// The expression of a call.
pub fn convert_sexpr(op_name: &str, args: &Vec<FnArg>) -> (r: Result<Expr, Error>)
    ensures
        outcome(r) == converted_call(op_name@, args@),
    decreases args@, 1int,
{
    if same_text(op_name, "regexp_like") {
        return build_regexp_like(args);
    }
    if same_text(op_name, "if") {
        if args.len() != 3 {
            return Err(Error::IfArguments(args.len()));
        }
        let condition = match convert_fn_arg(&args[0]) {
            Ok(e) => e,
            Err(e) => {
                return Err(e);
            },
        };
        let then_expr = match convert_fn_arg(&args[1]) {
            Ok(e) => e,
            Err(e) => {
                return Err(e);
            },
        };
        let else_expr = match convert_fn_arg(&args[2]) {
            Ok(e) => e,
            Err(e) => {
                return Err(e);
            },
        };
        return Ok(
            Expr::IfExpr(
                IfExpr {
                    condition: Box::new(condition),
                    then_expr: Box::new(then_expr),
                    else_expr: Box::new(else_expr),
                },
            ),
        );
    }
    if args.len() == 2 {
        if let Ok(op) = convert_binary_op(op_name) {
            let left = match convert_fn_arg(&args[0]) {
                Ok(e) => e,
                Err(e) => {
                    return Err(e);
                },
            };
            let right = match convert_fn_arg(&args[1]) {
                Ok(e) => e,
                Err(e) => {
                    return Err(e);
                },
            };
            return Ok(
                Expr::BinaryExpr(BinaryExpr { left: Box::new(left), op, right: Box::new(right) }),
            );
        }
    }
    if args.len() == 1 {
        if let Ok(op) = convert_unary_op(op_name) {
            let operand = match convert_fn_arg(&args[0]) {
                Ok(e) => e,
                Err(e) => {
                    return Err(e);
                },
            };
            return Ok(Expr::UnaryExpr(UnaryExpr { op, operand: Box::new(operand) }));
        }
    }
    Err(Error::UnsupportedFunction(op_name.to_owned(), args.len()))
}

/// The expression of a predicate.
pub fn convert_predicate(pred: &Predicate) -> (r: Result<Expr, Error>)
    ensures
        outcome(r) == converted(pred.expr),
{
    convert_fn_arg(&pred.expr)
}

/// Whether an argument is itself a match of a regular expression.
pub open spec fn direct_regexp_like(arg: FnArg) -> bool {
    arg matches FnArg::SExpr(name, _) && name@ == "regexp_like"@
}

/// The expression and the output of a function clause. Only a single variable can be bound,
/// and a match of a regular expression is a condition, not a value.
pub open spec fn converted_fn(wf: WhereFn) -> Result<(ExprView, Name), ErrorView> {
    if direct_regexp_like(wf.expr) {
        Err(ErrorView::PredicateAsFunction)
    } else {
        match converted(wf.expr) {
            Err(e) => Err(e),
            Ok(expr) => match wf.binding {
                Binding::BindScalar(v) => Ok((expr, v@)),
                _ => Err(ErrorView::UnsupportedBinding),
            },
        }
    }
}

/// The function of a function clause.
pub fn convert_where_fn(wf: &WhereFn) -> (r: Result<FnExpr, Error>)
    ensures
        match r {
            Ok(f) => converted_fn(*wf) == Ok::<(ExprView, Name), ErrorView>((f.expr@, f.output@)),
            Err(e) => converted_fn(*wf) == Err::<(ExprView, Name), ErrorView>(e@),
        },
{
    if let FnArg::SExpr(name, _) = &wf.expr {
        if same_text(name.as_str(), "regexp_like") {
            return Err(Error::PredicateAsFunction);
        }
    }
    let expr = match convert_fn_arg(&wf.expr) {
        Ok(expr) => expr,
        Err(e) => {
            return Err(e);
        },
    };
    match &wf.binding {
        Binding::BindScalar(v) => Ok(FnExpr { expr, output: v.clone() }),
        _ => Err(Error::UnsupportedBinding),
    }
}

/// The variables that a clause contributes: those of a pattern, those of the first branch of a
/// disjunction, the variable that a function binds.
pub open spec fn clause_names(clause: WhereClause) -> Seq<Name>
    decreases clause, 1int,
{
    match clause {
        WhereClause::Pattern(p) => pattern_names(p@),
        WhereClause::OrJoin(or) => if or.clauses@.len() == 0 {
            Seq::empty()
        } else {
            branch_names(or.clauses@[0])
        },
        WhereClause::WhereFn(f) => match f.binding {
            Binding::BindScalar(v) => seq![v@],
            _ => Seq::empty(),
        },
        _ => Seq::empty(),
    }
}

/// The variables that a branch of a disjunction contributes.
pub open spec fn branch_names(branch: OrWhereClause) -> Seq<Name>
    decreases branch, 1int,
{
    match branch {
        OrWhereClause::Clause(c) => clause_names(c),
        OrWhereClause::And(children) => all_clause_names(children@),
    }
}

/// The variables that clauses contribute, one after another.
pub open spec fn all_clause_names(clauses: Seq<WhereClause>) -> Seq<Name>
    decreases clauses, 0int,
{
    if clauses.len() == 0 {
        Seq::empty()
    } else {
        all_clause_names(clauses.drop_last()) + clause_names(clauses.last())
    }
}

/// The variables that a branch of a disjunction contributes.
pub fn collect_variables_from_or_branch(branch: &OrWhereClause) -> (r: Vec<Variable>)
    ensures
        r.deep_view() == branch_names(*branch),
    decreases *branch, 1int,
{
    match branch {
        OrWhereClause::Clause(clause) => collect_variables_from_clause(clause),
        OrWhereClause::And(children) => collect_variables_from_clauses(children),
    }
}

/// The variables that clauses contribute, one after another.
pub fn collect_variables_from_clauses(clauses: &Vec<WhereClause>) -> (r: Vec<Variable>)
    ensures
        r.deep_view() == all_clause_names(clauses@),
    decreases clauses@, 0int,
{
    let mut out: Vec<Variable> = Vec::new();
    let mut i: usize = 0;
    assert(out.deep_view() =~= all_clause_names(clauses@.take(0)));
    while i < clauses.len()
        invariant
            i <= clauses@.len(),
            out.deep_view() == all_clause_names(clauses@.take(i as int)),
        decreases clauses@.len() - i,
    {
        let mut more = collect_variables_from_clause(&clauses[i]);
        let ghost head = out;
        let ghost tail = more;
        out.append(&mut more);
        proof {
            assert(out.deep_view() =~= head.deep_view() + tail.deep_view());
            assert(clauses@.take(i + 1).drop_last() =~= clauses@.take(i as int));
        }
        i += 1;
    }
    assert(clauses@.take(i as int) =~= clauses@);
    out
}

/// The variables that a clause contributes. A negation and a condition contribute none.
pub fn collect_variables_from_clause(clause: &WhereClause) -> (r: Vec<Variable>)
    ensures
        r.deep_view() == clause_names(*clause),
    decreases *clause, 1int,
{
    match clause {
        WhereClause::Pattern(pattern) => pattern_variables(pattern),
        WhereClause::OrJoin(or) => if or.clauses.len() > 0 {
            collect_variables_from_or_branch(&or.clauses[0])
        } else {
            let none: Vec<Variable> = Vec::new();
            assert(none.deep_view() =~= Seq::<Name>::empty());
            none
        },
        WhereClause::WhereFn(wf) => {
            let mut out: Vec<Variable> = Vec::new();
            assert(out.deep_view() =~= Seq::<Name>::empty());
            if let Binding::BindScalar(v) = &wf.binding {
                push_variable(&mut out, v);
                assert(out.deep_view() =~= seq![v@]);
            }
            out
        },
        _ => {
            let none: Vec<Variable> = Vec::new();
            assert(none.deep_view() =~= Seq::<Name>::empty());
            none
        },
    }
}

/// The variables among optional ones, in order.
pub open spec fn present(list: Seq<Option<Variable>>) -> Seq<Name>
    decreases list.len(),
{
    if list.len() == 0 {
        Seq::empty()
    } else {
        match list.last() {
            Some(v) => present(list.drop_last()).push(v@),
            None => present(list.drop_last()),
        }
    }
}

/// The variables that a binding binds.
pub open spec fn binding_names(b: Binding) -> Seq<Name> {
    match b {
        Binding::BindScalar(v) => seq![v@],
        Binding::BindColl(v) => seq![v@],
        Binding::BindTuple(vs) => present(vs@),
        Binding::BindRel(vs) => present(vs@),
    }
}

/// The variables that bindings bind, one after another.
pub open spec fn all_binding_names(bs: Seq<Binding>) -> Seq<Name>
    decreases bs.len(),
{
    if bs.len() == 0 {
        Seq::empty()
    } else {
        all_binding_names(bs.drop_last()) + binding_names(bs.last())
    }
}

/// The variables that the function clauses (`wanted`), or the other clauses, contribute.
pub open spec fn grouped_names(clauses: Seq<WhereClause>, wanted: bool) -> Seq<Name>
    decreases clauses.len(),
{
    if clauses.len() == 0 {
        Seq::empty()
    } else if (clauses.last() is WhereFn) == wanted {
        grouped_names(clauses.drop_last(), wanted) + clause_names(clauses.last())
    } else {
        grouped_names(clauses.drop_last(), wanted)
    }
}

/// The order of a query's variables: those of the inputs, then those of the clauses that are
/// no functions, then those that functions bind; each where it first occurs.
pub open spec fn variable_order(bindings: Seq<Binding>, clauses: Seq<WhereClause>) -> Seq<Name> {
    expr::with_new(
        expr::with_new(
            expr::with_new(Seq::empty(), all_binding_names(bindings)),
            grouped_names(clauses, false),
        ),
        grouped_names(clauses, true),
    )
}

/// The variables among optional ones, in order.
fn present_of(list: &Vec<Option<Variable>>) -> (r: Vec<Variable>)
    ensures
        r.deep_view() == present(list@),
{
    let mut out: Vec<Variable> = Vec::new();
    let mut i: usize = 0;
    assert(out.deep_view() =~= present(list@.take(0)));
    while i < list.len()
        invariant
            i <= list@.len(),
            out.deep_view() == present(list@.take(i as int)),
        decreases list@.len() - i,
    {
        assert(list@.take(i + 1).drop_last() =~= list@.take(i as int));
        if let Some(v) = &list[i] {
            push_variable(&mut out, v);
        }
        i += 1;
    }
    assert(list@.take(i as int) =~= list@);
    out
}

impl Binding {
    /// The variables that the binding binds.
    pub fn variables(&self) -> (r: Vec<Variable>)
        ensures
            r.deep_view() == binding_names(*self),
    {
        let mut out: Vec<Variable> = Vec::new();
        assert(out.deep_view() =~= Seq::<Name>::empty());
        match self {
            Binding::BindScalar(v) => {
                push_variable(&mut out, v);
                assert(out.deep_view() =~= seq![v@]);
                out
            },
            Binding::BindColl(v) => {
                push_variable(&mut out, v);
                assert(out.deep_view() =~= seq![v@]);
                out
            },
            Binding::BindTuple(vs) => present_of(vs),
            Binding::BindRel(vs) => present_of(vs),
        }
    }
}

/// Adds the variables that the function clauses (`wanted`), or the other clauses, contribute.
fn add_group(order: &mut Vec<Variable>, where_clauses: &[WhereClause], wanted: bool)
    ensures
        final(order).deep_view() == expr::with_new(
            old(order).deep_view(),
            grouped_names(where_clauses@, wanted),
        ),
{
    let ghost start = order.deep_view();
    let mut i: usize = 0;
    while i < where_clauses.len()
        invariant
            i <= where_clauses@.len(),
            order.deep_view() == expr::with_new(
                start,
                grouped_names(where_clauses@.take(i as int), wanted),
            ),
        decreases where_clauses@.len() - i,
    {
        assert(where_clauses@.take(i + 1).drop_last() =~= where_clauses@.take(i as int));
        let is_function = match &where_clauses[i] {
            WhereClause::WhereFn(_) => true,
            _ => false,
        };
        if is_function == wanted {
            let more = collect_variables_from_clause(&where_clauses[i]);
            add_all_new(order, &more);
            proof {
                expr::lemma_with_new_split(
                    start,
                    grouped_names(where_clauses@.take(i as int), wanted),
                    more.deep_view(),
                );
            }
        }
        i += 1;
    }
    assert(where_clauses@.take(i as int) =~= where_clauses@);
}

/// The order of a query's variables: those of the inputs, then those of the clauses that are
/// no functions, then those that functions bind; each where it first occurs.
pub fn query_variable_order(in_bindings: &[Binding], where_clauses: &[WhereClause]) -> (r: Vec<
    Variable,
>)
    ensures
        r.deep_view() == variable_order(in_bindings@, where_clauses@),
{
    let mut order: Vec<Variable> = Vec::new();
    assert(order.deep_view() =~= Seq::<Name>::empty());
    let mut i: usize = 0;
    assert(all_binding_names(in_bindings@.take(0)) =~= Seq::<Name>::empty());
    while i < in_bindings.len()
        invariant
            i <= in_bindings@.len(),
            order.deep_view() == expr::with_new(
                Seq::empty(),
                all_binding_names(in_bindings@.take(i as int)),
            ),
        decreases in_bindings@.len() - i,
    {
        assert(in_bindings@.take(i + 1).drop_last() =~= in_bindings@.take(i as int));
        let more = in_bindings[i].variables();
        add_all_new(&mut order, &more);
        proof {
            expr::lemma_with_new_split(
                Seq::empty(),
                all_binding_names(in_bindings@.take(i as int)),
                more.deep_view(),
            );
        }
        i += 1;
    }
    assert(in_bindings@.take(i as int) =~= in_bindings@);
    add_group(&mut order, where_clauses, false);
    add_group(&mut order, where_clauses, true);
    order
}

/// The order of a query's variables names each of them once.
pub proof fn law_variable_order_unique(bindings: Seq<Binding>, clauses: Seq<WhereClause>)
    ensures
        crate::variable::unique(variable_order(bindings, clauses)),
        forall|x: Name|
            #![trigger variable_order(bindings, clauses).contains(x)]
            variable_order(bindings, clauses).contains(x) == (all_binding_names(bindings).contains(
                x,
            ) || grouped_names(clauses, false).contains(x) || grouped_names(
                clauses,
                true,
            ).contains(x)),
{
    let a = expr::with_new(Seq::<Name>::empty(), all_binding_names(bindings));
    let b = expr::with_new(a, grouped_names(clauses, false));
    expr::lemma_with_new(Seq::<Name>::empty(), all_binding_names(bindings));
    expr::lemma_with_new(a, grouped_names(clauses, false));
    expr::lemma_with_new(b, grouped_names(clauses, true));
    assert forall|x: Name|
        #![trigger variable_order(bindings, clauses).contains(x)]
        variable_order(bindings, clauses).contains(x) == (all_binding_names(bindings).contains(x)
            || grouped_names(clauses, false).contains(x) || grouped_names(clauses, true).contains(
            x,
        )) by {
        assert(b.contains(x) == (a.contains(x) || grouped_names(clauses, false).contains(x)));
        assert(a.contains(x) == (Seq::<Name>::empty().contains(x) || all_binding_names(
            bindings,
        ).contains(x)));
    }
}

} // verus!
