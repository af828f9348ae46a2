//! What constants, names and calls in queries stand for.

use vstd::prelude::*;

use crate::error::{Error, ErrorView};
use crate::expr::{BinaryOp, Expr, UnaryOp};
use crate::query::ast::{
    Binding, ConstantView, FnArg, NonIntegerConstant, OrWhereClause, Pattern, PatternNonValuePlace,
    PatternValuePlace, PlaceView, Predicate, WhereClause, WhereFn,
};
use crate::query::convert::{
    self, collect_variables_from_clause, collect_variables_from_clauses,
    collect_variables_from_or_branch, convert_binary_op, convert_fn_arg, convert_predicate,
    convert_unary_op, convert_where_fn, non_integer_constant_to_datatype,
    non_value_place_to_datatype, pattern_variables, query_variable_order,
    resolve_attribute_from_pattern, value_place_to_datatype, FnExpr,
};
use crate::value::{DataType, Keyword};
use crate::variable::{Name, Variable};

verus! {

/// A constant stands for itself. An integer that is too large has no value.
pub proof fn law_constant_stands_for_itself(c: NonIntegerConstant, r: Option<DataType>)
    requires
        call_ensures(non_integer_constant_to_datatype, (&c,), r),
    ensures
        match c {
            NonIntegerConstant::Boolean(b) => r == Some(DataType::Boolean(b)),
            NonIntegerConstant::BigInteger(x) => r == Some(DataType::BigInt(x)),
            NonIntegerConstant::HugeInteger(_) => r is None,
            NonIntegerConstant::Float(bits) => r == Some(DataType::Double(bits)),
            NonIntegerConstant::Text(s) => r matches Some(DataType::String(t)) && t@ == s@,
            NonIntegerConstant::Instant(t) => r == Some(DataType::Instant(t)),
            NonIntegerConstant::Uuid(u) => r == Some(DataType::Uuid(u)),
        },
{
}

/// What stands in the value position of a pattern stands for itself: a number for the number, a
/// keyword for the keyword, a constant for its value. A variable and a placeholder stand for no
/// value.
pub proof fn law_value_place_stands_for_itself(
    place: PatternValuePlace,
    r: Option<DataType>,
    own: Option<DataType>,
)
    requires
        call_ensures(value_place_to_datatype, (&place,), r),
        place matches PatternValuePlace::Constant(c) ==> call_ensures(
            non_integer_constant_to_datatype,
            (&c,),
            own,
        ),
    ensures
        match place {
            PatternValuePlace::Placeholder => r is None,
            PatternValuePlace::Variable(_) => r is None,
            PatternValuePlace::EntidOrInteger(x) => r == Some(DataType::Long(x)),
            PatternValuePlace::IdentOrKeyword(k) => r matches Some(DataType::Keyword(n)) && n.name@
                == k.name@,
            PatternValuePlace::Constant(NonIntegerConstant::Boolean(b)) => r == Some(
                DataType::Boolean(b),
            ),
            PatternValuePlace::Constant(c) => convert::value_view(r) == convert::value_view(own),
        },
{
}

/// What stands in the entity position of a pattern stands for itself.
pub proof fn law_entity_place_stands_for_itself(place: PatternNonValuePlace, r: Option<DataType>)
    requires
        call_ensures(non_value_place_to_datatype, (&place,), r),
    ensures
        match place {
            PatternNonValuePlace::Placeholder => r is None,
            PatternNonValuePlace::Variable(_) => r is None,
            PatternNonValuePlace::Entid(x) => r == Some(DataType::Long(x)),
            PatternNonValuePlace::Ident(k) => r matches Some(DataType::Keyword(n)) && n.name@
                == k.name@,
        },
{
}

/// What contracts say of a constant or of a position of a pattern is what it holds.
pub proof fn law_places_are_seen_as_they_are(
    c: NonIntegerConstant,
    entity: PatternNonValuePlace,
    value: PatternValuePlace,
    p: Pattern,
)
    ensures
        match c {
            NonIntegerConstant::Boolean(b) => c@ == ConstantView::Boolean(b),
            NonIntegerConstant::BigInteger(x) => c@ == ConstantView::BigInteger(x),
            NonIntegerConstant::HugeInteger(s) => c@ == ConstantView::HugeInteger(s@),
            NonIntegerConstant::Float(bits) => c@ == ConstantView::Float(bits),
            NonIntegerConstant::Text(s) => c@ == ConstantView::Text(s@),
            NonIntegerConstant::Instant(t) => c@ == ConstantView::Instant(t),
            NonIntegerConstant::Uuid(u) => c@ == ConstantView::Uuid(u),
        },
        match entity {
            PatternNonValuePlace::Placeholder => entity@ == PlaceView::Placeholder,
            PatternNonValuePlace::Variable(v) => entity@ == PlaceView::Variable(v.name@),
            PatternNonValuePlace::Entid(x) => entity@ == PlaceView::Number(x),
            PatternNonValuePlace::Ident(k) => entity@ == PlaceView::Ident(k.name@),
        },
        match value {
            PatternValuePlace::Placeholder => value@ == PlaceView::Placeholder,
            PatternValuePlace::Variable(v) => value@ == PlaceView::Variable(v.name@),
            PatternValuePlace::EntidOrInteger(x) => value@ == PlaceView::Number(x),
            PatternValuePlace::IdentOrKeyword(k) => value@ == PlaceView::Ident(k.name@),
            PatternValuePlace::Constant(held) => value@ == PlaceView::Constant(held@),
        },
        p@.entity == p.entity@,
        p@.attribute == p.attribute@,
        p@.value == p.value@,
{
}

/// The names of the operators of two operands differ.
proof fn lemma_binary_names()
    ensures
        "<"@ != ">"@,
        "<"@ != "="@,
        "<"@ != "+"@,
        "<"@ != "-"@,
        "<"@ != "*"@,
        "<"@ != "/"@,
        "<="@ != ">="@,
        "<="@ != "!="@,
        ">"@ != "="@,
        ">"@ != "+"@,
        ">"@ != "-"@,
        ">"@ != "*"@,
        ">"@ != "/"@,
        ">="@ != "!="@,
        "="@ != "+"@,
        "="@ != "-"@,
        "="@ != "*"@,
        "="@ != "/"@,
        "not="@ != "quot"@,
        "+"@ != "-"@,
        "+"@ != "*"@,
        "+"@ != "/"@,
        "-"@ != "*"@,
        "-"@ != "/"@,
        "*"@ != "/"@,
        "<"@.len() == 1,
        "<="@.len() == 2,
        ">"@.len() == 1,
        ">="@.len() == 2,
        "="@.len() == 1,
        "not="@.len() == 4,
        "!="@.len() == 2,
        "+"@.len() == 1,
        "-"@.len() == 1,
        "*"@.len() == 1,
        "/"@.len() == 1,
        "quot"@.len() == 4,
        "mod"@.len() == 3,
        "concat"@.len() == 6,
{
    reveal_strlit("<");
    reveal_strlit("<=");
    reveal_strlit(">");
    reveal_strlit(">=");
    reveal_strlit("=");
    reveal_strlit("not=");
    reveal_strlit("!=");
    reveal_strlit("+");
    reveal_strlit("-");
    reveal_strlit("*");
    reveal_strlit("/");
    reveal_strlit("quot");
    reveal_strlit("mod");
    reveal_strlit("concat");
    assert("<"@.len() == 1 && "<"@[0] == '<');
    assert("<="@.len() == 2 && "<="@[0] == '<');
    assert(">"@.len() == 1 && ">"@[0] == '>');
    assert(">="@.len() == 2 && ">="@[0] == '>');
    assert("="@.len() == 1 && "="@[0] == '=');
    assert("not="@.len() == 4 && "not="@[0] == 'n');
    assert("!="@.len() == 2 && "!="@[0] == '!');
    assert("+"@.len() == 1 && "+"@[0] == '+');
    assert("-"@.len() == 1 && "-"@[0] == '-');
    assert("*"@.len() == 1 && "*"@[0] == '*');
    assert("/"@.len() == 1 && "/"@[0] == '/');
    assert("quot"@.len() == 4 && "quot"@[0] == 'q');
    assert("mod"@.len() == 3 && "mod"@[0] == 'm');
    assert("concat"@.len() == 6 && "concat"@[0] == 'c');
}

/// The names of the operators of one operand differ.
proof fn lemma_unary_names()
    ensures
        "not"@ != "abs"@,
        "not"@ != "str"@,
        "abs"@ != "str"@,
        "upper"@ != "lower"@,
        "upper"@ != "month"@,
        "lower"@ != "month"@,
        "not"@.len() == 3,
        "abs"@.len() == 3,
        "upper"@.len() == 5,
        "lower"@.len() == 5,
        "strlen"@.len() == 6,
        "str"@.len() == 3,
        "year"@.len() == 4,
        "month"@.len() == 5,
{
    reveal_strlit("not");
    reveal_strlit("abs");
    reveal_strlit("upper");
    reveal_strlit("lower");
    reveal_strlit("strlen");
    reveal_strlit("str");
    reveal_strlit("year");
    reveal_strlit("month");
    assert("not"@.len() == 3 && "not"@[0] == 'n');
    assert("abs"@.len() == 3 && "abs"@[0] == 'a');
    assert("upper"@.len() == 5 && "upper"@[0] == 'u');
    assert("lower"@.len() == 5 && "lower"@[0] == 'l');
    assert("strlen"@.len() == 6 && "strlen"@[0] == 's');
    assert("str"@.len() == 3 && "str"@[0] == 's');
    assert("year"@.len() == 4 && "year"@[0] == 'y');
    assert("month"@.len() == 5 && "month"@[0] == 'm');
}

/// Each name means its own operator of two operands, and no other name means one.
pub proof fn law_binary_operators(name: &str, r: Result<BinaryOp, Error>)
    requires
        call_ensures(convert_binary_op, (name,), r),
    ensures
        (r matches Ok(op) && op == BinaryOp::Lt) == (name@ == "<"@),
        (r matches Ok(op) && op == BinaryOp::LtEq) == (name@ == "<="@),
        (r matches Ok(op) && op == BinaryOp::Gt) == (name@ == ">"@),
        (r matches Ok(op) && op == BinaryOp::GtEq) == (name@ == ">="@),
        (r matches Ok(op) && op == BinaryOp::Eq) == (name@ == "="@),
        (r matches Ok(op) && op == BinaryOp::NotEq) == (name@ == "not="@ || name@ == "!="@),
        (r matches Ok(op) && op == BinaryOp::Add) == (name@ == "+"@),
        (r matches Ok(op) && op == BinaryOp::Sub) == (name@ == "-"@),
        (r matches Ok(op) && op == BinaryOp::Mul) == (name@ == "*"@),
        (r matches Ok(op) && op == BinaryOp::Div) == (name@ == "/"@ || name@ == "quot"@),
        (r matches Ok(op) && op == BinaryOp::Mod) == (name@ == "mod"@),
        (r matches Ok(op) && op == BinaryOp::Concat) == (name@ == "concat"@),
        r matches Err(e) ==> (e matches Error::UnsupportedOperator(said) && said@ == name@),
{
    lemma_binary_names();
}

/// Each name means its own operator of one operand, and no other name means one.
pub proof fn law_unary_operators(name: &str, r: Result<UnaryOp, Error>)
    requires
        call_ensures(convert_unary_op, (name,), r),
    ensures
        (r matches Ok(op) && op == UnaryOp::Not) == (name@ == "not"@),
        (r matches Ok(op) && op == UnaryOp::Abs) == (name@ == "abs"@),
        (r matches Ok(op) && op == UnaryOp::Upper) == (name@ == "upper"@),
        (r matches Ok(op) && op == UnaryOp::Lower) == (name@ == "lower"@),
        (r matches Ok(op) && op == UnaryOp::Strlen) == (name@ == "strlen"@),
        (r matches Ok(op) && op == UnaryOp::Str) == (name@ == "str"@),
        (r matches Ok(op) && op == UnaryOp::Year) == (name@ == "year"@),
        (r matches Ok(op) && op == UnaryOp::Month) == (name@ == "month"@),
        r matches Err(e) ==> (e matches Error::UnsupportedUnary(said) && said@ == name@),
{
    lemma_unary_names();
}

/// An argument that is no call stands for itself: a variable for the variable, a number, a keyword
/// or a constant for its value.
pub proof fn law_simple_arguments(
    arg: FnArg,
    r: Result<Expr, Error>,
    own: Option<DataType>,
)
    requires
        call_ensures(convert_fn_arg, (&arg,), r),
        arg matches FnArg::Constant(c) ==> call_ensures(
            non_integer_constant_to_datatype,
            (&c,),
            own,
        ),
    ensures
        match arg {
            FnArg::Variable(v) => r matches Ok(Expr::Variable(w)) && w.name@ == v.name@,
            FnArg::EntidOrInteger(x) => r matches Ok(Expr::Literal(DataType::Long(y))) && y == x,
            FnArg::IdentOrKeyword(k) => r matches Ok(Expr::Literal(DataType::Keyword(n)))
                && n.name@ == k.name@,
            FnArg::Constant(c) => match own {
                Some(value) => r matches Ok(Expr::Literal(held)) && held@ == value@,
                None => r matches Err(Error::UnsupportedConstant),
            },
            FnArg::Unsupported(_) => r matches Err(Error::UnsupportedArgument),
            FnArg::SExpr(_, _) => true,
        },
{
}

/// A call of an operator of two operands applies it to the first argument on the left and to the
/// second on the right. It has an expression exactly where both arguments have one.
pub proof fn law_binary_call(
    name: &str,
    call: FnArg,
    left: FnArg,
    right: FnArg,
    op: Result<BinaryOp, Error>,
    a: Result<Expr, Error>,
    b: Result<Expr, Error>,
    r: Result<Expr, Error>,
)
    requires
        call matches FnArg::SExpr(said, args) && said@ == name@ && args@ == seq![left, right],
        call_ensures(convert_binary_op, (name,), op),
        call_ensures(convert_fn_arg, (&left,), a),
        call_ensures(convert_fn_arg, (&right,), b),
        call_ensures(convert_fn_arg, (&call,), r),
    ensures
        (op is Ok && a is Ok && b is Ok) ==> (r matches Ok(Expr::BinaryExpr(e)) && e.op == op->Ok_0
            && e.left@ == a->Ok_0@ && e.right@ == b->Ok_0@),
        op is Ok && (a is Err || b is Err) ==> r is Err,
{
    let args = call->SExpr_1;
    assert(args@[0] == left && args@[1] == right);
    lemma_binary_names();
    reveal_strlit("regexp_like");
    reveal_strlit("if");
    reveal_strlit("<=");
    reveal_strlit(">=");
    reveal_strlit("!=");
    assert("regexp_like"@.len() == 11 && "if"@.len() == 2 && "if"@[0] == 'i');
    assert("<="@[0] == '<' && ">="@[0] == '>' && "!="@[0] == '!');
}

/// A call of an operator of one operand applies it to the argument.
pub proof fn law_unary_call(
    name: &str,
    call: FnArg,
    operand: FnArg,
    op: Result<UnaryOp, Error>,
    a: Result<Expr, Error>,
    r: Result<Expr, Error>,
)
    requires
        call matches FnArg::SExpr(said, args) && said@ == name@ && args@ == seq![operand],
        call_ensures(convert_unary_op, (name,), op),
        call_ensures(convert_fn_arg, (&operand,), a),
        call_ensures(convert_fn_arg, (&call,), r),
    ensures
        (op is Ok && a is Ok) ==> (r matches Ok(Expr::UnaryExpr(e)) && e.op == op->Ok_0
            && e.operand@ == a->Ok_0@),
        op is Ok && a is Err ==> r is Err,
{
    let args = call->SExpr_1;
    assert(args@[0] == operand);
    lemma_unary_names();
    reveal_strlit("regexp_like");
    reveal_strlit("if");
    assert("regexp_like"@.len() == 11 && "if"@.len() == 2);
}

/// A choice takes its condition, what it gives where the condition holds, and what it gives
/// otherwise, in this order.
pub proof fn law_choice(
    call: FnArg,
    condition: FnArg,
    yes: FnArg,
    no: FnArg,
    a: Result<Expr, Error>,
    b: Result<Expr, Error>,
    c: Result<Expr, Error>,
    r: Result<Expr, Error>,
)
    requires
        call matches FnArg::SExpr(said, args) && said@ == "if"@ && args@ == seq![
            condition,
            yes,
            no,
        ],
        call_ensures(convert_fn_arg, (&condition,), a),
        call_ensures(convert_fn_arg, (&yes,), b),
        call_ensures(convert_fn_arg, (&no,), c),
        call_ensures(convert_fn_arg, (&call,), r),
    ensures
        (a is Ok && b is Ok && c is Ok) ==> (r matches Ok(Expr::IfExpr(e)) && e.condition@
            == a->Ok_0@ && e.then_expr@ == b->Ok_0@ && e.else_expr@ == c->Ok_0@),
        a is Err || b is Err || c is Err ==> r is Err,
{
    let args = call->SExpr_1;
    assert(args@[0] == condition && args@[1] == yes && args@[2] == no);
    reveal_strlit("regexp_like");
    reveal_strlit("if");
    assert("regexp_like"@.len() == 11 && "if"@.len() == 2);
}

/// A match of a regular expression compiles the text of its second argument and matches the first
/// argument against it.
pub proof fn law_regular_expression(
    call: FnArg,
    subject: FnArg,
    pattern: String,
    a: Result<Expr, Error>,
    r: Result<Expr, Error>,
)
    requires
        call matches FnArg::SExpr(said, args) && said@ == "regexp_like"@ && args@ == seq![
            subject,
            FnArg::Constant(NonIntegerConstant::Text(pattern)),
        ],
        call_ensures(convert_fn_arg, (&subject,), a),
        call_ensures(convert_fn_arg, (&call,), r),
    ensures
        match (a, convert::compiled(pattern@)) {
            (Ok(x), Ok(regex)) => r matches Ok(Expr::RegexpLike(e)) && e.pattern_src@ == pattern@
                && e.pattern == regex && e.subject@ == x@,
            (Ok(_), Err(cause)) => r matches Err(e) && e@ == ErrorView::InvalidRegex(
                pattern@,
                cause,
            ),
            (Err(_), _) => r is Err,
        },
{
    let args = call->SExpr_1;
    assert(args@[0] == subject && args@[1] == FnArg::Constant(NonIntegerConstant::Text(pattern)));
}

/// A condition is its argument, and a function clause binds what its argument gives to its one
/// variable.
pub proof fn law_conditions_and_functions(
    p: Predicate,
    f: WhereFn,
    a: Result<Expr, Error>,
    b: Result<Expr, Error>,
    holds: Result<Expr, Error>,
    gives: Result<FnExpr, Error>,
)
    requires
        call_ensures(convert_fn_arg, (&p.expr,), a),
        call_ensures(convert_fn_arg, (&f.expr,), b),
        call_ensures(convert_predicate, (&p,), holds),
        call_ensures(convert_where_fn, (&f,), gives),
    ensures
        a is Ok == holds is Ok,
        a is Ok ==> holds->Ok_0@ == a->Ok_0@,
        match gives {
            Ok(made) => b is Ok && made.expr@ == b->Ok_0@ && (f.binding matches Binding::BindScalar(
                v,
            ) && made.output.name@ == v.name@),
            Err(_) => b is Err || !(f.binding is BindScalar) || (f.expr matches FnArg::SExpr(
                said,
                _,
            ) && said@ == "regexp_like"@),
        },
{
}

/// The number of an attribute: that of the first entry of its name, or the number itself. Anything
/// else is no attribute.
pub proof fn law_attribute_numbers(
    place: PatternNonValuePlace,
    idents: &[(Keyword, i64)],
    r: Result<i64, Error>,
)
    requires
        call_ensures(resolve_attribute_from_pattern, (&place, idents), r),
    ensures
        match place {
            PatternNonValuePlace::Entid(x) => r matches Ok(id) && id == x,
            PatternNonValuePlace::Ident(k) => match r {
                Ok(id) => exists|i: int|
                    0 <= i < idents@.len() && (#[trigger] idents@[i]).0.name@ == k.name@
                        && idents@[i].1 == id && forall|j: int|
                        0 <= j < i ==> (#[trigger] idents@[j]).0.name@ != k.name@,
                Err(e) => (e matches Error::UnknownAttribute(said) && said@ == k.name@) && forall|
                    i: int,
                |
                    0 <= i < idents@.len() ==> (#[trigger] idents@[i]).0.name@ != k.name@,
            },
            _ => r matches Err(Error::NotAnAttribute),
        },
{
    if let PatternNonValuePlace::Ident(k) = place {
        lemma_first_entry(idents@, k.name@);
    }
}

/// The first entry of a name decides.
proof fn lemma_first_entry(idents: Seq<(Keyword, i64)>, name: Seq<char>)
    ensures
        match convert::attribute_of(idents, name) {
            Some(id) => exists|i: int|
                0 <= i < idents.len() && (#[trigger] idents[i]).0.name@ == name && idents[i].1 == id
                    && forall|j: int| 0 <= j < i ==> (#[trigger] idents[j]).0.name@ != name,
            None => forall|i: int|
                0 <= i < idents.len() ==> (#[trigger] idents[i]).0.name@ != name,
        },
    decreases idents.len(),
{
    if idents.len() > 0 {
        let rest = idents.drop_first();
        lemma_first_entry(rest, name);
        if idents[0].0.name@ == name {
            assert(convert::attribute_of(idents, name) == Some(idents[0].1));
        } else {
            match convert::attribute_of(rest, name) {
                Some(id) => {
                    let i = choose|i: int|
                        0 <= i < rest.len() && (#[trigger] rest[i]).0.name@ == name && rest[i].1
                            == id && forall|j: int|
                            0 <= j < i ==> (#[trigger] rest[j]).0.name@ != name;
                    assert(idents[i + 1] == rest[i]);
                    assert forall|j: int| 0 <= j < i + 1 implies (#[trigger] idents[j]).0.name@
                        != name by {
                        if j > 0 {
                            assert(rest[j - 1] == idents[j]);
                        }
                    }
                },
                None => {
                    assert forall|j: int| 0 <= j < idents.len() implies (
                    #[trigger] idents[j]).0.name@ != name by {
                        if j > 0 {
                            assert(rest[j - 1] == idents[j]);
                        }
                    }
                },
            }
        }
    }
}

/// The variables of a pattern are those that stand in it: that of the entity, that of the attribute
/// and that of the value, in this order.
pub proof fn law_pattern_variables(p: Pattern, r: Vec<Variable>)
    requires
        call_ensures(pattern_variables, (&p,), r),
    ensures
        r.deep_view() == entity_name(p.entity) + entity_name(p.attribute) + (match p.value {
            PatternValuePlace::Variable(v) => seq![v.name@],
            _ => Seq::empty(),
        }),
{
}

/// The variable in an entity or attribute position, if one stands there.
pub open spec fn entity_name(place: PatternNonValuePlace) -> Seq<Name> {
    match place {
        PatternNonValuePlace::Variable(v) => seq![v.name@],
        _ => Seq::empty(),
    }
}

/// Whether a clause brings in a variable: a pattern in which it stands, a disjunction whose first
/// branch brings it in, or a function that binds it.
pub open spec fn brings_in(clause: WhereClause, x: Name) -> bool
    decreases clause, 2int,
{
    match clause {
        WhereClause::Pattern(p) => p.entity@ == PlaceView::Variable(x) || p.attribute@
            == PlaceView::Variable(x) || p.value@ == PlaceView::Variable(x),
        WhereClause::WhereFn(f) => f.binding matches Binding::BindScalar(v) && v.name@ == x,
        WhereClause::OrJoin(or) => or.clauses@.len() > 0 && branch_brings_in(or.clauses@[0], x),
        _ => false,
    }
}

/// Whether a branch brings in a variable: by its clause, or by one of its clauses.
pub open spec fn branch_brings_in(branch: OrWhereClause, x: Name) -> bool
    decreases branch, 1int,
{
    match branch {
        OrWhereClause::Clause(c) => brings_in(c, x),
        OrWhereClause::And(cs) => some_brings_in(cs@, x),
    }
}

/// Whether one of several clauses brings in a variable.
pub open spec fn some_brings_in(clauses: Seq<WhereClause>, x: Name) -> bool
    decreases clauses, 0int,
{
    exists|i: int| 0 <= i < clauses.len() && brings_in(#[trigger] clauses[i], x)
}

/// The variables of a query are those that an input binds and those that a clause brings in, each
/// once, those of the inputs in front.
pub proof fn law_query_variables(
    bindings: &[Binding],
    clauses: &[WhereClause],
    r: Vec<Variable>,
    x: Name,
)
    requires
        call_ensures(query_variable_order, (bindings, clauses), r),
    ensures
        crate::variable::unique(r.deep_view()),
        r.deep_view().contains(x) == ((exists|i: int|
            0 <= i < bindings@.len() && convert::binding_names(#[trigger] bindings@[i]).contains(x))
            || exists|i: int| 0 <= i < clauses@.len() && brings_in(#[trigger] clauses@[i], x)),
{
    convert::law_variable_order_unique(bindings@, clauses@);
    lemma_bound(bindings@, x);
    lemma_grouped(clauses@, false, x);
    lemma_grouped(clauses@, true, x);
    assert(r.deep_view().contains(x) == convert::variable_order(bindings@, clauses@).contains(x));
    if exists|i: int| 0 <= i < clauses@.len() && brings_in(#[trigger] clauses@[i], x) {
        let i = choose|i: int| 0 <= i < clauses@.len() && brings_in(#[trigger] clauses@[i], x);
        assert((clauses@[i] is WhereFn) == true || (clauses@[i] is WhereFn) == false);
    }
}

/// The variables that bindings bind.
pub proof fn lemma_bound(bindings: Seq<Binding>, x: Name)
    ensures
        convert::all_binding_names(bindings).contains(x) == exists|i: int|
            0 <= i < bindings.len() && convert::binding_names(#[trigger] bindings[i]).contains(x),
    decreases bindings.len(),
{
    if bindings.len() > 0 {
        let front = bindings.drop_last();
        lemma_bound(front, x);
        crate::query::plan::lemma_concat_contains(
            convert::all_binding_names(front),
            convert::binding_names(bindings.last()),
            x,
        );
        assert forall|i: int| 0 <= i < front.len() implies front[i] == #[trigger] bindings[i] by {}
        if convert::all_binding_names(front).contains(x) {
            let i = choose|i: int|
                0 <= i < front.len() && convert::binding_names(#[trigger] front[i]).contains(x);
            assert(bindings[i] == front[i]);
        }
        if convert::binding_names(bindings.last()).contains(x) {
            assert(bindings[bindings.len() - 1] == bindings.last());
        }
        if exists|i: int|
            0 <= i < bindings.len() && convert::binding_names(#[trigger] bindings[i]).contains(x) {
            let i = choose|i: int|
                0 <= i < bindings.len() && convert::binding_names(#[trigger] bindings[i]).contains(
                    x,
                );
            if i < front.len() {
                assert(front[i] == bindings[i]);
            }
        }
    }
}

/// The variables that a clause contributes are those that it brings in.
pub proof fn lemma_brings_in(clause: WhereClause, x: Name)
    ensures
        convert::clause_names(clause).contains(x) == brings_in(clause, x),
    decreases clause, 2int,
{
    match clause {
        WhereClause::Pattern(p) => {
            let a = convert::place_names(p@.entity);
            let b = convert::place_names(p@.attribute);
            let c = convert::place_names(p@.value);
            crate::query::plan::lemma_concat_contains(a + b, c, x);
            crate::query::plan::lemma_concat_contains(a, b, x);
            lemma_place_name(p@.entity, x);
            lemma_place_name(p@.attribute, x);
            lemma_place_name(p@.value, x);
        },
        WhereClause::WhereFn(f) => {
            if let Binding::BindScalar(v) = f.binding {
                assert(seq![v@][0] == v@);
            }
        },
        WhereClause::OrJoin(or) => {
            if or.clauses@.len() > 0 {
                lemma_branch_brings_in(or.clauses@[0], x);
            }
        },
        _ => {},
    }
}

/// The variables that a branch contributes are those that it brings in.
proof fn lemma_branch_brings_in(branch: OrWhereClause, x: Name)
    ensures
        convert::branch_names(branch).contains(x) == branch_brings_in(branch, x),
    decreases branch, 1int,
{
    match branch {
        OrWhereClause::Clause(c) => {
            lemma_brings_in(c, x);
        },
        OrWhereClause::And(cs) => {
            lemma_some_brings_in(cs@, x);
        },
    }
}

/// The variables that clauses contribute are those that one of them brings in.
proof fn lemma_some_brings_in(clauses: Seq<WhereClause>, x: Name)
    ensures
        convert::all_clause_names(clauses).contains(x) == some_brings_in(clauses, x),
    decreases clauses, 0int,
{
    if clauses.len() > 0 {
        let front = clauses.drop_last();
        let last = clauses.last();
        lemma_some_brings_in(front, x);
        lemma_brings_in(last, x);
        crate::query::plan::lemma_concat_contains(
            convert::all_clause_names(front),
            convert::clause_names(last),
            x,
        );
        if some_brings_in(front, x) {
            let i = choose|i: int| 0 <= i < front.len() && brings_in(#[trigger] front[i], x);
            assert(clauses[i] == front[i]);
        }
        if brings_in(last, x) {
            assert(clauses[clauses.len() - 1] == last);
        }
        if some_brings_in(clauses, x) {
            let i = choose|i: int| 0 <= i < clauses.len() && brings_in(#[trigger] clauses[i], x);
            if i < front.len() {
                assert(front[i] == clauses[i]);
            }
        }
    }
}

/// The variables of clauses, of a clause and of a branch of a disjunction are those that they bring
/// in.
pub proof fn law_variables_of_clauses(
    clause: WhereClause,
    of_clause: Vec<Variable>,
    branch: OrWhereClause,
    of_branch: Vec<Variable>,
    clauses: Vec<WhereClause>,
    of_clauses: Vec<Variable>,
    x: Name,
)
    requires
        call_ensures(collect_variables_from_clause, (&clause,), of_clause),
        call_ensures(collect_variables_from_or_branch, (&branch,), of_branch),
        call_ensures(collect_variables_from_clauses, (&clauses,), of_clauses),
    ensures
        of_clause.deep_view().contains(x) == brings_in(clause, x),
        of_branch.deep_view().contains(x) == branch_brings_in(branch, x),
        of_clauses.deep_view().contains(x) == some_brings_in(clauses@, x),
{
    lemma_brings_in(clause, x);
    lemma_branch_brings_in(branch, x);
    lemma_some_brings_in(clauses@, x);
}

/// The variable that stands in a position.
proof fn lemma_place_name(place: PlaceView, x: Name)
    ensures
        convert::place_names(place).contains(x) == (place == PlaceView::Variable(x)),
{
    if let PlaceView::Variable(v) = place {
        assert(seq![v][0] == v);
    }
}

/// The variables that the function clauses, or the other clauses, contribute.
pub proof fn lemma_grouped(clauses: Seq<WhereClause>, wanted: bool, x: Name)
    ensures
        convert::grouped_names(clauses, wanted).contains(x) == exists|i: int|
            0 <= i < clauses.len() && brings_in(#[trigger] clauses[i], x) && (clauses[i] is WhereFn)
                == wanted,
    decreases clauses.len(),
{
    if clauses.len() > 0 {
        let front = clauses.drop_last();
        let last = clauses.last();
        lemma_grouped(front, wanted, x);
        lemma_brings_in(last, x);
        crate::query::plan::lemma_concat_contains(
            convert::grouped_names(front, wanted),
            convert::clause_names(last),
            x,
        );
        if convert::grouped_names(front, wanted).contains(x) {
            let i = choose|i: int|
                0 <= i < front.len() && brings_in(#[trigger] front[i], x) && (front[i] is WhereFn)
                    == wanted;
            assert(clauses[i] == front[i]);
        }
        if (last is WhereFn) == wanted && brings_in(last, x) {
            assert(clauses[clauses.len() - 1] == last);
        }
        if exists|i: int|
            0 <= i < clauses.len() && brings_in(#[trigger] clauses[i], x) && (clauses[i] is WhereFn)
                == wanted {
            let i = choose|i: int|
                0 <= i < clauses.len() && brings_in(#[trigger] clauses[i], x) && (
                clauses[i] is WhereFn) == wanted;
            if i < front.len() {
                assert(front[i] == clauses[i]);
            }
        }
    }
}

/// An input for one value, or for one of several, binds its variable; a tuple and a relation bind those
/// that they name.
pub proof fn law_bound_variables(binding: Binding, r: Vec<Variable>, x: Name)
    requires
        call_ensures(Binding::variables, (&binding,), r),
    ensures
        convert::binding_names(binding) == r.deep_view(),
        match binding {
            Binding::BindScalar(v) => r.deep_view() == seq![v.name@],
            Binding::BindColl(v) => r.deep_view() == seq![v.name@],
            Binding::BindTuple(vs) => r.deep_view().contains(x) == names_variable(vs@, x),
            Binding::BindRel(vs) => r.deep_view().contains(x) == names_variable(vs@, x),
        },
{
    match binding {
        Binding::BindTuple(vs) => {
            lemma_present(vs@, x);
        },
        Binding::BindRel(vs) => {
            lemma_present(vs@, x);
        },
        _ => {},
    }
}

/// Whether a list of positions, some of them open, names a variable.
pub open spec fn names_variable(list: Seq<Option<Variable>>, x: Name) -> bool {
    exists|i: int| 0 <= i < list.len() && (#[trigger] list[i] matches Some(v) && v.name@ == x)
}

/// The variables among positions.
proof fn lemma_present(list: Seq<Option<Variable>>, x: Name)
    ensures
        convert::present(list).contains(x) == names_variable(list, x),
    decreases list.len(),
{
    if list.len() > 0 {
        let front = list.drop_last();
        let names = convert::present(front);
        lemma_present(front, x);
        if names_variable(front, x) {
            let i = choose|i: int|
                0 <= i < front.len() && (#[trigger] front[i] matches Some(v) && v.name@ == x);
            assert(list[i] == front[i]);
        }
        assert(list[list.len() - 1] == list.last());
        if names_variable(list, x) {
            let i = choose|i: int|
                0 <= i < list.len() && (#[trigger] list[i] matches Some(v) && v.name@ == x);
            if i < front.len() {
                assert(front[i] == list[i]);
            }
        }
        if let Some(v) = list.last() {
            let all = names.push(v@);
            if names.contains(x) {
                assert(all[names.index_of(x)] == x);
            }
            if v@ == x {
                assert(all[names.len() as int] == x);
            }
            if all.contains(x) {
                let i = all.index_of(x);
                if i < names.len() {
                    assert(names[i] == x);
                }
            }
        }
    }
}

} // verus!
