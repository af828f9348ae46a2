//! How errors show parts of queries.

use vstd::prelude::*;

use crate::clock::{self, instant_text};
use crate::query::ast::{
    ConstantView, FnArg, NonIntegerConstant, PatternNonValuePlace, PatternValuePlace, PlaceView,
};
use crate::text::{
    self, bits_text, concat3, concat5, decimal_text, list_text, quote, uuid_text, whole_text,
};

verus! {

/// How a constant is shown. A floating-point number is shown by its bits.
pub open spec fn constant_shown(constant: ConstantView) -> Seq<char> {
    match constant {
        ConstantView::Boolean(x) => if x {
            "Boolean(true)"@
        } else {
            "Boolean(false)"@
        },
        ConstantView::BigInteger(x) => "BigInteger("@ + text::decimal(x as int) + ")"@,
        ConstantView::HugeInteger(digits) => "BigInteger("@ + digits + ")"@,
        ConstantView::Float(bits) => "Float("@ + text::bits_shown(bits as nat, 16) + ")"@,
        ConstantView::Text(x) => "Text("@ + text::quoted(x) + ")"@,
        ConstantView::Instant(x) => "Instant("@ + clock::instant_shown(x) + ")"@,
        ConstantView::Uuid(x) => "Uuid("@ + text::uuid_shown(x as nat) + ")"@,
    }
}

/// How a constant is shown.
pub fn constant_text(constant: &NonIntegerConstant) -> (r: String)
    ensures
        r@ == constant_shown(constant@),
{
    match constant {
        NonIntegerConstant::Boolean(x) => if *x {
            "Boolean(true)".to_owned()
        } else {
            "Boolean(false)".to_owned()
        },
        NonIntegerConstant::BigInteger(x) => concat3("BigInteger(", whole_text(*x).as_str(), ")"),
        NonIntegerConstant::HugeInteger(digits) => concat3("BigInteger(", digits.as_str(), ")"),
        NonIntegerConstant::Float(bits) => concat3(
            "Float(",
            bits_text(*bits as u128, 16).as_str(),
            ")",
        ),
        NonIntegerConstant::Text(x) => concat3("Text(", quote(x.as_str()).as_str(), ")"),
        NonIntegerConstant::Instant(x) => concat3("Instant(", instant_text(*x).as_str(), ")"),
        NonIntegerConstant::Uuid(x) => concat3("Uuid(", uuid_text(*x).as_str(), ")"),
    }
}

/// How what stands in the entity position of a pattern is shown.
pub open spec fn entity_shown(place: PlaceView) -> Seq<char> {
    match place {
        PlaceView::Number(x) => "Entid("@ + text::decimal(x as int) + ")"@,
        PlaceView::Ident(name) => "Ident(:"@ + name + ")"@,
        _ => value_shown(place),
    }
}

/// How what stands in the value position of a pattern is shown.
pub open spec fn value_shown(place: PlaceView) -> Seq<char> {
    match place {
        PlaceView::Placeholder => "Placeholder"@,
        PlaceView::Variable(name) => "Variable("@ + name + ")"@,
        PlaceView::Number(x) => "EntidOrInteger("@ + text::decimal(x as int) + ")"@,
        PlaceView::Ident(name) => "IdentOrKeyword(:"@ + name + ")"@,
        PlaceView::Constant(constant) => "Constant("@ + constant_shown(constant) + ")"@,
    }
}

/// How what stands in the entity position of a pattern is shown.
pub fn entity_text(place: &PatternNonValuePlace) -> (r: String)
    ensures
        r@ == entity_shown(place@),
{
    match place {
        PatternNonValuePlace::Placeholder => "Placeholder".to_owned(),
        PatternNonValuePlace::Variable(v) => concat3("Variable(", v.name.as_str(), ")"),
        PatternNonValuePlace::Entid(x) => concat3("Entid(", decimal_text(*x).as_str(), ")"),
        PatternNonValuePlace::Ident(k) => concat3("Ident(:", k.name.as_str(), ")"),
    }
}

/// How what stands in the value position of a pattern is shown.
pub fn value_place_text(place: &PatternValuePlace) -> (r: String)
    ensures
        r@ == value_shown(place@),
{
    match place {
        PatternValuePlace::Placeholder => "Placeholder".to_owned(),
        PatternValuePlace::Variable(v) => concat3("Variable(", v.name.as_str(), ")"),
        PatternValuePlace::EntidOrInteger(x) => concat3(
            "EntidOrInteger(",
            decimal_text(*x).as_str(),
            ")",
        ),
        PatternValuePlace::IdentOrKeyword(k) => concat3("IdentOrKeyword(:", k.name.as_str(), ")"),
        PatternValuePlace::Constant(c) => concat3("Constant(", constant_text(c).as_str(), ")"),
    }
}

/// How an argument of a function is shown.
pub open spec fn argument_shown(argument: FnArg) -> Seq<char>
    decreases argument, 1int,
{
    match argument {
        FnArg::Variable(v) => "Variable("@ + v@ + ")"@,
        FnArg::EntidOrInteger(x) => "EntidOrInteger("@ + text::decimal(x as int) + ")"@,
        FnArg::IdentOrKeyword(k) => "IdentOrKeyword(:"@ + k@ + ")"@,
        FnArg::Constant(c) => "Constant("@ + constant_shown(c@) + ")"@,
        FnArg::SExpr(name, arguments) => "SExpr("@ + text::quoted(name@) + ", "@ + text::listed(
            arguments_shown(arguments@),
        ) + ")"@,
        FnArg::Unsupported(said) => said@,
    }
}

/// How arguments of a function are shown.
pub open spec fn arguments_shown(arguments: Seq<FnArg>) -> Seq<Seq<char>>
    decreases arguments, 0int,
{
    if arguments.len() == 0 {
        Seq::empty()
    } else {
        arguments_shown(arguments.drop_last()).push(argument_shown(arguments.last()))
    }
}

/// How an argument of a function is shown.
pub fn argument_text(argument: &FnArg) -> (r: String)
    ensures
        r@ == argument_shown(*argument),
    decreases *argument, 1int,
{
    match argument {
        FnArg::Variable(v) => concat3("Variable(", v.name.as_str(), ")"),
        FnArg::EntidOrInteger(x) => concat3("EntidOrInteger(", decimal_text(*x).as_str(), ")"),
        FnArg::IdentOrKeyword(k) => concat3("IdentOrKeyword(:", k.name.as_str(), ")"),
        FnArg::Constant(c) => concat3("Constant(", constant_text(c).as_str(), ")"),
        FnArg::SExpr(name, arguments) => concat5(
            "SExpr(",
            quote(name.as_str()).as_str(),
            ", ",
            list_text(&argument_texts(arguments)).as_str(),
            ")",
        ),
        FnArg::Unsupported(said) => said.clone(),
    }
}

/// How arguments of a function are shown.
fn argument_texts(arguments: &Vec<FnArg>) -> (r: Vec<String>)
    ensures
        text::held(r@) == arguments_shown(arguments@),
    decreases arguments@, 0int,
{
    let mut parts: Vec<String> = Vec::new();
    let mut i: usize = 0;
    assert(text::held(parts@) =~= arguments_shown(arguments@.take(0)));
    while i < arguments.len()
        invariant
            i <= arguments@.len(),
            text::held(parts@) == arguments_shown(arguments@.take(i as int)),
        decreases arguments@.len() - i,
    {
        proof {
            assert(arguments@.take(i + 1).drop_last() =~= arguments@.take(i as int));
            assert(arguments@.take(i + 1).last() == arguments@[i as int]);
        }
        let ghost earlier = parts@;
        parts.push(argument_text(&arguments[i]));
        assert(text::held(parts@) =~= text::held(earlier).push(parts@.last()@));
        i += 1;
    }
    assert(arguments@.take(i as int) =~= arguments@);
    parts
}

/// How errors show constants, positions of patterns and arguments of functions: by their kind, with
/// what they hold.
pub proof fn law_shown_parts(
    c: NonIntegerConstant,
    constant: String,
    entity: PatternNonValuePlace,
    entity_said: String,
    value: PatternValuePlace,
    value_said: String,
)
    requires
        call_ensures(constant_text, (&c,), constant),
        call_ensures(entity_text, (&entity,), entity_said),
        call_ensures(value_place_text, (&value,), value_said),
    ensures
        match c {
            NonIntegerConstant::Boolean(x) => constant@ == (if x {
                "Boolean(true)"@
            } else {
                "Boolean(false)"@
            }),
            NonIntegerConstant::BigInteger(x) => constant@ == "BigInteger("@ + text::decimal(
                x as int,
            ) + ")"@,
            NonIntegerConstant::HugeInteger(s) => constant@ == "BigInteger("@ + s@ + ")"@,
            NonIntegerConstant::Text(s) => constant@ == "Text("@ + text::quoted(s@) + ")"@,
            NonIntegerConstant::Instant(t) => constant@ == "Instant("@ + clock::instant_shown(t)
                + ")"@,
            NonIntegerConstant::Uuid(u) => constant@ == "Uuid("@ + text::uuid_shown(u as nat)
                + ")"@,
            NonIntegerConstant::Float(bits) => constant@ == "Float("@ + text::bits_shown(
                bits as nat,
                16,
            ) + ")"@,
        },
        match entity {
            PatternNonValuePlace::Placeholder => entity_said@ == "Placeholder"@,
            PatternNonValuePlace::Variable(v) => entity_said@ == "Variable("@ + v.name@ + ")"@,
            PatternNonValuePlace::Entid(x) => entity_said@ == "Entid("@ + text::decimal(x as int)
                + ")"@,
            PatternNonValuePlace::Ident(k) => entity_said@ == "Ident(:"@ + k.name@ + ")"@,
        },
        match value {
            PatternValuePlace::Placeholder => value_said@ == "Placeholder"@,
            PatternValuePlace::Variable(v) => value_said@ == "Variable("@ + v.name@ + ")"@,
            PatternValuePlace::EntidOrInteger(x) => value_said@ == "EntidOrInteger("@
                + text::decimal(x as int) + ")"@,
            PatternValuePlace::IdentOrKeyword(k) => value_said@ == "IdentOrKeyword(:"@ + k.name@
                + ")"@,
            PatternValuePlace::Constant(held) => value_said@ == "Constant("@ + constant_shown(held@)
                + ")"@,
        },
{
}

} // verus!
