//! What errors say.

use vstd::prelude::*;

use crate::clock;
use crate::error::{self, Error};
use crate::query::plan::{self, ParticipantRef};
use crate::text;
use crate::transaction::{self, key_text, optional_key_text, TxKey};
use crate::value::{self, value_text, DataType, IndexType};

verus! {

/// Each error says in its own words what it is about.
pub proof fn law_error_texts(e: Error, r: String)
    requires
        call_ensures(Error::message, (&e,), r),
    ensures
        match e {
            Error::DuplicateVariable(a) => r@ == "BindingBag variables must be unique: "@ + a@,
            Error::RowArity(a, b, c) => r@ == "BindingBag row "@ + text::digits(a as nat)
                + " has arity "@ + text::digits(b as nat) + ", expected "@ + text::digits(c as nat),
            Error::UnknownVariable(a) => r@ == "Unknown BindingBag variable: "@ + a@,
            Error::UnknownRow(a) => r@ == "Unknown BindingBag row index: "@
                + text::digits(a as nat),
            Error::ExtensionCount(a, b) => r@ == "BindingBag extensions have "@
                + text::digits(a as nat) + " input rows, expected "@ + text::digits(b as nat),
            Error::ExtensionArity(a, b) => r@ == "BindingBag extension has arity "@
                + text::digits(a as nat) + ", expected "@ + text::digits(b as nat),
            Error::UnknownErrorCode(a) => r@ == "Unknown error code: "@ + text::digits(a as nat),
            Error::Decode => r@ == "Failed to decode value"@,
            Error::InsufficientBinding(a) => r@ == "Insufficient binding to ground variable "@
                + a@,
            Error::NotAPrefix => r@ ==
                "Relation validation requires bound variables to form a prefix"@,
            Error::CannotPropose => r@ == "Pattern cannot propose the requested variables"@,
            Error::NegationProposes => r@ ==
                "Propose should not be called on NOT prefix extender — variable is not bound by positive clauses"@,
            Error::OutputIsInput(a, b) => r@ == "Function pattern "@ + text::digits(a as nat)
                + " output "@ + b@ + " is also an input"@,
            Error::DuplicateAdded(a) => r@ == "Added variables must be unique: "@ + a@,
            Error::DuplicateTarget(a) => r@ == "Target variables must be unique: "@ + a@,
            Error::NoParticipants => r@ == "Stage participants must not be empty"@,
            Error::ProposersNotAscending => r@ ==
                "Stage proposer positions must be unique and ordered"@,
            Error::ProposerOutOfBounds(a, b) => r@ == "Stage proposer position "@
                + text::digits(a as nat) + " is out of bounds for "@ + text::digits(b as nat)
                + " participants"@,
            Error::ProposersWithoutAdditions => r@ ==
                "A stage must have proposers if and only if it adds variables"@,
            Error::AddedNotInTarget(a) => r@ == "Added variable "@ + a@
                + " is missing from the target layout"@,
            Error::DuplicateParticipant(a) => r@ == "Stage participant ids must be distinct: "@
                + text::digits(a as nat),
            Error::AlreadyBound(a) => r@ == "Stage cannot add already-bound variable "@ + a@,
            Error::NothingBound(a) => r@ == "Triple pattern "@ + text::digits(a as nat)
                + " has no bound variables to validate"@,
            Error::NotNested => r@ == "NOT logical plan must be nested"@,
            Error::BranchOutput(a) => r@ == "OR branch "@ + text::digits(a as nat)
                + " does not produce the OR variable set"@,
            Error::BranchIncoming(a) => r@ == "OR branch "@ + text::digits(a as nat)
                + " has a different incoming layout"@,
            Error::Unbound => r@ == "Cannot read a value that is not bound"@,
            Error::UnknownAttribute(a) => r@ == "Unknown attribute: :"@ + a@,
            Error::NotAnAttribute => r@ == "Attribute must be a keyword or entid"@,
            Error::UnsupportedFunction(a, b) => r@ == "Unsupported function '"@ + a@ + "' with "@
                + text::digits(b as nat) + " args"@,
            Error::UnsupportedConstant => r@ == "Cannot convert constant to DataType"@,
            Error::UnsupportedArgument => r@ == "Unsupported fn arg type"@,
            Error::PatternNotLiteral => r@ ==
                "regexp_like requires a string literal as second argument (pattern)"@,
            Error::InvalidRegex(a, b) => r@ == "invalid regex pattern for regexp_like `"@ + a@
                + "`: "@ + b@,
            Error::PredicateAsFunction => r@ ==
                "regexp_like is a predicate, not a binding function"@,
            Error::NoVariables => r@ ==
                "Predicate expression must reference at least one variable"@,
            Error::TooManyVariables => r@ == "Patterns with more than 2 variables not supported"@,
            Error::Incomparable => r@ == "Values cannot be compared"@,
            Error::UnknownAggregate(a) => r@ == "Unknown aggregate function: "@ + a@,
            Error::AggregateArgument(a) => r@ == "Aggregate argument must be a variable, got "@
                + a@,
            Error::FindVariable(a) => r@ == "Find variable "@ + a@ + " not in where clauses"@,
            Error::UnsupportedElement => r@ ==
                "Pull and corresponding elements are not yet supported"@,
            Error::UnsupportedFind => r@ == "Only FindRel is currently supported"@,
            Error::OrderVariable(a) => r@ == "ORDER BY variable "@ + a@
                + " is not in the :find clause"@,
            Error::LimitVariable(a) => r@ == "Variable limit "@ + a@
                + " should have been resolved from :in bindings"@,
            Error::EntityIdType => r@ == "Document db/id must be a Long"@,
            Error::UniqueConflict(a, b, c, d) => r@ ==
                "Unique constraint violation for attribute :"@ + a@ + " value "@ + value::shown(b@)
                + ": entities "@ + text::decimal(c as int) + " and "@ + text::decimal(d as int),
            Error::UniqueOwned(a, b, c) => r@ == "Unique constraint violation for attribute :"@
                + a@ + " value "@ + value::shown(b@) + ": entity "@ + text::decimal(c as int)
                + " already owns it"@,
            Error::EntityNotLong(a) => r@ == "Expected Long entity ID in EAV key, got "@
                + value::shown(a@),
            Error::NoTransaction => r@ == "TX_PARTITION is empty; database not initialized"@,
            Error::TransactionIncomplete(a, b, c) => r@ == "Tx entity "@
                + text::decimal(a as int) + " missing required attributes (tx_id="@
                + text::optional(b) + ", system_time="@ + clock::optional_shown(c) + ")"@,
            Error::Shutdown(a) => r@ == "Indexer shutdown while waiting for tx "@
                + text::decimal(a as int),
            Error::ForeignStart(a) => r@ == "memory log starts with non-bootstrap record "@
                + transaction::key_shown(a),
            Error::InvalidTimestamp(a) => r@ == "Invalid timestamp: "@ + text::decimal(a as int)
                + " micros"@,
            Error::NotNumeric(a) => r@ == "cannot convert "@ + value::shown(a@)
                + " to numeric for aggregation"@,
            Error::NoBasis(a) => r@ == "Indexer did not return TxBasis for tx "@
                + text::decimal(a as int),
            Error::DuplicateProposer(a) => r@ == "Logical stage contains duplicate proposer "@
                + plan::participant_name(a),
            Error::UnknownPattern(a) => r@ == "Unknown logical stage pattern ID "@
                + text::digits(a as nat),
            Error::PatternVariables(a, b, c) => r@ == "Runtime pattern "@
                + text::digits(a as nat) + " variables "@ + b@
                + " do not match descriptor variables "@ + c@,
            Error::NoNestedScope(a) => r@ == "Composite descriptor "@ + text::digits(a as nat)
                + " has no nested logical scope"@,
            Error::BranchCount(a, b, c) => r@ == "OR descriptor "@ + text::digits(a as nat)
                + " has "@ + text::digits(b as nat) + " branches but "@ + text::digits(c as nat)
                + " planned scopes"@,
            Error::DuplicateDescriptor(a) => r@ == "Duplicate descriptor ID "@
                + text::digits(a as nat) + " in one scope"@,
            Error::TopLevelIncoming => r@ ==
                "Top-level logical scope cannot have incoming variables"@,
            Error::WrongIndex(a) => r@ == "Not a "@ + error::index_name(a) + " key"@,
            Error::KeyTooShort => r@ == "Key too short"@,
            Error::UnsupportedClause(a) => r@ == "Unsupported where clause type: "@ + a@,
            Error::UnsupportedBinding => r@ == "Only scalar binding supported"@,
            Error::EstimateCount => r@ == "Estimates do not match the input rows"@,
            Error::UnplacedParticipants(a) => r@ == "Unable to place query participants: "@
                + text::listed(plan::participant_names(a@)),
            Error::UnsupportedOperator(a) => r@ == "Unsupported operator: "@ + a@,
            Error::UnsupportedUnary(a) => r@ == "Unsupported unary operator: "@ + a@,
            Error::IfArguments(a) => r@ == "'if' expects 3 args (condition, then, else), got "@
                + text::digits(a as nat),
            Error::RegexpArguments(a) => r@ ==
                "regexp_like expects 2 args (subject, pattern), got "@ + text::digits(a as nat),
            Error::AggregateArity(a, b) => r@ == "Aggregate function '"@ + a@
                + "' requires exactly 1 argument, got "@ + text::digits(b as nat),
            Error::AttributePosition => r@ == "Attribute position must be a keyword or entid"@,
            Error::PredicateVariable(a) => r@ == "Predicate variable "@ + a@
                + " not found in join order"@,
            Error::FunctionInput(a) => r@ == "FnExpr input variable "@ + a@
                + " not in join order"@,
            Error::FunctionOutput(a) => r@ == "FnExpr output variable "@ + a@
                + " not in join order"@,
            Error::PatternUnplaced => r@ == "Variables not found in join order"@,
            Error::AggregateVariable(a) => r@ == "Aggregate variable "@ + a@
                + " not in where clauses"@,
            Error::OrderFind => r@ ==
                "ORDER BY is only supported with relational :find (FindRel)"@,
            Error::PredicateProposes => r@ ==
                "Propose should not be called on predicate prefix extender"@,
            Error::OwnerNotLong(a) => r@ == "Expected Long entity ID in VAE key, got "@
                + value::shown(a@),
            Error::DuplicateProjection(a) => r@ == "Projection variables must be unique: "@ + a@,
            Error::DuplicateExtension(a) => r@ ==
                "Extended BindingBag variables must be unique: "@ + a@,
            Error::ReorderLayout => r@ ==
                "Reordered layout must contain exactly the current variables"@,
            Error::UnionLayout => r@ == "Union requires identical BindingBag layouts"@,
            Error::StageLayout => r@ ==
                "Stage target layout must equal the input variables plus added variables"@,
            Error::FunctionUnbound(a, b) => r@ == "Function pattern "@ + text::digits(a as nat)
                + " requires bound input "@ + b@,
            Error::FunctionProposals(a, b, c) => r@ == "Function pattern "@
                + text::digits(a as nat) + " received "@ + text::digits(b as nat)
                + " proposals for "@ + text::digits(c as nat) + " input rows"@,
            Error::FunctionLayout(a) => r@ == "Function pattern "@ + text::digits(a as nat)
                + " validation must preserve the input layout"@,
            Error::FunctionUnboundOutput(a, b) => r@ == "Function pattern "@
                + text::digits(a as nat) + " validation requires bound output "@ + b@,
            Error::FunctionCannotPropose(a, b) => r@ == "Function pattern "@
                + text::digits(a as nat) + " can only propose output "@ + b@,
            Error::FunctionBoundOutput(a, b) => r@ == "Function pattern "@
                + text::digits(a as nat) + " cannot add already-bound output "@ + b@,
            Error::PredicateCannotPropose(a, b) => r@ == "Predicate pattern "@
                + text::digits(a as nat) + " cannot propose variables: "@ + b@,
            Error::PredicateLayout(a) => r@ == "Predicate pattern "@ + text::digits(a as nat)
                + " validation must preserve the input layout"@,
            Error::PredicateUnbound(a, b) => r@ == "Predicate pattern "@ + text::digits(a as nat)
                + " requires bound variable "@ + b@,
            Error::ProposerAbsent(a) => r@ == "Logical stage proposer "@
                + plan::participant_name(a) + " is not a participant"@,
            Error::ValidationProposers => r@ ==
                "Validation-only logical stage cannot have proposers"@,
            Error::NoProposer => r@ == "Proposing logical stage must have a proposer"@,
            Error::NotOrScopes(a) => r@ == "Descriptor "@ + text::digits(a as nat)
                + " expected OR nested scopes"@,
            Error::NotNotScope(a) => r@ == "Descriptor "@ + text::digits(a as nat)
                + " expected NOT nested scope"@,
            Error::BranchNotNested(a, b) => r@ == "OR descriptor "@ + text::digits(a as nat)
                + " branch "@ + text::digits(b as nat) + " has no incoming layout"@,
            Error::BranchLayouts(a) => r@ == "OR descriptor "@ + text::digits(a as nat)
                + " branches have different incoming layouts"@,
            Error::BodyNotNested(a) => r@ == "NOT descriptor "@ + text::digits(a as nat)
                + " has no incoming layout"@,
            Error::BodyLayout(a) => r@ == "NOT descriptor "@ + text::digits(a as nat)
                + " incoming layout does not contain every correlated variable"@,
            Error::FinalLayout(a, b) => r@ == "Executable plan produces variables "@ + a@
                + ", expected "@ + b@,
            Error::UnsupportedEntity(a) => r@ == "Unsupported triple entity term: "@ + a@,
            Error::UnsupportedValue(a) => r@ == "Unsupported triple value term: "@ + a@,
            Error::TripleRepeats(a, b) => r@ == "Triple pattern "@ + text::digits(a as nat)
                + " repeats variable "@ + b@,
            Error::TripleProposesOne(a, b) => r@ == "Triple pattern "@ + text::digits(a as nat)
                + " can propose exactly one variable, got "@ + b@,
            Error::TripleBound(a, b) => r@ == "Triple pattern "@ + text::digits(a as nat)
                + " cannot add already-bound variable "@ + b@,
            Error::TripleCannotPropose(a, b) => r@ == "Triple pattern "@ + text::digits(a as nat)
                + " cannot propose variable "@ + b@,
            Error::TripleProposals(a, b, c) => r@ == "Triple pattern "@ + text::digits(a as nat)
                + " received "@ + text::digits(b as nat) + " proposals for "@
                + text::digits(c as nat) + " input rows"@,
            Error::TripleCountsOne(a, b) => r@ == "Triple pattern "@ + text::digits(a as nat)
                + " can count exactly one variable, got "@ + b@,
            Error::TripleCannotCount(a, b) => r@ ==
                "Triple pattern can only count variables it can propose. Received "@ + a@
                + ", variables "@ + b@,
            Error::RelationProposals(a, b) => r@ == "Proposal sidecar has "@
                + text::digits(a as nat) + " rows, expected "@ + text::digits(b as nat),
            Error::RelationLayout => r@ == "Relation validation must preserve the input layout"@,
            Error::RelationCannotPropose(a) => r@ ==
                "Relation cannot propose the requested variables: "@ + a@,
            Error::DuplicateNot(a) => r@ == "NOT variables must be unique: "@ + a@,
            Error::NotIncoming => r@ == "NOT incoming variables must be the NOT variable set"@,
            Error::NotOutput => r@ == "NOT body does not produce the NOT variable set"@,
            Error::NotCannotPropose(a, b) => r@ == "NOT pattern "@ + text::digits(a as nat)
                + " cannot propose variables: "@ + b@,
            Error::NotLayout(a) => r@ == "NOT pattern "@ + text::digits(a as nat)
                + " validation must preserve the input layout"@,
            Error::NotUnbound(a) => r@ == "NOT pattern "@ + text::digits(a as nat)
                + " requires every correlated variable to be bound"@,
            Error::DuplicateOr(a) => r@ == "OR variables must be unique: "@ + a@,
            Error::NoBranches => r@ == "OR must contain at least one nested branch"@,
            Error::DuplicateOrIncoming(a) => r@ == "OR incoming variables must be unique: "@ + a@,
            Error::OrIncoming => r@ == "OR incoming variables must be OR variables"@,
            Error::OrLayout(a) => r@ == "OR pattern "@ + text::digits(a as nat)
                + " validation must preserve the input layout"@,
            Error::OrUnbound(a) => r@ == "OR pattern "@ + text::digits(a as nat)
                + " validation requires every OR variable to be bound"@,
            Error::OrMustPropose(a) => r@ == "OR pattern "@ + text::digits(a as nat)
                + " must propose every missing OR variable"@,
            Error::OrMissingIncoming(a, b) => r@ == "OR pattern "@ + text::digits(a as nat)
                + " requires incoming variable "@ + b@,
        },
{
}

/// A value is shown with its kind and with what it holds.
pub proof fn law_value_texts(v: DataType, r: String)
    requires
        call_ensures(value_text, (&v,), r),
    ensures
        match v {
            DataType::BigInt(x) => r@ == "BigInt("@ + text::decimal(x as int) + ")"@,
            DataType::Boolean(x) => r@ == (if x {
                "Boolean(true)"@
            } else {
                "Boolean(false)"@
            }),
            DataType::Bytes(x) => r@ == "Bytes("@ + text::listed(text::byte_numbers(x@)) + ")"@,
            DataType::Double(x) => r@ == "Double("@ + text::bits_shown(x as nat, 16) + ")"@,
            DataType::Float(x) => r@ == "Float("@ + text::bits_shown(x as nat, 8) + ")"@,
            DataType::Instant(x) => r@ == "Instant("@ + clock::instant_shown(x) + ")"@,
            DataType::Keyword(x) => r@ == "Keyword(:"@ + x.name@ + ")"@,
            DataType::Long(x) => r@ == "Long("@ + text::decimal(x as int) + ")"@,
            DataType::String(x) => r@ == "String("@ + text::quoted(x@) + ")"@,
            DataType::Uuid(x) => r@ == "Uuid("@ + text::uuid_shown(x as nat) + ")"@,
            DataType::Vector(x) => r@ == "Vector("@ + text::listed(text::byte_numbers(x@)) + ")"@,
            DataType::Document(x) => r@ == "Document("@ + text::listed(text::byte_numbers(x@))
                + ")"@,
        },
{
}

/// A transaction is shown with its number and its time, and one that may be missing with whether it
/// is there.
pub proof fn law_transaction_texts(key: TxKey, r: String, some: String, none: String)
    requires
        call_ensures(key_text, (key,), r),
        call_ensures(optional_key_text, (Some(key),), some),
        call_ensures(optional_key_text, (None::<TxKey>,), none),
    ensures
        r@ == "TxKey { tx_id: "@ + text::decimal(key.tx_id as int) + ", system_time: "@
            + clock::instant_shown(key.system_time) + " }"@,
        some@ == "Some("@ + r@ + ")"@,
        none@ == "None"@,
{
}

/// The names of the indexes and of participants.
pub proof fn law_names_in_texts(id: usize)
    ensures
        error::index_name(IndexType::EAV) == "EAV"@,
        error::index_name(IndexType::AEV) == "AEV"@,
        error::index_name(IndexType::AVE) == "AVE"@,
        error::index_name(IndexType::VAE) == "VAE"@,
        error::index_name(IndexType::AE) == "AE"@,
        error::index_name(IndexType::AV) == "AV"@,
        plan::participant_name(ParticipantRef::Pattern(id)) == "Pattern("@ + text::digits(
            id as nat,
        ) + ")"@,
        plan::participant_name(ParticipantRef::Incoming) == "Incoming"@,
{
}

} // verus!
