//! The errors that the library reports.

use vstd::prelude::*;

use crate::clock::{self, optional_instant_text};
use crate::query::plan::{self, participant_text, participants_text, ParticipantRef};
use crate::text::{
    self, concat2, concat3, concat4, concat5, concat6, concat7, concat8, count_text,
    decimal_text, optional_text,
};
use crate::transaction::{self, key_text, TxKey};
use crate::value::{self, value_text, DataType, IndexType, Value};

verus! {

/// Why an operation was refused, and what it was about.
#[derive(Debug, PartialEq, Eq)]
pub enum Error {
    /// A variable stands twice in a layout.
    DuplicateVariable(String),
    /// The row at this position does not have one value for each variable.
    RowArity(usize, usize, usize),
    /// A variable is not a column of the bag.
    UnknownVariable(String),
    /// A row index lies beyond the last row.
    UnknownRow(usize),
    /// There is not exactly one list of extensions for each input row.
    ExtensionCount(usize, usize),
    /// An extension does not have one value for each added variable.
    ExtensionArity(usize, usize),
    /// No error kind has this number.
    UnknownErrorCode(u16),
    /// Bytes do not spell a value.
    Decode,
    /// A variable is left that nothing can bind.
    InsufficientBinding(String),
    /// The bound variables are not the first of a relation's variables.
    NotAPrefix,
    /// A pattern cannot bind the variables that it is asked to add.
    CannotPropose,
    /// A negation is asked to list what it allows.
    NegationProposes,
    /// A function would bind one of its own inputs.
    OutputIsInput(usize, String),
    /// A stage adds a variable twice.
    DuplicateAdded(String),
    /// The target layout of a stage names a variable twice.
    DuplicateTarget(String),
    /// Nobody takes part in a stage.
    NoParticipants,
    /// The positions of a stage's proposers repeat or are out of order.
    ProposersNotAscending,
    /// A proposer's position is no participant's.
    ProposerOutOfBounds(usize, usize),
    /// A stage has proposers but adds no variable, or adds variables without proposers.
    ProposersWithoutAdditions,
    /// The target layout of a stage lacks a variable that it adds.
    AddedNotInTarget(String),
    /// Two participants of a stage have the same identity.
    DuplicateParticipant(usize),
    /// A stage adds a variable that is bound already.
    AlreadyBound(String),
    /// A triple pattern has no bound variable by which rows could be checked.
    NothingBound(usize),
    /// The plan of a negation takes nothing in.
    NotNested,
    /// This scope of a composite pattern does not give the pattern's variables.
    BranchOutput(usize),
    /// This scope of a composite pattern takes in another layout than the first.
    BranchIncoming(usize),
    /// A value is read that is not bound yet.
    Unbound,
    /// No attribute has this name.
    UnknownAttribute(String),
    /// What stands in an attribute position names no attribute.
    NotAnAttribute,
    /// No function of this name takes this many arguments.
    UnsupportedFunction(String, usize),
    /// A constant has no value.
    UnsupportedConstant,
    /// An argument of a function is of an unknown kind.
    UnsupportedArgument,
    /// The pattern of a regular expression match is no text literal.
    PatternNotLiteral,
    /// A regular expression cannot be compiled, for this cause.
    InvalidRegex(String, String),
    /// A condition stands where a function binds a value.
    PredicateAsFunction,
    /// A condition names no variable.
    NoVariables,
    /// A pattern has more than two variables.
    TooManyVariables,
    /// Values to sort by have no order.
    Incomparable,
    /// No aggregate has this name.
    UnknownAggregate(String),
    /// An aggregate is asked for something other than a variable.
    AggregateArgument(String),
    /// A find clause names a variable that nothing binds.
    FindVariable(String),
    /// A find clause has an element of an unsupported kind.
    UnsupportedElement,
    /// A query asks for something other than a relation.
    UnsupportedFind,
    /// A variable to sort by is not in the find clause.
    OrderVariable(String),
    /// A limit is still a variable.
    LimitVariable(String),
    /// The entity number of a document is no number.
    EntityIdType,
    /// A unique value of an attribute is asserted for two entities.
    UniqueConflict(String, DataType, i64, i64),
    /// Another entity has a unique value of an attribute.
    UniqueOwned(String, DataType, i64),
    /// The entity of a key is no number.
    EntityNotLong(DataType),
    /// There is no transaction yet.
    NoTransaction,
    /// A transaction lacks its number or its time.
    TransactionIncomplete(i64, Option<i64>, Option<i64>),
    /// The indexer is shut down.
    Shutdown(i64),
    /// A log begins with another record, that of this transaction.
    ForeignStart(TxKey),
    /// A number of microseconds has no date.
    InvalidTimestamp(i64),
    /// A value to aggregate is no number.
    NotNumeric(DataType),
    /// A transaction of which others were told has no basis.
    NoBasis(i64),
    /// A proposer of a stage is named twice.
    DuplicateProposer(ParticipantRef),
    /// A stage names a pattern that its scope does not have.
    UnknownPattern(usize),
    /// The variables of a pattern are not those of its descriptor.
    PatternVariables(usize, String, String),
    /// A composite pattern has no scopes of its kind.
    NoNestedScope(usize),
    /// A disjunction does not have one scope for each branch.
    BranchCount(usize, usize, usize),
    /// Two descriptors of a scope have this number.
    DuplicateDescriptor(usize),
    /// A plan takes something in.
    TopLevelIncoming,
    /// A key is not one of this index.
    WrongIndex(IndexType),
    /// A key is too short.
    KeyTooShort,
    /// A clause is of an unsupported kind.
    UnsupportedClause(String),
    /// A clause binds its value in an unsupported way.
    UnsupportedBinding,
    /// There is not exactly one estimate for each input row.
    EstimateCount,
    /// Every variable is bound, but some participant is in no stage.
    UnplacedParticipants(Vec<ParticipantRef>),
    /// No operator of two operands has this name.
    UnsupportedOperator(String),
    /// No operator of one operand has this name.
    UnsupportedUnary(String),
    /// A choice is given another number of arguments than three.
    IfArguments(usize),
    /// A match of a regular expression is given another number of arguments than two.
    RegexpArguments(usize),
    /// An aggregate is given another number of arguments than one.
    AggregateArity(String, usize),
    /// The attribute of a pattern is not known.
    AttributePosition,
    /// A condition names a variable without a level.
    PredicateVariable(String),
    /// A function reads a variable without a level.
    FunctionInput(String),
    /// A function binds a variable without a level.
    FunctionOutput(String),
    /// A pattern names a variable without a level.
    PatternUnplaced,
    /// An aggregate is asked for a variable that nothing binds.
    AggregateVariable(String),
    /// Something other than a relation is to be sorted.
    OrderFind,
    /// A condition is asked for the values that it allows.
    PredicateProposes,
    /// What owns a unique value is no entity.
    OwnerNotLong(DataType),
    /// A variable is asked for twice.
    DuplicateProjection(String),
    /// A variable is added twice, or is there already.
    DuplicateExtension(String),
    /// A layout has more or fewer variables than the rows.
    ReorderLayout,
    /// Rows of different layouts are put together.
    UnionLayout,
    /// A stage gives another layout than what is bound and what it adds.
    StageLayout,
    /// A function lacks one of its inputs.
    FunctionUnbound(usize, String),
    /// A function is given proposals for other rows.
    FunctionProposals(usize, usize, usize),
    /// A function that adds nothing is asked for another layout.
    FunctionLayout(usize),
    /// A function that adds nothing lacks its output.
    FunctionUnboundOutput(usize, String),
    /// A function is to add something else than its output.
    FunctionCannotPropose(usize, String),
    /// A function is to add an output that is bound.
    FunctionBoundOutput(usize, String),
    /// A condition is to add variables.
    PredicateCannotPropose(usize, String),
    /// A condition is asked for another layout.
    PredicateLayout(usize),
    /// A condition lacks one of its variables.
    PredicateUnbound(usize, String),
    /// A proposer takes no part in its stage.
    ProposerAbsent(ParticipantRef),
    /// A stage that adds nothing has proposers.
    ValidationProposers,
    /// A stage that adds variables has no proposer.
    NoProposer,
    /// A disjunction has the scope of a negation.
    NotOrScopes(usize),
    /// A negation has the scopes of a disjunction.
    NotNotScope(usize),
    /// A branch of a disjunction takes nothing in.
    BranchNotNested(usize, usize),
    /// The branches of a disjunction take in different layouts.
    BranchLayouts(usize),
    /// The body of a negation takes nothing in.
    BodyNotNested(usize),
    /// The body of a negation takes in another layout.
    BodyLayout(usize),
    /// A plan ends with another layout.
    FinalLayout(String, String),
    /// What stands in the entity position of a pattern has no value.
    UnsupportedEntity(String),
    /// What stands in the value position of a pattern has no value.
    UnsupportedValue(String),
    /// A triple names one variable twice.
    TripleRepeats(usize, String),
    /// A triple is to add several variables.
    TripleProposesOne(usize, String),
    /// A triple is to add a variable that is bound.
    TripleBound(usize, String),
    /// A triple is to add a variable that is not its own.
    TripleCannotPropose(usize, String),
    /// A triple is given proposals for other rows.
    TripleProposals(usize, usize, usize),
    /// A triple is to count several variables.
    TripleCountsOne(usize, String),
    /// A triple is to count a variable that is not its own.
    TripleCannotCount(String, String),
    /// A relation is given proposals for other rows.
    RelationProposals(usize, usize),
    /// A relation that adds nothing is asked for another layout.
    RelationLayout,
    /// A relation is to add other variables than its next ones.
    RelationCannotPropose(String),
    /// A negation names a variable twice.
    DuplicateNot(String),
    /// A negation starts from other variables than its own.
    NotIncoming,
    /// The body of a negation gives other variables.
    NotOutput,
    /// A negation is to add variables.
    NotCannotPropose(usize, String),
    /// A negation is asked for another layout.
    NotLayout(usize),
    /// A negation lacks one of its variables.
    NotUnbound(usize),
    /// A disjunction names a variable twice.
    DuplicateOr(String),
    /// A disjunction has no branch that takes something in.
    NoBranches,
    /// A disjunction starts from a variable twice.
    DuplicateOrIncoming(String),
    /// A disjunction starts from a variable that is not its own.
    OrIncoming,
    /// A disjunction that adds nothing is asked for another layout.
    OrLayout(usize),
    /// A disjunction that adds nothing lacks one of its variables.
    OrUnbound(usize),
    /// A disjunction is to add some of its variables.
    OrMustPropose(usize),
    /// A disjunction lacks a variable that it starts from.
    OrMissingIncoming(usize, String),
}

/// What an error is.
pub enum ErrorView {
    DuplicateVariable(Seq<char>),
    RowArity(usize, usize, usize),
    UnknownVariable(Seq<char>),
    UnknownRow(usize),
    ExtensionCount(usize, usize),
    ExtensionArity(usize, usize),
    UnknownErrorCode(u16),
    Decode,
    InsufficientBinding(Seq<char>),
    NotAPrefix,
    CannotPropose,
    NegationProposes,
    OutputIsInput(usize, Seq<char>),
    DuplicateAdded(Seq<char>),
    DuplicateTarget(Seq<char>),
    NoParticipants,
    ProposersNotAscending,
    ProposerOutOfBounds(usize, usize),
    ProposersWithoutAdditions,
    AddedNotInTarget(Seq<char>),
    DuplicateParticipant(usize),
    AlreadyBound(Seq<char>),
    NothingBound(usize),
    NotNested,
    BranchOutput(usize),
    BranchIncoming(usize),
    Unbound,
    UnknownAttribute(Seq<char>),
    NotAnAttribute,
    UnsupportedFunction(Seq<char>, usize),
    UnsupportedConstant,
    UnsupportedArgument,
    PatternNotLiteral,
    InvalidRegex(Seq<char>, Seq<char>),
    PredicateAsFunction,
    NoVariables,
    TooManyVariables,
    Incomparable,
    UnknownAggregate(Seq<char>),
    AggregateArgument(Seq<char>),
    FindVariable(Seq<char>),
    UnsupportedElement,
    UnsupportedFind,
    OrderVariable(Seq<char>),
    LimitVariable(Seq<char>),
    EntityIdType,
    UniqueConflict(Seq<char>, Value, i64, i64),
    UniqueOwned(Seq<char>, Value, i64),
    EntityNotLong(Value),
    NoTransaction,
    TransactionIncomplete(i64, Option<i64>, Option<i64>),
    Shutdown(i64),
    ForeignStart(TxKey),
    InvalidTimestamp(i64),
    NotNumeric(Value),
    NoBasis(i64),
    DuplicateProposer(ParticipantRef),
    UnknownPattern(usize),
    PatternVariables(usize, Seq<char>, Seq<char>),
    NoNestedScope(usize),
    BranchCount(usize, usize, usize),
    DuplicateDescriptor(usize),
    TopLevelIncoming,
    WrongIndex(IndexType),
    KeyTooShort,
    UnsupportedClause(Seq<char>),
    UnsupportedBinding,
    EstimateCount,
    UnplacedParticipants(Seq<ParticipantRef>),
    UnsupportedOperator(Seq<char>),
    UnsupportedUnary(Seq<char>),
    IfArguments(usize),
    RegexpArguments(usize),
    AggregateArity(Seq<char>, usize),
    AttributePosition,
    PredicateVariable(Seq<char>),
    FunctionInput(Seq<char>),
    FunctionOutput(Seq<char>),
    PatternUnplaced,
    AggregateVariable(Seq<char>),
    OrderFind,
    PredicateProposes,
    OwnerNotLong(Value),
    DuplicateProjection(Seq<char>),
    DuplicateExtension(Seq<char>),
    ReorderLayout,
    UnionLayout,
    StageLayout,
    FunctionUnbound(usize, Seq<char>),
    FunctionProposals(usize, usize, usize),
    FunctionLayout(usize),
    FunctionUnboundOutput(usize, Seq<char>),
    FunctionCannotPropose(usize, Seq<char>),
    FunctionBoundOutput(usize, Seq<char>),
    PredicateCannotPropose(usize, Seq<char>),
    PredicateLayout(usize),
    PredicateUnbound(usize, Seq<char>),
    ProposerAbsent(ParticipantRef),
    ValidationProposers,
    NoProposer,
    NotOrScopes(usize),
    NotNotScope(usize),
    BranchNotNested(usize, usize),
    BranchLayouts(usize),
    BodyNotNested(usize),
    BodyLayout(usize),
    FinalLayout(Seq<char>, Seq<char>),
    UnsupportedEntity(Seq<char>),
    UnsupportedValue(Seq<char>),
    TripleRepeats(usize, Seq<char>),
    TripleProposesOne(usize, Seq<char>),
    TripleBound(usize, Seq<char>),
    TripleCannotPropose(usize, Seq<char>),
    TripleProposals(usize, usize, usize),
    TripleCountsOne(usize, Seq<char>),
    TripleCannotCount(Seq<char>, Seq<char>),
    RelationProposals(usize, usize),
    RelationLayout,
    RelationCannotPropose(Seq<char>),
    DuplicateNot(Seq<char>),
    NotIncoming,
    NotOutput,
    NotCannotPropose(usize, Seq<char>),
    NotLayout(usize),
    NotUnbound(usize),
    DuplicateOr(Seq<char>),
    NoBranches,
    DuplicateOrIncoming(Seq<char>),
    OrIncoming,
    OrLayout(usize),
    OrUnbound(usize),
    OrMustPropose(usize),
    OrMissingIncoming(usize, Seq<char>),
}

impl View for Error {
    type V = ErrorView;

    open spec fn view(&self) -> ErrorView {
        match *self {
            Error::DuplicateVariable(a) => ErrorView::DuplicateVariable(a@),
            Error::RowArity(a, b, c) => ErrorView::RowArity(a, b, c),
            Error::UnknownVariable(a) => ErrorView::UnknownVariable(a@),
            Error::UnknownRow(a) => ErrorView::UnknownRow(a),
            Error::ExtensionCount(a, b) => ErrorView::ExtensionCount(a, b),
            Error::ExtensionArity(a, b) => ErrorView::ExtensionArity(a, b),
            Error::UnknownErrorCode(a) => ErrorView::UnknownErrorCode(a),
            Error::Decode => ErrorView::Decode,
            Error::InsufficientBinding(a) => ErrorView::InsufficientBinding(a@),
            Error::NotAPrefix => ErrorView::NotAPrefix,
            Error::CannotPropose => ErrorView::CannotPropose,
            Error::NegationProposes => ErrorView::NegationProposes,
            Error::OutputIsInput(a, b) => ErrorView::OutputIsInput(a, b@),
            Error::DuplicateAdded(a) => ErrorView::DuplicateAdded(a@),
            Error::DuplicateTarget(a) => ErrorView::DuplicateTarget(a@),
            Error::NoParticipants => ErrorView::NoParticipants,
            Error::ProposersNotAscending => ErrorView::ProposersNotAscending,
            Error::ProposerOutOfBounds(a, b) => ErrorView::ProposerOutOfBounds(a, b),
            Error::ProposersWithoutAdditions => ErrorView::ProposersWithoutAdditions,
            Error::AddedNotInTarget(a) => ErrorView::AddedNotInTarget(a@),
            Error::DuplicateParticipant(a) => ErrorView::DuplicateParticipant(a),
            Error::AlreadyBound(a) => ErrorView::AlreadyBound(a@),
            Error::NothingBound(a) => ErrorView::NothingBound(a),
            Error::NotNested => ErrorView::NotNested,
            Error::BranchOutput(a) => ErrorView::BranchOutput(a),
            Error::BranchIncoming(a) => ErrorView::BranchIncoming(a),
            Error::Unbound => ErrorView::Unbound,
            Error::UnknownAttribute(a) => ErrorView::UnknownAttribute(a@),
            Error::NotAnAttribute => ErrorView::NotAnAttribute,
            Error::UnsupportedFunction(a, b) => ErrorView::UnsupportedFunction(a@, b),
            Error::UnsupportedConstant => ErrorView::UnsupportedConstant,
            Error::UnsupportedArgument => ErrorView::UnsupportedArgument,
            Error::PatternNotLiteral => ErrorView::PatternNotLiteral,
            Error::InvalidRegex(a, b) => ErrorView::InvalidRegex(a@, b@),
            Error::PredicateAsFunction => ErrorView::PredicateAsFunction,
            Error::NoVariables => ErrorView::NoVariables,
            Error::TooManyVariables => ErrorView::TooManyVariables,
            Error::Incomparable => ErrorView::Incomparable,
            Error::UnknownAggregate(a) => ErrorView::UnknownAggregate(a@),
            Error::AggregateArgument(a) => ErrorView::AggregateArgument(a@),
            Error::FindVariable(a) => ErrorView::FindVariable(a@),
            Error::UnsupportedElement => ErrorView::UnsupportedElement,
            Error::UnsupportedFind => ErrorView::UnsupportedFind,
            Error::OrderVariable(a) => ErrorView::OrderVariable(a@),
            Error::LimitVariable(a) => ErrorView::LimitVariable(a@),
            Error::EntityIdType => ErrorView::EntityIdType,
            Error::UniqueConflict(a, b, c, d) => ErrorView::UniqueConflict(a@, b@, c, d),
            Error::UniqueOwned(a, b, c) => ErrorView::UniqueOwned(a@, b@, c),
            Error::EntityNotLong(a) => ErrorView::EntityNotLong(a@),
            Error::NoTransaction => ErrorView::NoTransaction,
            Error::TransactionIncomplete(a, b, c) => ErrorView::TransactionIncomplete(a, b, c),
            Error::Shutdown(a) => ErrorView::Shutdown(a),
            Error::ForeignStart(a) => ErrorView::ForeignStart(a),
            Error::InvalidTimestamp(a) => ErrorView::InvalidTimestamp(a),
            Error::NotNumeric(a) => ErrorView::NotNumeric(a@),
            Error::NoBasis(a) => ErrorView::NoBasis(a),
            Error::DuplicateProposer(a) => ErrorView::DuplicateProposer(a),
            Error::UnknownPattern(a) => ErrorView::UnknownPattern(a),
            Error::PatternVariables(a, b, c) => ErrorView::PatternVariables(a, b@, c@),
            Error::NoNestedScope(a) => ErrorView::NoNestedScope(a),
            Error::BranchCount(a, b, c) => ErrorView::BranchCount(a, b, c),
            Error::DuplicateDescriptor(a) => ErrorView::DuplicateDescriptor(a),
            Error::TopLevelIncoming => ErrorView::TopLevelIncoming,
            Error::WrongIndex(a) => ErrorView::WrongIndex(a),
            Error::KeyTooShort => ErrorView::KeyTooShort,
            Error::UnsupportedClause(a) => ErrorView::UnsupportedClause(a@),
            Error::UnsupportedBinding => ErrorView::UnsupportedBinding,
            Error::EstimateCount => ErrorView::EstimateCount,
            Error::UnplacedParticipants(a) => ErrorView::UnplacedParticipants(a@),
            Error::UnsupportedOperator(a) => ErrorView::UnsupportedOperator(a@),
            Error::UnsupportedUnary(a) => ErrorView::UnsupportedUnary(a@),
            Error::IfArguments(a) => ErrorView::IfArguments(a),
            Error::RegexpArguments(a) => ErrorView::RegexpArguments(a),
            Error::AggregateArity(a, b) => ErrorView::AggregateArity(a@, b),
            Error::AttributePosition => ErrorView::AttributePosition,
            Error::PredicateVariable(a) => ErrorView::PredicateVariable(a@),
            Error::FunctionInput(a) => ErrorView::FunctionInput(a@),
            Error::FunctionOutput(a) => ErrorView::FunctionOutput(a@),
            Error::PatternUnplaced => ErrorView::PatternUnplaced,
            Error::AggregateVariable(a) => ErrorView::AggregateVariable(a@),
            Error::OrderFind => ErrorView::OrderFind,
            Error::PredicateProposes => ErrorView::PredicateProposes,
            Error::OwnerNotLong(a) => ErrorView::OwnerNotLong(a@),
            Error::DuplicateProjection(a) => ErrorView::DuplicateProjection(a@),
            Error::DuplicateExtension(a) => ErrorView::DuplicateExtension(a@),
            Error::ReorderLayout => ErrorView::ReorderLayout,
            Error::UnionLayout => ErrorView::UnionLayout,
            Error::StageLayout => ErrorView::StageLayout,
            Error::FunctionUnbound(a, b) => ErrorView::FunctionUnbound(a, b@),
            Error::FunctionProposals(a, b, c) => ErrorView::FunctionProposals(a, b, c),
            Error::FunctionLayout(a) => ErrorView::FunctionLayout(a),
            Error::FunctionUnboundOutput(a, b) => ErrorView::FunctionUnboundOutput(a, b@),
            Error::FunctionCannotPropose(a, b) => ErrorView::FunctionCannotPropose(a, b@),
            Error::FunctionBoundOutput(a, b) => ErrorView::FunctionBoundOutput(a, b@),
            Error::PredicateCannotPropose(a, b) => ErrorView::PredicateCannotPropose(a, b@),
            Error::PredicateLayout(a) => ErrorView::PredicateLayout(a),
            Error::PredicateUnbound(a, b) => ErrorView::PredicateUnbound(a, b@),
            Error::ProposerAbsent(a) => ErrorView::ProposerAbsent(a),
            Error::ValidationProposers => ErrorView::ValidationProposers,
            Error::NoProposer => ErrorView::NoProposer,
            Error::NotOrScopes(a) => ErrorView::NotOrScopes(a),
            Error::NotNotScope(a) => ErrorView::NotNotScope(a),
            Error::BranchNotNested(a, b) => ErrorView::BranchNotNested(a, b),
            Error::BranchLayouts(a) => ErrorView::BranchLayouts(a),
            Error::BodyNotNested(a) => ErrorView::BodyNotNested(a),
            Error::BodyLayout(a) => ErrorView::BodyLayout(a),
            Error::FinalLayout(a, b) => ErrorView::FinalLayout(a@, b@),
            Error::UnsupportedEntity(a) => ErrorView::UnsupportedEntity(a@),
            Error::UnsupportedValue(a) => ErrorView::UnsupportedValue(a@),
            Error::TripleRepeats(a, b) => ErrorView::TripleRepeats(a, b@),
            Error::TripleProposesOne(a, b) => ErrorView::TripleProposesOne(a, b@),
            Error::TripleBound(a, b) => ErrorView::TripleBound(a, b@),
            Error::TripleCannotPropose(a, b) => ErrorView::TripleCannotPropose(a, b@),
            Error::TripleProposals(a, b, c) => ErrorView::TripleProposals(a, b, c),
            Error::TripleCountsOne(a, b) => ErrorView::TripleCountsOne(a, b@),
            Error::TripleCannotCount(a, b) => ErrorView::TripleCannotCount(a@, b@),
            Error::RelationProposals(a, b) => ErrorView::RelationProposals(a, b),
            Error::RelationLayout => ErrorView::RelationLayout,
            Error::RelationCannotPropose(a) => ErrorView::RelationCannotPropose(a@),
            Error::DuplicateNot(a) => ErrorView::DuplicateNot(a@),
            Error::NotIncoming => ErrorView::NotIncoming,
            Error::NotOutput => ErrorView::NotOutput,
            Error::NotCannotPropose(a, b) => ErrorView::NotCannotPropose(a, b@),
            Error::NotLayout(a) => ErrorView::NotLayout(a),
            Error::NotUnbound(a) => ErrorView::NotUnbound(a),
            Error::DuplicateOr(a) => ErrorView::DuplicateOr(a@),
            Error::NoBranches => ErrorView::NoBranches,
            Error::DuplicateOrIncoming(a) => ErrorView::DuplicateOrIncoming(a@),
            Error::OrIncoming => ErrorView::OrIncoming,
            Error::OrLayout(a) => ErrorView::OrLayout(a),
            Error::OrUnbound(a) => ErrorView::OrUnbound(a),
            Error::OrMustPropose(a) => ErrorView::OrMustPropose(a),
            Error::OrMissingIncoming(a, b) => ErrorView::OrMissingIncoming(a, b@),
        }
    }
}

/// The outcome of an operation, with what its error is.
pub open spec fn told<T>(r: Result<T, Error>) -> Result<T, ErrorView> {
    match r {
        Ok(value) => Ok(value),
        Err(e) => Err(e@),
    }
}

/// What an error says.
pub open spec fn message_of(e: ErrorView) -> Seq<char> {
    match e {
        ErrorView::DuplicateVariable(a) => "BindingBag variables must be unique: "@ + a,
        ErrorView::RowArity(a, b, c) => "BindingBag row "@ + text::digits(a as nat)
            + " has arity "@ + text::digits(b as nat) + ", expected "@ + text::digits(c as nat),
        ErrorView::UnknownVariable(a) => "Unknown BindingBag variable: "@ + a,
        ErrorView::UnknownRow(a) => "Unknown BindingBag row index: "@ + text::digits(a as nat),
        ErrorView::ExtensionCount(a, b) => "BindingBag extensions have "@
            + text::digits(a as nat) + " input rows, expected "@ + text::digits(b as nat),
        ErrorView::ExtensionArity(a, b) => "BindingBag extension has arity "@
            + text::digits(a as nat) + ", expected "@ + text::digits(b as nat),
        ErrorView::UnknownErrorCode(a) => "Unknown error code: "@ + text::digits(a as nat),
        ErrorView::Decode => "Failed to decode value"@,
        ErrorView::InsufficientBinding(a) => "Insufficient binding to ground variable "@ + a,
        ErrorView::NotAPrefix => "Relation validation requires bound variables to form a prefix"@,
        ErrorView::CannotPropose => "Pattern cannot propose the requested variables"@,
        ErrorView::NegationProposes =>
            "Propose should not be called on NOT prefix extender — variable is not bound by positive clauses"@,
        ErrorView::OutputIsInput(a, b) => "Function pattern "@ + text::digits(a as nat)
            + " output "@ + b + " is also an input"@,
        ErrorView::DuplicateAdded(a) => "Added variables must be unique: "@ + a,
        ErrorView::DuplicateTarget(a) => "Target variables must be unique: "@ + a,
        ErrorView::NoParticipants => "Stage participants must not be empty"@,
        ErrorView::ProposersNotAscending => "Stage proposer positions must be unique and ordered"@,
        ErrorView::ProposerOutOfBounds(a, b) => "Stage proposer position "@
            + text::digits(a as nat) + " is out of bounds for "@ + text::digits(b as nat)
            + " participants"@,
        ErrorView::ProposersWithoutAdditions =>
            "A stage must have proposers if and only if it adds variables"@,
        ErrorView::AddedNotInTarget(a) => "Added variable "@ + a
            + " is missing from the target layout"@,
        ErrorView::DuplicateParticipant(a) => "Stage participant ids must be distinct: "@
            + text::digits(a as nat),
        ErrorView::AlreadyBound(a) => "Stage cannot add already-bound variable "@ + a,
        ErrorView::NothingBound(a) => "Triple pattern "@ + text::digits(a as nat)
            + " has no bound variables to validate"@,
        ErrorView::NotNested => "NOT logical plan must be nested"@,
        ErrorView::BranchOutput(a) => "OR branch "@ + text::digits(a as nat)
            + " does not produce the OR variable set"@,
        ErrorView::BranchIncoming(a) => "OR branch "@ + text::digits(a as nat)
            + " has a different incoming layout"@,
        ErrorView::Unbound => "Cannot read a value that is not bound"@,
        ErrorView::UnknownAttribute(a) => "Unknown attribute: :"@ + a,
        ErrorView::NotAnAttribute => "Attribute must be a keyword or entid"@,
        ErrorView::UnsupportedFunction(a, b) => "Unsupported function '"@ + a + "' with "@
            + text::digits(b as nat) + " args"@,
        ErrorView::UnsupportedConstant => "Cannot convert constant to DataType"@,
        ErrorView::UnsupportedArgument => "Unsupported fn arg type"@,
        ErrorView::PatternNotLiteral =>
            "regexp_like requires a string literal as second argument (pattern)"@,
        ErrorView::InvalidRegex(a, b) => "invalid regex pattern for regexp_like `"@ + a + "`: "@
            + b,
        ErrorView::PredicateAsFunction => "regexp_like is a predicate, not a binding function"@,
        ErrorView::NoVariables => "Predicate expression must reference at least one variable"@,
        ErrorView::TooManyVariables => "Patterns with more than 2 variables not supported"@,
        ErrorView::Incomparable => "Values cannot be compared"@,
        ErrorView::UnknownAggregate(a) => "Unknown aggregate function: "@ + a,
        ErrorView::AggregateArgument(a) => "Aggregate argument must be a variable, got "@ + a,
        ErrorView::FindVariable(a) => "Find variable "@ + a + " not in where clauses"@,
        ErrorView::UnsupportedElement => "Pull and corresponding elements are not yet supported"@,
        ErrorView::UnsupportedFind => "Only FindRel is currently supported"@,
        ErrorView::OrderVariable(a) => "ORDER BY variable "@ + a + " is not in the :find clause"@,
        ErrorView::LimitVariable(a) => "Variable limit "@ + a
            + " should have been resolved from :in bindings"@,
        ErrorView::EntityIdType => "Document db/id must be a Long"@,
        ErrorView::UniqueConflict(a, b, c, d) => "Unique constraint violation for attribute :"@
            + a + " value "@ + value::shown(b) + ": entities "@ + text::decimal(c as int)
            + " and "@ + text::decimal(d as int),
        ErrorView::UniqueOwned(a, b, c) => "Unique constraint violation for attribute :"@ + a
            + " value "@ + value::shown(b) + ": entity "@ + text::decimal(c as int)
            + " already owns it"@,
        ErrorView::EntityNotLong(a) => "Expected Long entity ID in EAV key, got "@
            + value::shown(a),
        ErrorView::NoTransaction => "TX_PARTITION is empty; database not initialized"@,
        ErrorView::TransactionIncomplete(a, b, c) => "Tx entity "@ + text::decimal(a as int)
            + " missing required attributes (tx_id="@ + text::optional(b) + ", system_time="@
            + clock::optional_shown(c) + ")"@,
        ErrorView::Shutdown(a) => "Indexer shutdown while waiting for tx "@
            + text::decimal(a as int),
        ErrorView::ForeignStart(a) => "memory log starts with non-bootstrap record "@
            + transaction::key_shown(a),
        ErrorView::InvalidTimestamp(a) => "Invalid timestamp: "@ + text::decimal(a as int)
            + " micros"@,
        ErrorView::NotNumeric(a) => "cannot convert "@ + value::shown(a)
            + " to numeric for aggregation"@,
        ErrorView::NoBasis(a) => "Indexer did not return TxBasis for tx "@
            + text::decimal(a as int),
        ErrorView::DuplicateProposer(a) => "Logical stage contains duplicate proposer "@
            + plan::participant_name(a),
        ErrorView::UnknownPattern(a) => "Unknown logical stage pattern ID "@
            + text::digits(a as nat),
        ErrorView::PatternVariables(a, b, c) => "Runtime pattern "@ + text::digits(a as nat)
            + " variables "@ + b + " do not match descriptor variables "@ + c,
        ErrorView::NoNestedScope(a) => "Composite descriptor "@ + text::digits(a as nat)
            + " has no nested logical scope"@,
        ErrorView::BranchCount(a, b, c) => "OR descriptor "@ + text::digits(a as nat) + " has "@
            + text::digits(b as nat) + " branches but "@ + text::digits(c as nat)
            + " planned scopes"@,
        ErrorView::DuplicateDescriptor(a) => "Duplicate descriptor ID "@ + text::digits(a as nat)
            + " in one scope"@,
        ErrorView::TopLevelIncoming => "Top-level logical scope cannot have incoming variables"@,
        ErrorView::WrongIndex(a) => "Not a "@ + index_name(a) + " key"@,
        ErrorView::KeyTooShort => "Key too short"@,
        ErrorView::UnsupportedClause(a) => "Unsupported where clause type: "@ + a,
        ErrorView::UnsupportedBinding => "Only scalar binding supported"@,
        ErrorView::EstimateCount => "Estimates do not match the input rows"@,
        ErrorView::UnplacedParticipants(a) => "Unable to place query participants: "@
            + text::listed(plan::participant_names(a)),
        ErrorView::UnsupportedOperator(a) => "Unsupported operator: "@ + a,
        ErrorView::UnsupportedUnary(a) => "Unsupported unary operator: "@ + a,
        ErrorView::IfArguments(a) => "'if' expects 3 args (condition, then, else), got "@
            + text::digits(a as nat),
        ErrorView::RegexpArguments(a) => "regexp_like expects 2 args (subject, pattern), got "@
            + text::digits(a as nat),
        ErrorView::AggregateArity(a, b) => "Aggregate function '"@ + a
            + "' requires exactly 1 argument, got "@ + text::digits(b as nat),
        ErrorView::AttributePosition => "Attribute position must be a keyword or entid"@,
        ErrorView::PredicateVariable(a) => "Predicate variable "@ + a
            + " not found in join order"@,
        ErrorView::FunctionInput(a) => "FnExpr input variable "@ + a + " not in join order"@,
        ErrorView::FunctionOutput(a) => "FnExpr output variable "@ + a + " not in join order"@,
        ErrorView::PatternUnplaced => "Variables not found in join order"@,
        ErrorView::AggregateVariable(a) => "Aggregate variable "@ + a + " not in where clauses"@,
        ErrorView::OrderFind => "ORDER BY is only supported with relational :find (FindRel)"@,
        ErrorView::PredicateProposes =>
            "Propose should not be called on predicate prefix extender"@,
        ErrorView::OwnerNotLong(a) => "Expected Long entity ID in VAE key, got "@
            + value::shown(a),
        ErrorView::DuplicateProjection(a) => "Projection variables must be unique: "@ + a,
        ErrorView::DuplicateExtension(a) => "Extended BindingBag variables must be unique: "@ + a,
        ErrorView::ReorderLayout => "Reordered layout must contain exactly the current variables"@,
        ErrorView::UnionLayout => "Union requires identical BindingBag layouts"@,
        ErrorView::StageLayout =>
            "Stage target layout must equal the input variables plus added variables"@,
        ErrorView::FunctionUnbound(a, b) => "Function pattern "@ + text::digits(a as nat)
            + " requires bound input "@ + b,
        ErrorView::FunctionProposals(a, b, c) => "Function pattern "@ + text::digits(a as nat)
            + " received "@ + text::digits(b as nat) + " proposals for "@
            + text::digits(c as nat) + " input rows"@,
        ErrorView::FunctionLayout(a) => "Function pattern "@ + text::digits(a as nat)
            + " validation must preserve the input layout"@,
        ErrorView::FunctionUnboundOutput(a, b) => "Function pattern "@ + text::digits(a as nat)
            + " validation requires bound output "@ + b,
        ErrorView::FunctionCannotPropose(a, b) => "Function pattern "@ + text::digits(a as nat)
            + " can only propose output "@ + b,
        ErrorView::FunctionBoundOutput(a, b) => "Function pattern "@ + text::digits(a as nat)
            + " cannot add already-bound output "@ + b,
        ErrorView::PredicateCannotPropose(a, b) => "Predicate pattern "@ + text::digits(a as nat)
            + " cannot propose variables: "@ + b,
        ErrorView::PredicateLayout(a) => "Predicate pattern "@ + text::digits(a as nat)
            + " validation must preserve the input layout"@,
        ErrorView::PredicateUnbound(a, b) => "Predicate pattern "@ + text::digits(a as nat)
            + " requires bound variable "@ + b,
        ErrorView::ProposerAbsent(a) => "Logical stage proposer "@ + plan::participant_name(a)
            + " is not a participant"@,
        ErrorView::ValidationProposers => "Validation-only logical stage cannot have proposers"@,
        ErrorView::NoProposer => "Proposing logical stage must have a proposer"@,
        ErrorView::NotOrScopes(a) => "Descriptor "@ + text::digits(a as nat)
            + " expected OR nested scopes"@,
        ErrorView::NotNotScope(a) => "Descriptor "@ + text::digits(a as nat)
            + " expected NOT nested scope"@,
        ErrorView::BranchNotNested(a, b) => "OR descriptor "@ + text::digits(a as nat)
            + " branch "@ + text::digits(b as nat) + " has no incoming layout"@,
        ErrorView::BranchLayouts(a) => "OR descriptor "@ + text::digits(a as nat)
            + " branches have different incoming layouts"@,
        ErrorView::BodyNotNested(a) => "NOT descriptor "@ + text::digits(a as nat)
            + " has no incoming layout"@,
        ErrorView::BodyLayout(a) => "NOT descriptor "@ + text::digits(a as nat)
            + " incoming layout does not contain every correlated variable"@,
        ErrorView::FinalLayout(a, b) => "Executable plan produces variables "@ + a
            + ", expected "@ + b,
        ErrorView::UnsupportedEntity(a) => "Unsupported triple entity term: "@ + a,
        ErrorView::UnsupportedValue(a) => "Unsupported triple value term: "@ + a,
        ErrorView::TripleRepeats(a, b) => "Triple pattern "@ + text::digits(a as nat)
            + " repeats variable "@ + b,
        ErrorView::TripleProposesOne(a, b) => "Triple pattern "@ + text::digits(a as nat)
            + " can propose exactly one variable, got "@ + b,
        ErrorView::TripleBound(a, b) => "Triple pattern "@ + text::digits(a as nat)
            + " cannot add already-bound variable "@ + b,
        ErrorView::TripleCannotPropose(a, b) => "Triple pattern "@ + text::digits(a as nat)
            + " cannot propose variable "@ + b,
        ErrorView::TripleProposals(a, b, c) => "Triple pattern "@ + text::digits(a as nat)
            + " received "@ + text::digits(b as nat) + " proposals for "@
            + text::digits(c as nat) + " input rows"@,
        ErrorView::TripleCountsOne(a, b) => "Triple pattern "@ + text::digits(a as nat)
            + " can count exactly one variable, got "@ + b,
        ErrorView::TripleCannotCount(a, b) =>
            "Triple pattern can only count variables it can propose. Received "@ + a
            + ", variables "@ + b,
        ErrorView::RelationProposals(a, b) => "Proposal sidecar has "@ + text::digits(a as nat)
            + " rows, expected "@ + text::digits(b as nat),
        ErrorView::RelationLayout => "Relation validation must preserve the input layout"@,
        ErrorView::RelationCannotPropose(a) =>
            "Relation cannot propose the requested variables: "@ + a,
        ErrorView::DuplicateNot(a) => "NOT variables must be unique: "@ + a,
        ErrorView::NotIncoming => "NOT incoming variables must be the NOT variable set"@,
        ErrorView::NotOutput => "NOT body does not produce the NOT variable set"@,
        ErrorView::NotCannotPropose(a, b) => "NOT pattern "@ + text::digits(a as nat)
            + " cannot propose variables: "@ + b,
        ErrorView::NotLayout(a) => "NOT pattern "@ + text::digits(a as nat)
            + " validation must preserve the input layout"@,
        ErrorView::NotUnbound(a) => "NOT pattern "@ + text::digits(a as nat)
            + " requires every correlated variable to be bound"@,
        ErrorView::DuplicateOr(a) => "OR variables must be unique: "@ + a,
        ErrorView::NoBranches => "OR must contain at least one nested branch"@,
        ErrorView::DuplicateOrIncoming(a) => "OR incoming variables must be unique: "@ + a,
        ErrorView::OrIncoming => "OR incoming variables must be OR variables"@,
        ErrorView::OrLayout(a) => "OR pattern "@ + text::digits(a as nat)
            + " validation must preserve the input layout"@,
        ErrorView::OrUnbound(a) => "OR pattern "@ + text::digits(a as nat)
            + " validation requires every OR variable to be bound"@,
        ErrorView::OrMustPropose(a) => "OR pattern "@ + text::digits(a as nat)
            + " must propose every missing OR variable"@,
        ErrorView::OrMissingIncoming(a, b) => "OR pattern "@ + text::digits(a as nat)
            + " requires incoming variable "@ + b,
    }
}

/// The name of an index.
pub open spec fn index_name(index: IndexType) -> Seq<char> {
    match index {
        IndexType::EAV => "EAV"@,
        IndexType::AEV => "AEV"@,
        IndexType::AVE => "AVE"@,
        IndexType::VAE => "VAE"@,
        IndexType::AE => "AE"@,
        IndexType::AV => "AV"@,
    }
}

/// The name of an index.
fn name_of_index(index: IndexType) -> (r: &'static str)
    ensures
        r@ == index_name(index),
{
    match index {
        IndexType::EAV => "EAV",
        IndexType::AEV => "AEV",
        IndexType::AVE => "AVE",
        IndexType::VAE => "VAE",
        IndexType::AE => "AE",
        IndexType::AV => "AV",
    }
}

impl Error {
    /// What the error says.
    pub fn message(&self) -> (r: String)
        ensures
            r@ == message_of(self@),
    {
        match self {
            Error::DuplicateVariable(a) => concat2(
                "BindingBag variables must be unique: ",
                a.as_str(),
            ),
            Error::RowArity(a, b, c) => concat6(
                "BindingBag row ",
                count_text(*a).as_str(),
                " has arity ",
                count_text(*b).as_str(),
                ", expected ",
                count_text(*c).as_str(),
            ),
            Error::UnknownVariable(a) => concat2("Unknown BindingBag variable: ", a.as_str()),
            Error::UnknownRow(a) => concat2(
                "Unknown BindingBag row index: ",
                count_text(*a).as_str(),
            ),
            Error::ExtensionCount(a, b) => concat4(
                "BindingBag extensions have ",
                count_text(*a).as_str(),
                " input rows, expected ",
                count_text(*b).as_str(),
            ),
            Error::ExtensionArity(a, b) => concat4(
                "BindingBag extension has arity ",
                count_text(*a).as_str(),
                ", expected ",
                count_text(*b).as_str(),
            ),
            Error::UnknownErrorCode(a) => concat2(
                "Unknown error code: ",
                count_text(*a as usize).as_str(),
            ),
            Error::Decode => "Failed to decode value".to_owned(),
            Error::InsufficientBinding(a) => concat2(
                "Insufficient binding to ground variable ",
                a.as_str(),
            ),
            Error::NotAPrefix => {
                "Relation validation requires bound variables to form a prefix".to_owned()
            },
            Error::CannotPropose => "Pattern cannot propose the requested variables".to_owned(),
            Error::NegationProposes => {
                "Propose should not be called on NOT prefix extender — variable is not bound by positive clauses".to_owned()
            },
            Error::OutputIsInput(a, b) => concat5(
                "Function pattern ",
                count_text(*a).as_str(),
                " output ",
                b.as_str(),
                " is also an input",
            ),
            Error::DuplicateAdded(a) => concat2("Added variables must be unique: ", a.as_str()),
            Error::DuplicateTarget(a) => concat2("Target variables must be unique: ", a.as_str()),
            Error::NoParticipants => "Stage participants must not be empty".to_owned(),
            Error::ProposersNotAscending => {
                "Stage proposer positions must be unique and ordered".to_owned()
            },
            Error::ProposerOutOfBounds(a, b) => concat5(
                "Stage proposer position ",
                count_text(*a).as_str(),
                " is out of bounds for ",
                count_text(*b).as_str(),
                " participants",
            ),
            Error::ProposersWithoutAdditions => {
                "A stage must have proposers if and only if it adds variables".to_owned()
            },
            Error::AddedNotInTarget(a) => concat3(
                "Added variable ",
                a.as_str(),
                " is missing from the target layout",
            ),
            Error::DuplicateParticipant(a) => concat2(
                "Stage participant ids must be distinct: ",
                count_text(*a).as_str(),
            ),
            Error::AlreadyBound(a) => concat2(
                "Stage cannot add already-bound variable ",
                a.as_str(),
            ),
            Error::NothingBound(a) => concat3(
                "Triple pattern ",
                count_text(*a).as_str(),
                " has no bound variables to validate",
            ),
            Error::NotNested => "NOT logical plan must be nested".to_owned(),
            Error::BranchOutput(a) => concat3(
                "OR branch ",
                count_text(*a).as_str(),
                " does not produce the OR variable set",
            ),
            Error::BranchIncoming(a) => concat3(
                "OR branch ",
                count_text(*a).as_str(),
                " has a different incoming layout",
            ),
            Error::Unbound => "Cannot read a value that is not bound".to_owned(),
            Error::UnknownAttribute(a) => concat2("Unknown attribute: :", a.as_str()),
            Error::NotAnAttribute => "Attribute must be a keyword or entid".to_owned(),
            Error::UnsupportedFunction(a, b) => concat5(
                "Unsupported function '",
                a.as_str(),
                "' with ",
                count_text(*b).as_str(),
                " args",
            ),
            Error::UnsupportedConstant => "Cannot convert constant to DataType".to_owned(),
            Error::UnsupportedArgument => "Unsupported fn arg type".to_owned(),
            Error::PatternNotLiteral => {
                "regexp_like requires a string literal as second argument (pattern)".to_owned()
            },
            Error::InvalidRegex(a, b) => concat4(
                "invalid regex pattern for regexp_like `",
                a.as_str(),
                "`: ",
                b.as_str(),
            ),
            Error::PredicateAsFunction => {
                "regexp_like is a predicate, not a binding function".to_owned()
            },
            Error::NoVariables => {
                "Predicate expression must reference at least one variable".to_owned()
            },
            Error::TooManyVariables => {
                "Patterns with more than 2 variables not supported".to_owned()
            },
            Error::Incomparable => "Values cannot be compared".to_owned(),
            Error::UnknownAggregate(a) => concat2("Unknown aggregate function: ", a.as_str()),
            Error::AggregateArgument(a) => concat2(
                "Aggregate argument must be a variable, got ",
                a.as_str(),
            ),
            Error::FindVariable(a) => concat3(
                "Find variable ",
                a.as_str(),
                " not in where clauses",
            ),
            Error::UnsupportedElement => {
                "Pull and corresponding elements are not yet supported".to_owned()
            },
            Error::UnsupportedFind => "Only FindRel is currently supported".to_owned(),
            Error::OrderVariable(a) => concat3(
                "ORDER BY variable ",
                a.as_str(),
                " is not in the :find clause",
            ),
            Error::LimitVariable(a) => concat3(
                "Variable limit ",
                a.as_str(),
                " should have been resolved from :in bindings",
            ),
            Error::EntityIdType => "Document db/id must be a Long".to_owned(),
            Error::UniqueConflict(a, b, c, d) => concat8(
                "Unique constraint violation for attribute :",
                a.as_str(),
                " value ",
                value_text(b).as_str(),
                ": entities ",
                decimal_text(*c).as_str(),
                " and ",
                decimal_text(*d).as_str(),
            ),
            Error::UniqueOwned(a, b, c) => concat7(
                "Unique constraint violation for attribute :",
                a.as_str(),
                " value ",
                value_text(b).as_str(),
                ": entity ",
                decimal_text(*c).as_str(),
                " already owns it",
            ),
            Error::EntityNotLong(a) => concat2(
                "Expected Long entity ID in EAV key, got ",
                value_text(a).as_str(),
            ),
            Error::NoTransaction => "TX_PARTITION is empty; database not initialized".to_owned(),
            Error::TransactionIncomplete(a, b, c) => concat7(
                "Tx entity ",
                decimal_text(*a).as_str(),
                " missing required attributes (tx_id=",
                optional_text(*b).as_str(),
                ", system_time=",
                optional_instant_text(*c).as_str(),
                ")",
            ),
            Error::Shutdown(a) => concat2(
                "Indexer shutdown while waiting for tx ",
                decimal_text(*a).as_str(),
            ),
            Error::ForeignStart(a) => concat2(
                "memory log starts with non-bootstrap record ",
                key_text(*a).as_str(),
            ),
            Error::InvalidTimestamp(a) => concat3(
                "Invalid timestamp: ",
                decimal_text(*a).as_str(),
                " micros",
            ),
            Error::NotNumeric(a) => concat3(
                "cannot convert ",
                value_text(a).as_str(),
                " to numeric for aggregation",
            ),
            Error::NoBasis(a) => concat2(
                "Indexer did not return TxBasis for tx ",
                decimal_text(*a).as_str(),
            ),
            Error::DuplicateProposer(a) => concat2(
                "Logical stage contains duplicate proposer ",
                participant_text(*a).as_str(),
            ),
            Error::UnknownPattern(a) => concat2(
                "Unknown logical stage pattern ID ",
                count_text(*a).as_str(),
            ),
            Error::PatternVariables(a, b, c) => concat6(
                "Runtime pattern ",
                count_text(*a).as_str(),
                " variables ",
                b.as_str(),
                " do not match descriptor variables ",
                c.as_str(),
            ),
            Error::NoNestedScope(a) => concat3(
                "Composite descriptor ",
                count_text(*a).as_str(),
                " has no nested logical scope",
            ),
            Error::BranchCount(a, b, c) => concat7(
                "OR descriptor ",
                count_text(*a).as_str(),
                " has ",
                count_text(*b).as_str(),
                " branches but ",
                count_text(*c).as_str(),
                " planned scopes",
            ),
            Error::DuplicateDescriptor(a) => concat3(
                "Duplicate descriptor ID ",
                count_text(*a).as_str(),
                " in one scope",
            ),
            Error::TopLevelIncoming => {
                "Top-level logical scope cannot have incoming variables".to_owned()
            },
            Error::WrongIndex(a) => concat3("Not a ", name_of_index(*a), " key"),
            Error::KeyTooShort => "Key too short".to_owned(),
            Error::UnsupportedClause(a) => concat2("Unsupported where clause type: ", a.as_str()),
            Error::UnsupportedBinding => "Only scalar binding supported".to_owned(),
            Error::EstimateCount => "Estimates do not match the input rows".to_owned(),
            Error::UnplacedParticipants(a) => concat2(
                "Unable to place query participants: ",
                participants_text(a).as_str(),
            ),
            Error::UnsupportedOperator(a) => concat2("Unsupported operator: ", a.as_str()),
            Error::UnsupportedUnary(a) => concat2("Unsupported unary operator: ", a.as_str()),
            Error::IfArguments(a) => concat2(
                "'if' expects 3 args (condition, then, else), got ",
                count_text(*a).as_str(),
            ),
            Error::RegexpArguments(a) => concat2(
                "regexp_like expects 2 args (subject, pattern), got ",
                count_text(*a).as_str(),
            ),
            Error::AggregateArity(a, b) => concat4(
                "Aggregate function '",
                a.as_str(),
                "' requires exactly 1 argument, got ",
                count_text(*b).as_str(),
            ),
            Error::AttributePosition => "Attribute position must be a keyword or entid".to_owned(),
            Error::PredicateVariable(a) => concat3(
                "Predicate variable ",
                a.as_str(),
                " not found in join order",
            ),
            Error::FunctionInput(a) => concat3(
                "FnExpr input variable ",
                a.as_str(),
                " not in join order",
            ),
            Error::FunctionOutput(a) => concat3(
                "FnExpr output variable ",
                a.as_str(),
                " not in join order",
            ),
            Error::PatternUnplaced => "Variables not found in join order".to_owned(),
            Error::AggregateVariable(a) => concat3(
                "Aggregate variable ",
                a.as_str(),
                " not in where clauses",
            ),
            Error::OrderFind => {
                "ORDER BY is only supported with relational :find (FindRel)".to_owned()
            },
            Error::PredicateProposes => {
                "Propose should not be called on predicate prefix extender".to_owned()
            },
            Error::OwnerNotLong(a) => concat2(
                "Expected Long entity ID in VAE key, got ",
                value_text(a).as_str(),
            ),
            Error::DuplicateProjection(a) => concat2(
                "Projection variables must be unique: ",
                a.as_str(),
            ),
            Error::DuplicateExtension(a) => concat2(
                "Extended BindingBag variables must be unique: ",
                a.as_str(),
            ),
            Error::ReorderLayout => {
                "Reordered layout must contain exactly the current variables".to_owned()
            },
            Error::UnionLayout => "Union requires identical BindingBag layouts".to_owned(),
            Error::StageLayout => {
                "Stage target layout must equal the input variables plus added variables".to_owned()
            },
            Error::FunctionUnbound(a, b) => concat4(
                "Function pattern ",
                count_text(*a).as_str(),
                " requires bound input ",
                b.as_str(),
            ),
            Error::FunctionProposals(a, b, c) => concat7(
                "Function pattern ",
                count_text(*a).as_str(),
                " received ",
                count_text(*b).as_str(),
                " proposals for ",
                count_text(*c).as_str(),
                " input rows",
            ),
            Error::FunctionLayout(a) => concat3(
                "Function pattern ",
                count_text(*a).as_str(),
                " validation must preserve the input layout",
            ),
            Error::FunctionUnboundOutput(a, b) => concat4(
                "Function pattern ",
                count_text(*a).as_str(),
                " validation requires bound output ",
                b.as_str(),
            ),
            Error::FunctionCannotPropose(a, b) => concat4(
                "Function pattern ",
                count_text(*a).as_str(),
                " can only propose output ",
                b.as_str(),
            ),
            Error::FunctionBoundOutput(a, b) => concat4(
                "Function pattern ",
                count_text(*a).as_str(),
                " cannot add already-bound output ",
                b.as_str(),
            ),
            Error::PredicateCannotPropose(a, b) => concat4(
                "Predicate pattern ",
                count_text(*a).as_str(),
                " cannot propose variables: ",
                b.as_str(),
            ),
            Error::PredicateLayout(a) => concat3(
                "Predicate pattern ",
                count_text(*a).as_str(),
                " validation must preserve the input layout",
            ),
            Error::PredicateUnbound(a, b) => concat4(
                "Predicate pattern ",
                count_text(*a).as_str(),
                " requires bound variable ",
                b.as_str(),
            ),
            Error::ProposerAbsent(a) => concat3(
                "Logical stage proposer ",
                participant_text(*a).as_str(),
                " is not a participant",
            ),
            Error::ValidationProposers => {
                "Validation-only logical stage cannot have proposers".to_owned()
            },
            Error::NoProposer => "Proposing logical stage must have a proposer".to_owned(),
            Error::NotOrScopes(a) => concat3(
                "Descriptor ",
                count_text(*a).as_str(),
                " expected OR nested scopes",
            ),
            Error::NotNotScope(a) => concat3(
                "Descriptor ",
                count_text(*a).as_str(),
                " expected NOT nested scope",
            ),
            Error::BranchNotNested(a, b) => concat5(
                "OR descriptor ",
                count_text(*a).as_str(),
                " branch ",
                count_text(*b).as_str(),
                " has no incoming layout",
            ),
            Error::BranchLayouts(a) => concat3(
                "OR descriptor ",
                count_text(*a).as_str(),
                " branches have different incoming layouts",
            ),
            Error::BodyNotNested(a) => concat3(
                "NOT descriptor ",
                count_text(*a).as_str(),
                " has no incoming layout",
            ),
            Error::BodyLayout(a) => concat3(
                "NOT descriptor ",
                count_text(*a).as_str(),
                " incoming layout does not contain every correlated variable",
            ),
            Error::FinalLayout(a, b) => concat4(
                "Executable plan produces variables ",
                a.as_str(),
                ", expected ",
                b.as_str(),
            ),
            Error::UnsupportedEntity(a) => concat2("Unsupported triple entity term: ", a.as_str()),
            Error::UnsupportedValue(a) => concat2("Unsupported triple value term: ", a.as_str()),
            Error::TripleRepeats(a, b) => concat4(
                "Triple pattern ",
                count_text(*a).as_str(),
                " repeats variable ",
                b.as_str(),
            ),
            Error::TripleProposesOne(a, b) => concat4(
                "Triple pattern ",
                count_text(*a).as_str(),
                " can propose exactly one variable, got ",
                b.as_str(),
            ),
            Error::TripleBound(a, b) => concat4(
                "Triple pattern ",
                count_text(*a).as_str(),
                " cannot add already-bound variable ",
                b.as_str(),
            ),
            Error::TripleCannotPropose(a, b) => concat4(
                "Triple pattern ",
                count_text(*a).as_str(),
                " cannot propose variable ",
                b.as_str(),
            ),
            Error::TripleProposals(a, b, c) => concat7(
                "Triple pattern ",
                count_text(*a).as_str(),
                " received ",
                count_text(*b).as_str(),
                " proposals for ",
                count_text(*c).as_str(),
                " input rows",
            ),
            Error::TripleCountsOne(a, b) => concat4(
                "Triple pattern ",
                count_text(*a).as_str(),
                " can count exactly one variable, got ",
                b.as_str(),
            ),
            Error::TripleCannotCount(a, b) => concat4(
                "Triple pattern can only count variables it can propose. Received ",
                a.as_str(),
                ", variables ",
                b.as_str(),
            ),
            Error::RelationProposals(a, b) => concat4(
                "Proposal sidecar has ",
                count_text(*a).as_str(),
                " rows, expected ",
                count_text(*b).as_str(),
            ),
            Error::RelationLayout => {
                "Relation validation must preserve the input layout".to_owned()
            },
            Error::RelationCannotPropose(a) => concat2(
                "Relation cannot propose the requested variables: ",
                a.as_str(),
            ),
            Error::DuplicateNot(a) => concat2("NOT variables must be unique: ", a.as_str()),
            Error::NotIncoming => "NOT incoming variables must be the NOT variable set".to_owned(),
            Error::NotOutput => "NOT body does not produce the NOT variable set".to_owned(),
            Error::NotCannotPropose(a, b) => concat4(
                "NOT pattern ",
                count_text(*a).as_str(),
                " cannot propose variables: ",
                b.as_str(),
            ),
            Error::NotLayout(a) => concat3(
                "NOT pattern ",
                count_text(*a).as_str(),
                " validation must preserve the input layout",
            ),
            Error::NotUnbound(a) => concat3(
                "NOT pattern ",
                count_text(*a).as_str(),
                " requires every correlated variable to be bound",
            ),
            Error::DuplicateOr(a) => concat2("OR variables must be unique: ", a.as_str()),
            Error::NoBranches => "OR must contain at least one nested branch".to_owned(),
            Error::DuplicateOrIncoming(a) => concat2(
                "OR incoming variables must be unique: ",
                a.as_str(),
            ),
            Error::OrIncoming => "OR incoming variables must be OR variables".to_owned(),
            Error::OrLayout(a) => concat3(
                "OR pattern ",
                count_text(*a).as_str(),
                " validation must preserve the input layout",
            ),
            Error::OrUnbound(a) => concat3(
                "OR pattern ",
                count_text(*a).as_str(),
                " validation requires every OR variable to be bound",
            ),
            Error::OrMustPropose(a) => concat3(
                "OR pattern ",
                count_text(*a).as_str(),
                " must propose every missing OR variable",
            ),
            Error::OrMissingIncoming(a, b) => concat4(
                "OR pattern ",
                count_text(*a).as_str(),
                " requires incoming variable ",
                b.as_str(),
            ),
        }
    }
}

} // verus!
