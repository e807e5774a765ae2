use vstd::prelude::*;
use crate::token::Token;
use crate::value::{Kind, Value};

verus! {

/// The errors gathered while a program is compiled.
pub struct ErrorHandler {
    pub errors: Vec<Error>,
}

impl ErrorHandler {
    /// A handler with no errors.
    pub fn new() -> (handler: ErrorHandler)
        ensures
            handler.errors@.len() == 0,
    {
        ErrorHandler { errors: Vec::new() }
    }

    /// Records an error.
    pub fn push_error(&mut self, error: Error)
        ensures
            final(self).errors@ == old(self).errors@.push(error),
    {
        self.errors.push(error)
    }
}

/// An error of any stage.
#[derive(Debug)]
pub enum Error {
    LexicalError(LexicalError),
    SyntaxError(SyntaxError),
    SemanticError(SemanticError),
    RuntimeError(RuntimeError),
    TypeError(TypeError),
}

/// An error found while reading tokens, with where it starts.
#[derive(Debug)]
pub struct LexicalError {
    pub line: usize,
    pub column: usize,
    pub kind: LexicalErrorType,
}

#[derive(Debug)]
pub enum LexicalErrorType {
    InvalidCharacter(String),
    DecimalPoints(String),
    MissingClosingQuote(String),
    MultipleUnderscores(String),
    FloatRelativeReferences(String),
}

/// An error found while parsing, with where it starts.
#[derive(Debug)]
pub struct SyntaxError {
    pub line: usize,
    pub column: usize,
    pub kind: SyntaxErrorType,
}

#[derive(Debug)]
pub enum SyntaxErrorType {
    UnimplementedToken(Token),
    MissingFunctionName,
    RedundantFunctionDefinition,
    MissingLeftParen,
    MissingLeftBrace,
    NoStationBeforePipeline,
    NoStationAfterPipeline,
    MissingTypeIdentity,
    MissingCondition,
    MissingRightParen,
    MissingEndKeyword,
    MissingRightBracket,
    RedundantFunction,
    InvalidTypeError,
    MissingFunctionBody,
    RedundantCondition,
    MissingConditionBody,
    MissingType(String),
    MissingDoKeyword,
    MissingRightBrace,
}

/// An error found while resolving names.
#[derive(Debug)]
pub struct SemanticError {
    pub kind: SemanticErrorType,
}

#[derive(Debug)]
pub enum SemanticErrorType {
    UndefinedIdentifier(String),
    DuplicateParameter(String),
    NegativeXCoordinate(u16),
    MissingStation(u16),
    RelativeReferenceNotInPipeline,
}

/// An error found while running.
#[derive(Debug)]
pub struct RuntimeError {
    pub kind: RuntimeErrorType,
}

#[derive(Debug)]
pub enum RuntimeErrorType {
    OutOfBounds(usize, usize),
    InsufficientOperands(String),
    ParseError(String, String),
}

/// An error found while checking kinds.
#[derive(Debug)]
pub struct TypeError {
    pub kind: TypeErrorType,
}

#[derive(Debug)]
pub enum TypeErrorType {
    NotSequence(Value),
    TypeMismatch(Kind, Kind),
    InvalidOperand(String),
    InvalidUnaryOperand(String),
    AssignTypeMismatch(Kind, Kind),
    ArityMismatch(usize, usize),
    NotAFunction(String),
    NoFunctionFound(Vec<Kind>),
}

/// An error as plain values: a call with no matching overload keeps its
/// argument kinds as a sequence, and an undefined name keeps its text.
pub enum ErrorModel {
    Plain(Error),
    NoFunctionFound(Seq<Kind>),
    UndefinedIdentifier(Seq<char>),
}

/// The model of an error.
pub open spec fn error_model(error: Error) -> ErrorModel {
    match error {
        Error::TypeError(TypeError { kind: TypeErrorType::NoFunctionFound(kinds) }) => ErrorModel::NoFunctionFound(kinds@),
        Error::SemanticError(SemanticError { kind: SemanticErrorType::UndefinedIdentifier(name) }) => ErrorModel::UndefinedIdentifier(name@),
        other => ErrorModel::Plain(other),
    }
}

/// The models of errors.
pub open spec fn error_models(errors: Seq<Error>) -> Seq<ErrorModel> {
    errors.map_values(|e: Error| error_model(e))
}

/// The number an error is reported under: the stage in the thousands
/// (1 lexical, 3 syntax, 5 semantic, 7 runtime, 8 type) and the error's
/// position within its stage below.
pub open spec fn error_code(error: Error) -> int {
    match error {
        Error::LexicalError(e) => 1000 + match e.kind {
            LexicalErrorType::InvalidCharacter(_) => 1int,
            LexicalErrorType::DecimalPoints(_) => 2,
            LexicalErrorType::MissingClosingQuote(_) => 3,
            LexicalErrorType::MultipleUnderscores(_) => 4,
            LexicalErrorType::FloatRelativeReferences(_) => 5,
        },
        Error::SyntaxError(e) => 3000 + match e.kind {
            SyntaxErrorType::UnimplementedToken(_) => 1int,
            SyntaxErrorType::MissingFunctionName => 2,
            SyntaxErrorType::RedundantFunctionDefinition => 3,
            SyntaxErrorType::MissingLeftParen => 4,
            SyntaxErrorType::MissingLeftBrace => 5,
            SyntaxErrorType::NoStationBeforePipeline => 6,
            SyntaxErrorType::NoStationAfterPipeline => 7,
            SyntaxErrorType::MissingTypeIdentity => 8,
            SyntaxErrorType::MissingCondition => 9,
            SyntaxErrorType::MissingRightParen => 10,
            SyntaxErrorType::MissingEndKeyword => 11,
            SyntaxErrorType::MissingRightBracket => 12,
            SyntaxErrorType::RedundantFunction => 13,
            SyntaxErrorType::InvalidTypeError => 14,
            SyntaxErrorType::MissingFunctionBody => 15,
            SyntaxErrorType::RedundantCondition => 16,
            SyntaxErrorType::MissingConditionBody => 17,
            SyntaxErrorType::MissingType(_) => 18,
            SyntaxErrorType::MissingDoKeyword => 19,
            SyntaxErrorType::MissingRightBrace => 20,
        },
        Error::SemanticError(e) => 5000 + match e.kind {
            SemanticErrorType::UndefinedIdentifier(_) => 1int,
            SemanticErrorType::DuplicateParameter(_) => 2,
            SemanticErrorType::NegativeXCoordinate(_) => 3,
            SemanticErrorType::MissingStation(_) => 4,
            SemanticErrorType::RelativeReferenceNotInPipeline => 5,
        },
        Error::RuntimeError(e) => 7000 + match e.kind {
            RuntimeErrorType::OutOfBounds(_, _) => 1int,
            RuntimeErrorType::InsufficientOperands(_) => 2,
            RuntimeErrorType::ParseError(_, _) => 3,
        },
        Error::TypeError(e) => 8000 + match e.kind {
            TypeErrorType::NotSequence(_) => 1int,
            TypeErrorType::TypeMismatch(_, _) => 2,
            TypeErrorType::InvalidOperand(_) => 3,
            TypeErrorType::InvalidUnaryOperand(_) => 4,
            TypeErrorType::AssignTypeMismatch(_, _) => 5,
            TypeErrorType::ArityMismatch(_, _) => 6,
            TypeErrorType::NotAFunction(_) => 7,
            TypeErrorType::NoFunctionFound(_) => 9,
        },
    }
}

impl Error {
    /// The number this error is reported under, as in `[Error FSCC1001]`.
    pub fn code(&self) -> (code: u32)
        ensures
            code == error_code(*self),
    {
        match self {
            Error::LexicalError(e) => 1000 + match &e.kind {
                LexicalErrorType::InvalidCharacter(_) => 1,
                LexicalErrorType::DecimalPoints(_) => 2,
                LexicalErrorType::MissingClosingQuote(_) => 3,
                LexicalErrorType::MultipleUnderscores(_) => 4,
                LexicalErrorType::FloatRelativeReferences(_) => 5,
            },
            Error::SyntaxError(e) => 3000 + match &e.kind {
                SyntaxErrorType::UnimplementedToken(_) => 1,
                SyntaxErrorType::MissingFunctionName => 2,
                SyntaxErrorType::RedundantFunctionDefinition => 3,
                SyntaxErrorType::MissingLeftParen => 4,
                SyntaxErrorType::MissingLeftBrace => 5,
                SyntaxErrorType::NoStationBeforePipeline => 6,
                SyntaxErrorType::NoStationAfterPipeline => 7,
                SyntaxErrorType::MissingTypeIdentity => 8,
                SyntaxErrorType::MissingCondition => 9,
                SyntaxErrorType::MissingRightParen => 10,
                SyntaxErrorType::MissingEndKeyword => 11,
                SyntaxErrorType::MissingRightBracket => 12,
                SyntaxErrorType::RedundantFunction => 13,
                SyntaxErrorType::InvalidTypeError => 14,
                SyntaxErrorType::MissingFunctionBody => 15,
                SyntaxErrorType::RedundantCondition => 16,
                SyntaxErrorType::MissingConditionBody => 17,
                SyntaxErrorType::MissingType(_) => 18,
                SyntaxErrorType::MissingDoKeyword => 19,
                SyntaxErrorType::MissingRightBrace => 20,
            },
            Error::SemanticError(e) => 5000 + match &e.kind {
                SemanticErrorType::UndefinedIdentifier(_) => 1,
                SemanticErrorType::DuplicateParameter(_) => 2,
                SemanticErrorType::NegativeXCoordinate(_) => 3,
                SemanticErrorType::MissingStation(_) => 4,
                SemanticErrorType::RelativeReferenceNotInPipeline => 5,
            },
            Error::RuntimeError(e) => 7000 + match &e.kind {
                RuntimeErrorType::OutOfBounds(_, _) => 1,
                RuntimeErrorType::InsufficientOperands(_) => 2,
                RuntimeErrorType::ParseError(_, _) => 3,
            },
            Error::TypeError(e) => 8000 + match &e.kind {
                TypeErrorType::NotSequence(_) => 1,
                TypeErrorType::TypeMismatch(_, _) => 2,
                TypeErrorType::InvalidOperand(_) => 3,
                TypeErrorType::InvalidUnaryOperand(_) => 4,
                TypeErrorType::AssignTypeMismatch(_, _) => 5,
                TypeErrorType::ArityMismatch(_, _) => 6,
                TypeErrorType::NotAFunction(_) => 7,
                TypeErrorType::NoFunctionFound(_) => 9,
            },
        }
    }
}

impl From<LexicalError> for Error {
    fn from(error: LexicalError) -> (result: Self) {
        Error::LexicalError(error)
    }
}

impl vstd::std_specs::convert::FromSpecImpl<LexicalError> for Error {
    open spec fn obeys_from_spec() -> bool {
        true
    }

    open spec fn from_spec(error: LexicalError) -> Self {
        Error::LexicalError(error)
    }
}

impl From<SyntaxError> for Error {
    fn from(error: SyntaxError) -> (result: Self) {
        Error::SyntaxError(error)
    }
}

impl vstd::std_specs::convert::FromSpecImpl<SyntaxError> for Error {
    open spec fn obeys_from_spec() -> bool {
        true
    }

    open spec fn from_spec(error: SyntaxError) -> Self {
        Error::SyntaxError(error)
    }
}

impl From<SemanticError> for Error {
    fn from(error: SemanticError) -> (result: Self) {
        Error::SemanticError(error)
    }
}

impl vstd::std_specs::convert::FromSpecImpl<SemanticError> for Error {
    open spec fn obeys_from_spec() -> bool {
        true
    }

    open spec fn from_spec(error: SemanticError) -> Self {
        Error::SemanticError(error)
    }
}

impl From<RuntimeError> for Error {
    fn from(error: RuntimeError) -> (result: Self) {
        Error::RuntimeError(error)
    }
}

impl vstd::std_specs::convert::FromSpecImpl<RuntimeError> for Error {
    open spec fn obeys_from_spec() -> bool {
        true
    }

    open spec fn from_spec(error: RuntimeError) -> Self {
        Error::RuntimeError(error)
    }
}

impl From<TypeError> for Error {
    fn from(error: TypeError) -> (result: Self) {
        Error::TypeError(error)
    }
}

impl vstd::std_specs::convert::FromSpecImpl<TypeError> for Error {
    open spec fn obeys_from_spec() -> bool {
        true
    }

    open spec fn from_spec(error: TypeError) -> Self {
        Error::TypeError(error)
    }
}

/// A list of errors begins with itself.
pub proof fn lemma_prefix_refl(errors: Seq<ErrorModel>)
    ensures
        errors.is_prefix_of(errors),
{
    assert(errors.subrange(0, errors.len() as int) =~= errors);
}

/// A list of errors begins with what it was before a push.
pub proof fn lemma_prefix_push(errors: Seq<ErrorModel>, error: ErrorModel)
    ensures
        errors.is_prefix_of(errors.push(error)),
{
    assert(errors.push(error).subrange(0, errors.len() as int) =~= errors);
}

/// Beginning with is transitive.
pub proof fn lemma_prefix_trans(a: Seq<ErrorModel>, b: Seq<ErrorModel>, c: Seq<ErrorModel>)
    requires
        a.is_prefix_of(b),
        b.is_prefix_of(c),
    ensures
        a.is_prefix_of(c),
{
    assert(c.subrange(0, a.len() as int) =~= c.subrange(0, b.len() as int).subrange(0, a.len() as int));
}

/// A list of errors begins with what it was before more were appended.
pub proof fn lemma_prefix_append(errors: Seq<ErrorModel>, more: Seq<ErrorModel>)
    ensures
        errors.is_prefix_of(errors + more),
{
    assert((errors + more).subrange(0, errors.len() as int) =~= errors);
}

} // verus!
