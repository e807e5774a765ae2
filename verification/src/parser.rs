use vstd::prelude::*;
use crate::error_handler::{Error, SyntaxError, SyntaxErrorType};
use crate::lexer::{agrees, as_lexed, lemma_lex_progress, lex, lexical_error_model, line_col, Lexed, Lexeme, Lexer, LexicalErrorModel};
use crate::node::{ConditionBranch, Node};
use crate::token::{token_model, Token, TokenModel, TokenType};
use crate::value::{kind_display, HeavyValue, Kind, LightValue};

verus! {

/// A token as plain values: its kind and where it starts and ends.
pub struct TokenView {
    pub kind: TokenModel,
    pub start: int,
    pub end: int,
}

/// The view of a token.
pub open spec fn token_view(token: Token) -> TokenView {
    TokenView { kind: token_model(token.kind), start: token.start as int, end: token.end as int }
}

/// A syntax error kind as plain values.
pub enum SyntaxModel {
    UnimplementedToken(TokenView),
    Other(SyntaxErrorType),
}

/// The model of a syntax error kind.
pub open spec fn syntax_model(kind: SyntaxErrorType) -> SyntaxModel {
    match kind {
        SyntaxErrorType::UnimplementedToken(token) => SyntaxModel::UnimplementedToken(token_view(token)),
        other => SyntaxModel::Other(other),
    }
}

/// An error as parsing reports it: a lexical or syntax error with its kind,
/// line and column, or an error of another stage.
pub enum ParseError {
    Lexical(LexicalErrorModel, int, int),
    Syntax(SyntaxModel, int, int),
    Other(Error),
}

/// The model of an error.
pub open spec fn parse_error(error: Error) -> ParseError {
    match error {
        Error::LexicalError(e) => ParseError::Lexical(lexical_error_model(e.kind), e.line as int, e.column as int),
        Error::SyntaxError(e) => ParseError::Syntax(syntax_model(e.kind), e.line as int, e.column as int),
        other => ParseError::Other(other),
    }
}

/// The models of errors.
pub open spec fn parse_errors(errors: Seq<Error>) -> Seq<ParseError> {
    errors.map_values(|e: Error| parse_error(e))
}

/// A parsed node with text as characters and lists as sequences.
pub enum NodeModel {
    Literal(LightValue),
    HeavyLiteral(Seq<char>),
    Apply(Seq<char>, Seq<NodeModel>),
    Pipeline(Seq<NodeModel>),
    RelativeReference(u16, u16),
    Variable(Seq<char>),
    SoftAssignment(Seq<char>),
    Assignment(Seq<char>, Kind),
    /// Name, parameters, body and result kind.
    DefineFunction(Seq<char>, Seq<NodeModel>, Seq<NodeModel>, Kind),
    Condition(Seq<(Seq<NodeModel>, Seq<NodeModel>)>, Seq<NodeModel>),
    Return(Box<NodeModel>),
    Array(Seq<NodeModel>),
}

/// The model of a parsed node.
pub open spec fn node_model(node: Node) -> NodeModel
    decreases node, 0nat,
{
    match node {
        Node::Literal(value) => NodeModel::Literal(value),
        Node::HeavyLiteral(HeavyValue::String(text)) => NodeModel::HeavyLiteral(text@),
        Node::Apply { operator, arguments } => NodeModel::Apply(operator@, node_models(arguments@)),
        Node::Pipeline(stations) => NodeModel::Pipeline(node_models(stations@)),
        Node::RelativeReference(x, y) => NodeModel::RelativeReference(x, y),
        Node::Variable(name) => NodeModel::Variable(name@),
        Node::SoftAssignment(name) => NodeModel::SoftAssignment(name@),
        Node::Assignment(name, kind) => NodeModel::Assignment(name@, kind),
        Node::DefineFunction { operator, parameters, body, result } => NodeModel::DefineFunction(
            operator@,
            node_models(parameters@),
            node_models(body@),
            result,
        ),
        Node::Condition { branches, final_branch } => NodeModel::Condition(node_branch_models(branches@), node_models(final_branch@)),
        Node::Return(value) => NodeModel::Return(Box::new(node_model(*value))),
        Node::Array(elements) => NodeModel::Array(node_models(elements@)),
    }
}

/// The models of consecutive parsed nodes.
pub open spec fn node_models(nodes: Seq<Node>) -> Seq<NodeModel>
    decreases nodes, 0nat,
{
    if nodes.len() == 0 {
        Seq::empty()
    } else {
        node_models(nodes.drop_last()).push(node_model(nodes.last()))
    }
}

/// The models of parsed condition branches.
pub open spec fn node_branch_models(branches: Seq<ConditionBranch<Node>>) -> Seq<(Seq<NodeModel>, Seq<NodeModel>)>
    decreases branches, 0nat,
{
    if branches.len() == 0 {
        Seq::empty()
    } else {
        node_branch_models(branches.drop_last()).push(
            (node_models(branches.last().condition@), node_models(branches.last().body@)),
        )
    }
}

/// Where parsing stands: how much of the source the lexer has read, the
/// tokens read so far, and the position of the next token among them.
pub struct ParseState {
    pub read: int,
    pub tokens: Seq<TokenView>,
    pub pos: int,
}

/// How much is left to parse: source bytes not read and tokens not used.
pub open spec fn left(s: Seq<u8>, st: ParseState) -> int {
    (s.len() - st.read) + (st.tokens.len() - st.pos)
}

/// A syntax error reported at the line and column of `start`.
pub open spec fn syntax_error(s: Seq<u8>, start: int, kind: SyntaxErrorType) -> ParseError {
    ParseError::Syntax(syntax_model(kind), line_col(s, start).0, line_col(s, start).1)
}

/// Where the last token read ends, or the start of the source.
pub open spec fn last_index(st: ParseState) -> int {
    if st.tokens.len() == 0 {
        0
    } else {
        st.tokens.last().end
    }
}

/// What the next token is, reading one more from the source where none is
/// left: `None` where a number literal is out of range, else the token,
/// the lexical error read, or nothing at the end, and the state after.
#[verifier::opaque]
pub open spec fn peeked(s: Seq<u8>, st: ParseState) -> Option<(Option<Result<TokenView, ParseError>>, ParseState)> {
    if st.pos < st.tokens.len() {
        Some((Some(Ok(st.tokens[st.pos])), st))
    } else {
        let after = lex(s, st.read).1;
        match lex(s, st.read).0 {
            Lexeme::End => Some((None, ParseState { read: after, ..st })),
            Lexeme::Token(kind, start, end) => {
                let token = TokenView { kind, start, end };
                Some((Some(Ok(token)), ParseState { read: after, tokens: st.tokens.push(token), ..st }))
            },
            Lexeme::Error(kind, at) => Some((
                Some(Err(ParseError::Lexical(kind, line_col(s, at).0, line_col(s, at).1))),
                ParseState { read: after, ..st },
            )),
            Lexeme::OutOfRange => None,
        }
    }
}

/// The next token, moving past it.
#[verifier::opaque]
pub open spec fn advanced(s: Seq<u8>, st: ParseState) -> Option<(Option<Result<TokenView, ParseError>>, ParseState)> {
    match peeked(s, st) {
        Some((Some(Ok(token)), after)) => Some((Some(Ok(token)), ParseState { pos: after.pos + 1, ..after })),
        other => other,
    }
}

/// The state after moving past the next token, whatever it is.
#[verifier::opaque]
pub open spec fn skipped(s: Seq<u8>, st: ParseState) -> Option<ParseState> {
    match advanced(s, st) {
        Some((_, after)) => Some(after),
        None => None,
    }
}

/// A pair of delimiters.
#[derive(Clone, Copy)]
pub enum Delimiter {
    Paren,
    Brace,
}

/// Whether a token kind opens `delimiter`.
pub open spec fn opens(delimiter: Delimiter, kind: TokenModel) -> bool {
    match delimiter {
        Delimiter::Paren => kind is LeftParen,
        Delimiter::Brace => kind is LeftBrace,
    }
}

/// Whether a token kind closes `delimiter`.
pub open spec fn closes(delimiter: Delimiter, kind: TokenModel) -> bool {
    match delimiter {
        Delimiter::Paren => kind is RightParen,
        Delimiter::Brace => kind is RightBrace,
    }
}

/// The error for a missing opening `delimiter`.
pub open spec fn missing_opening(delimiter: Delimiter) -> SyntaxErrorType {
    match delimiter {
        Delimiter::Paren => SyntaxErrorType::MissingLeftParen,
        Delimiter::Brace => SyntaxErrorType::MissingLeftBrace,
    }
}

/// Expecting an opening delimiter: it is passed over; another token is
/// reported, and passed over unless it closes the delimiter; a lexical
/// error is reported; at the end, `at_end` is reported.
pub open spec fn opened(s: Seq<u8>, st: ParseState, es: Seq<ParseError>, start: int, delimiter: Delimiter, at_end: SyntaxErrorType) -> Option<(ParseState, Seq<ParseError>)> {
    match peeked(s, st) {
        None => None,
        Some((Some(Ok(token)), after)) => if opens(delimiter, token.kind) {
            match skipped(s, after) {
                Some(next) => Some((next, es)),
                None => None,
            }
        } else if closes(delimiter, token.kind) {
            Some((after, es.push(syntax_error(s, start, missing_opening(delimiter)))))
        } else {
            match skipped(s, after) {
                Some(next) => Some((next, es.push(syntax_error(s, start, missing_opening(delimiter))))),
                None => None,
            }
        },
        Some((Some(Err(error)), after)) => Some((after, es.push(error))),
        Some((None, after)) => Some((after, es.push(syntax_error(s, start, at_end)))),
    }
}

/// The kind a type name stands for.
pub open spec fn kind_named(name: Seq<char>) -> Option<Kind> {
    if name == "boolean"@ {
        Some(Kind::Boolean)
    } else if name == "float"@ {
        Some(Kind::Float)
    } else if name == "integer"@ {
        Some(Kind::Integer)
    } else if name == "string"@ {
        Some(Kind::String)
    } else if name == "array"@ {
        Some(Kind::Array)
    } else {
        None
    }
}

/// The bit pattern given for the float literal starting at `start`: the
/// first entry for that position.
pub open spec fn float_at(floats: Seq<(usize, u64)>, start: int) -> Option<u64>
    decreases floats.len(),
{
    if floats.len() == 0 {
        None
    } else if floats[0].0 == start {
        Some(floats[0].1)
    } else {
        float_at(floats.drop_first(), start)
    }
}

/// The token `return`, wherever it stands.
pub open spec fn return_token() -> TokenView {
    TokenView { kind: TokenModel::Return, start: 0, end: 0 }
}

/// A node, or nothing, as a list.
pub open spec fn listed(node: Option<NodeModel>) -> Seq<NodeModel> {
    match node {
        Some(node) => seq![node],
        None => Seq::empty(),
    }
}

/// Skipping to the next arrow after an error: tokens and lexical errors
/// are passed over, the errors reported.
pub open spec fn jumped(s: Seq<u8>, st: ParseState, es: Seq<ParseError>) -> Option<(ParseState, Seq<ParseError>)>
    decreases left(s, st),
{
    match peeked(s, st) {
        None => None,
        Some((None, after)) => Some((after, es)),
        Some((Some(Ok(token)), after)) => if token.kind is Arrow {
            Some((after, es))
        } else {
            match skipped(s, after) {
                None => None,
                Some(next) => if 0 <= left(s, next) < left(s, st) { jumped(s, next, es) } else { None },
            }
        },
        Some((Some(Err(error)), after)) => match skipped(s, after) {
            None => None,
            Some(next) => if 0 <= left(s, next) < left(s, st) { jumped(s, next, es.push(error)) } else { None },
        },
    }
}

/// Parsing the station that `token` starts: `None` where parsing gets stuck
/// (an unfinished case, a number out of range, a float with no value
/// given), else the node, if one was made, the state after and the errors.
pub open spec fn dispatched(s: Seq<u8>, f: Seq<(usize, u64)>, token: TokenView, st: ParseState, es: Seq<ParseError>) -> Option<(Option<NodeModel>, ParseState, Seq<ParseError>)>
    decreases left(s, st), 2nat,
{
    match token.kind {
        TokenModel::Integer(value) => Some((Some(NodeModel::Literal(LightValue::Integer(value as i64))), st, es)),
        TokenModel::Float(_) => match float_at(f, token.start) {
            Some(bits) => Some((Some(NodeModel::Literal(LightValue::Float(bits))), st, es)),
            None => None,
        },
        TokenModel::Boolean(value) => Some((Some(NodeModel::Literal(LightValue::Boolean(value))), st, es)),
        TokenModel::Nil => Some((Some(NodeModel::Literal(LightValue::Nil)), st, es)),
        TokenModel::Identifier(name) => if 0 <= left(s, st) {
            functioned(s, f, token.start, name, st, es)
        } else {
            None
        },
        TokenModel::String(text) => Some((Some(NodeModel::HeavyLiteral(text)), st, es)),
        TokenModel::RelativeReference(x, y) => Some((Some(NodeModel::RelativeReference(x as u16, y as u16)), st, es)),
        TokenModel::Variable(name) => Some((Some(NodeModel::Variable(name)), st, es)),
        TokenModel::DefineFunction => if 0 <= left(s, st) {
            defined(s, f, token.start, st, es)
        } else {
            None
        },
        TokenModel::If => if 0 <= left(s, st) {
            conditioned(s, f, token.start, st, es)
        } else {
            None
        },
        TokenModel::Return => match advanced(s, st) {
            None => None,
            Some((Some(Ok(next)), after)) => if 0 <= left(s, after) < left(s, st) {
                match dispatched(s, f, next, after, es) {
                    None => None,
                    Some((None, last, errors)) => Some((None, last, errors)),
                    Some((Some(node), last, errors)) => Some((Some(NodeModel::Return(Box::new(node))), last, errors)),
                }
            } else {
                None
            },
            Some((Some(Err(error)), after)) => match jumped(s, after, es.push(error)) {
                None => None,
                Some((last, errors)) => Some((None, last, errors)),
            },
            Some((None, after)) => Some((Some(NodeModel::Return(Box::new(NodeModel::Literal(LightValue::Nil)))), after, es)),
        },
        TokenModel::LeftBracket => if 0 <= left(s, st) {
            elements_of(s, f, token.start, st, es, Seq::empty())
        } else {
            None
        },
        _ => Some((None, st, es.push(
            ParseError::Syntax(SyntaxModel::UnimplementedToken(token), line_col(s, token.start).0, line_col(s, token.start).1),
        ))),
    }
}

/// The elements of an array up to its closing bracket.
pub open spec fn elements_of(s: Seq<u8>, f: Seq<(usize, u64)>, start: int, st: ParseState, es: Seq<ParseError>, done: Seq<NodeModel>) -> Option<(Option<NodeModel>, ParseState, Seq<ParseError>)>
    decreases left(s, st), 0nat,
{
    match advanced(s, st) {
        None => None,
        Some((None, after)) => Some((None, after, es.push(syntax_error(s, start, SyntaxErrorType::MissingRightBracket)))),
        Some((Some(Err(error)), after)) => if 0 <= left(s, after) < left(s, st) {
            elements_of(s, f, start, after, es.push(error), done)
        } else {
            None
        },
        Some((Some(Ok(token)), after)) => if token.kind is RightBracket {
            Some((Some(NodeModel::Array(done)), after, es))
        } else if 0 <= left(s, after) < left(s, st) {
            match dispatched(s, f, token, after, es) {
                None => None,
                Some((None, last, errors)) => Some((None, last, errors)),
                Some((Some(node), last, errors)) => if 0 <= left(s, last) < left(s, st) {
                    elements_of(s, f, start, last, errors, done.push(node))
                } else {
                    None
                },
            }
        } else {
            None
        },
    }
}

/// A call: the token after the name is passed over, then the arguments up
/// to the closing parenthesis.
pub open spec fn functioned(s: Seq<u8>, f: Seq<(usize, u64)>, start: int, operator: Seq<char>, st: ParseState, es: Seq<ParseError>) -> Option<(Option<NodeModel>, ParseState, Seq<ParseError>)>
    decreases left(s, st), 1nat,
{
    match skipped(s, st) {
        None => None,
        Some(after) => if 0 <= left(s, after) <= left(s, st) {
            arguments_of(s, f, start, operator, after, es, Seq::empty())
        } else {
            None
        },
    }
}

/// The arguments of a call up to its closing parenthesis.
pub open spec fn arguments_of(s: Seq<u8>, f: Seq<(usize, u64)>, start: int, operator: Seq<char>, st: ParseState, es: Seq<ParseError>, done: Seq<NodeModel>) -> Option<(Option<NodeModel>, ParseState, Seq<ParseError>)>
    decreases left(s, st), 0nat,
{
    match advanced(s, st) {
        None => None,
        Some((None, after)) => Some((None, after, es.push(syntax_error(s, start, SyntaxErrorType::MissingRightParen)))),
        Some((Some(Err(error)), after)) => if 0 <= left(s, after) < left(s, st) {
            arguments_of(s, f, start, operator, after, es.push(error), done)
        } else {
            None
        },
        Some((Some(Ok(token)), after)) => if token.kind is RightParen {
            Some((Some(NodeModel::Apply(operator, done)), after, es))
        } else if 0 <= left(s, after) < left(s, st) {
            match dispatched(s, f, token, after, es) {
                None => None,
                Some((None, last, errors)) => Some((None, last, errors)),
                Some((Some(node), last, errors)) => if 0 <= left(s, last) < left(s, st) {
                    arguments_of(s, f, start, operator, last, errors, done.push(node))
                } else {
                    None
                },
            }
        } else {
            None
        },
    }
}

/// A typed name: the colon is passed over, then a kind name is expected.
pub open spec fn assigned(s: Seq<u8>, name: Seq<char>, st: ParseState, es: Seq<ParseError>) -> Option<(Option<NodeModel>, ParseState, Seq<ParseError>)> {
    match skipped(s, st) {
        None => None,
        Some(after) => match advanced(s, after) {
            None => None,
            Some((Some(Ok(token)), last)) => match token.kind {
                TokenModel::Kind(text) => match kind_named(text) {
                    Some(kind) => Some((Some(NodeModel::Assignment(name, kind)), last, es)),
                    None => None,
                },
                _ => Some((None, last, es.push(syntax_error(s, token.start, SyntaxErrorType::InvalidTypeError)))),
            },
            Some((Some(Err(error)), last)) => Some((None, last, es.push(error))),
            Some((None, last)) => Some((None, last, es.push(syntax_error(s, last_index(last), SyntaxErrorType::MissingTypeIdentity)))),
        },
    }
}

/// The parameters of a definition up to the closing parenthesis: `None`
/// inside where a typed parameter was reported.
pub open spec fn parameters_of(s: Seq<u8>, st: ParseState, es: Seq<ParseError>, done: Seq<NodeModel>) -> Option<(Option<Seq<NodeModel>>, ParseState, Seq<ParseError>)>
    decreases left(s, st),
{
    match advanced(s, st) {
        None => None,
        Some((None, after)) => Some((None, after, es.push(syntax_error(s, last_index(after), SyntaxErrorType::MissingTypeIdentity)))),
        Some((Some(Err(error)), after)) => if 0 <= left(s, after) < left(s, st) {
            parameters_of(s, after, es.push(error), done)
        } else {
            None
        },
        Some((Some(Ok(token)), after)) => match token.kind {
            TokenModel::RightParen => Some((Some(done), after, es)),
            TokenModel::Variable(name) => match peeked(s, after) {
                None => None,
                Some((Some(Ok(next)), looked)) => if next.kind is Colon {
                    match assigned(s, name, looked, es) {
                        None => None,
                        Some((None, last, errors)) => Some((None, last, errors)),
                        Some((Some(node), last, errors)) => if 0 <= left(s, last) < left(s, st) {
                            parameters_of(s, last, errors, done.push(node))
                        } else {
                            None
                        },
                    }
                } else if 0 <= left(s, looked) < left(s, st) {
                    parameters_of(s, looked, es, done.push(NodeModel::SoftAssignment(name)))
                } else {
                    None
                },
                Some((_, looked)) => if 0 <= left(s, looked) < left(s, st) {
                    parameters_of(s, looked, es, done.push(NodeModel::SoftAssignment(name)))
                } else {
                    None
                },
            },
            _ => None,
        },
    }
}

/// The pipelines of a definition's body up to the closing brace.
pub open spec fn bodies_of(s: Seq<u8>, f: Seq<(usize, u64)>, start: int, st: ParseState, es: Seq<ParseError>, done: Seq<NodeModel>) -> Option<(Option<Seq<NodeModel>>, ParseState, Seq<ParseError>)>
    decreases left(s, st), 0nat,
{
    match advanced(s, st) {
        None => None,
        Some((None, after)) => Some((None, after, es.push(syntax_error(s, start, SyntaxErrorType::MissingRightBrace)))),
        Some((Some(Err(error)), after)) => if 0 <= left(s, after) < left(s, st) {
            bodies_of(s, f, start, after, es.push(error), done)
        } else {
            None
        },
        Some((Some(Ok(token)), after)) => if token.kind is RightBrace {
            Some((Some(done), after, es))
        } else if 0 <= left(s, after) < left(s, st) {
            match piped(s, f, token, after) {
                None => None,
                Some((Ok(pipeline), last)) => if 0 <= left(s, last) < left(s, st) {
                    bodies_of(s, f, start, last, es, done.push(pipeline))
                } else {
                    None
                },
                Some((Err(errors), last)) => if 0 <= left(s, last) < left(s, st) {
                    bodies_of(s, f, start, last, es + errors, done)
                } else {
                    None
                },
            }
        } else {
            None
        },
    }
}

/// A function definition: its name, its parameters in parentheses and its
/// body in braces. Its result kind is left undefined.
pub open spec fn defined(s: Seq<u8>, f: Seq<(usize, u64)>, start: int, st: ParseState, es: Seq<ParseError>) -> Option<(Option<NodeModel>, ParseState, Seq<ParseError>)>
    decreases left(s, st), 1nat,
{
    let named: Option<(Option<Seq<char>>, ParseState, Seq<ParseError>)> = match peeked(s, st) {
        None => None,
        Some((None, after)) => Some((None, after, es.push(syntax_error(s, start, SyntaxErrorType::RedundantFunctionDefinition)))),
        Some((Some(Ok(token)), after)) => match token.kind {
            TokenModel::Identifier(name) => match skipped(s, after) {
                Some(next) => Some((Some(name), next, es)),
                None => None,
            },
            _ => Some((Some(Seq::empty()), after, es.push(syntax_error(s, start, SyntaxErrorType::MissingFunctionName)))),
        },
        Some((Some(Err(error)), after)) => Some((Some(Seq::empty()), after, es.push(error))),
    };
    match named {
        None => None,
        Some((None, after, errors)) => Some((None, after, errors)),
        Some((Some(operator), after, errors)) => match opened(s, after, errors, start, Delimiter::Paren, SyntaxErrorType::RedundantFunctionDefinition) {
            None => None,
            Some((open, errors)) => if 0 <= left(s, open) <= left(s, st) {
                match parameters_of(s, open, errors, Seq::empty()) {
                    None => None,
                    Some((None, last, errors)) => Some((None, last, errors)),
                    Some((Some(parameters), closed, errors)) => match opened(s, closed, errors, start, Delimiter::Brace, SyntaxErrorType::MissingFunctionBody) {
                        None => None,
                        Some((braced, errors)) => if 0 <= left(s, braced) <= left(s, st) {
                            match bodies_of(s, f, start, braced, errors, Seq::empty()) {
                                None => None,
                                Some((None, last, errors)) => Some((None, last, errors)),
                                Some((Some(body), last, errors)) => Some((
                                    Some(NodeModel::DefineFunction(operator, parameters, body, Kind::Undefined)),
                                    last,
                                    errors,
                                )),
                            }
                        } else {
                            None
                        },
                    },
                }
            } else {
                None
            },
        },
    }
}

/// The condition of a branch: at most one station in parentheses.
pub open spec fn condition_expression(s: Seq<u8>, f: Seq<(usize, u64)>, start: int, st: ParseState, es: Seq<ParseError>) -> Option<(Seq<NodeModel>, ParseState, Seq<ParseError>)>
    decreases left(s, st), 0nat,
{
    match opened(s, st, es, start, Delimiter::Paren, SyntaxErrorType::RedundantCondition) {
        None => None,
        Some((open, errors)) => match peeked(s, open) {
            None => None,
            Some((None, after)) => Some((Seq::empty(), after, errors.push(syntax_error(s, start, SyntaxErrorType::MissingRightParen)))),
            Some((Some(Err(error)), after)) => Some((Seq::empty(), after, errors.push(error))),
            Some((Some(Ok(token)), after)) => match skipped(s, after) {
                None => None,
                Some(next) => if token.kind is RightParen {
                    Some((Seq::empty(), next, errors))
                } else if 0 <= left(s, next) < left(s, st) {
                    match dispatched(s, f, token, next, errors) {
                        None => None,
                        Some((node, last, errors)) => match skipped(s, last) {
                            None => None,
                            Some(closed) => Some((listed(node), closed, errors)),
                        },
                    }
                } else {
                    None
                },
            },
        },
    }
}

/// The body of a branch: at most one pipeline in braces.
pub open spec fn condition_body(s: Seq<u8>, f: Seq<(usize, u64)>, start: int, st: ParseState, es: Seq<ParseError>) -> Option<(Seq<NodeModel>, ParseState, Seq<ParseError>)>
    decreases left(s, st), 0nat,
{
    match opened(s, st, es, start, Delimiter::Brace, SyntaxErrorType::MissingConditionBody) {
        None => None,
        Some((open, errors)) => match peeked(s, open) {
            None => None,
            Some((None, after)) => Some((Seq::empty(), after, errors.push(syntax_error(s, start, SyntaxErrorType::MissingConditionBody)))),
            Some((Some(Err(error)), after)) => Some((Seq::empty(), after, errors.push(error))),
            Some((Some(Ok(token)), after)) => match skipped(s, after) {
                None => None,
                Some(next) => if token.kind is RightBrace {
                    Some((Seq::empty(), next, errors))
                } else if 0 <= left(s, next) < left(s, st) {
                    match piped(s, f, token, next) {
                        None => None,
                        Some((Ok(pipeline), last)) => match skipped(s, last) {
                            None => None,
                            Some(closed) => Some((seq![pipeline], closed, errors)),
                        },
                        Some((Err(more), last)) => match skipped(s, last) {
                            None => None,
                            Some(closed) => Some((Seq::empty(), closed, errors + more)),
                        },
                    }
                } else {
                    None
                },
            },
        },
    }
}

/// The errors after a branch was read: a missing condition is reported.
pub open spec fn checked_condition(s: Seq<u8>, start: int, condition: Seq<NodeModel>, es: Seq<ParseError>) -> Seq<ParseError> {
    if condition.len() == 0 {
        es.push(syntax_error(s, start, SyntaxErrorType::MissingCondition))
    } else {
        es
    }
}

/// A condition: its first branch, then further branches and a final branch.
pub open spec fn conditioned(s: Seq<u8>, f: Seq<(usize, u64)>, start: int, st: ParseState, es: Seq<ParseError>) -> Option<(Option<NodeModel>, ParseState, Seq<ParseError>)>
    decreases left(s, st), 1nat,
{
    match condition_expression(s, f, start, st, es) {
        None => None,
        Some((condition, after, errors)) => if 0 <= left(s, after) <= left(s, st) {
            match condition_body(s, f, start, after, errors) {
                None => None,
                Some((body, last, errors)) => if 0 <= left(s, last) <= left(s, st) {
                    condition_loop(s, f, start, last, checked_condition(s, start, condition, errors), seq![(condition, body)])
                } else {
                    None
                },
            }
        } else {
            None
        },
    }
}

/// The rest of a condition after its branches so far: `else if` adds a
/// branch, `else` ends with a final branch, anything else ends it.
pub open spec fn condition_loop(s: Seq<u8>, f: Seq<(usize, u64)>, start: int, st: ParseState, es: Seq<ParseError>, branches: Seq<(Seq<NodeModel>, Seq<NodeModel>)>) -> Option<(Option<NodeModel>, ParseState, Seq<ParseError>)>
    decreases left(s, st), 0nat,
{
    let looked: Option<(bool, ParseState, Seq<ParseError>)> = match peeked(s, st) {
        None => None,
        Some((None, after)) => Some((false, after, es)),
        Some((Some(Ok(token)), after)) => Some((token.kind is Else, after, es)),
        Some((Some(Err(error)), after)) => Some((true, after, es.push(error))),
    };
    match looked {
        None => None,
        Some((false, after, errors)) => Some((Some(NodeModel::Condition(branches, Seq::empty())), after, errors)),
        Some((true, after, errors)) => match skipped(s, after) {
            None => None,
            Some(next) => match peeked(s, next) {
                None => None,
                Some((found, looked)) => if 0 <= left(s, looked) < left(s, st) {
                    match found {
                        Some(Ok(token)) => if !(token.kind is If) {
                            match condition_body(s, f, start, looked, errors) {
                                None => None,
                                Some((final_branch, last, errors)) => Some((Some(NodeModel::Condition(branches, final_branch)), last, errors)),
                            }
                        } else {
                            next_branch(s, f, start, looked, errors, branches)
                        },
                        Some(Err(error)) => next_branch(s, f, start, looked, errors.push(error), branches),
                        None => next_branch(s, f, start, looked, errors.push(syntax_error(s, start, SyntaxErrorType::RedundantCondition)), branches),
                    }
                } else {
                    None
                },
            },
        },
    }
}

/// A further branch after `else if`, then the rest of the condition.
pub open spec fn next_branch(s: Seq<u8>, f: Seq<(usize, u64)>, start: int, st: ParseState, es: Seq<ParseError>, branches: Seq<(Seq<NodeModel>, Seq<NodeModel>)>) -> Option<(Option<NodeModel>, ParseState, Seq<ParseError>)>
    decreases left(s, st), 1nat,
{
    match skipped(s, st) {
        None => None,
        Some(after) => if 0 <= left(s, after) <= left(s, st) {
            match condition_expression(s, f, start, after, es) {
                None => None,
                Some((condition, next, errors)) => if 0 <= left(s, next) <= left(s, st) {
                    match condition_body(s, f, start, next, errors) {
                        None => None,
                        Some((body, last, errors)) => if 0 <= left(s, last) <= left(s, st) {
                            condition_loop(s, f, start, last, checked_condition(s, start, condition, errors), branches.push((condition, body)))
                        } else {
                            None
                        },
                    }
                } else {
                    None
                },
            }
        } else {
            None
        },
    }
}

/// A pipeline made of its stations, or its errors where there are any.
pub open spec fn pipeline_of(found: Option<(Seq<NodeModel>, ParseState, Seq<ParseError>)>) -> Option<(Result<NodeModel, Seq<ParseError>>, ParseState)> {
    match found {
        None => None,
        Some((stations, last, errors)) => Some((
            if errors.len() == 0 { Ok(NodeModel::Pipeline(stations)) } else { Err(errors) },
            last,
        )),
    }
}

/// A pipeline whose first station `token` starts: its stations joined by
/// arrows, with errors of its own; the pipeline when there are none.
pub open spec fn piped(s: Seq<u8>, f: Seq<(usize, u64)>, token: TokenView, st: ParseState) -> Option<(Result<NodeModel, Seq<ParseError>>, ParseState)>
    decreases left(s, st), 3nat,
{
    match dispatched(s, f, token, st, Seq::empty()) {
        None => None,
        Some((first, after, errors)) => if 0 <= left(s, after) <= left(s, st) {
            pipeline_of(stations_of(s, f, token.start, after, errors, listed(first)))
        } else {
            None
        },
    }
}

/// One step of reading the stations of a pipeline after its first: each
/// arrow is passed over and the station after it parsed; a name followed by
/// a colon is a typed assignment, one at the end a soft assignment; the
/// token after each station is passed over. Whether to go on, the state,
/// the errors and the stations after the step.
pub open spec fn station_step(s: Seq<u8>, f: Seq<(usize, u64)>, start: int, st: ParseState, es: Seq<ParseError>, done: Seq<NodeModel>) -> Option<(bool, ParseState, Seq<ParseError>, Seq<NodeModel>)>
    decreases left(s, st), 0nat,
{
    match peeked(s, st) {
        None => None,
        Some((None, after)) => Some((false, after, es, done)),
        Some((Some(Err(error)), after)) => if 0 <= left(s, after) < left(s, st) {
            Some((true, after, es.push(error), done))
        } else {
            None
        },
        Some((Some(Ok(token)), after)) => if !(token.kind is Arrow) {
            Some((false, after, es, done))
        } else {
            match skipped(s, after) {
                None => None,
                Some(next) => match advanced(s, next) {
                    None => None,
                    Some((None, last)) => Some((false, last, es.push(syntax_error(s, start, SyntaxErrorType::NoStationAfterPipeline)), done)),
                    Some((Some(Err(error)), last)) => if 0 <= left(s, last) < left(s, st) {
                        Some((true, last, es.push(error), done))
                    } else {
                        None
                    },
                    Some((Some(Ok(station)), last)) => if 0 <= left(s, last) < left(s, st) {
                        match dispatched(s, f, station, last, es) {
                            None => None,
                            Some((None, parsed, errors)) => if 0 <= left(s, parsed) < left(s, st) {
                                Some((true, parsed, errors, done))
                            } else {
                                None
                            },
                            Some((Some(NodeModel::Variable(name)), parsed, errors)) => match peeked(s, parsed) {
                                None => None,
                                Some((Some(Ok(following)), looked)) => if following.kind is Colon {
                                    match assigned(s, name, looked, errors) {
                                        None => None,
                                        Some((None, assigned_at, errors)) => if 0 <= left(s, assigned_at) < left(s, st) {
                                            Some((true, assigned_at, errors, done))
                                        } else {
                                            None
                                        },
                                        Some((Some(node), assigned_at, errors)) => match skipped(s, assigned_at) {
                                            None => None,
                                            Some(passed) => if 0 <= left(s, passed) < left(s, st) {
                                                Some((true, passed, errors, done.push(node)))
                                            } else {
                                                None
                                            },
                                        },
                                    }
                                } else {
                                    match skipped(s, looked) {
                                        None => None,
                                        Some(passed) => if 0 <= left(s, passed) < left(s, st) {
                                            Some((true, passed, errors, done))
                                        } else {
                                            None
                                        },
                                    }
                                },
                                Some((Some(Err(error)), looked)) => if 0 <= left(s, looked) < left(s, st) {
                                    Some((true, looked, errors.push(error), done))
                                } else {
                                    None
                                },
                                Some((None, looked)) => match skipped(s, looked) {
                                    None => None,
                                    Some(passed) => if 0 <= left(s, passed) < left(s, st) {
                                        Some((true, passed, errors, done.push(NodeModel::SoftAssignment(name))))
                                    } else {
                                        None
                                    },
                                },
                            },
                            Some((Some(node), parsed, errors)) => match skipped(s, parsed) {
                                None => None,
                                Some(passed) => if 0 <= left(s, passed) < left(s, st) {
                                    Some((true, passed, errors, done.push(node)))
                                } else {
                                    None
                                },
                            },
                        }
                    } else {
                        None
                    },
                },
            }
        },
    }
}


/// The stations of a pipeline after its first, read step by step.
pub open spec fn stations_of(s: Seq<u8>, f: Seq<(usize, u64)>, start: int, st: ParseState, es: Seq<ParseError>, done: Seq<NodeModel>) -> Option<(Seq<NodeModel>, ParseState, Seq<ParseError>)>
    decreases left(s, st), 1nat,
{
    match station_step(s, f, start, st, es, done) {
        None => None,
        Some((false, after, errors, stations)) => Some((stations, after, errors)),
        Some((true, after, errors, stations)) => if 0 <= left(s, after) < left(s, st) {
            stations_of(s, f, start, after, errors, stations)
        } else {
            None
        },
    }
}

/// The next pipeline of the source: `None` where parsing gets stuck, else
/// nothing at the end, the pipeline or its errors, and the state after.
pub open spec fn next_pipeline(s: Seq<u8>, f: Seq<(usize, u64)>, st: ParseState) -> Option<(Option<Result<NodeModel, Seq<ParseError>>>, ParseState)> {
    match advanced(s, st) {
        None => None,
        Some((None, after)) => Some((None, after)),
        Some((Some(Err(error)), after)) => Some((Some(Err(seq![error])), after)),
        Some((Some(Ok(token)), after)) => match piped(s, f, token, after) {
            None => None,
            Some((result, last)) => Some((Some(result), last)),
        },
    }
}

/// What looking at the next token finds.
pub enum Lookahead {
    Token(Token),
    Failed(Error),
    End,
    OutOfRange,
}

/// A lookahead as a step of the model, with the state after it.
pub open spec fn looked_at(found: Lookahead, st: ParseState) -> Option<(Option<Result<TokenView, ParseError>>, ParseState)> {
    match found {
        Lookahead::Token(token) => Some((Some(Ok(token_view(token))), st)),
        Lookahead::Failed(error) => Some((Some(Err(parse_error(error))), st)),
        Lookahead::End => Some((None, st)),
        Lookahead::OutOfRange => None,
    }
}

/// What a parsing step returned, as a step of the model.
pub open spec fn node_outcome(result: Option<Option<Node>>, st: ParseState, errors: Seq<Error>) -> Option<(Option<NodeModel>, ParseState, Seq<ParseError>)> {
    match result {
        None => None,
        Some(Some(node)) => Some((Some(node_model(node)), st, parse_errors(errors))),
        Some(None) => Some((None, st, parse_errors(errors))),
    }
}

/// What parsing the next pipeline finds.
pub enum Parsed {
    /// The source is used up.
    Done,
    /// A pipeline, or the errors found in it.
    Pipeline(Result<Node, Vec<Error>>),
    /// Parsing reached an unfinished case or a number out of range.
    Unfinished,
}

proof fn lemma_parse_errors_push(errors: Seq<Error>, error: Error)
    ensures
        parse_errors(errors.push(error)) == parse_errors(errors).push(parse_error(error)),
{
    assert(parse_errors(errors.push(error)) =~= parse_errors(errors).push(parse_error(error)));
}

proof fn lemma_parse_errors_append(errors: Seq<Error>, more: Seq<Error>)
    ensures
        parse_errors(errors + more) == parse_errors(errors) + parse_errors(more),
{
    assert(parse_errors(errors + more) =~= parse_errors(errors) + parse_errors(more));
}

proof fn lemma_node_models_push(nodes: Seq<Node>, node: Node)
    ensures
        node_models(nodes.push(node)) == node_models(nodes).push(node_model(node)),
{
    assert(nodes.push(node).drop_last() =~= nodes);
}

proof fn lemma_skip_buffered(s: Seq<u8>, st: ParseState)
    requires
        0 <= st.pos < st.tokens.len(),
    ensures
        skipped(s, st) == Some(ParseState { pos: st.pos + 1, ..st }),
{
    reveal(peeked);
    reveal(advanced);
    reveal(skipped);
}

proof fn lemma_node_models_len(nodes: Seq<Node>)
    ensures
        node_models(nodes).len() == nodes.len(),
    decreases nodes.len(),
{
    if nodes.len() > 0 {
        lemma_node_models_len(nodes.drop_last());
    }
}

/// A copy of a token.
fn copy_token(token: &Token) -> (copy: Token)
    ensures
        token_view(copy) == token_view(*token),
{
    let kind = match &token.kind {
        TokenType::Arrow => TokenType::Arrow,
        TokenType::Boolean(value) => TokenType::Boolean(*value),
        TokenType::Div => TokenType::Div,
        TokenType::Float(text) => TokenType::Float(text.clone()),
        TokenType::Function => TokenType::Function,
        TokenType::Nil => TokenType::Nil,
        TokenType::Identifier(text) => TokenType::Identifier(text.clone()),
        TokenType::Macro(text) => TokenType::Macro(text.clone()),
        TokenType::Integer(value) => TokenType::Integer(*value),
        TokenType::LeftParen => TokenType::LeftParen,
        TokenType::Minus => TokenType::Minus,
        TokenType::Mul => TokenType::Mul,
        TokenType::Plus => TokenType::Plus,
        TokenType::RelativeReference(x, y) => TokenType::RelativeReference(*x, *y),
        TokenType::RightParen => TokenType::RightParen,
        TokenType::Semicolon => TokenType::Semicolon,
        TokenType::String(text) => TokenType::String(text.clone()),
        TokenType::Variable(text) => TokenType::Variable(text.clone()),
        TokenType::DefineFunction => TokenType::DefineFunction,
        TokenType::LeftBrace => TokenType::LeftBrace,
        TokenType::RightBrace => TokenType::RightBrace,
        TokenType::If => TokenType::If,
        TokenType::Else => TokenType::Else,
        TokenType::Return => TokenType::Return,
        TokenType::LeftBracket => TokenType::LeftBracket,
        TokenType::RightBracket => TokenType::RightBracket,
        TokenType::Colon => TokenType::Colon,
        TokenType::Kind(text) => TokenType::Kind(text.clone()),
    };
    Token { start: token.start, end: token.end, kind }
}

/// The kind a type name stands for.
fn kind_of_name(name: &String) -> (kind: Option<Kind>)
    ensures
        kind == kind_named(name@),
{
    if *name == String::from_str("boolean") {
        Some(Kind::Boolean)
    } else if *name == String::from_str("float") {
        Some(Kind::Float)
    } else if *name == String::from_str("integer") {
        Some(Kind::Integer)
    } else if *name == String::from_str("string") {
        Some(Kind::String)
    } else if *name == String::from_str("array") {
        Some(Kind::Array)
    } else {
        None
    }
}

/// The bit pattern given for the float literal starting at `start`.
fn float_value(floats: &Vec<(usize, u64)>, start: usize) -> (bits: Option<u64>)
    ensures
        bits == float_at(floats@, start as int),
{
    let mut i: usize = 0;
    assert(floats@.subrange(0, floats@.len() as int) =~= floats@);
    while i < floats.len()
        invariant
            i <= floats@.len(),
            float_at(floats@, start as int) == float_at(floats@.subrange(i as int, floats@.len() as int), start as int),
        decreases floats@.len() - i,
    {
        let ghost rest = floats@.subrange(i as int, floats@.len() as int);
        assert(rest[0] == floats@[i as int]);
        assert(rest.drop_first() =~= floats@.subrange(i + 1, floats@.len() as int));
        if floats[i].0 == start {
            return Some(floats[i].1);
        }
        i += 1;
    }
    None
}

/// Whether a token kind opens `delimiter`.
fn token_opens(delimiter: Delimiter, kind: &TokenType) -> (opening: bool)
    ensures
        opening == opens(delimiter, token_model(*kind)),
{
    match delimiter {
        Delimiter::Paren => if let TokenType::LeftParen = kind { true } else { false },
        Delimiter::Brace => if let TokenType::LeftBrace = kind { true } else { false },
    }
}

/// Whether a token kind closes `delimiter`.
fn token_closes(delimiter: Delimiter, kind: &TokenType) -> (closing: bool)
    ensures
        closing == closes(delimiter, token_model(*kind)),
{
    match delimiter {
        Delimiter::Paren => if let TokenType::RightParen = kind { true } else { false },
        Delimiter::Brace => if let TokenType::RightBrace = kind { true } else { false },
    }
}

/// The error for a missing opening `delimiter`.
fn missing_opening_error(delimiter: Delimiter) -> (kind: SyntaxErrorType)
    ensures
        kind == missing_opening(delimiter),
{
    match delimiter {
        Delimiter::Paren => SyntaxErrorType::MissingLeftParen,
        Delimiter::Brace => SyntaxErrorType::MissingLeftBrace,
    }
}

/// What a pipeline parse returned, as plain values.
pub open spec fn pipeline_result(result: Result<Node, Vec<Error>>) -> Result<NodeModel, Seq<ParseError>> {
    match result {
        Ok(node) => Ok(node_model(node)),
        Err(errors) => Err(parse_errors(errors@)),
    }
}

/// The result of a pipeline: the pipeline where no error was found, else
/// the errors.
fn finished(stations: Vec<Node>, errors: Vec<Error>) -> (result: Result<Node, Vec<Error>>)
    ensures
        pipeline_result(result) == (if errors@.len() == 0 {
            Ok(NodeModel::Pipeline(node_models(stations@)))
        } else {
            Err(parse_errors(errors@))
        }),
{
    if errors.len() == 0 {
        Ok(Node::Pipeline(stations))
    } else {
        Err(errors)
    }
}

/// Reads the pipelines of a source, one at a time.
pub struct Parser<'source_code> {
    lexer: Lexer<'source_code>,
    tokens: Vec<Token>,
    pos: usize,
    float_literals: Vec<(usize, u64)>,
}

impl<'source_code> Parser<'source_code> {
    /// The source text.
    pub closed spec fn source(&self) -> Seq<u8> {
        self.lexer.source()
    }

    /// The bit patterns given for float literals, by where they start.
    pub closed spec fn floats(&self) -> Seq<(usize, u64)> {
        self.float_literals@
    }

    /// Where parsing stands.
    pub closed spec fn state(&self) -> ParseState {
        ParseState {
            read: self.lexer.position(),
            tokens: self.tokens@.map_values(|t: Token| token_view(t)),
            pos: self.pos as int,
        }
    }

    /// How much is left to parse.
    pub closed spec fn remaining(&self) -> int {
        left(self.source(), self.state())
    }

    /// The lexer is well formed, the position lies among the tokens read,
    /// and every token read lies in the part of the source read.
    pub closed spec fn wf(&self) -> bool {
        &&& self.lexer.wf()
        &&& self.pos <= self.tokens@.len()
        &&& 0 <= left(self.lexer.source(), self.state())
        &&& forall|i: int| 0 <= i < self.tokens@.len() ==> (#[trigger] self.tokens@[i]).start <= self.lexer.position()
            && self.tokens@[i].end <= self.lexer.position()
    }

    /// A parser reading the tokens of `lexer`, with the bit patterns of the
    /// float literals of the source given by where they start.
    pub fn new(lexer: Lexer<'source_code>, float_literals: Vec<(usize, u64)>) -> (parser: Self)
        requires
            lexer.wf(),
        ensures
            parser.wf(),
            parser.source() == lexer.source(),
            parser.floats() == float_literals@,
            parser.state() == (ParseState { read: lexer.position(), tokens: Seq::empty(), pos: 0 }),
    {
        let parser = Parser { lexer, tokens: Vec::new(), pos: 0, float_literals };
        assert(parser.state().tokens =~= Seq::<TokenView>::empty());
        parser
    }

    /// The next token, reading one more from the source where none is left.
    fn peek(&mut self) -> (found: Lookahead)
        requires
            old(self).wf(),
        ensures
            final(self).wf(),
            final(self).source() == old(self).source(),
            final(self).floats() == old(self).floats(),
            old(self).state().read <= final(self).state().read,
            final(self).remaining() <= old(self).remaining(),
            found is Failed ==> final(self).remaining() < old(self).remaining(),
            found is Token ==> final(self).state().pos < final(self).state().tokens.len(),
            found matches Lookahead::Token(t) ==> t.start <= final(self).state().read && t.end <= final(self).state().read,
            peeked(old(self).source(), old(self).state()) == looked_at(found, final(self).state()),
    {
        let ghost s = self.source();
        reveal(peeked);
        if self.pos < self.tokens.len() {
            let token = copy_token(&self.tokens[self.pos]);
            return Lookahead::Token(token);
        }
        proof {
            lemma_lex_progress(s, self.lexer.position());
        }
        let ghost before = self.tokens@;
        match self.lexer.scan() {
            Lexed::Done => Lookahead::End,
            Lexed::Read(Ok(token)) => {
                let copy = copy_token(&token);
                self.tokens.push(token);
                proof {
                    assert(self.tokens@.map_values(|t: Token| token_view(t))
                        =~= before.map_values(|t: Token| token_view(t)).push(token_view(token)));
                }
                Lookahead::Token(copy)
            },
            Lexed::Read(Err(error)) => Lookahead::Failed(error),
            Lexed::OutOfRange => Lookahead::OutOfRange,
        }
    }

    /// The next token, moving past it.
    fn advance(&mut self) -> (found: Lookahead)
        requires
            old(self).wf(),
        ensures
            final(self).wf(),
            final(self).source() == old(self).source(),
            final(self).floats() == old(self).floats(),
            old(self).state().read <= final(self).state().read,
            final(self).remaining() <= old(self).remaining(),
            found is Failed || found is Token ==> final(self).remaining() < old(self).remaining(),
            found matches Lookahead::Token(t) ==> t.start <= final(self).state().read && t.end <= final(self).state().read,
            advanced(old(self).source(), old(self).state()) == looked_at(found, final(self).state()),
    {
        let found = self.peek();
        reveal(advanced);
        assert(self.state().tokens.len() == self.tokens@.len());
        let buffered = self.tokens.len();
        if let Lookahead::Token(_) = found {
            assert(self.pos < buffered);
            self.pos = self.pos + 1;
        }
        found
    }

    /// Moves past the next token, whatever it is; `false` where a number is
    /// out of range.
    fn skip(&mut self) -> (moved: bool)
        requires
            old(self).wf(),
        ensures
            final(self).wf(),
            final(self).source() == old(self).source(),
            final(self).floats() == old(self).floats(),
            old(self).state().read <= final(self).state().read,
            final(self).remaining() <= old(self).remaining(),
            old(self).state().pos < old(self).state().tokens.len() ==> final(self).remaining() < old(self).remaining(),
            match skipped(old(self).source(), old(self).state()) {
                None => !moved,
                Some(after) => moved && after == final(self).state(),
            },
    {
        proof {
            reveal(skipped);
            if self.state().pos < self.state().tokens.len() {
                lemma_skip_buffered(self.source(), self.state());
            }
        }
        match self.advance() {
            Lookahead::OutOfRange => false,
            _ => true,
        }
    }

    /// Where the last token read ends, or the start of the source.
    fn last_index(&self) -> (index: usize)
        requires
            self.wf(),
        ensures
            index == last_index(self.state()),
            index <= self.state().read,
    {
        if self.tokens.len() == 0 {
            0
        } else {
            self.tokens[self.tokens.len() - 1].end
        }
    }

    /// Reports a syntax error at the line and column of `start`.
    fn error_pusher(&self, start: usize, kind: SyntaxErrorType, errors: &mut Vec<Error>)
        requires
            self.wf(),
            start <= self.state().read,
        ensures
            parse_errors(final(errors)@) == parse_errors(old(errors)@).push(syntax_error(self.source(), start as int, kind)),
    {
        let (line, column) = self.lexer.find_line_col(start);
        let error = Error::SyntaxError(SyntaxError { line, column, kind });
        proof {
            lemma_parse_errors_push(errors@, error);
        }
        errors.push(error);
    }

    /// Passes over tokens up to the next arrow, reporting lexical errors;
    /// `false` where a number is out of range.
    fn jump(&mut self, errors: &mut Vec<Error>) -> (reached: bool)
        requires
            old(self).wf(),
        ensures
            final(self).wf(),
            final(self).source() == old(self).source(),
            final(self).floats() == old(self).floats(),
            old(self).state().read <= final(self).state().read,
            final(self).remaining() <= old(self).remaining(),
            match jumped(old(self).source(), old(self).state(), parse_errors(old(errors)@)) {
                None => !reached,
                Some((after, reported)) => reached && after == final(self).state() && reported == parse_errors(final(errors)@),
            },
    {
        let ghost s = self.source();
        let ghost target = jumped(s, self.state(), parse_errors(errors@));
        loop
            invariant
                self.wf(),
                self.source() == s,
                s == old(self).source(),
                self.floats() == old(self).floats(),
                old(self).state().read <= self.state().read,
                self.remaining() <= old(self).remaining(),
                target == jumped(s, old(self).state(), parse_errors(old(errors)@)),
                target == jumped(s, self.state(), parse_errors(errors@)),
            decreases self.remaining(),
        {
            let ghost before = self.remaining();
            match self.peek() {
                Lookahead::Token(token) => {
                    if let TokenType::Arrow = token.kind {
                        return true;
                    }
                },
                Lookahead::Failed(error) => {
                    proof {
                        lemma_parse_errors_push(errors@, error);
                    }
                    errors.push(error);
                },
                Lookahead::End => {
                    return true;
                },
                Lookahead::OutOfRange => {
                    return false;
                },
            }
            if !self.skip() {
                return false;
            }
            assert(self.remaining() < before);
        }
    }

    /// This parser, later than `before`: well formed, on the same source
    /// and floats, having read no less and with no more left.
    pub closed spec fn moved_on_from(self, before: Self) -> bool {
        &&& self.wf()
        &&& self.source() == before.source()
        &&& self.floats() == before.floats()
        &&& before.state().read <= self.state().read
        &&& self.remaining() <= before.remaining()
    }

    /// Expects an opening delimiter, as `opened` says; `false` where a
    /// number is out of range.
    fn open_delimiter(&mut self, start: usize, delimiter: Delimiter, at_end: SyntaxErrorType, errors: &mut Vec<Error>) -> (expected: bool)
        requires
            old(self).wf(),
            start <= old(self).state().read,
        ensures
            final(self).moved_on_from(*old(self)),
            match opened(old(self).source(), old(self).state(), parse_errors(old(errors)@), start as int, delimiter, at_end) {
                None => !expected,
                Some((after, reported)) => expected && after == final(self).state() && reported == parse_errors(final(errors)@),
            },
    {
        match self.peek() {
            Lookahead::Token(token) => {
                if token_opens(delimiter, &token.kind) {
                    self.skip()
                } else {
                    if !token_closes(delimiter, &token.kind) {
                        if !self.skip() {
                            return false;
                        }
                    }
                    self.error_pusher(start, missing_opening_error(delimiter), errors);
                    true
                }
            },
            Lookahead::Failed(error) => {
                proof { lemma_parse_errors_push(errors@, error); }
                errors.push(error);
                true
            },
            Lookahead::End => {
                self.error_pusher(start, at_end, errors);
                true
            },
            Lookahead::OutOfRange => false,
        }
    }

    /// A typed name whose colon comes next: the colon is passed over, then
    /// a kind name is expected.
    fn parse_assignment(&mut self, name: String, errors: &mut Vec<Error>) -> (result: Option<Option<Node>>)
        requires
            old(self).wf(),
        ensures
            final(self).moved_on_from(*old(self)),
            assigned(old(self).source(), name@, old(self).state(), parse_errors(old(errors)@))
                == node_outcome(result, final(self).state(), final(errors)@),
    {
        if !self.skip() {
            return None;
        }
        let token = match self.advance() {
            Lookahead::Token(token) => token,
            Lookahead::Failed(error) => {
                proof { lemma_parse_errors_push(errors@, error); }
                errors.push(error);
                return Some(None);
            },
            Lookahead::End => {
                let index = self.last_index();
                self.error_pusher(index, SyntaxErrorType::MissingTypeIdentity, errors);
                return Some(None);
            },
            Lookahead::OutOfRange => {
                return None;
            },
        };
        match token.kind {
            TokenType::Kind(kind) => match kind_of_name(&kind) {
                Some(node_kind) => Some(Some(Node::Assignment(name, node_kind))),
                None => None,
            },
            _ => {
                self.error_pusher(token.start, SyntaxErrorType::InvalidTypeError, errors);
                Some(None)
            },
        }
    }

    /// The parameters of a definition up to the closing parenthesis.
    fn parse_parameters(&mut self, errors: &mut Vec<Error>) -> (result: Option<Option<Vec<Node>>>)
        requires
            old(self).wf(),
        ensures
            final(self).moved_on_from(*old(self)),
            parameters_of(old(self).source(), old(self).state(), parse_errors(old(errors)@), Seq::empty()) == match result {
                None => None,
                Some(None) => Some((None, final(self).state(), parse_errors(final(errors)@))),
                Some(Some(parameters)) => Some((Some(node_models(parameters@)), final(self).state(), parse_errors(final(errors)@))),
            },
    {
        let ghost s = self.source();
        let ghost target = parameters_of(s, self.state(), parse_errors(errors@), Seq::empty());
        let mut parameters: Vec<Node> = Vec::new();
        loop
            invariant
                self.moved_on_from(*old(self)),
                s == self.source(),
                target == parameters_of(s, old(self).state(), parse_errors(old(errors)@), Seq::empty()),
                target == parameters_of(s, self.state(), parse_errors(errors@), node_models(parameters@)),
            decreases self.remaining(),
        {
            let ghost done = parameters@;
            match self.advance() {
                Lookahead::Token(token) => match token.kind {
                    TokenType::RightParen => {
                        return Some(Some(parameters));
                    },
                    TokenType::Variable(name) => {
                        let ghost before = self.remaining();
                        match self.peek() {
                            Lookahead::Token(next) => {
                                if let TokenType::Colon = next.kind {
                                    match self.parse_assignment(name, errors) {
                                        None => {
                                            return None;
                                        },
                                        Some(None) => {
                                            return Some(None);
                                        },
                                        Some(Some(node)) => {
                                            proof { lemma_node_models_push(done, node); }
                                            parameters.push(node);
                                        },
                                    }
                                } else {
                                    proof { lemma_node_models_push(done, Node::SoftAssignment(name)); }
                                    parameters.push(Node::SoftAssignment(name));
                                }
                            },
                            Lookahead::OutOfRange => {
                                return None;
                            },
                            _ => {
                                proof { lemma_node_models_push(done, Node::SoftAssignment(name)); }
                                parameters.push(Node::SoftAssignment(name));
                            },
                        }
                    },
                    _ => {
                        return None;
                    },
                },
                Lookahead::Failed(error) => {
                    proof { lemma_parse_errors_push(errors@, error); }
                    errors.push(error);
                },
                Lookahead::End => {
                    let index = self.last_index();
                    self.error_pusher(index, SyntaxErrorType::MissingTypeIdentity, errors);
                    return Some(None);
                },
                Lookahead::OutOfRange => {
                    return None;
                },
            }
        }
    }

    /// Parses the station that `token` starts; `None` where parsing gets
    /// stuck, `Some(None)` where an error was reported instead of a node.
    #[verifier::rlimit(100)]
    fn dispatch_node(&mut self, token: Token, errors: &mut Vec<Error>) -> (result: Option<Option<Node>>)
        requires
            old(self).wf(),
            token.start <= old(self).state().read,
        ensures
            final(self).moved_on_from(*old(self)),
            dispatched(old(self).source(), old(self).floats(), token_view(token), old(self).state(), parse_errors(old(errors)@))
                == node_outcome(result, final(self).state(), final(errors)@),
        decreases old(self).remaining(), 2nat,
    {
        proof {
            assert(self.state().tokens.len() == self.tokens@.len());
            assert(0 <= left(self.source(), self.state()));
        }
        match token.kind {
            TokenType::Integer(number) => Some(Some(Node::Literal(LightValue::Integer(number)))),
            TokenType::Float(_) => match float_value(&self.float_literals, token.start) {
                Some(bits) => Some(Some(Node::Literal(LightValue::Float(bits)))),
                None => None,
            },
            TokenType::Boolean(boolean) => Some(Some(Node::Literal(LightValue::Boolean(boolean)))),
            TokenType::Nil => Some(Some(Node::Literal(LightValue::Nil))),
            TokenType::Identifier(identifier) => self.parse_function(token.start, identifier, errors),
            TokenType::String(string) => Some(Some(Node::HeavyLiteral(HeavyValue::String(string)))),
            TokenType::RelativeReference(x, y) => Some(Some(Node::RelativeReference(x, y))),
            TokenType::Variable(name) => Some(Some(Node::Variable(name))),
            TokenType::DefineFunction => self.parse_define_function(token.start, errors),
            TokenType::If => self.parse_condition(token.start, errors),
            TokenType::Return => self.parse_return(errors),
            TokenType::LeftBracket => self.parse_array(token.start, errors),
            _ => {
                let start = token.start;
                self.error_pusher(start, SyntaxErrorType::UnimplementedToken(token), errors);
                Some(None)
            },
        }
    }

    /// A returned value: the station after `return`, or nil at the end.
    fn parse_return(&mut self, errors: &mut Vec<Error>) -> (result: Option<Option<Node>>)
        requires
            old(self).wf(),
        ensures
            final(self).moved_on_from(*old(self)),
            dispatched(old(self).source(), old(self).floats(), return_token(), old(self).state(), parse_errors(old(errors)@))
                == node_outcome(result, final(self).state(), final(errors)@),
        decreases old(self).remaining(), 1nat,
    {
        let ghost target = dispatched(self.source(), self.floats(), return_token(), self.state(), parse_errors(errors@));
        match self.advance() {
            Lookahead::Token(next) => {
                let r = match self.dispatch_node(next, errors) {
                    None => None,
                    Some(None) => Some(None),
                    Some(Some(node)) => Some(Some(Node::Return(Box::new(node)))),
                };
                assert(target == node_outcome(r, self.state(), errors@));
                r
            },
            Lookahead::Failed(error) => {
                proof { lemma_parse_errors_push(errors@, error); }
                errors.push(error);
                let r = if self.jump(errors) {
                    Some(None)
                } else {
                    None
                };
                assert(target == node_outcome(r, self.state(), errors@));
                r
            },
            Lookahead::End => {
                let r = Some(Some(Node::Return(Box::new(Node::Literal(LightValue::Nil)))));
                proof {
                    reveal_with_fuel(node_model, 2);
                }
                assert(target == node_outcome(r, self.state(), errors@));
                r
            },
            Lookahead::OutOfRange => {
                assert(target is None);
                None
            },
        }
    }

    /// The elements of an array up to its closing bracket.
    fn parse_array(&mut self, start: usize, errors: &mut Vec<Error>) -> (result: Option<Option<Node>>)
        requires
            old(self).wf(),
            start <= old(self).state().read,
        ensures
            final(self).moved_on_from(*old(self)),
            elements_of(old(self).source(), old(self).floats(), start as int, old(self).state(), parse_errors(old(errors)@), Seq::empty())
                == node_outcome(result, final(self).state(), final(errors)@),
        decreases old(self).remaining(), 1nat,
    {
        let ghost s = self.source();
        let ghost f = self.floats();
        let ghost target = elements_of(s, f, start as int, self.state(), parse_errors(errors@), Seq::empty());
        let mut arguments: Vec<Node> = Vec::new();
        loop
            invariant
                self.moved_on_from(*old(self)),
                s == self.source(),
                f == self.floats(),
                start <= self.state().read,
                target == elements_of(s, f, start as int, old(self).state(), parse_errors(old(errors)@), Seq::empty()),
                target == elements_of(s, f, start as int, self.state(), parse_errors(errors@), node_models(arguments@)),
            decreases self.remaining(),
        {
            let ghost done = arguments@;
            match self.advance() {
                Lookahead::Token(token) => {
                    if let TokenType::RightBracket = token.kind {
                        return Some(Some(Node::Array(arguments)));
                    }
                    match self.dispatch_node(token, errors) {
                        None => {
                            return None;
                        },
                        Some(None) => {
                            return Some(None);
                        },
                        Some(Some(node)) => {
                            proof { lemma_node_models_push(done, node); }
                            arguments.push(node);
                        },
                    }
                },
                Lookahead::Failed(error) => {
                    proof { lemma_parse_errors_push(errors@, error); }
                    errors.push(error);
                },
                Lookahead::End => {
                    self.error_pusher(start, SyntaxErrorType::MissingRightBracket, errors);
                    return Some(None);
                },
                Lookahead::OutOfRange => {
                    return None;
                },
            }
        }
    }

    /// A call: the token after the name is passed over, then the arguments
    /// up to the closing parenthesis.
    fn parse_function(&mut self, start: usize, operator: String, errors: &mut Vec<Error>) -> (result: Option<Option<Node>>)
        requires
            old(self).wf(),
            start <= old(self).state().read,
        ensures
            final(self).moved_on_from(*old(self)),
            functioned(old(self).source(), old(self).floats(), start as int, operator@, old(self).state(), parse_errors(old(errors)@))
                == node_outcome(result, final(self).state(), final(errors)@),
        decreases old(self).remaining(), 1nat,
    {
        let ghost s = self.source();
        let ghost f = self.floats();
        if !self.skip() {
            return None;
        }
        let ghost target = arguments_of(s, f, start as int, operator@, self.state(), parse_errors(errors@), Seq::empty());
        let mut arguments: Vec<Node> = Vec::new();
        loop
            invariant
                self.moved_on_from(*old(self)),
                s == self.source(),
                f == self.floats(),
                start <= self.state().read,
                target == functioned(s, f, start as int, operator@, old(self).state(), parse_errors(old(errors)@)),
                target == arguments_of(s, f, start as int, operator@, self.state(), parse_errors(errors@), node_models(arguments@)),
            decreases self.remaining(),
        {
            let ghost done = arguments@;
            match self.advance() {
                Lookahead::Token(token) => {
                    if let TokenType::RightParen = token.kind {
                        return Some(Some(Node::Apply { operator, arguments }));
                    }
                    match self.dispatch_node(token, errors) {
                        None => {
                            return None;
                        },
                        Some(None) => {
                            return Some(None);
                        },
                        Some(Some(node)) => {
                            proof { lemma_node_models_push(done, node); }
                            arguments.push(node);
                        },
                    }
                },
                Lookahead::Failed(error) => {
                    proof { lemma_parse_errors_push(errors@, error); }
                    errors.push(error);
                },
                Lookahead::End => {
                    self.error_pusher(start, SyntaxErrorType::MissingRightParen, errors);
                    return Some(None);
                },
                Lookahead::OutOfRange => {
                    return None;
                },
            }
        }
    }

    /// The pipelines of a definition's body up to the closing brace.
    fn parse_body(&mut self, start: usize, errors: &mut Vec<Error>) -> (result: Option<Option<Vec<Node>>>)
        requires
            old(self).wf(),
            start <= old(self).state().read,
        ensures
            final(self).moved_on_from(*old(self)),
            bodies_of(old(self).source(), old(self).floats(), start as int, old(self).state(), parse_errors(old(errors)@), Seq::empty()) == match result {
                None => None,
                Some(None) => Some((None, final(self).state(), parse_errors(final(errors)@))),
                Some(Some(body)) => Some((Some(node_models(body@)), final(self).state(), parse_errors(final(errors)@))),
            },
        decreases old(self).remaining(), 0nat,
    {
        let ghost s = self.source();
        let ghost f = self.floats();
        let ghost target = bodies_of(s, f, start as int, self.state(), parse_errors(errors@), Seq::empty());
        let mut body: Vec<Node> = Vec::new();
        loop
            invariant
                self.moved_on_from(*old(self)),
                s == self.source(),
                f == self.floats(),
                start <= self.state().read,
                target == bodies_of(s, f, start as int, old(self).state(), parse_errors(old(errors)@), Seq::empty()),
                target == bodies_of(s, f, start as int, self.state(), parse_errors(errors@), node_models(body@)),
            decreases self.remaining(),
        {
            let ghost done = body@;
            match self.advance() {
                Lookahead::Token(token) => {
                    if let TokenType::RightBrace = token.kind {
                        return Some(Some(body));
                    }
                    match self.parse_pipeline(token) {
                        None => {
                            return None;
                        },
                        Some(Ok(pipeline)) => {
                            proof { lemma_node_models_push(done, pipeline); }
                            body.push(pipeline);
                        },
                        Some(Err(body_errors)) => {
                            let mut body_errors = body_errors;
                            proof { lemma_parse_errors_append(errors@, body_errors@); }
                            errors.append(&mut body_errors);
                        },
                    }
                },
                Lookahead::Failed(error) => {
                    proof { lemma_parse_errors_push(errors@, error); }
                    errors.push(error);
                },
                Lookahead::End => {
                    self.error_pusher(start, SyntaxErrorType::MissingRightBrace, errors);
                    return Some(None);
                },
                Lookahead::OutOfRange => {
                    return None;
                },
            }
        }
    }

    /// A function definition: its name, its parameters in parentheses and
    /// its body in braces. Its result kind is left undefined.
    #[verifier::rlimit(100)]
    fn parse_define_function(&mut self, start: usize, errors: &mut Vec<Error>) -> (result: Option<Option<Node>>)
        requires
            old(self).wf(),
            start <= old(self).state().read,
        ensures
            final(self).moved_on_from(*old(self)),
            defined(old(self).source(), old(self).floats(), start as int, old(self).state(), parse_errors(old(errors)@))
                == node_outcome(result, final(self).state(), final(errors)@),
        decreases old(self).remaining(), 1nat,
    {
        let operator = match self.peek() {
            Lookahead::Token(token) => match token.kind {
                TokenType::Identifier(name) => {
                    if !self.skip() {
                        return None;
                    }
                    name
                },
                _ => {
                    self.error_pusher(start, SyntaxErrorType::MissingFunctionName, errors);
                    String::new()
                },
            },
            Lookahead::Failed(error) => {
                proof { lemma_parse_errors_push(errors@, error); }
                errors.push(error);
                String::new()
            },
            Lookahead::End => {
                self.error_pusher(start, SyntaxErrorType::RedundantFunctionDefinition, errors);
                return Some(None);
            },
            Lookahead::OutOfRange => {
                return None;
            },
        };
        if !self.open_delimiter(start, Delimiter::Paren, SyntaxErrorType::RedundantFunctionDefinition, errors) {
            return None;
        }
        let parameters = match self.parse_parameters(errors) {
            None => {
                return None;
            },
            Some(None) => {
                return Some(None);
            },
            Some(Some(parameters)) => parameters,
        };
        if !self.open_delimiter(start, Delimiter::Brace, SyntaxErrorType::MissingFunctionBody, errors) {
            return None;
        }
        let body = match self.parse_body(start, errors) {
            None => {
                return None;
            },
            Some(None) => {
                return Some(None);
            },
            Some(Some(body)) => body,
        };
        Some(Some(Node::DefineFunction { operator, parameters, body, result: Kind::Undefined }))
    }

    /// The condition of a branch: at most one station in parentheses.
    fn parse_condition_expression(&mut self, start: usize, errors: &mut Vec<Error>) -> (result: Option<Vec<Node>>)
        requires
            old(self).wf(),
            start <= old(self).state().read,
        ensures
            final(self).moved_on_from(*old(self)),
            condition_expression(old(self).source(), old(self).floats(), start as int, old(self).state(), parse_errors(old(errors)@)) == match result {
                None => None,
                Some(condition) => Some((node_models(condition@), final(self).state(), parse_errors(final(errors)@))),
            },
        decreases old(self).remaining(), 0nat,
    {
        if !self.open_delimiter(start, Delimiter::Paren, SyntaxErrorType::RedundantCondition, errors) {
            return None;
        }
        let mut condition: Vec<Node> = Vec::new();
        assert(node_models(condition@) =~= Seq::<NodeModel>::empty());
        match self.peek() {
            Lookahead::Token(token) => {
                if !self.skip() {
                    return None;
                }
                if let TokenType::RightParen = token.kind {
                    return Some(condition);
                }
                match self.dispatch_node(token, errors) {
                    None => {
                        return None;
                    },
                    Some(Some(node)) => {
                        proof { lemma_node_models_push(condition@, node); }
                        condition.push(node);
                    },
                    Some(None) => {},
                }
                if !self.skip() {
                    return None;
                }
            },
            Lookahead::Failed(error) => {
                proof { lemma_parse_errors_push(errors@, error); }
                errors.push(error);
            },
            Lookahead::End => {
                self.error_pusher(start, SyntaxErrorType::MissingRightParen, errors);
            },
            Lookahead::OutOfRange => {
                return None;
            },
        }
        Some(condition)
    }

    /// The body of a branch: at most one pipeline in braces.
    fn parse_condition_body(&mut self, start: usize, errors: &mut Vec<Error>) -> (result: Option<Vec<Node>>)
        requires
            old(self).wf(),
            start <= old(self).state().read,
        ensures
            final(self).moved_on_from(*old(self)),
            condition_body(old(self).source(), old(self).floats(), start as int, old(self).state(), parse_errors(old(errors)@)) == match result {
                None => None,
                Some(body) => Some((node_models(body@), final(self).state(), parse_errors(final(errors)@))),
            },
        decreases old(self).remaining(), 0nat,
    {
        if !self.open_delimiter(start, Delimiter::Brace, SyntaxErrorType::MissingConditionBody, errors) {
            return None;
        }
        let mut body: Vec<Node> = Vec::new();
        assert(node_models(body@) =~= Seq::<NodeModel>::empty());
        match self.peek() {
            Lookahead::Token(token) => {
                if !self.skip() {
                    return None;
                }
                if let TokenType::RightBrace = token.kind {
                    return Some(body);
                }
                match self.parse_pipeline(token) {
                    None => {
                        return None;
                    },
                    Some(Ok(pipeline)) => {
                        proof { lemma_node_models_push(body@, pipeline); }
                        body.push(pipeline);
                    },
                    Some(Err(body_errors)) => {
                        let mut body_errors = body_errors;
                        proof { lemma_parse_errors_append(errors@, body_errors@); }
                        errors.append(&mut body_errors);
                    },
                }
                if !self.skip() {
                    return None;
                }
            },
            Lookahead::Failed(error) => {
                proof { lemma_parse_errors_push(errors@, error); }
                errors.push(error);
            },
            Lookahead::End => {
                self.error_pusher(start, SyntaxErrorType::MissingConditionBody, errors);
            },
            Lookahead::OutOfRange => {
                return None;
            },
        }
        Some(body)
    }

    /// A condition: its first branch, then `else if` branches, and a final
    /// branch after a plain `else`.
    #[verifier::rlimit(100)]
    fn parse_condition(&mut self, start: usize, errors: &mut Vec<Error>) -> (result: Option<Option<Node>>)
        requires
            old(self).wf(),
            start <= old(self).state().read,
        ensures
            final(self).moved_on_from(*old(self)),
            conditioned(old(self).source(), old(self).floats(), start as int, old(self).state(), parse_errors(old(errors)@))
                == node_outcome(result, final(self).state(), final(errors)@),
        decreases old(self).remaining(), 1nat,
    {
        let ghost s = self.source();
        let ghost f = self.floats();
        let condition = match self.parse_condition_expression(start, errors) {
            Some(condition) => condition,
            None => {
                return None;
            },
        };
        let body = match self.parse_condition_body(start, errors) {
            Some(body) => body,
            None => {
                return None;
            },
        };
        proof { lemma_node_models_len(condition@); }
        if condition.len() == 0 {
            self.error_pusher(start, SyntaxErrorType::MissingCondition, errors);
        }
        let ghost condition_models = node_models(condition@);
        let ghost body_models = node_models(body@);
        let mut branches: Vec<ConditionBranch<Node>> = Vec::new();
        branches.push(ConditionBranch { condition, body });
        proof {
            reveal_with_fuel(node_branch_models, 2);
            assert(branches@.drop_last() =~= Seq::<ConditionBranch<Node>>::empty());
            assert(node_branch_models(branches@) =~= seq![(condition_models, body_models)]);
        }
        let ghost target = condition_loop(s, f, start as int, self.state(), parse_errors(errors@), node_branch_models(branches@));
        loop
            invariant
                self.moved_on_from(*old(self)),
                s == self.source(),
                f == self.floats(),
                start <= self.state().read,
                target == conditioned(s, f, start as int, old(self).state(), parse_errors(old(errors)@)),
                target == condition_loop(s, f, start as int, self.state(), parse_errors(errors@), node_branch_models(branches@)),
            decreases self.remaining(),
        {
            let ghost at_loop = self.remaining();
            let ghost done = branches@;
            let found_else = match self.peek() {
                Lookahead::Token(token) => if let TokenType::Else = token.kind { true } else { false },
                Lookahead::Failed(error) => {
                    proof { lemma_parse_errors_push(errors@, error); }
                    errors.push(error);
                    true
                },
                Lookahead::End => false,
                Lookahead::OutOfRange => {
                    return None;
                },
            };
            if !found_else {
                let final_branch: Vec<Node> = Vec::new();
                proof {
                    reveal_with_fuel(node_model, 2);
                    reveal_with_fuel(node_models, 2);
                }
                assert(node_models(final_branch@) =~= Seq::<NodeModel>::empty());
                return Some(Some(Node::Condition { branches, final_branch }));
            }
            if !self.skip() {
                return None;
            }
            match self.peek() {
                Lookahead::Token(token) => {
                    if let TokenType::If = token.kind {
                    } else {
                        let final_branch = match self.parse_condition_body(start, errors) {
                            Some(final_branch) => final_branch,
                            None => {
                                return None;
                            },
                        };
                        return Some(Some(Node::Condition { branches, final_branch }));
                    }
                },
                Lookahead::Failed(error) => {
                    proof { lemma_parse_errors_push(errors@, error); }
                    errors.push(error);
                },
                Lookahead::End => {
                    self.error_pusher(start, SyntaxErrorType::RedundantCondition, errors);
                },
                Lookahead::OutOfRange => {
                    return None;
                },
            }
            if !self.skip() {
                return None;
            }
            let condition = match self.parse_condition_expression(start, errors) {
                Some(condition) => condition,
                None => {
                    return None;
                },
            };
            let body = match self.parse_condition_body(start, errors) {
                Some(body) => body,
                None => {
                    return None;
                },
            };
            proof { lemma_node_models_len(condition@); }
            if condition.len() == 0 {
                self.error_pusher(start, SyntaxErrorType::MissingCondition, errors);
            }
            let ghost condition_models = node_models(condition@);
            let ghost body_models = node_models(body@);
            branches.push(ConditionBranch { condition, body });
            proof {
                reveal_with_fuel(node_branch_models, 2);
                assert(branches@.drop_last() =~= done);
                assert(node_branch_models(branches@) == node_branch_models(done).push((condition_models, body_models)));
            }
        }
    }

    /// A pipeline whose first station `token` starts: its stations joined
    /// by arrows; the errors found in it where there are any.
    fn parse_pipeline(&mut self, token: Token) -> (result: Option<Result<Node, Vec<Error>>>)
        requires
            old(self).wf(),
            token.start <= old(self).state().read,
        ensures
            final(self).moved_on_from(*old(self)),
            piped(old(self).source(), old(self).floats(), token_view(token), old(self).state()) == match result {
                None => None,
                Some(parsed) => Some((pipeline_result(parsed), final(self).state())),
            },
        decreases old(self).remaining(), 3nat,
    {
        let ghost s = self.source();
        let ghost f = self.floats();
        let ghost viewed = token_view(token);
        let start = token.start;
        let mut stations: Vec<Node> = Vec::new();
        let mut errors: Vec<Error> = Vec::new();
        assert(parse_errors(errors@) =~= Seq::<ParseError>::empty());
        match self.dispatch_node(token, &mut errors) {
            None => {
                return None;
            },
            Some(Some(node)) => {
                proof { lemma_node_models_push(stations@, node); }
                stations.push(node);
            },
            Some(None) => {},
        }
        let ghost target = stations_of(s, f, start as int, self.state(), parse_errors(errors@), node_models(stations@));
        assert(piped(s, f, viewed, old(self).state()) == pipeline_of(target));
        let mut going = true;
        let mut stuck = false;
        while going
            invariant
                self.moved_on_from(*old(self)),
                s == self.source(),
                f == self.floats(),
                start <= self.state().read,
                going ==> !stuck && target == stations_of(s, f, start as int, self.state(), parse_errors(errors@), node_models(stations@)),
                !going && stuck ==> target is None,
                !going && !stuck ==> target == Some((node_models(stations@), self.state(), parse_errors(errors@))),
            decreases self.remaining() + if going { 1int } else { 0int },
        {
            match self.parse_station(start, &mut errors, &mut stations) {
                None => {
                    going = false;
                    stuck = true;
                },
                Some(false) => {
                    going = false;
                },
                Some(true) => {},
            }
        }
        if stuck {
            return None;
        }
        Some(finished(stations, errors))
    }

    /// One step of reading the stations of a pipeline, as `station_step`
    /// says; `Some(true)` to go on.
    #[verifier::rlimit(100)]
    fn parse_station(&mut self, start: usize, errors: &mut Vec<Error>, stations: &mut Vec<Node>) -> (step: Option<bool>)
        requires
            old(self).wf(),
            start <= old(self).state().read,
        ensures
            final(self).moved_on_from(*old(self)),
            step == Some(true) ==> final(self).remaining() < old(self).remaining(),
            station_step(old(self).source(), old(self).floats(), start as int, old(self).state(), parse_errors(old(errors)@), node_models(old(stations)@))
                == match step {
                None => None,
                Some(go_on) => Some((go_on, final(self).state(), parse_errors(final(errors)@), node_models(final(stations)@))),
            },
        decreases old(self).remaining(), 0nat,
    {
        let ghost done = stations@;
        match self.peek() {
            Lookahead::Token(token) => {
                if let TokenType::Arrow = token.kind {
                } else {
                    return Some(false);
                }
            },
            Lookahead::Failed(error) => {
                proof { lemma_parse_errors_push(errors@, error); }
                errors.push(error);
                return Some(true);
            },
            Lookahead::End => {
                return Some(false);
            },
            Lookahead::OutOfRange => {
                return None;
            },
        }
        if !self.skip() {
            return None;
        }
        let station = match self.advance() {
            Lookahead::Token(station) => station,
            Lookahead::Failed(error) => {
                proof { lemma_parse_errors_push(errors@, error); }
                errors.push(error);
                return Some(true);
            },
            Lookahead::End => {
                self.error_pusher(start, SyntaxErrorType::NoStationAfterPipeline, errors);
                return Some(false);
            },
            Lookahead::OutOfRange => {
                return None;
            },
        };
        match self.dispatch_node(station, errors) {
            None => {
                return None;
            },
            Some(None) => {
                return Some(true);
            },
            Some(Some(Node::Variable(name))) => match self.peek() {
                Lookahead::Token(following) => {
                    if let TokenType::Colon = following.kind {
                        match self.parse_assignment(name, errors) {
                            None => {
                                return None;
                            },
                            Some(None) => {
                                return Some(true);
                            },
                            Some(Some(node)) => {
                                proof { lemma_node_models_push(done, node); }
                                stations.push(node);
                            },
                        }
                    }
                },
                Lookahead::Failed(error) => {
                    proof { lemma_parse_errors_push(errors@, error); }
                    errors.push(error);
                    return Some(true);
                },
                Lookahead::End => {
                    proof { lemma_node_models_push(done, Node::SoftAssignment(name)); }
                    stations.push(Node::SoftAssignment(name));
                },
                Lookahead::OutOfRange => {
                    return None;
                },
            },
            Some(Some(node)) => {
                proof { lemma_node_models_push(done, node); }
                stations.push(node);
            },
        }
        if !self.skip() {
            return None;
        }
        Some(true)
    }

    /// Parses the next pipeline of the source.
    pub fn next(&mut self) -> (parsed: Parsed)
        requires
            old(self).wf(),
        ensures
            final(self).moved_on_from(*old(self)),
            match next_pipeline(old(self).source(), old(self).floats(), old(self).state()) {
                None => parsed is Unfinished,
                Some((None, after)) => parsed is Done && after == final(self).state(),
                Some((Some(result), after)) => parsed matches Parsed::Pipeline(found) && pipeline_result(found) == result
                    && after == final(self).state(),
            },
    {
        match self.advance() {
            Lookahead::Token(token) => match self.parse_pipeline(token) {
                Some(result) => Parsed::Pipeline(result),
                None => Parsed::Unfinished,
            },
            Lookahead::Failed(error) => {
                let errors = vec![error];
                assert(parse_errors(errors@) =~= seq![parse_error(error)]);
                Parsed::Pipeline(Err(errors))
            },
            Lookahead::End => Parsed::Done,
            Lookahead::OutOfRange => Parsed::Unfinished,
        }
    }
}

/// A type name reads as the kind it is the name of: each of boolean, float,
/// integer, string and array is read back from the name it is written with,
/// and any kind read from a name is written with that very name.
pub proof fn law_type_names_read_back(kind: Kind, name: Seq<char>)
    ensures
        kind != Kind::Nil && kind != Kind::Undefined ==> kind_named(kind_display(kind)) == Some(kind),
        kind_named(name) == Some(kind) ==> name == kind_display(kind),
{
    reveal_strlit("boolean");
    reveal_strlit("float");
    reveal_strlit("integer");
    reveal_strlit("string");
    reveal_strlit("array");
    reveal_strlit("nil");
    reveal_strlit("undefined");
    assert("boolean"@[0] == 'b' && "float"@[0] == 'f' && "integer"@[0] == 'i' && "string"@[0] == 's' && "array"@[0] == 'a');
}

} // verus!
