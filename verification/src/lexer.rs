use vstd::prelude::*;
use vstd::utf8::*;
use crate::error_handler::{Error, LexicalError, LexicalErrorType};
use crate::evaluation::digit_bytes;
use crate::token::{token_model, Token, TokenModel, TokenType};

verus! {

/// The byte of a line feed.
pub const NEWLINE: u8 = 10;

/// The text of UTF-8 bytes, if they are valid UTF-8.
#[verifier::external_body]
pub(crate) fn utf8_text(bytes: &[u8]) -> (text: Option<String>)
    ensures
        text is Some <==> valid_utf8(bytes@),
        text matches Some(t) ==> t@ == decode_utf8(bytes@),
{
    match std::str::from_utf8(bytes) {
        Ok(text) => Some(text.to_owned()),
        Err(_) => None,
    }
}

/// The text of bytes that are valid UTF-8.
pub fn text_of(bytes: &[u8]) -> (text: String)
    requires
        valid_utf8(bytes@),
    ensures
        text@ == decode_utf8(bytes@),
{
    match utf8_text(bytes) {
        Some(text) => text,
        None => {
            proof {
                assert(false);
            }
            String::new()
        },
    }
}

/// Every byte is ASCII.
pub open spec fn all_ascii(s: Seq<u8>) -> bool {
    forall|i: int| 0 <= i < s.len() ==> #[trigger] s[i] < 0x80
}

/// ASCII bytes are valid UTF-8.
pub proof fn lemma_ascii_valid(s: Seq<u8>)
    requires
        all_ascii(s),
    ensures
        valid_utf8(s),
    decreases s.len(),
{
    if s.len() > 0 {
        assert(s[0] < 0x80);
        let rest = pop_first_scalar(s);
        assert(rest =~= s.subrange(1, s.len() as int));
        assert forall|i: int| 0 <= i < rest.len() implies #[trigger] rest[i] < 0x80 by {
            assert(rest[i] == s[i + 1]);
        }
        lemma_ascii_valid(rest);
    }
}

proof fn lemma_first_scalar_prefix(s: Seq<u8>, n: int)
    requires
        valid_first_scalar(s),
        length_of_first_scalar(s) <= n <= s.len(),
    ensures
        valid_first_scalar(s.take(n)),
        length_of_first_scalar(s.take(n)) == length_of_first_scalar(s),
        decode_first_scalar(s.take(n)) == decode_first_scalar(s),
{
    let t = s.take(n);
    assert(t[0] == s[0]);
    if n > 1 {
        assert(t[1] == s[1]);
    }
    if n > 2 {
        assert(t[2] == s[2]);
    }
    if n > 3 {
        assert(t[3] == s[3]);
    }
}

/// In valid UTF-8, a position that holds an ASCII byte, or the end, splits
/// the bytes into two valid halves.
pub proof fn lemma_split_at_ascii(s: Seq<u8>, i: int)
    requires
        valid_utf8(s),
        0 <= i <= s.len(),
        i == s.len() || s[i] < 0x80,
    ensures
        valid_utf8(s.take(i)),
        valid_utf8(s.skip(i)),
    decreases s.len(),
{
    if i == 0 {
        assert(s.take(0) =~= Seq::<u8>::empty());
        assert(s.skip(0) =~= s);
    } else {
        let l = length_of_first_scalar(s);
        let rest = pop_first_scalar(s);
        if i < l {
            assert(is_continuation_byte(s[i]));
            assert(false);
        }
        assert(i - l <= rest.len());
        if i - l < rest.len() {
            assert(rest[i - l] == s[i]);
        }
        lemma_split_at_ascii(rest, i - l);
        assert(rest.skip(i - l) =~= s.skip(i));
        let t = s.take(i);
        lemma_first_scalar_prefix(s, i);
        assert(pop_first_scalar(t) =~= rest.take(i - l));
    }
}

/// The bytes strictly between two positions that are each the end or an
/// ASCII byte, after a position that starts valid UTF-8, are valid UTF-8.
pub proof fn lemma_valid_between(s: Seq<u8>, start: int, end: int)
    requires
        0 <= start <= end <= s.len(),
        valid_utf8(s.skip(start)),
        end == s.len() || s[end] < 0x80,
    ensures
        valid_utf8(s.subrange(start, end)),
{
    let rest = s.skip(start);
    if end < s.len() {
        assert(rest[end - start] == s[end]);
    }
    lemma_split_at_ascii(rest, end - start);
    assert(rest.take(end - start) =~= s.subrange(start, end));
}

/// After an ASCII byte that starts valid UTF-8, what follows is valid UTF-8.
pub proof fn lemma_skip_ascii(s: Seq<u8>, i: int)
    requires
        0 <= i < s.len(),
        valid_utf8(s.skip(i)),
        s[i] < 0x80,
    ensures
        valid_utf8(s.skip(i + 1)),
{
    let rest = s.skip(i);
    assert(rest[0] == s[i]);
    assert(pop_first_scalar(rest) =~= s.skip(i + 1));
}

/// In valid UTF-8 from `p`, what follows an ASCII byte at or after `p` is
/// valid UTF-8.
pub proof fn lemma_after_ascii(s: Seq<u8>, p: int, k: int)
    requires
        0 <= p <= k < s.len(),
        valid_utf8(s.skip(p)),
        s[k] < 0x80,
    ensures
        valid_utf8(s.skip(k + 1)),
{
    let rest = s.skip(p);
    assert(rest[k - p] == s[k]);
    lemma_split_at_ascii(rest, k - p);
    assert(rest.skip(k - p) =~= s.skip(k));
    lemma_skip_ascii(s, k);
}

pub proof fn lemma_number_end(s: Seq<u8>, i: int)
    requires
        0 <= i <= s.len(),
    ensures
        i <= number_end(s, i) <= s.len(),
    decreases s.len() - i,
{
    if i < s.len() && is_number_byte(s[i]) {
        lemma_number_end(s, i + 1);
    }
}

/// How many line feeds the bytes hold.
pub open spec fn newlines(s: Seq<u8>) -> nat
    decreases s.len(),
{
    if s.len() == 0 {
        0
    } else {
        newlines(s.drop_last()) + if s.last() == NEWLINE { 1nat } else { 0nat }
    }
}

/// Where each line of the bytes starts: at 0, and after each line feed.
pub open spec fn line_starts(s: Seq<u8>) -> Seq<usize>
    decreases s.len(),
{
    if s.len() == 0 {
        seq![0usize]
    } else if s.last() == NEWLINE {
        line_starts(s.drop_last()).push(s.len() as usize)
    } else {
        line_starts(s.drop_last())
    }
}

/// Where the line that holds position `index` starts.
pub open spec fn line_start_of(s: Seq<u8>, index: int) -> int
    decreases index,
{
    if index <= 0 {
        0
    } else if s[index - 1] == NEWLINE {
        index
    } else {
        line_start_of(s, index - 1)
    }
}

/// How many characters the bytes hold: the bytes that do not continue a
/// UTF-8 sequence.
pub open spec fn char_count(s: Seq<u8>) -> nat
    decreases s.len(),
{
    if s.len() == 0 {
        0
    } else {
        char_count(s.drop_last()) + if is_continuation_byte(s.last()) { 0nat } else { 1nat }
    }
}

/// The line and column of position `index`, both counted from one; the
/// column counts characters.
pub open spec fn line_col(s: Seq<u8>, index: int) -> (int, int) {
    (1 + newlines(s.take(index)) as int, 1 + char_count(s.subrange(line_start_of(s, index), index)) as int)
}

proof fn lemma_line_start_of_prefix(s: Seq<u8>, t: Seq<u8>, index: int)
    requires
        0 <= index <= s.len(),
        index <= t.len(),
        s.take(index) == t.take(index),
    ensures
        line_start_of(s, index) == line_start_of(t, index),
        0 <= line_start_of(s, index) <= index,
    decreases index,
{
    if index > 0 {
        assert(s[index - 1] == s.take(index)[index - 1]);
        assert(t[index - 1] == t.take(index)[index - 1]);
        assert(s.take(index - 1) =~= s.take(index).take(index - 1));
        assert(t.take(index - 1) =~= t.take(index).take(index - 1));
        lemma_line_start_of_prefix(s, t, index - 1);
    }
}

proof fn lemma_line_starts_shape(s: Seq<u8>)
    requires
        s.len() <= usize::MAX,
    ensures
        line_starts(s).len() == 1 + newlines(s),
        line_starts(s)[0] == 0,
        forall|k: int| 0 <= k < line_starts(s).len() ==> line_starts(s)[k] <= s.len(),
        forall|j: int, k: int| 0 <= j < k < line_starts(s).len() ==> line_starts(s)[j] < line_starts(s)[k],
    decreases s.len(),
{
    if s.len() > 0 {
        let p = s.drop_last();
        lemma_line_starts_shape(p);
        if s.last() == NEWLINE {
            let l = line_starts(s);
            assert(l == line_starts(p).push(s.len() as usize));
            assert forall|j: int, k: int| 0 <= j < k < l.len() implies l[j] < l[k] by {
                assert(l[j] == line_starts(p)[j]);
                if k < l.len() - 1 {
                    assert(l[k] == line_starts(p)[k]);
                }
            }
            assert forall|k: int| 0 <= k < l.len() implies l[k] <= s.len() by {
                if k < l.len() - 1 {
                    assert(l[k] == line_starts(p)[k]);
                }
            }
        }
    }
}

/// The line that holds `index` is the one whose start is the last start at
/// or before `index`.
proof fn lemma_line_of_index(s: Seq<u8>, index: int)
    requires
        0 <= index <= s.len(),
        s.len() <= usize::MAX,
    ensures
        newlines(s.take(index)) < line_starts(s).len(),
        line_starts(s)[newlines(s.take(index)) as int] == line_start_of(s, index),
        line_start_of(s, index) <= index,
        newlines(s.take(index)) + 1 < line_starts(s).len() ==> line_starts(s)[newlines(s.take(index)) as int + 1] > index,
    decreases s.len(),
{
    lemma_line_starts_shape(s);
    if s.len() == 0 {
        assert(s.take(index) =~= s);
    } else {
        let p = s.drop_last();
        lemma_line_starts_shape(p);
        if index == s.len() {
            assert(s.take(index) =~= s);
            assert(s.drop_last() =~= p.take(p.len() as int));
            lemma_line_of_index(p, p.len() as int);
            lemma_line_start_of_prefix(s, p, index - 1);
            assert(s.take(index - 1) =~= p.take(index - 1));
            assert(s[index - 1] == s.last());
        } else {
            assert(s.take(index) =~= p.take(index));
            lemma_line_of_index(p, index);
            lemma_line_start_of_prefix(s, p, index);
        }
    }
}

proof fn lemma_newlines_step(s: Seq<u8>, n: int)
    requires
        0 <= n < s.len(),
    ensures
        newlines(s.take(n + 1)) == newlines(s.take(n)) + if s[n] == NEWLINE { 1nat } else { 0nat },
        line_starts(s.take(n + 1)) == if s[n] == NEWLINE {
            line_starts(s.take(n)).push((n + 1) as usize)
        } else {
            line_starts(s.take(n))
        },
{
    assert(s.take(n + 1).drop_last() =~= s.take(n));
    assert(s.take(n + 1).last() == s[n]);
}

proof fn lemma_char_count_step(s: Seq<u8>, a: int, b: int)
    requires
        0 <= a <= b < s.len(),
    ensures
        char_count(s.subrange(a, b + 1)) == char_count(s.subrange(a, b))
            + if is_continuation_byte(s[b]) { 0nat } else { 1nat },
{
    assert(s.subrange(a, b + 1).drop_last() =~= s.subrange(a, b));
}


/// A decimal digit.
pub open spec fn is_digit(b: u8) -> bool {
    48 <= b <= 57
}

/// An ASCII letter.
pub open spec fn is_letter(b: u8) -> bool {
    (65 <= b <= 90) || (97 <= b <= 122)
}

/// A symbol that may stand anywhere in an identifier: `_ + * / > < = ? !`.
pub open spec fn is_symbol(b: u8) -> bool {
    b == 95 || b == 43 || b == 42 || b == 47 || b == 62 || b == 60 || b == 61 || b == 63 || b == 33
}

/// A byte that starts an identifier: a letter, a symbol or `-`.
pub open spec fn starts_identifier(b: u8) -> bool {
    is_letter(b) || is_symbol(b) || b == 45
}

/// A byte that separates tokens: space, tab, line feed or comma.
pub open spec fn is_blank(b: u8) -> bool {
    b == 32 || b == 9 || b == NEWLINE || b == 44
}

/// A byte of a number literal: a digit, `.` or `_`.
pub open spec fn is_number_byte(b: u8) -> bool {
    is_digit(b) || b == 46 || b == 95
}

/// Where the run of number bytes from `i` ends.
pub open spec fn number_end(s: Seq<u8>, i: int) -> int
    decreases s.len() - i,
{
    if 0 <= i < s.len() && is_number_byte(s[i]) {
        number_end(s, i + 1)
    } else {
        i
    }
}

/// Where the rest of an identifier from `i` ends: letters, symbols, digits,
/// and `-` unless an arrow `->` starts there.
pub open spec fn identifier_end(s: Seq<u8>, i: int) -> int
    decreases s.len() - i,
{
    if 0 <= i < s.len() && (is_letter(s[i]) || is_symbol(s[i]) || is_digit(s[i])
        || (s[i] == 45 && !(i + 1 < s.len() && s[i + 1] == 62))) {
        identifier_end(s, i + 1)
    } else {
        i
    }
}

/// Where the run of spaces from `i` ends.
pub open spec fn spaces_end(s: Seq<u8>, i: int) -> int
    decreases s.len() - i,
{
    if 0 <= i < s.len() && s[i] == 32 {
        spaces_end(s, i + 1)
    } else {
        i
    }
}

/// The first position from `i` that holds `quote`, or the end.
pub open spec fn quote_position(s: Seq<u8>, i: int, quote: u8) -> int
    decreases s.len() - i,
{
    if 0 <= i < s.len() && s[i] != quote {
        quote_position(s, i + 1, quote)
    } else {
        i
    }
}

/// Where a line comment whose text continues at `i` ends: after the next
/// line feed, or at the end.
pub open spec fn line_comment_end(s: Seq<u8>, i: int) -> int
    decreases s.len() - i,
{
    if 0 <= i < s.len() && s[i] != NEWLINE {
        line_comment_end(s, i + 1)
    } else if 0 <= i < s.len() {
        i + 1
    } else {
        i
    }
}

/// Where a block comment whose text continues at `i` ends: after the next
/// `##`, or at the end.
pub open spec fn block_comment_end(s: Seq<u8>, i: int) -> int
    decreases s.len() - i,
{
    if 0 <= i < s.len() && !(s[i] == 35 && i + 1 < s.len() && s[i + 1] == 35) {
        block_comment_end(s, i + 1)
    } else if 0 <= i < s.len() {
        i + 2
    } else {
        i
    }
}

/// Where a comment ends, `i` being just past its opening `#`: `##` opens a
/// block comment, any other byte a line comment whose first byte is that
/// one.
pub open spec fn comment_end(s: Seq<u8>, i: int) -> int {
    if 0 <= i < s.len() {
        if s[i] == 35 {
            block_comment_end(s, i + 1)
        } else {
            line_comment_end(s, i + 1)
        }
    } else {
        i
    }
}

pub proof fn lemma_comment_end_bounds(s: Seq<u8>, i: int)
    requires
        0 <= i <= s.len(),
    ensures
        i <= comment_end(s, i) <= s.len(),
        comment_end(s, i) == s.len() || (comment_end(s, i) > i && s[comment_end(s, i) - 1] < 0x80),
{
    if i < s.len() {
        if s[i] == 35 {
            lemma_block_comment_end(s, i + 1);
        } else {
            lemma_line_comment_end(s, i + 1);
        }
    }
}

pub proof fn lemma_block_comment_end(s: Seq<u8>, i: int)
    requires
        0 <= i <= s.len(),
    ensures
        i <= block_comment_end(s, i) <= s.len(),
        block_comment_end(s, i) == s.len() || (block_comment_end(s, i) > i && s[block_comment_end(s, i) - 1] == 35),
    decreases s.len() - i,
{
    if i < s.len() && !(s[i] == 35 && i + 1 < s.len() && s[i + 1] == 35) {
        lemma_block_comment_end(s, i + 1);
    }
}

pub proof fn lemma_line_comment_end(s: Seq<u8>, i: int)
    requires
        0 <= i <= s.len(),
    ensures
        i <= line_comment_end(s, i) <= s.len(),
        line_comment_end(s, i) == s.len() || (line_comment_end(s, i) > i && s[line_comment_end(s, i) - 1] == NEWLINE),
    decreases s.len() - i,
{
    if i < s.len() && s[i] != NEWLINE {
        lemma_line_comment_end(s, i + 1);
    }
}

/// Where the next token starts, after separators and comments from `p`.
pub open spec fn skip_trivia(s: Seq<u8>, p: int) -> int
    decreases s.len() - p,
{
    if 0 <= p < s.len() {
        if is_blank(s[p]) {
            skip_trivia(s, p + 1)
        } else if s[p] == 35 {
            proof {
                lemma_comment_end_bounds(s, p + 1);
            }
            skip_trivia(s, comment_end(s, p + 1))
        } else {
            p
        }
    } else {
        p
    }
}

/// How many times `b` occurs in `s`.
pub open spec fn count_byte(s: Seq<u8>, b: u8) -> nat
    decreases s.len(),
{
    if s.len() == 0 {
        0
    } else {
        count_byte(s.drop_last(), b) + if s.last() == b { 1nat } else { 0nat }
    }
}

/// The position of the first `b` in `s`, or its length.
pub open spec fn first_index(s: Seq<u8>, b: u8) -> int
    decreases s.len(),
{
    if s.len() == 0 {
        0
    } else if s[0] == b {
        0
    } else {
        1 + first_index(s.drop_first(), b)
    }
}

/// The number that decimal digits spell.
pub open spec fn decimal(s: Seq<u8>) -> int
    decreases s.len(),
{
    if s.len() == 0 {
        0
    } else {
        decimal(s.drop_last()) * 10 + (s.last() - 48)
    }
}

/// The kind of a lexical error, with text as characters.
pub enum LexicalErrorModel {
    InvalidCharacter(Seq<char>),
    DecimalPoints(Seq<char>),
    MissingClosingQuote(Seq<char>),
    MultipleUnderscores(Seq<char>),
    FloatRelativeReferences(Seq<char>),
}

/// The model of a lexical error kind.
pub open spec fn lexical_error_model(kind: LexicalErrorType) -> LexicalErrorModel {
    match kind {
        LexicalErrorType::InvalidCharacter(t) => LexicalErrorModel::InvalidCharacter(t@),
        LexicalErrorType::DecimalPoints(t) => LexicalErrorModel::DecimalPoints(t@),
        LexicalErrorType::MissingClosingQuote(t) => LexicalErrorModel::MissingClosingQuote(t@),
        LexicalErrorType::MultipleUnderscores(t) => LexicalErrorModel::MultipleUnderscores(t@),
        LexicalErrorType::FloatRelativeReferences(t) => LexicalErrorModel::FloatRelativeReferences(t@),
    }
}

/// What reading from a position yields: nothing more, a token with its
/// byte range, a lexical error with the position it is reported at, or a
/// number literal too large for its type.
pub enum Lexeme {
    End,
    Token(TokenModel, int, int),
    Error(LexicalErrorModel, int),
    OutOfRange,
}

/// What a number literal starting at `q` yields, and where reading stops.
pub open spec fn number_lexeme(s: Seq<u8>, q: int) -> (Lexeme, int) {
    let e = number_end(s, q + 1);
    let t = s.subrange(q, e);
    let dots = count_byte(t, 46);
    let underscores = count_byte(t, 95);
    if underscores > 0 && dots > 0 {
        (Lexeme::Error(LexicalErrorModel::FloatRelativeReferences(decode_utf8(t)), q), e)
    } else if underscores > 1 {
        (Lexeme::Error(LexicalErrorModel::MultipleUnderscores(decode_utf8(t)), q), e)
    } else if underscores == 1 {
        let k = first_index(t, 95);
        let x = decimal(t.take(k));
        let y = decimal(t.skip(k + 1));
        if x > u16::MAX || y > u16::MAX {
            (Lexeme::OutOfRange, e)
        } else {
            (Lexeme::Token(TokenModel::RelativeReference(x, y), q, e), e)
        }
    } else if dots == 0 {
        if decimal(t) > i64::MAX {
            (Lexeme::OutOfRange, e)
        } else {
            (Lexeme::Token(TokenModel::Integer(decimal(t)), q, e), e)
        }
    } else if dots == 1 {
        (Lexeme::Token(TokenModel::Float(decode_utf8(t)), q, e), e)
    } else {
        (Lexeme::Error(LexicalErrorModel::DecimalPoints(decode_utf8(t)), q), e)
    }
}

/// What one step of reading yields.
pub enum Lexed {
    /// The source is used up.
    Done,
    /// A token, or a lexical error.
    Read(Result<Token, Error>),
    /// A number literal too large for its type.
    OutOfRange,
}

/// Whether what was read is what the model says, errors being reported at
/// the line and column of their position.
pub open spec fn agrees(lexed: Lexed, lexeme: Lexeme, s: Seq<u8>) -> bool {
    match lexeme {
        Lexeme::End => lexed is Done,
        Lexeme::Token(kind, start, end) => lexed matches Lexed::Read(Ok(token))
            && token_model(token.kind) == kind && token.start == start && token.end == end,
        Lexeme::Error(kind, at) => lexed matches Lexed::Read(Err(Error::LexicalError(e)))
            && lexical_error_model(e.kind) == kind && e.line == line_col(s, at).0
            && e.column == line_col(s, at).1,
        Lexeme::OutOfRange => lexed is OutOfRange,
    }
}

/// What a step of reading is, seen as a step that cannot run out of range.
pub open spec fn as_lexed(token: Option<Result<Token, Error>>) -> Lexed {
    match token {
        None => Lexed::Done,
        Some(token) => Lexed::Read(token),
    }
}

pub proof fn lemma_count_split(t: Seq<u8>, k: int, b: u8)
    requires
        0 <= k <= t.len(),
    ensures
        count_byte(t, b) == count_byte(t.take(k), b) + count_byte(t.skip(k), b),
    decreases t.len() - k,
{
    if k < t.len() {
        lemma_count_split(t, k + 1, b);
        assert(t.take(k + 1).drop_last() =~= t.take(k));
        assert(t.skip(k).drop_first() =~= t.skip(k + 1));
        lemma_count_first(t.skip(k), b);
    } else {
        assert(t.take(k) =~= t);
        assert(t.skip(k) =~= Seq::<u8>::empty());
    }
}

pub proof fn lemma_count_first(t: Seq<u8>, b: u8)
    requires
        t.len() > 0,
    ensures
        count_byte(t, b) == count_byte(t.drop_first(), b) + if t[0] == b { 1nat } else { 0nat },
    decreases t.len(),
{
    if t.len() > 1 {
        lemma_count_first(t.drop_last(), b);
        assert(t.drop_last().drop_first() =~= t.drop_first().drop_last());
    } else {
        assert(t.drop_first() =~= Seq::<u8>::empty());
        assert(t.drop_last() =~= Seq::<u8>::empty());
    }
}

pub proof fn lemma_count_zero(t: Seq<u8>, b: u8)
    ensures
        count_byte(t, b) == 0 <==> forall|i: int| 0 <= i < t.len() ==> t[i] != b,
    decreases t.len(),
{
    if t.len() > 0 {
        lemma_count_zero(t.drop_last(), b);
        if count_byte(t, b) != 0 && count_byte(t.drop_last(), b) == 0 {
            assert(t[t.len() - 1] == b);
        }
        if count_byte(t, b) == 0 {
            assert forall|i: int| 0 <= i < t.len() implies t[i] != b by {
                if i < t.len() - 1 {
                    assert(t.drop_last()[i] == t[i]);
                }
            }
        }
    }
}

pub proof fn lemma_first_index(t: Seq<u8>, b: u8)
    ensures
        0 <= first_index(t, b) <= t.len(),
        forall|i: int| 0 <= i < first_index(t, b) ==> t[i] != b,
        first_index(t, b) < t.len() ==> t[first_index(t, b)] == b,
    decreases t.len(),
{
    if t.len() > 0 && t[0] != b {
        lemma_first_index(t.drop_first(), b);
        assert forall|i: int| 0 <= i < first_index(t, b) implies t[i] != b by {
            if i > 0 {
                assert(t.drop_first()[i - 1] == t[i]);
            }
        }
    }
}

/// Every byte is a digit.
pub open spec fn all_digits(t: Seq<u8>) -> bool {
    forall|i: int| 0 <= i < t.len() ==> #[trigger] is_digit(t[i])
}

pub proof fn lemma_decimal_step(t: Seq<u8>, i: int)
    requires
        0 <= i < t.len(),
    ensures
        decimal(t.take(i + 1)) == decimal(t.take(i)) * 10 + (t[i] - 48),
{
    assert(t.take(i + 1).drop_last() =~= t.take(i));
}

pub proof fn lemma_decimal_grows(t: Seq<u8>, i: int, j: int)
    requires
        all_digits(t),
        0 <= i <= j <= t.len(),
    ensures
        0 <= decimal(t.take(i)) <= decimal(t.take(j)),
    decreases j - i,
{
    if i < j {
        lemma_decimal_grows(t, i, j - 1);
        lemma_decimal_step(t, j - 1);
        assert(is_digit(t[j - 1]));
    } else {
        lemma_decimal_nonnegative(t.take(i));
    }
}

pub proof fn lemma_decimal_nonnegative(t: Seq<u8>)
    requires
        all_digits(t),
    ensures
        decimal(t) >= 0,
    decreases t.len(),
{
    if t.len() > 0 {
        assert(is_digit(t[t.len() - 1]));
        assert forall|i: int| 0 <= i < t.drop_last().len() implies #[trigger] is_digit(t.drop_last()[i]) by {
            assert(t.drop_last()[i] == t[i]);
        }
        lemma_decimal_nonnegative(t.drop_last());
    }
}

/// The bytes of `fun`.
pub open spec fn word_fun() -> Seq<u8> { seq![102u8, 117, 110] }
/// The bytes of `if`.
pub open spec fn word_if() -> Seq<u8> { seq![105u8, 102] }
/// The bytes of `else`.
pub open spec fn word_else() -> Seq<u8> { seq![101u8, 108, 115, 101] }
/// The bytes of `return`.
pub open spec fn word_return() -> Seq<u8> { seq![114u8, 101, 116, 117, 114, 110] }
/// The bytes of `true`.
pub open spec fn word_true() -> Seq<u8> { seq![116u8, 114, 117, 101] }
/// The bytes of `false`.
pub open spec fn word_false() -> Seq<u8> { seq![102u8, 97, 108, 115, 101] }
/// The bytes of `nil`.
pub open spec fn word_nil() -> Seq<u8> { seq![110u8, 105, 108] }

/// The names of the kinds: `boolean`, `integer`, `float`, `string`, `array`.
pub open spec fn is_kind_word(t: Seq<u8>) -> bool {
    ||| t == seq![98u8, 111, 111, 108, 101, 97, 110]
    ||| t == seq![105u8, 110, 116, 101, 103, 101, 114]
    ||| t == seq![102u8, 108, 111, 97, 116]
    ||| t == seq![115u8, 116, 114, 105, 110, 103]
    ||| t == seq![97u8, 114, 114, 97, 121]
}

/// What a word starting at `q` yields, and where reading stops: an arrow,
/// a relative reference `_` followed by digits only, a keyword, a kind name
/// (a call when `(` follows at once), or a name, which after any spaces is
/// a call when `(` follows and a macro call when it also ends in `!`.
pub open spec fn identifier_lexeme(s: Seq<u8>, q: int) -> (Lexeme, int) {
    if s[q] == 45 && q + 1 < s.len() && s[q + 1] == 62 {
        (Lexeme::Token(TokenModel::Arrow, q, q + 2), q + 2)
    } else {
        let e = identifier_end(s, q + 1);
        let t = s.subrange(q, e);
        let text = decode_utf8(t);
        if s[q] == 95 && all_digits(s.subrange(q + 1, e)) {
            (Lexeme::Token(TokenModel::RelativeReference(1, 0), q, e), e)
        } else if t == word_fun() {
            (Lexeme::Token(TokenModel::DefineFunction, q, e), e)
        } else if t == word_if() {
            (Lexeme::Token(TokenModel::If, q, e), e)
        } else if t == word_else() {
            (Lexeme::Token(TokenModel::Else, q, e), e)
        } else if t == word_return() {
            (Lexeme::Token(TokenModel::Return, q, e), e)
        } else if t == word_true() {
            (Lexeme::Token(TokenModel::Boolean(true), q, e), e)
        } else if t == word_false() {
            (Lexeme::Token(TokenModel::Boolean(false), q, e), e)
        } else if t == word_nil() {
            (Lexeme::Token(TokenModel::Nil, q, e), e)
        } else if is_kind_word(t) {
            if e < s.len() && s[e] == 40 {
                (Lexeme::Token(TokenModel::Identifier(text), q, e), e)
            } else {
                (Lexeme::Token(TokenModel::Kind(text), q, e), e)
            }
        } else {
            let f = spaces_end(s, e);
            if !(f < s.len() && s[f] == 40) {
                (Lexeme::Token(TokenModel::Variable(text), q, e), f)
            } else if t.last() == 33 {
                (Lexeme::Token(TokenModel::Macro(text), q, e), f)
            } else {
                (Lexeme::Token(TokenModel::Identifier(text), q, e), f)
            }
        }
    }
}

/// What a quoted string opened at `q` yields, and where reading stops. The
/// token's range starts one past the first byte of the text.
pub open spec fn string_lexeme(s: Seq<u8>, q: int) -> (Lexeme, int) {
    let e = quote_position(s, q + 1, s[q]);
    if e < s.len() {
        (Lexeme::Token(TokenModel::String(decode_utf8(s.subrange(q + 1, e))), q + 2, e), e + 1)
    } else {
        (Lexeme::Error(LexicalErrorModel::MissingClosingQuote(decode_utf8(s.subrange(q + 1, s.len() as int))), q + 1), s.len() as int)
    }
}

/// What reading from position `p` yields, and where reading stops.
pub open spec fn lex(s: Seq<u8>, p: int) -> (Lexeme, int) {
    let q = skip_trivia(s, p);
    if q >= s.len() {
        (Lexeme::End, q)
    } else {
        let b = s[q];
        if b == 34 || b == 39 {
            string_lexeme(s, q)
        } else if is_digit(b) {
            number_lexeme(s, q)
        } else if starts_identifier(b) {
            identifier_lexeme(s, q)
        } else if b == 40 {
            (Lexeme::Token(TokenModel::LeftParen, q, q + 1), q + 1)
        } else if b == 41 {
            (Lexeme::Token(TokenModel::RightParen, q, q + 1), q + 1)
        } else if b == 123 {
            (Lexeme::Token(TokenModel::LeftBrace, q, q + 1), q + 1)
        } else if b == 125 {
            (Lexeme::Token(TokenModel::RightBrace, q, q + 1), q + 1)
        } else if b == 91 {
            (Lexeme::Token(TokenModel::LeftBracket, q, q + 1), q + 1)
        } else if b == 93 {
            (Lexeme::Token(TokenModel::RightBracket, q, q + 1), q + 1)
        } else if b == 58 {
            (Lexeme::Token(TokenModel::Colon, q, q + 1), q + 1)
        } else {
            let w = length_of_first_scalar(s.skip(q));
            (Lexeme::Error(LexicalErrorModel::InvalidCharacter(decode_utf8(s.subrange(q, q + w))), q), q + w)
        }
    }
}

proof fn lemma_skip_trivia_bounds(s: Seq<u8>, p: int)
    requires
        0 <= p <= s.len(),
    ensures
        p <= skip_trivia(s, p) <= s.len(),
    decreases s.len() - p,
{
    if p < s.len() {
        if is_blank(s[p]) {
            lemma_skip_trivia_bounds(s, p + 1);
        } else if s[p] == 35 {
            lemma_comment_end_bounds(s, p + 1);
            lemma_skip_trivia_bounds(s, comment_end(s, p + 1));
        }
    }
}

/// Reading from a position never goes back; anything but the end moves
/// forward, and a token lies before where reading stops.
pub proof fn lemma_lex_progress(s: Seq<u8>, p: int)
    requires
        0 <= p <= s.len(),
    ensures
        p <= lex(s, p).1,
        !(lex(s, p).0 is End) ==> p < lex(s, p).1,
        lex(s, p).0 matches Lexeme::Token(_, start, end) ==> start <= lex(s, p).1 && end <= lex(s, p).1,
{
    lemma_skip_trivia_bounds(s, p);
    let q = skip_trivia(s, p);
    if q < s.len() {
        let b = s[q];
        if b == 34 || b == 39 {
            lemma_quote_position(s, q + 1, b);
        } else if is_digit(b) {
            lemma_number_end(s, q + 1);
        } else if starts_identifier(b) {
            if !(s[q] == 45 && q + 1 < s.len() && s[q + 1] == 62) {
                lemma_identifier_end(s, q + 1);
                lemma_spaces_end(s, identifier_end(s, q + 1));
            }
        }
    }
}

pub proof fn lemma_identifier_end(s: Seq<u8>, i: int)
    requires
        0 <= i <= s.len(),
    ensures
        i <= identifier_end(s, i) <= s.len(),
    decreases s.len() - i,
{
    if i < s.len() && (is_letter(s[i]) || is_symbol(s[i]) || is_digit(s[i])
        || (s[i] == 45 && !(i + 1 < s.len() && s[i + 1] == 62))) {
        lemma_identifier_end(s, i + 1);
    }
}

pub proof fn lemma_spaces_end(s: Seq<u8>, i: int)
    requires
        0 <= i <= s.len(),
    ensures
        i <= spaces_end(s, i) <= s.len(),
        forall|k: int| i <= k < spaces_end(s, i) ==> s[k] == 32,
    decreases s.len() - i,
{
    if i < s.len() && s[i] == 32 {
        lemma_spaces_end(s, i + 1);
    }
}

pub proof fn lemma_quote_position(s: Seq<u8>, i: int, quote: u8)
    requires
        0 <= i <= s.len(),
    ensures
        i <= quote_position(s, i, quote) <= s.len(),
        quote_position(s, i, quote) < s.len() ==> s[quote_position(s, i, quote)] == quote,
    decreases s.len() - i,
{
    if i < s.len() && s[i] != quote {
        lemma_quote_position(s, i + 1, quote);
    }
}

/// Reads the tokens of a source text, one at a time.
pub struct Lexer<'source_code> {
    source_code: &'source_code [u8],
    position: usize,
    lines: Vec<usize>,
}

impl<'source_code> Lexer<'source_code> {
    /// The source text.
    pub closed spec fn source(&self) -> Seq<u8> {
        self.source_code@
    }

    /// How many bytes have been read.
    pub closed spec fn position(&self) -> int {
        self.position as int
    }

    /// The starts of the lines read so far.
    pub closed spec fn lines(&self) -> Seq<usize> {
        self.lines@
    }

    /// The position lies in the source and the line starts are those of
    /// the bytes read so far.
    pub open spec fn lines_ok(&self) -> bool {
        &&& 0 <= self.position() <= self.source().len() < usize::MAX
        &&& self.lines() == line_starts(self.source().take(self.position()))
    }

    /// The lines are in order and the position lies on a character boundary
    /// of valid UTF-8.
    pub open spec fn wf(&self) -> bool {
        &&& self.lines_ok()
        &&& valid_utf8(self.source().skip(self.position()))
    }

    /// A lexer at the start of a UTF-8 source text.
    pub fn new(source_code: &'source_code [u8]) -> (lexer: Self)
        requires
            valid_utf8(source_code@),
            source_code@.len() < usize::MAX,
        ensures
            lexer.wf(),
            lexer.source() == source_code@,
            lexer.position() == 0,
    {
        let mut lines = Vec::new();
        lines.push(0);
        let lexer = Lexer { source_code, position: 0, lines };
        assert(lexer.source().skip(0) =~= lexer.source());
        assert(lexer.source().take(0) =~= Seq::<u8>::empty());
        assert(lexer.lines() =~= seq![0usize]);
        lexer
    }

    /// A lexical error reported at the line and column of `start`.
    fn error_collector(&self, start: usize, kind: LexicalErrorType) -> (error: Error)
        requires
            self.lines_ok(),
            start <= self.position(),
        ensures
            error matches Error::LexicalError(e) && e.kind == kind
                && e.line == line_col(self.source(), start as int).0
                && e.column == line_col(self.source(), start as int).1,
    {
        let (line, column) = self.find_line_col(start);
        Error::LexicalError(LexicalError { line, column, kind })
    }

    /// Reads a comment whose opening `#` has just been read.
    fn skip_comment(&mut self)
        requires
            old(self).lines_ok(),
        ensures
            final(self).lines_ok(),
            final(self).source() == old(self).source(),
            final(self).position() == comment_end(old(self).source(), old(self).position()),
    {
        let ghost s = self.source();
        let ghost p = self.position();
        let first = self.advance();
        if first == Some(35u8) {
            let ghost target = block_comment_end(s, p + 1);
            loop
                invariant_except_break
                    block_comment_end(s, self.position()) == target,
                invariant
                    self.lines_ok(),
                    self.source() == s,
                    p + 1 <= self.position(),
                ensures
                    self.lines_ok(),
                    self.source() == s,
                    self.position() == target,
                decreases s.len() - self.position(),
            {
                match self.advance() {
                    None => break,
                    Some(byte) => {
                        if byte == 35 && self.peek(0) == Some(35u8) {
                            let _ = self.advance();
                            break;
                        }
                    },
                }
            }
        } else if first.is_some() {
            let ghost target = line_comment_end(s, p + 1);
            loop
                invariant_except_break
                    line_comment_end(s, self.position()) == target,
                invariant
                    self.lines_ok(),
                    self.source() == s,
                    p + 1 <= self.position(),
                ensures
                    self.lines_ok(),
                    self.source() == s,
                    self.position() == target,
                decreases s.len() - self.position(),
            {
                match self.advance() {
                    None => break,
                    Some(byte) => {
                        if byte == NEWLINE {
                            break;
                        }
                    },
                }
            }
        }
    }

    /// The number that the digits at `from..to` spell, if it is at most
    /// `limit`.
    fn decimal_value(&self, from: usize, to: usize, limit: u64) -> (value: Option<u64>)
        requires
            from <= to <= self.source().len(),
            all_digits(self.source().subrange(from as int, to as int)),
            limit <= i64::MAX,
        ensures
            value is Some <==> decimal(self.source().subrange(from as int, to as int)) <= limit,
            value matches Some(v) ==> v == decimal(self.source().subrange(from as int, to as int)),
    {
        let ghost t = self.source().subrange(from as int, to as int);
        let mut value: u64 = 0;
        let mut i: usize = from;
        assert(t.take(0) =~= Seq::<u8>::empty());
        while i < to
            invariant
                from <= i <= to <= self.source().len(),
                t == self.source().subrange(from as int, to as int),
                all_digits(t),
                limit <= i64::MAX,
                value == decimal(t.take(i - from)),
                value <= limit,
            decreases to - i,
        {
            proof {
                assert(t[i - from] == self.source()[i as int]);
                assert(is_digit(t[i - from]));
                lemma_decimal_step(t, i - from);
            }
            let digit = self.source_code[i] - 48;
            let next: u128 = (value as u128) * 10 + (digit as u128);
            if next > limit as u128 {
                proof {
                    lemma_decimal_grows(t, i - from + 1, t.len() as int);
                    assert(t.take(t.len() as int) =~= t);
                }
                return None;
            }
            value = next as u64;
            i += 1;
        }
        assert(t.take(to - from) =~= t);
        Some(value)
    }

    /// Reads a number literal whose first digit, at `start`, has just been
    /// read.
    fn number_collector(&mut self, start: usize) -> (lexed: Lexed)
        requires
            old(self).lines_ok(),
            old(self).position() == start + 1,
            start < old(self).source().len(),
            is_digit(old(self).source()[start as int]),
            valid_utf8(old(self).source().skip(start as int)),
        ensures
            final(self).lines_ok(),
            final(self).source() == old(self).source(),
            final(self).position() == number_lexeme(old(self).source(), start as int).1,
            valid_utf8(final(self).source().skip(final(self).position())),
            agrees(lexed, number_lexeme(old(self).source(), start as int).0, old(self).source()),
    {
        let ghost s = self.source();
        let ghost e = number_end(s, start + 1);
        let mut dots: usize = 0;
        let mut underscores: usize = 0;
        let mut underscore_at: usize = 0;
        proof {
            let one = s.subrange(start as int, start + 1);
            assert(one.drop_last() =~= Seq::<u8>::empty());
            assert(one.last() == s[start as int]);
            assert(count_byte(Seq::<u8>::empty(), 46) == 0);
            assert(count_byte(Seq::<u8>::empty(), 95) == 0);
            assert(count_byte(one, 46) == 0);
            assert(count_byte(one, 95) == 0);
            lemma_number_end(s, start + 1);
        }
        loop
            invariant
                self.lines_ok(),
                self.source() == s,
                start + 1 <= self.position() <= e,
                number_end(s, self.position()) == e,
                forall|k: int| start <= k < self.position() ==> #[trigger] is_number_byte(s[k]),
                is_digit(s[start as int]),
                dots == count_byte(s.subrange(start as int, self.position()), 46),
                underscores == count_byte(s.subrange(start as int, self.position()), 95),
                underscores > 0 ==> start < underscore_at < self.position() && s[underscore_at as int] == 95
                    && count_byte(s.subrange(start as int, underscore_at as int), 95) == 0,
                dots <= self.position() - start,
                underscores <= self.position() - start,
            ensures
                self.lines_ok(),
                self.source() == s,
                self.position() == e,
                forall|k: int| start <= k < e ==> #[trigger] is_number_byte(s[k]),
                dots == count_byte(s.subrange(start as int, e), 46),
                underscores == count_byte(s.subrange(start as int, e), 95),
                underscores > 0 ==> start < underscore_at < e && s[underscore_at as int] == 95
                    && count_byte(s.subrange(start as int, underscore_at as int), 95) == 0,
            decreases s.len() - self.position(),
        {
            let at = self.position;
            match self.peek(0) {
                Some(byte) => {
                    if byte == 46 {
                        dots += 1;
                    } else if byte == 95 {
                        if underscores == 0 {
                            underscore_at = at;
                        }
                        underscores += 1;
                    } else if !(48 <= byte && byte <= 57) {
                        break;
                    }
                    proof {
                        assert(s.subrange(start as int, at + 1).drop_last() =~= s.subrange(start as int, at as int));
                        lemma_number_end(s, at + 1);
                    }
                    let _ = self.advance();
                },
                None => break,
            }
        }
        let end = self.position;
        let ghost t = s.subrange(start as int, end as int);
        let bytes = vstd::slice::slice_subrange(self.source_code, start, end);
        proof {
            assert forall|i: int| 0 <= i < t.len() implies #[trigger] t[i] < 0x80 by {
                assert(t[i] == s[start + i]);
                assert(is_number_byte(s[start + i]));
            }
            lemma_ascii_valid(t);
            if end > start {
                assert(s[end - 1] == t[t.len() - 1]);
                lemma_after_ascii(s, start as int, end - 1);
            }
        }
        if underscores > 0 && dots > 0 {
            let text = text_of(bytes);
            return Lexed::Read(Err(self.error_collector(start, LexicalErrorType::FloatRelativeReferences(text))));
        }
        if underscores != 0 {
            if underscores > 1 {
                let text = text_of(bytes);
                return Lexed::Read(Err(self.error_collector(start, LexicalErrorType::MultipleUnderscores(text))));
            }
            let ghost k = underscore_at - start;
            proof {
                let before = s.subrange(start as int, underscore_at as int);
                assert(before =~= t.take(k));
                lemma_count_zero(before, 95);
                lemma_count_zero(t, 46);
                lemma_first_index(t, 95);
                if first_index(t, 95) < k {
                    assert(t[first_index(t, 95)] == before[first_index(t, 95)]);
                }
                if first_index(t, 95) > k {
                    assert(t[k] == s[underscore_at as int]);
                }
                assert(first_index(t, 95) == k);
                lemma_count_split(t, k + 1, 95);
                assert(t.take(k + 1) =~= before.push(95u8));
                assert(before.push(95u8).drop_last() =~= before);
                lemma_count_zero(t.skip(k + 1), 95);
                assert forall|i: int| 0 <= i < before.len() implies #[trigger] is_digit(before[i]) by {
                    assert(before[i] == t[i]);
                    assert(is_number_byte(s[start + i]));
                }
                assert forall|i: int| 0 <= i < t.skip(k + 1).len() implies #[trigger] is_digit(t.skip(k + 1)[i]) by {
                    assert(t.skip(k + 1)[i] == t[k + 1 + i]);
                    assert(is_number_byte(s[start + k + 1 + i]));
                }
                assert(t.skip(k + 1) =~= s.subrange(underscore_at + 1, end as int));
            }
            let x = self.decimal_value(start, underscore_at, 65535);
            let y = self.decimal_value(underscore_at + 1, end, 65535);
            match (x, y) {
                (Some(x), Some(y)) => {
                    return Lexed::Read(Ok(Token::new(start, end, TokenType::RelativeReference(x as u16, y as u16))));
                },
                _ => {
                    return Lexed::OutOfRange;
                },
            }
        }
        proof {
            lemma_count_zero(t, 95);
        }
        if dots == 0 {
            proof {
                lemma_count_zero(t, 46);
                assert forall|i: int| 0 <= i < t.len() implies #[trigger] is_digit(t[i]) by {
                    assert(t[i] == s[start + i]);
                    assert(is_number_byte(s[start + i]));
                }
            }
            match self.decimal_value(start, end, 9223372036854775807) {
                Some(value) => Lexed::Read(Ok(Token::new(start, end, TokenType::Integer(value as i64)))),
                None => Lexed::OutOfRange,
            }
        } else if dots == 1 {
            let text = text_of(bytes);
            Lexed::Read(Ok(Token::new(start, end, TokenType::Float(text))))
        } else {
            let text = text_of(bytes);
            Lexed::Read(Err(self.error_collector(start, LexicalErrorType::DecimalPoints(text))))
        }
    }

    /// Whether the bytes at `start..end` are `word`.
    fn word_is(&self, start: usize, end: usize, word: &[u8]) -> (equal: bool)
        requires
            start <= end <= self.source().len(),
        ensures
            equal == (self.source().subrange(start as int, end as int) == word@),
    {
        let ghost t = self.source().subrange(start as int, end as int);
        if end - start != word.len() {
            return false;
        }
        let mut i: usize = 0;
        while i < word.len()
            invariant
                t == self.source().subrange(start as int, end as int),
                end - start == word@.len(),
                start <= end <= self.source().len(),
                i <= word@.len(),
                forall|k: int| 0 <= k < i ==> t[k] == word@[k],
            decreases word@.len() - i,
        {
            if self.source_code[start + i] != word[i] {
                assert(t[i as int] != word@[i as int]);
                return false;
            }
            i += 1;
        }
        assert(t =~= word@);
        true
    }

    /// Reads a word whose first byte, `character` at `start`, has just been
    /// read.
    fn identifier_collector(&mut self, start: usize, character: u8) -> (token: Result<Token, Error>)
        requires
            old(self).lines_ok(),
            old(self).position() == start + 1,
            start < old(self).source().len(),
            old(self).source()[start as int] == character,
            starts_identifier(character),
            valid_utf8(old(self).source().skip(start as int)),
        ensures
            final(self).lines_ok(),
            final(self).source() == old(self).source(),
            final(self).position() == identifier_lexeme(old(self).source(), start as int).1,
            valid_utf8(final(self).source().skip(final(self).position())),
            agrees(Lexed::Read(token), identifier_lexeme(old(self).source(), start as int).0, old(self).source()),
    {
        let ghost s = self.source();
        if character == 45 && self.peek(0) == Some(62u8) {
            let _ = self.advance();
            proof {
                lemma_after_ascii(s, start as int, start + 1);
            }
            return Ok(Token::new(start, start + 2, TokenType::Arrow));
        }
        let ghost e = identifier_end(s, start + 1);
        proof {
            lemma_identifier_end(s, start + 1);
        }
        let mut is_relative_reference = character == 95;
        loop
            invariant
                self.lines_ok(),
                self.source() == s,
                start + 1 <= self.position() <= e,
                identifier_end(s, self.position()) == e,
                forall|k: int| start <= k < self.position() ==> #[trigger] s[k] < 0x80,
                is_relative_reference == (character == 95 && all_digits(s.subrange(start + 1, self.position()))),
            ensures
                self.lines_ok(),
                self.source() == s,
                self.position() == e,
                forall|k: int| start <= k < e ==> #[trigger] s[k] < 0x80,
                is_relative_reference == (character == 95 && all_digits(s.subrange(start + 1, e))),
            decreases s.len() - self.position(),
        {
            let at = self.position;
            let ghost before = s.subrange(start + 1, at as int);
            match self.peek(0) {
                Some(byte) => {
                    let letter_or_symbol = (65 <= byte && byte <= 90) || (97 <= byte && byte <= 122)
                        || byte == 95 || byte == 43 || byte == 42 || byte == 47 || byte == 62
                        || byte == 60 || byte == 61 || byte == 63 || byte == 33;
                    let digit = 48 <= byte && byte <= 57;
                    if letter_or_symbol {
                        is_relative_reference = false;
                    } else if byte == 45 {
                        if self.peek(1) == Some(62u8) {
                            break;
                        }
                        is_relative_reference = false;
                    } else if !digit {
                        break;
                    }
                    proof {
                        let after = s.subrange(start + 1, at + 1);
                        assert(after.drop_last() =~= before);
                        assert(after.last() == byte);
                        lemma_identifier_end(s, at + 1);
                        if digit {
                            if all_digits(before) {
                                assert forall|k: int| 0 <= k < after.len() implies #[trigger] is_digit(after[k]) by {
                                    if k < before.len() {
                                        assert(after[k] == before[k]);
                                    }
                                }
                            } else {
                                let j = choose|j: int| 0 <= j < before.len() && !is_digit(#[trigger] before[j]);
                                assert(after[j] == before[j]);
                            }
                        } else {
                            assert(!is_digit(after[after.len() - 1]));
                        }
                    }
                    let _ = self.advance();
                },
                None => break,
            }
        }
        let end = self.position;
        let ghost t = s.subrange(start as int, end as int);
        proof {
            assert forall|i: int| 0 <= i < t.len() implies #[trigger] t[i] < 0x80 by {
                assert(t[i] == s[start + i]);
            }
            lemma_ascii_valid(t);
            lemma_after_ascii(s, start as int, end - 1);
        }
        if is_relative_reference {
            return Ok(Token::new(start, end, TokenType::RelativeReference(1, 0)));
        }
        let bytes = vstd::slice::slice_subrange(self.source_code, start, end);
        let fun = [102u8, 117, 110];
        if self.word_is(start, end, fun.as_slice()) {
            return Ok(Token::new(start, end, TokenType::DefineFunction));
        }
        let if_word = [105u8, 102];
        if self.word_is(start, end, if_word.as_slice()) {
            return Ok(Token::new(start, end, TokenType::If));
        }
        let else_word = [101u8, 108, 115, 101];
        if self.word_is(start, end, else_word.as_slice()) {
            return Ok(Token::new(start, end, TokenType::Else));
        }
        let return_word = [114u8, 101, 116, 117, 114, 110];
        if self.word_is(start, end, return_word.as_slice()) {
            return Ok(Token::new(start, end, TokenType::Return));
        }
        let true_word = [116u8, 114, 117, 101];
        if self.word_is(start, end, true_word.as_slice()) {
            return Ok(Token::new(start, end, TokenType::Boolean(true)));
        }
        let false_word = [102u8, 97, 108, 115, 101];
        if self.word_is(start, end, false_word.as_slice()) {
            return Ok(Token::new(start, end, TokenType::Boolean(false)));
        }
        let nil_word = [110u8, 105, 108];
        if self.word_is(start, end, nil_word.as_slice()) {
            return Ok(Token::new(start, end, TokenType::Nil));
        }
        let boolean_word = [98u8, 111, 111, 108, 101, 97, 110];
        let integer_word = [105u8, 110, 116, 101, 103, 101, 114];
        let float_word = [102u8, 108, 111, 97, 116];
        let string_word = [115u8, 116, 114, 105, 110, 103];
        let array_word = [97u8, 114, 114, 97, 121];
        if self.word_is(start, end, boolean_word.as_slice()) || self.word_is(start, end, integer_word.as_slice())
            || self.word_is(start, end, float_word.as_slice()) || self.word_is(start, end, string_word.as_slice())
            || self.word_is(start, end, array_word.as_slice()) {
            let text = text_of(bytes);
            return if self.peek(0) != Some(40u8) {
                Ok(Token::new(start, end, TokenType::Kind(text)))
            } else {
                Ok(Token::new(start, end, TokenType::Identifier(text)))
            };
        }
        let ghost f = spaces_end(s, end as int);
        proof {
            lemma_spaces_end(s, end as int);
        }
        loop
            invariant
                self.lines_ok(),
                self.source() == s,
                end <= self.position() <= f,
                spaces_end(s, self.position()) == f,
                valid_utf8(s.skip(self.position())),
            ensures
                self.lines_ok(),
                self.source() == s,
                self.position() == f,
                valid_utf8(s.skip(self.position())),
            decreases s.len() - self.position(),
        {
            if self.peek(0) == Some(32u8) {
                proof {
                    lemma_spaces_end(s, self.position() + 1);
                    lemma_skip_ascii(s, self.position());
                }
                let _ = self.advance();
            } else {
                break;
            }
        }
        let text = text_of(bytes);
        if self.peek(0) != Some(40u8) {
            return Ok(Token::new(start, end, TokenType::Variable(text)));
        }
        if self.source_code[end - 1] == 33 {
            proof {
                assert(t.last() == s[end - 1]);
            }
            return Ok(Token::new(start, end, TokenType::Macro(text)));
        }
        proof {
            assert(t.last() == s[end - 1]);
        }
        Ok(Token::new(start, end, TokenType::Identifier(text)))
    }

    /// Reads a string whose opening quote, `quotation_mark` at
    /// `quotation_index`, has just been read.
    fn string_collector(&mut self, quotation_index: usize, quotation_mark: u8) -> (token: Result<Token, Error>)
        requires
            old(self).lines_ok(),
            old(self).position() == quotation_index + 1,
            quotation_index < old(self).source().len(),
            old(self).source()[quotation_index as int] == quotation_mark,
            quotation_mark == 34 || quotation_mark == 39,
            valid_utf8(old(self).source().skip(quotation_index as int)),
        ensures
            final(self).lines_ok(),
            final(self).source() == old(self).source(),
            final(self).position() == string_lexeme(old(self).source(), quotation_index as int).1,
            valid_utf8(final(self).source().skip(final(self).position())),
            agrees(Lexed::Read(token), string_lexeme(old(self).source(), quotation_index as int).0, old(self).source()),
    {
        let ghost s = self.source();
        let start = quotation_index + 1;
        let ghost e = quote_position(s, start as int, quotation_mark);
        proof {
            lemma_quote_position(s, start as int, quotation_mark);
            lemma_skip_ascii(s, quotation_index as int);
        }
        loop
            invariant
                self.lines_ok(),
                self.source() == s,
                start <= self.position() <= e,
                quote_position(s, self.position(), quotation_mark) == e,
            ensures
                self.lines_ok(),
                self.source() == s,
                self.position() == e,
            decreases s.len() - self.position(),
        {
            if self.peek(0) == Some(quotation_mark) {
                break;
            }
            proof {
                if self.position() < s.len() {
                    lemma_quote_position(s, self.position() + 1, quotation_mark);
                }
            }
            if self.advance().is_none() {
                break;
            }
        }
        let end = self.position;
        proof {
            lemma_valid_between(s, start as int, end as int);
        }
        let bytes = vstd::slice::slice_subrange(self.source_code, start, end);
        let text = text_of(bytes);
        if end == self.source_code.len() {
            proof {
                assert(s.skip(end as int) =~= Seq::<u8>::empty());
            }
            return Err(self.error_collector(start, LexicalErrorType::MissingClosingQuote(text)));
        }
        let _ = self.advance();
        proof {
            lemma_after_ascii(s, start as int, end as int);
        }
        Ok(Token::new(start + 1, end, TokenType::String(text)))
    }

    /// Reads the next token, skipping separators and comments.
    pub fn scan(&mut self) -> (lexed: Lexed)
        requires
            old(self).wf(),
        ensures
            final(self).wf(),
            final(self).source() == old(self).source(),
            final(self).position() == lex(old(self).source(), old(self).position()).1,
            agrees(lexed, lex(old(self).source(), old(self).position()).0, old(self).source()),
    {
        let ghost s = self.source();
        let ghost q = skip_trivia(s, self.position());
        loop
            invariant
                self.wf(),
                self.source() == s,
                s == old(self).source(),
                q == skip_trivia(s, old(self).position()),
                skip_trivia(s, self.position()) == q,
            decreases s.len() - self.position(),
        {
            let start = self.position;
            let byte = match self.advance() {
                Some(byte) => byte,
                None => {
                    return Lexed::Done;
                },
            };
            if byte == 34 || byte == 39 {
                return Lexed::Read(self.string_collector(start, byte));
            } else if 48 <= byte && byte <= 57 {
                return self.number_collector(start);
            } else if byte == 32 || byte == 9 || byte == NEWLINE || byte == 44 {
                proof {
                    lemma_skip_ascii(s, start as int);
                }
                continue;
            } else if (65 <= byte && byte <= 90) || (97 <= byte && byte <= 122) || byte == 95 || byte == 43
                || byte == 45 || byte == 42 || byte == 47 || byte == 62 || byte == 60 || byte == 61
                || byte == 63 || byte == 33 {
                return Lexed::Read(self.identifier_collector(start, byte));
            } else if byte == 40 || byte == 41 || byte == 123 || byte == 125 || byte == 91 || byte == 93 || byte == 58 {
                proof {
                    lemma_skip_ascii(s, start as int);
                }
                let kind = if byte == 40 {
                    TokenType::LeftParen
                } else if byte == 41 {
                    TokenType::RightParen
                } else if byte == 123 {
                    TokenType::LeftBrace
                } else if byte == 125 {
                    TokenType::RightBrace
                } else if byte == 91 {
                    TokenType::LeftBracket
                } else if byte == 93 {
                    TokenType::RightBracket
                } else {
                    TokenType::Colon
                };
                return Lexed::Read(Ok(Token::new(start, start + 1, kind)));
            } else if byte == 35 {
                proof {
                    lemma_comment_end_bounds(s, start + 1);
                }
                self.skip_comment();
                proof {
                    let c = self.position();
                    if c < s.len() {
                        lemma_after_ascii(s, start as int, c - 1);
                    } else {
                        assert(s.skip(c) =~= Seq::<u8>::empty());
                    }
                }
                continue;
            } else {
                return self.invalid_character(start, byte);
            }
        }
    }

    /// Reads the rest of a character that no token starts with, its first
    /// byte `byte` at `start` having just been read.
    fn invalid_character(&mut self, start: usize, byte: u8) -> (lexed: Lexed)
        requires
            old(self).lines_ok(),
            old(self).position() == start + 1,
            start < old(self).source().len(),
            old(self).source()[start as int] == byte,
            valid_utf8(old(self).source().skip(start as int)),
        ensures
            final(self).wf(),
            final(self).source() == old(self).source(),
            final(self).position() == start + length_of_first_scalar(old(self).source().skip(start as int)),
            agrees(lexed, Lexeme::Error(LexicalErrorModel::InvalidCharacter(decode_utf8(old(self).source().subrange(
                start as int,
                start + length_of_first_scalar(old(self).source().skip(start as int)),
            ))), start as int), old(self).source()),
    {
        let ghost s = self.source();
        let ghost rest = s.skip(start as int);
        assert(rest[0] == byte);
        assert(valid_first_scalar(rest));
        let bytes_needed: usize = if byte & 0x80 == 0 {
            1
        } else if byte & 0xE0 == 0xC0 {
            2
        } else if byte & 0xF0 == 0xE0 {
            3
        } else {
            4
        };
        proof {
            assert((byte & 0x80 == 0) == (byte <= 0x7f)) by (bit_vector);
            assert((byte & 0xE0 == 0xC0) == (0xc0 <= byte <= 0xdf)) by (bit_vector);
            assert((byte & 0xF0 == 0xE0) == (0xe0 <= byte <= 0xef)) by (bit_vector);
            assert(bytes_needed == length_of_first_scalar(rest));
        }
        let mut read: usize = 1;
        while read < bytes_needed
            invariant
                self.lines_ok(),
                self.source() == s,
                1 <= read <= bytes_needed,
                start + bytes_needed <= s.len(),
                self.position() == start + read,
            decreases bytes_needed - read,
        {
            let _ = self.advance();
            read += 1;
        }
        let end = start + bytes_needed;
        let bytes = vstd::slice::slice_subrange(self.source_code, start, end);
        proof {
            lemma_first_scalar_prefix(rest, bytes_needed as int);
            let t = rest.take(bytes_needed as int);
            assert(t =~= s.subrange(start as int, end as int));
            assert(pop_first_scalar(t) =~= Seq::<u8>::empty());
            assert(valid_utf8(Seq::<u8>::empty()));
            assert(valid_utf8(pop_first_scalar(t)));
            assert(valid_utf8(t));
            assert(pop_first_scalar(rest) =~= s.skip(end as int));
        }
        let text = text_of(bytes);
        Lexed::Read(Err(self.error_collector(start, LexicalErrorType::InvalidCharacter(text))))
    }

    /// The next token, or `None` once the source is used up.
    pub fn next(&mut self) -> (token: Option<Result<Token, Error>>)
        requires
            old(self).wf(),
            !(lex(old(self).source(), old(self).position()).0 is OutOfRange),
        ensures
            final(self).wf(),
            final(self).source() == old(self).source(),
            final(self).position() == lex(old(self).source(), old(self).position()).1,
            agrees(as_lexed(token), lex(old(self).source(), old(self).position()).0, old(self).source()),
    {
        match self.scan() {
            Lexed::Done => None,
            Lexed::Read(token) => Some(token),
            Lexed::OutOfRange => {
                proof {
                    assert(false);
                }
                None
            },
        }
    }

    /// The byte `steps` places past the position, if there is one.
    fn peek(&self, steps: usize) -> (byte: Option<u8>)
        requires
            self.position() + steps <= usize::MAX,
        ensures
            byte == (if self.position() + steps < self.source().len() {
                Some(self.source()[self.position() + steps])
            } else {
                None::<u8>
            }),
    {
        let at = self.position + steps;
        if at < self.source_code.len() {
            Some(self.source_code[at])
        } else {
            None
        }
    }

    /// Reads the byte right at the position, if there is one.
    fn advance(&mut self) -> (byte: Option<u8>)
        requires
            old(self).lines_ok(),
        ensures
            final(self).lines_ok(),
            final(self).source() == old(self).source(),
            old(self).position() < old(self).source().len() ==> {
                &&& byte == Some(old(self).source()[old(self).position()])
                &&& final(self).position() == old(self).position() + 1
            },
            old(self).position() == old(self).source().len() ==> {
                &&& byte is None
                &&& final(self).position() == old(self).position()
            },
    {
        if self.position < self.source_code.len() {
            let byte = self.source_code[self.position];
            proof {
                lemma_newlines_step(self.source(), self.position());
            }
            if byte == NEWLINE {
                self.lines.push(self.position + 1);
            }
            self.position = self.position + 1;
            Some(byte)
        } else {
            None
        }
    }

    /// The line and column of byte position `index`, both counted from one.
    /// Lines are those read so far: for a position already read they are
    /// exact.
    pub fn find_line_col(&self, index: usize) -> (position: (usize, usize))
        requires
            self.lines_ok(),
            index <= self.source().len(),
        ensures
            1 <= position.0 <= self.lines().len(),
            self.lines()[position.0 - 1] <= index,
            position.0 < self.lines().len() ==> self.lines()[position.0 as int] > index,
            position.1 == 1 + char_count(self.source().subrange(self.lines()[position.0 - 1] as int, index as int)),
            index <= self.position() ==> position.0 == line_col(self.source(), index as int).0
                && position.1 == line_col(self.source(), index as int).1,
    {
        let ghost s = self.source();
        let ghost read = s.take(self.position());
        proof {
            lemma_line_starts_shape(read);
        }
        let mut low: usize = 0;
        let mut high: usize = self.lines.len();
        while high - low > 1
            invariant
                0 <= low < high <= self.lines@.len(),
                self.lines@ == line_starts(read),
                self.lines@[low as int] <= index,
                high < self.lines@.len() ==> self.lines@[high as int] > index,
                forall|j: int, k: int| 0 <= j < k < self.lines@.len() ==> self.lines@[j] < self.lines@[k],
            decreases high - low,
        {
            let middle = low + (high - low) / 2;
            if self.lines[middle] <= index {
                low = middle;
            } else {
                high = middle;
            }
        }
        let line_start = self.lines[low];
        let mut column: usize = 0;
        let mut i: usize = line_start;
        assert(line_start <= index);
        assert(s.subrange(line_start as int, line_start as int) =~= Seq::<u8>::empty());
        while i < index
            invariant
                line_start <= i <= index <= s.len(),
                s == self.source(),
                column == char_count(s.subrange(line_start as int, i as int)),
                column <= i - line_start,
            decreases index - i,
        {
            let byte = self.source_code[i];
            proof {
                lemma_char_count_step(s, line_start as int, i as int);
            }
            let continues = byte & 0xC0 == 0x80;
            assert(continues == is_continuation_byte(byte)) by (bit_vector)
                requires continues == (byte & 0xC0 == 0x80);
            if !continues {
                column += 1;
            }
            i += 1;
        }
        proof {
            if index <= self.position() {
                lemma_line_of_index(read, index as int);
                let c = newlines(read.take(index as int));
                assert(read.take(index as int) =~= s.take(index as int));
                if low < c {
                    assert(self.lines@[low + 1] <= self.lines@[c as int]);
                } else if low > c {
                    assert(self.lines@[c as int + 1] <= self.lines@[low as int]);
                }
                assert(low == c);
                lemma_line_start_of_prefix(read, s, index as int);
            }
        }
        (low + 1, column + 1)
    }
}

proof fn lemma_line_comment_reaches(s: Seq<u8>, m: int, j: int)
    requires
        0 <= m <= j < s.len(),
        s[j] == NEWLINE,
        forall|k: int| m <= k < j ==> s[k] != NEWLINE,
    ensures
        line_comment_end(s, m) == j + 1,
    decreases j - m,
{
    if m < j {
        lemma_line_comment_reaches(s, m + 1, j);
    }
}

proof fn lemma_line_comment_runs_out(s: Seq<u8>, m: int)
    requires
        0 <= m <= s.len(),
        forall|k: int| m <= k < s.len() ==> s[k] != NEWLINE,
    ensures
        line_comment_end(s, m) == s.len(),
    decreases s.len() - m,
{
    if m < s.len() {
        lemma_line_comment_runs_out(s, m + 1);
    }
}

proof fn lemma_block_comment_reaches(s: Seq<u8>, m: int, j: int)
    requires
        0 <= m <= j,
        j + 1 < s.len(),
        s[j] == 35 && s[j + 1] == 35,
        forall|k: int| m <= k < j ==> !(s[k] == 35 && #[trigger] s[k + 1] == 35),
    ensures
        block_comment_end(s, m) == j + 2,
    decreases j - m,
{
    if m < j {
        assert(!(s[m] == 35 && s[m + 1] == 35));
        lemma_block_comment_reaches(s, m + 1, j);
    }
}

proof fn lemma_block_comment_runs_out(s: Seq<u8>, m: int)
    requires
        0 <= m <= s.len(),
        forall|k: int| m <= k && k + 1 < s.len() ==> !(s[k] == 35 && #[trigger] s[k + 1] == 35),
    ensures
        block_comment_end(s, m) == s.len(),
    decreases s.len() - m,
{
    if m < s.len() {
        if m + 1 < s.len() {
            assert(!(s[m] == 35 && s[m + 1] == 35));
        }
        lemma_block_comment_runs_out(s, m + 1);
    }
}

/// A line comment (its opening `#` followed by a byte at `i` that is not
/// another `#`) ends just past the first line feed after that byte, so what
/// follows the line is read again; with no line feed after it, it runs to
/// the end of the source.
pub proof fn law_line_comment_ends_at_line_feed(s: Seq<u8>, i: int, j: int)
    requires
        0 <= i < s.len(),
        s[i] != 35,
    ensures
        i < j < s.len() && s[j] == NEWLINE && (forall|k: int| i < k < j ==> s[k] != NEWLINE)
            ==> comment_end(s, i) == j + 1,
        (forall|k: int| i < k < s.len() ==> s[k] != NEWLINE) ==> comment_end(s, i) == s.len(),
{
    if i < j < s.len() && s[j] == NEWLINE && (forall|k: int| i < k < j ==> s[k] != NEWLINE) {
        lemma_line_comment_reaches(s, i + 1, j);
    }
    if forall|k: int| i < k < s.len() ==> s[k] != NEWLINE {
        lemma_line_comment_runs_out(s, i + 1);
    }
}

/// A block comment (its opening `#` followed by a second `#` at `i`) ends
/// just past the first `##` that starts after `i`; with none, it runs to the
/// end of the source.
pub proof fn law_block_comment_ends_after_closing_marks(s: Seq<u8>, i: int, j: int)
    requires
        0 <= i < s.len(),
        s[i] == 35,
    ensures
        i < j && j + 1 < s.len() && s[j] == 35 && s[j + 1] == 35
            && (forall|k: int| i < k < j ==> !(s[k] == 35 && #[trigger] s[k + 1] == 35))
            ==> comment_end(s, i) == j + 2,
        (forall|k: int| i < k && k + 1 < s.len() ==> !(s[k] == 35 && #[trigger] s[k + 1] == 35))
            ==> comment_end(s, i) == s.len(),
{
    if i < j && j + 1 < s.len() && s[j] == 35 && s[j + 1] == 35
        && (forall|k: int| i < k < j ==> !(s[k] == 35 && #[trigger] s[k + 1] == 35)) {
        lemma_block_comment_reaches(s, i + 1, j);
    }
    if forall|k: int| i < k && k + 1 < s.len() ==> !(s[k] == 35 && #[trigger] s[k + 1] == 35) {
        lemma_block_comment_runs_out(s, i + 1);
    }
}

/// Each bracket, parenthesis and the colon is a token of its own, one byte
/// long, of the kind its shape names.
pub proof fn law_punctuation_tokens(s: Seq<u8>, p: int)
    requires
        0 <= p <= s.len(),
        skip_trivia(s, p) < s.len(),
    ensures
        ({
            let q = skip_trivia(s, p);
            &&& s[q] == 40 ==> lex(s, p) == (Lexeme::Token(TokenModel::LeftParen, q, q + 1), q + 1)
            &&& s[q] == 41 ==> lex(s, p) == (Lexeme::Token(TokenModel::RightParen, q, q + 1), q + 1)
            &&& s[q] == 123 ==> lex(s, p) == (Lexeme::Token(TokenModel::LeftBrace, q, q + 1), q + 1)
            &&& s[q] == 125 ==> lex(s, p) == (Lexeme::Token(TokenModel::RightBrace, q, q + 1), q + 1)
            &&& s[q] == 91 ==> lex(s, p) == (Lexeme::Token(TokenModel::LeftBracket, q, q + 1), q + 1)
            &&& s[q] == 93 ==> lex(s, p) == (Lexeme::Token(TokenModel::RightBracket, q, q + 1), q + 1)
            &&& s[q] == 58 ==> lex(s, p) == (Lexeme::Token(TokenModel::Colon, q, q + 1), q + 1)
        }),
{
}

/// Where every byte from `i` up to `j` is a letter and `j` is the end or a
/// separator, an identifier that continues at `i` ends at `j`.
proof fn lemma_letters_end_identifier(s: Seq<u8>, i: int, j: int)
    requires
        0 <= i <= j <= s.len(),
        forall|k: int| i <= k < j ==> is_letter(#[trigger] s[k]),
        j == s.len() || is_blank(s[j]),
    ensures
        identifier_end(s, i) == j,
    decreases j - i,
{
    if i < j {
        lemma_letters_end_identifier(s, i + 1, j);
    }
}

/// A keyword standing alone (followed by the end or a separator) is read as
/// its token: `fun` a function definition, `if`, `else`, `return`, `true`
/// and `false` the booleans, and `nil`; the token covers the word.
pub proof fn law_keyword_tokens(s: Seq<u8>, p: int, word: Seq<u8>)
    requires
        0 <= p <= s.len(),
        skip_trivia(s, p) + word.len() <= s.len(),
        word.len() > 0,
        s.subrange(skip_trivia(s, p), skip_trivia(s, p) + word.len()) == word,
        skip_trivia(s, p) + word.len() == s.len() || is_blank(s[skip_trivia(s, p) + word.len()]),
    ensures
        ({
            let q = skip_trivia(s, p);
            let e = q + word.len();
            &&& word == seq![102u8, 117, 110] ==> lex(s, p) == (Lexeme::Token(TokenModel::DefineFunction, q, e), e)
            &&& word == seq![105u8, 102] ==> lex(s, p) == (Lexeme::Token(TokenModel::If, q, e), e)
            &&& word == seq![101u8, 108, 115, 101] ==> lex(s, p) == (Lexeme::Token(TokenModel::Else, q, e), e)
            &&& word == seq![114u8, 101, 116, 117, 114, 110] ==> lex(s, p) == (Lexeme::Token(TokenModel::Return, q, e), e)
            &&& word == seq![116u8, 114, 117, 101] ==> lex(s, p) == (Lexeme::Token(TokenModel::Boolean(true), q, e), e)
            &&& word == seq![102u8, 97, 108, 115, 101] ==> lex(s, p) == (Lexeme::Token(TokenModel::Boolean(false), q, e), e)
            &&& word == seq![110u8, 105, 108] ==> lex(s, p) == (Lexeme::Token(TokenModel::Nil, q, e), e)
        }),
{
    let q = skip_trivia(s, p);
    let e = q + word.len();
    lemma_skip_trivia_bounds(s, p);
    if word == word_fun() || word == word_if() || word == word_else() || word == word_return() || word == word_true()
        || word == word_false() || word == word_nil() {
        assert forall|k: int| q + 1 <= k < e implies is_letter(#[trigger] s[k]) by {
            assert(s.subrange(q, e)[k - q] == s[k]);
            assert(0 <= k - q < word.len());
            assert(is_letter(word[k - q]));
        }
        lemma_letters_end_identifier(s, q + 1, e);
        assert(s.subrange(q, e)[0] == s[q]);
        assert(s.subrange(q, identifier_end(s, q + 1)) == word);
        assert(!all_digits(s.subrange(q + 1, e)) || s[q] != 95);
    }
}

/// The decimal digits of a number that fits an `i64`, standing alone, are
/// read as that integer.
pub proof fn law_integer_literals(s: Seq<u8>, p: int, n: nat)
    requires
        0 <= p <= s.len(),
        n <= i64::MAX,
        skip_trivia(s, p) + digit_bytes(n).len() <= s.len(),
        s.subrange(skip_trivia(s, p), skip_trivia(s, p) + digit_bytes(n).len()) == digit_bytes(n),
        skip_trivia(s, p) + digit_bytes(n).len() == s.len() || is_blank(s[skip_trivia(s, p) + digit_bytes(n).len()]),
    ensures
        ({
            let q = skip_trivia(s, p);
            let e = q + digit_bytes(n).len();
            lex(s, p) == (Lexeme::Token(TokenModel::Integer(n as int), q, e), e)
        }),
{
    let q = skip_trivia(s, p);
    let t = digit_bytes(n);
    let e = q + t.len();
    lemma_skip_trivia_bounds(s, p);
    lemma_digit_bytes_decimal(n);
    assert forall|k: int| q + 1 <= k < e implies is_number_byte(#[trigger] s[k]) by {
        assert(s.subrange(q, e)[k - q] == s[k]);
        assert(is_digit(t[k - q]));
    }
    lemma_number_bytes_end(s, q + 1, e);
    assert(s.subrange(q, e) == t);
    lemma_count_zero(t, 46);
    lemma_count_zero(t, 95);
    assert(is_digit(s[q])) by {
        assert(s.subrange(q, e)[0] == s[q]);
        assert(is_digit(t[0]));
    }
}

proof fn lemma_number_bytes_end(s: Seq<u8>, i: int, j: int)
    requires
        0 <= i <= j <= s.len(),
        forall|k: int| i <= k < j ==> is_number_byte(#[trigger] s[k]),
        j == s.len() || is_blank(s[j]),
    ensures
        number_end(s, i) == j,
    decreases j - i,
{
    if i < j {
        lemma_number_bytes_end(s, i + 1, j);
    }
}

/// The digit bytes of a number are digits and spell the number.
proof fn lemma_digit_bytes_decimal(n: nat)
    ensures
        digit_bytes(n).len() > 0,
        forall|k: int| 0 <= k < digit_bytes(n).len() ==> is_digit(#[trigger] digit_bytes(n)[k]),
        decimal(digit_bytes(n)) == n,
    decreases n,
{
    let b = digit_bytes(n);
    if n < 10 {
        assert(b.drop_last().len() == 0);
        assert(decimal(b.drop_last()) == 0);
        assert(b.last() == 48 + n);
        assert(decimal(b) == decimal(b.drop_last()) * 10 + (b.last() - 48));
    } else {
        lemma_digit_bytes_decimal(n / 10);
        assert(b.drop_last() =~= digit_bytes(n / 10));
        assert(b.last() == 48 + n % 10);
        assert((n / 10) * 10 + n % 10 == n);
        assert(decimal(b) == decimal(b.drop_last()) * 10 + (b.last() - 48));
        assert forall|k: int| 0 <= k < b.len() implies is_digit(#[trigger] b[k]) by {
            if k < b.len() - 1 {
                assert(b[k] == digit_bytes(n / 10)[k]);
            }
        }
    }
}

} // verus!
