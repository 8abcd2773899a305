//! Assertion expressions as tokens.

use crate::error;
use crate::error::UsageError;
use crate::number;
use crate::text;
use vstd::prelude::*;

verus! {

/// Punctuation, operators and the words that act as operators.
#[derive(Clone, Copy, Debug, PartialEq, Eq, Structural)]
pub enum Sign {
    Dot,
    Le,
    Ge,
    Eq,
    Ne,
    Lt,
    Gt,
    LParen,
    RParen,
    LBracket,
    RBracket,
    Comma,
    And,
    Or,
    Not,
    In,
}

/// One token of an assertion expression. A number that no finite double is
/// near to has no value.
#[derive(Debug)]
pub enum Token {
    Ident(String),
    Number(Option<serde_json::Number>),
    Str(String),
    True,
    False,
    Sign(Sign),
}

/// What a token says.
#[verifier::ext_equal]
pub enum TokenView {
    Ident(Seq<char>),
    Number(Option<number::Num>),
    Str(Seq<char>),
    True,
    False,
    Sign(Sign),
}

/// What a number token holds.
pub open spec fn number_view(n: Option<serde_json::Number>) -> Option<number::Num> {
    match n {
        Some(n) => Some(number::number_model(n)),
        None => None,
    }
}

impl View for Token {
    type V = TokenView;

    open spec fn view(&self) -> TokenView {
        match *self {
            Token::Ident(name) => TokenView::Ident(name@),
            Token::Number(n) => TokenView::Number(number_view(n)),
            Token::Str(s) => TokenView::Str(s@),
            Token::True => TokenView::True,
            Token::False => TokenView::False,
            Token::Sign(sign) => TokenView::Sign(sign),
        }
    }
}

/// What each token of a list says.
pub open spec fn token_views(tokens: Seq<Token>) -> Seq<TokenView> {
    tokens.map_values(|t: Token| t@)
}

/// Letters and underscores start a word.
pub open spec fn starts_word(c: char) -> bool {
    'a' <= c <= 'z' || 'A' <= c <= 'Z' || c == '_'
}

/// A word goes on with letters, digits, underscores and hyphens; there is no
/// minus operator.
pub open spec fn in_word(c: char) -> bool {
    starts_word(c) || text::is_digit(c) || c == '-'
}

/// The end of the run of word characters at `i`.
pub open spec fn word_end(s: Seq<char>, i: int) -> int
    decreases s.len() - i,
{
    if i < s.len() && in_word(s[i]) {
        word_end(s, i + 1)
    } else {
        i
    }
}

/// The end of the run of digits at `i`.
pub open spec fn digits_end(s: Seq<char>, i: int) -> int
    decreases s.len() - i,
{
    if i < s.len() && text::is_digit(s[i]) {
        digits_end(s, i + 1)
    } else {
        i
    }
}

/// The end of the number at `i`: digits, and a point if digits follow it.
pub open spec fn number_end(s: Seq<char>, i: int) -> int {
    let end = digits_end(s, i);
    if end + 1 < s.len() && s[end] == '.' && text::is_digit(s[end + 1]) {
        digits_end(s, end + 1)
    } else {
        end
    }
}

/// The number that a literal stands for.
pub open spec fn literal_view(literal: Seq<char>) -> Option<number::Num> {
    match number::literal_double(literal) {
        Some(bits) => Some(number::Num::Float(bits)),
        None => None,
    }
}

/// The token of a word.
pub open spec fn word_token(word: Seq<char>) -> TokenView {
    if word == "and"@ {
        TokenView::Sign(Sign::And)
    } else if word == "or"@ {
        TokenView::Sign(Sign::Or)
    } else if word == "not"@ {
        TokenView::Sign(Sign::Not)
    } else if word == "in"@ {
        TokenView::Sign(Sign::In)
    } else if word == "true"@ {
        TokenView::True
    } else if word == "false"@ {
        TokenView::False
    } else {
        TokenView::Ident(word)
    }
}

/// What a character reads before what was read after it.
pub open spec fn prepend(c: char, rest: Result<(Seq<char>, int), Seq<char>>) -> Result<
    (Seq<char>, int),
    Seq<char>,
> {
    match rest {
        Ok((s, end)) => Ok((seq![c] + s, end)),
        Err(e) => Err(e),
    }
}

/// A string literal from behind its opening quote: what it says, and where the
/// text goes on behind the closing quote.
pub open spec fn string_at(s: Seq<char>, i: int) -> Result<(Seq<char>, int), Seq<char>>
    decreases s.len() - i,
{
    if i < 0 || i >= s.len() {
        Err("unterminated string"@)
    } else if s[i] == '"' {
        Ok((Seq::empty(), i + 1))
    } else if s[i] != '\\' {
        prepend(s[i], string_at(s, i + 1))
    } else if i + 1 >= s.len() {
        Err("unterminated string"@)
    } else if s[i + 1] == '"' || s[i + 1] == '\\' {
        prepend(s[i + 1], string_at(s, i + 2))
    } else {
        Err("unsupported escape '\\"@ + seq![s[i + 1]] + "' (only \\\" and \\\\ are allowed)"@)
    }
}

/// The sign that a character starts, given the one behind it, and its width.
pub open spec fn sign_at(c: char, next: Option<char>) -> Option<(Sign, int)> {
    if c == '.' {
        Some((Sign::Dot, 1))
    } else if c == '=' && next == Some('=') {
        Some((Sign::Eq, 2))
    } else if c == '!' && next == Some('=') {
        Some((Sign::Ne, 2))
    } else if c == '<' && next == Some('=') {
        Some((Sign::Le, 2))
    } else if c == '>' && next == Some('=') {
        Some((Sign::Ge, 2))
    } else if c == '<' {
        Some((Sign::Lt, 1))
    } else if c == '>' {
        Some((Sign::Gt, 1))
    } else if c == '(' {
        Some((Sign::LParen, 1))
    } else if c == ')' {
        Some((Sign::RParen, 1))
    } else if c == '[' {
        Some((Sign::LBracket, 1))
    } else if c == ']' {
        Some((Sign::RBracket, 1))
    } else if c == ',' {
        Some((Sign::Comma, 1))
    } else {
        None
    }
}

/// Blanks separate tokens.
pub open spec fn is_blank(c: char) -> bool {
    c == ' ' || c == '\t' || c == '\r' || c == '\n'
}

/// What stands at `i`: a token or a blank, and where the text goes on.
pub open spec fn token_at(s: Seq<char>, i: int) -> Result<(Option<TokenView>, int), Seq<char>> {
    let c = s[i];
    let next = if i + 1 < s.len() {
        Some(s[i + 1])
    } else {
        None
    };
    if is_blank(c) {
        Ok((None, i + 1))
    } else if sign_at(c, next) is Some {
        let (sign, width) = sign_at(c, next)->0;
        Ok((Some(TokenView::Sign(sign)), i + width))
    } else if c == '=' {
        Err("single '=' is not an operator; use ==, !=, <=, >=, <, >"@)
    } else if c == '!' {
        Err("single '!' is not an operator; use != for inequality"@)
    } else if c == '"' {
        match string_at(s, i + 1) {
            Ok((said, end)) => Ok((Some(TokenView::Str(said)), end)),
            Err(cause) => Err(
                error::in_context(
                    "at column "@ + text::decimal((i + 1) as nat) + ": bad string literal"@,
                    cause,
                ),
            ),
        }
    } else if text::is_digit(c) {
        let end = number_end(s, i);
        Ok((Some(TokenView::Number(literal_view(s.subrange(i, end)))), end))
    } else if starts_word(c) {
        let end = word_end(s, i);
        Ok((Some(word_token(s.subrange(i, end))), end))
    } else {
        Err(
            "unexpected character '"@ + seq![c] + "' at column "@ + text::decimal(
                (i + 1) as nat,
            ),
        )
    }
}

proof fn lemma_word_end(s: Seq<char>, i: int)
    requires
        0 <= i <= s.len(),
    ensures
        i <= word_end(s, i) <= s.len(),
    decreases s.len() - i,
{
    if i < s.len() && in_word(s[i]) {
        lemma_word_end(s, i + 1);
    }
}

proof fn lemma_digits_end(s: Seq<char>, i: int)
    requires
        0 <= i <= s.len(),
    ensures
        i <= digits_end(s, i) <= s.len(),
        text::all_digits(s.subrange(i, digits_end(s, i))),
    decreases s.len() - i,
{
    if i < s.len() && text::is_digit(s[i]) {
        lemma_digits_end(s, i + 1);
        let end = digits_end(s, i);
        let run = s.subrange(i, end);
        assert forall|k: int| 0 <= k < run.len() implies text::is_digit(#[trigger] run[k]) by {
            if k > 0 {
                assert(text::is_digit(s.subrange(i + 1, end)[k - 1]));
            }
        }
    }
}

proof fn lemma_string_at(s: Seq<char>, i: int)
    requires
        0 <= i <= s.len(),
    ensures
        string_at(s, i) matches Ok((_, end)) ==> i < end <= s.len(),
    decreases s.len() - i,
{
    if i < s.len() && s[i] != '"' {
        if s[i] != '\\' {
            lemma_string_at(s, i + 1);
        } else if i + 1 < s.len() && (s[i + 1] == '"' || s[i + 1] == '\\') {
            lemma_string_at(s, i + 2);
        }
    }
}

/// Every token takes up text.
pub proof fn lemma_token_at(s: Seq<char>, i: int)
    requires
        0 <= i < s.len(),
    ensures
        token_at(s, i) matches Ok((_, end)) ==> i < end <= s.len(),
{
    lemma_string_at(s, i + 1);
    if text::is_digit(s[i]) {
        lemma_digits_end(s, i + 1);
        let end = digits_end(s, i);
        if end + 1 < s.len() {
            lemma_digits_end(s, end + 1);
        }
    }
    if starts_word(s[i]) {
        lemma_word_end(s, i + 1);
    }
}

/// The tokens of a text from `i` on, or what is wrong with the first thing
/// that is none.
pub open spec fn tokens_from(s: Seq<char>, i: int) -> Result<Seq<TokenView>, Seq<char>>
    decreases s.len() - i,
{
    if i < 0 || i >= s.len() {
        Ok(Seq::empty())
    } else {
        proof {
            lemma_token_at(s, i);
        }
        match token_at(s, i) {
            Err(e) => Err(e),
            Ok((token, end)) => match tokens_from(s, end) {
                Err(e) => Err(e),
                Ok(rest) => Ok(
                    match token {
                        Some(token) => seq![token] + rest,
                        None => rest,
                    },
                ),
            },
        }
    }
}

/// Reads a string literal from behind its opening quote.
pub fn lex_string(chars: &Vec<char>, start: usize) -> (r: Result<(String, usize), UsageError>)
    ensures
        match r {
            Ok((said, end)) => string_at(chars@, start as int) == Ok::<
                (Seq<char>, int),
                Seq<char>,
            >((said@, end as int)) && end <= chars@.len(),
            Err(e) => string_at(chars@, start as int) == Err::<(Seq<char>, int), Seq<char>>(e@),
        },
{
    let mut out = String::new();
    let mut i: usize = start;
    let ghost all = string_at(chars@, start as int);
    assert(forall|s: Seq<char>| #[trigger] (Seq::<char>::empty() + s) =~= s);
    while i < chars.len()
        invariant
            start <= i,
            i <= chars@.len() || i == start,
            all == string_at(chars@, start as int),
            match string_at(chars@, i as int) {
                Ok((s, end)) => all == Ok::<(Seq<char>, int), Seq<char>>((out@ + s, end)),
                Err(e) => all == Err::<(Seq<char>, int), Seq<char>>(e),
            },
        decreases chars@.len() - i,
    {
        let c = chars[i];
        let ghost before = out@;
        if c == '"' {
            assert(out@ + Seq::<char>::empty() =~= out@);
            return Ok((out, i + 1));
        } else if c == '\\' {
            if i + 1 >= chars.len() {
                return Err(UsageError::fixed("unterminated string"));
            }
            let next = chars[i + 1];
            if next == '"' || next == '\\' {
                out.push(next);
                assert(forall|s: Seq<char>|
                    #[trigger] (before + (seq![next] + s)) =~= before.push(next) + s);
                i += 2;
            } else {
                let mut message = "unsupported escape '\\".to_owned();
                message.push(next);
                message.append("' (only \\\" and \\\\ are allowed)");
                assert("unsupported escape '\\"@.push(next) =~= "unsupported escape '\\"@
                    + seq![next]);
                return Err(UsageError::new(message));
            }
        } else {
            out.push(c);
            assert(forall|s: Seq<char>|
                #[trigger] (before + (seq![c] + s)) =~= before.push(c) + s);
            i += 1;
        }
    }
    Err(UsageError::fixed("unterminated string"))
}

/// The text of a number is a decimal literal.
proof fn lemma_number_is_literal(s: Seq<char>, i: int)
    requires
        0 <= i < s.len(),
        text::is_digit(s[i]),
    ensures
        i < number_end(s, i) <= s.len(),
        text::is_decimal_literal(s.subrange(i, number_end(s, i))),
{
    lemma_digits_end(s, i);
    lemma_digits_end(s, i + 1);
    let point = digits_end(s, i);
    let end = number_end(s, i);
    if point + 1 < s.len() && s[point] == '.' && text::is_digit(s[point + 1]) {
        lemma_digits_end(s, point + 1);
        lemma_digits_end(s, point + 2);
    }
    let literal = s.subrange(i, end);
    assert(literal.take(point - i) =~= s.subrange(i, point));
    if point < end {
        assert(literal.skip(point - i + 1) =~= s.subrange(point + 1, end));
    }
    assert(text::literal_point(literal, point - i));
}

fn scan_digits(chars: &Vec<char>, from: usize) -> (end: usize)
    requires
        from <= chars@.len(),
    ensures
        end == digits_end(chars@, from as int),
        from <= end <= chars@.len(),
{
    let mut i: usize = from;
    while i < chars.len() && '0' <= chars[i] && chars[i] <= '9'
        invariant
            from <= i <= chars@.len(),
            digits_end(chars@, from as int) == digits_end(chars@, i as int),
        decreases chars@.len() - i,
    {
        i += 1;
    }
    i
}

fn scan_number(chars: &Vec<char>, from: usize) -> (end: usize)
    requires
        from < chars@.len(),
        text::is_digit(chars@[from as int]),
    ensures
        end == number_end(chars@, from as int),
        from < end <= chars@.len(),
{
    proof {
        lemma_number_is_literal(chars@, from as int);
    }
    let end = scan_digits(chars, from);
    if end < chars.len() - 1 && chars[end] == '.' && '0' <= chars[end + 1] && chars[end + 1]
        <= '9' {
        scan_digits(chars, end + 1)
    } else {
        end
    }
}

fn begins_word(c: char) -> (r: bool)
    ensures
        r == starts_word(c),
{
    ('a' <= c && c <= 'z') || ('A' <= c && c <= 'Z') || c == '_'
}

fn scan_word(chars: &Vec<char>, from: usize) -> (end: usize)
    requires
        from < chars@.len(),
        starts_word(chars@[from as int]),
    ensures
        end == word_end(chars@, from as int),
        from < end <= chars@.len(),
{
    let n = chars.len();
    let mut i: usize = from + 1;
    while i < n && (begins_word(chars[i]) || ('0' <= chars[i] && chars[i] <= '9')
        || chars[i] == '-')
        invariant
            n == chars@.len(),
            from < i <= n,
            word_end(chars@, from as int) == word_end(chars@, i as int),
        decreases chars@.len() - i,
    {
        i += 1;
    }
    i
}

fn token_of_word(word: String) -> (r: Token)
    ensures
        r@ == word_token(word@),
{
    if text::same(word.as_str(), "and") {
        Token::Sign(Sign::And)
    } else if text::same(word.as_str(), "or") {
        Token::Sign(Sign::Or)
    } else if text::same(word.as_str(), "not") {
        Token::Sign(Sign::Not)
    } else if text::same(word.as_str(), "in") {
        Token::Sign(Sign::In)
    } else if text::same(word.as_str(), "true") {
        Token::True
    } else if text::same(word.as_str(), "false") {
        Token::False
    } else {
        Token::Ident(word)
    }
}

fn read_sign(c: char, next: Option<char>) -> (r: Option<(Sign, usize)>)
    ensures
        match r {
            Some((sign, width)) => sign_at(c, next) == Some((sign, width as int)) && 1 <= width
                <= 2 && (width == 2 ==> next is Some),
            None => sign_at(c, next) is None,
        },
{
    let doubled = match next {
        Some(n) => n == '=',
        None => false,
    };
    match c {
        '.' => Some((Sign::Dot, 1)),
        '=' if doubled => Some((Sign::Eq, 2)),
        '!' if doubled => Some((Sign::Ne, 2)),
        '<' if doubled => Some((Sign::Le, 2)),
        '>' if doubled => Some((Sign::Ge, 2)),
        '<' => Some((Sign::Lt, 1)),
        '>' => Some((Sign::Gt, 1)),
        '(' => Some((Sign::LParen, 1)),
        ')' => Some((Sign::RParen, 1)),
        '[' => Some((Sign::LBracket, 1)),
        ']' => Some((Sign::RBracket, 1)),
        ',' => Some((Sign::Comma, 1)),
        _ => None,
    }
}

/// Reads what stands at `i`: a token or a blank.
fn read_token(chars: &Vec<char>, i: usize) -> (r: Result<(Option<Token>, usize), UsageError>)
    requires
        i < chars@.len(),
    ensures
        match r {
            Ok((token, end)) => i < end <= chars@.len() && token_at(chars@, i as int) == Ok::<
                (Option<TokenView>, int),
                Seq<char>,
            >(
                (
                    match token {
                        Some(token) => Some(token@),
                        None => None,
                    },
                    end as int,
                ),
            ),
            Err(e) => token_at(chars@, i as int) == Err::<(Option<TokenView>, int), Seq<char>>(e@),
        },
{
    let n = chars.len();
    let c = chars[i];
    if c == ' ' || c == '\t' || c == '\r' || c == '\n' {
        return Ok((None, i + 1));
    }
    let next = if i + 1 < n {
        Some(chars[i + 1])
    } else {
        None
    };
    match read_sign(c, next) {
        Some((sign, width)) => {
            return Ok((Some(Token::Sign(sign)), i + width));
        },
        None => {},
    }
    if c == '=' {
        Err(UsageError::fixed("single '=' is not an operator; use ==, !=, <=, >=, <, >"))
    } else if c == '!' {
        Err(UsageError::fixed("single '!' is not an operator; use != for inequality"))
    } else if c == '"' {
        match lex_string(chars, i + 1) {
            Ok((said, end)) => {
                proof {
                    lemma_string_at(chars@, i + 1);
                }
                Ok((Some(Token::Str(said)), end))
            },
            Err(e) => {
                let mut context = "at column ".to_owned();
                context.append(text::decimal_text(i as u64 + 1).as_str());
                context.append(": bad string literal");
                Err(UsageError::caused(context, e.message.as_str()))
            },
        }
    } else if '0' <= c && c <= '9' {
        proof {
            lemma_number_is_literal(chars@, i as int);
        }
        let end = scan_number(chars, i);
        let literal = text::text_of(chars, i, end);
        Ok((Some(Token::Number(number::number_of_literal(literal.as_str()))), end))
    } else if begins_word(c) {
        let end = scan_word(chars, i);
        Ok((Some(token_of_word(text::text_of(chars, i, end))), end))
    } else {
        let mut message = "unexpected character '".to_owned();
        message.push(c);
        message.append("' at column ");
        message.append(text::decimal_text(i as u64 + 1).as_str());
        assert("unexpected character '"@.push(c) =~= "unexpected character '"@ + seq![c]);
        Err(UsageError::new(message))
    }
}

/// Reads the tokens of an assertion expression.
pub fn lex(src: &str) -> (r: Result<Vec<Token>, UsageError>)
    ensures
        match r {
            Ok(tokens) => tokens_from(src@, 0) == Ok::<Seq<TokenView>, Seq<char>>(
                token_views(tokens@),
            ),
            Err(e) => tokens_from(src@, 0) == Err::<Seq<TokenView>, Seq<char>>(e@),
        },
{
    let chars = text::chars_of(src);
    let mut tokens: Vec<Token> = Vec::new();
    let mut i: usize = 0;
    let ghost all = tokens_from(chars@, 0);
    proof {
        if all is Ok {
            assert(token_views(tokens@) + all->Ok_0 =~= all->Ok_0);
        }
    }
    while i < chars.len()
        invariant
            i <= chars@.len(),
            all == tokens_from(src@, 0),
            chars@ == src@,
            match tokens_from(chars@, i as int) {
                Ok(rest) => all == Ok::<Seq<TokenView>, Seq<char>>(token_views(tokens@) + rest),
                Err(e) => all == Err::<Seq<TokenView>, Seq<char>>(e),
            },
        decreases chars@.len() - i,
    {
        let ghost before = tokens@;
        match read_token(&chars, i) {
            Err(e) => {
                return Err(e);
            },
            Ok((None, end)) => {
                i = end;
            },
            Ok((Some(token), end)) => {
                let ghost view = token@;
                tokens.push(token);
                proof {
                    assert(token_views(tokens@) =~= token_views(before).push(view));
                    assert(forall|rest: Seq<TokenView>| #[trigger]
                        (token_views(before) + (seq![view] + rest)) =~= token_views(before).push(
                            view,
                        ) + rest);
                }
                i = end;
            },
        }
    }
    assert(token_views(tokens@) + Seq::<TokenView>::empty() =~= token_views(tokens@));
    Ok(tokens)
}

/// A text behind an expression that no token of the expression runs into: it
/// holds no quote, and starts with a blank or a closing parenthesis.
pub open spec fn stands_apart(after: Seq<char>) -> bool {
    &&& after.len() > 0 ==> is_blank(after[0]) || after[0] == ')'
    &&& forall|k: int| 0 <= k < after.len() ==> #[trigger] after[k] != '"'
}

/// A string literal that no quote follows does not end.
proof fn lemma_unclosed(s: Seq<char>, i: int)
    requires
        0 <= i,
        forall|k: int| i <= k < s.len() ==> #[trigger] s[k] != '"',
    ensures
        string_at(s, i) is Err,
    decreases s.len() - i,
{
    if i < s.len() {
        if s[i] != '\\' {
            lemma_unclosed(s, i + 1);
        } else if i + 1 < s.len() {
            lemma_unclosed(s, i + 2);
        }
    }
}

/// A string literal reads the same among other texts.
proof fn lemma_string_among(before: Seq<char>, s: Seq<char>, after: Seq<char>, i: int)
    requires
        stands_apart(after),
        0 <= i <= s.len(),
    ensures
        match string_at(s, i) {
            Ok((said, end)) => string_at(before + s + after, before.len() + i) == Ok::<
                (Seq<char>, int),
                Seq<char>,
            >((said, before.len() + end)),
            Err(_) => string_at(before + s + after, before.len() + i) is Err,
        },
    decreases s.len() - i,
{
    let w = before + s + after;
    let at = before.len() + i;
    if i == s.len() {
        assert forall|k: int| at <= k < w.len() implies #[trigger] w[k] != '"' by {
            assert(w[k] == after[k - at]);
        }
        lemma_unclosed(w, at);
    } else {
        assert(w[at] == s[i]);
        if i + 1 < s.len() {
            assert(w[at + 1] == s[i + 1]);
        } else if after.len() > 0 {
            assert(w[at + 1] == after[0]);
        }
        if s[i] == '"' {
        } else if s[i] != '\\' {
            lemma_string_among(before, s, after, i + 1);
        } else if i + 1 < s.len() && (s[i + 1] == '"' || s[i + 1] == '\\') {
            lemma_string_among(before, s, after, i + 2);
        }
    }
}

/// Runs of digits and of word characters end at the same places among other
/// texts.
proof fn lemma_runs_among(before: Seq<char>, s: Seq<char>, after: Seq<char>, i: int)
    requires
        stands_apart(after),
        0 <= i <= s.len(),
    ensures
        digits_end(before + s + after, before.len() + i) == before.len() + digits_end(s, i),
        word_end(before + s + after, before.len() + i) == before.len() + word_end(s, i),
    decreases s.len() - i,
{
    let w = before + s + after;
    let at = before.len() + i;
    if i == s.len() {
        if after.len() > 0 {
            assert(w[at] == after[0]);
        }
    } else {
        assert(w[at] == s[i]);
        lemma_runs_among(before, s, after, i + 1);
    }
}

/// What stands at a place of an expression stands there among other texts.
proof fn lemma_token_among(before: Seq<char>, s: Seq<char>, after: Seq<char>, i: int)
    requires
        stands_apart(after),
        0 <= i < s.len(),
    ensures
        match token_at(s, i) {
            Ok((token, end)) => token_at(before + s + after, before.len() + i) == Ok::<
                (Option<TokenView>, int),
                Seq<char>,
            >((token, before.len() + end)),
            Err(_) => token_at(before + s + after, before.len() + i) is Err,
        },
{
    let w = before + s + after;
    let n = before.len() as int;
    let c = s[i];
    assert(w[n + i] == c);
    if i + 1 < s.len() {
        assert(w[n + i + 1] == s[i + 1]);
    } else if after.len() > 0 {
        assert(w[n + i + 1] == after[0]);
    }
    if c == '"' {
        lemma_string_among(before, s, after, i + 1);
    } else if text::is_digit(c) {
        lemma_number_is_literal(s, i);
        lemma_digits_end(s, i);
        lemma_runs_among(before, s, after, i);
        let point = digits_end(s, i);
        if point < s.len() {
            assert(w[n + point] == s[point]);
            if point + 1 < s.len() {
                assert(w[n + point + 1] == s[point + 1]);
                lemma_runs_among(before, s, after, point + 1);
            } else if after.len() > 0 {
                assert(w[n + point + 1] == after[0]);
            }
        } else if after.len() > 0 {
            assert(w[n + point] == after[0]);
        }
        let end = number_end(s, i);
        assert(number_end(w, n + i) == n + end);
        assert(w.subrange(n + i, n + end) =~= s.subrange(i, end));
    } else if starts_word(c) {
        lemma_word_end(s, i);
        lemma_runs_among(before, s, after, i);
        let end = word_end(s, i);
        assert(w.subrange(n + i, n + end) =~= s.subrange(i, end));
    }
}

/// The tokens of an expression are its tokens among other texts, before those
/// of the text behind it. Where it has none, the whole has none.
pub proof fn lemma_tokens_among(before: Seq<char>, s: Seq<char>, after: Seq<char>, i: int)
    requires
        stands_apart(after),
        0 <= i <= s.len(),
    ensures
        match (
            tokens_from(s, i),
            tokens_from(before + s + after, (before.len() + s.len()) as int),
        ) {
            (Ok(tokens), Ok(rest)) => tokens_from(before + s + after, before.len() + i) == Ok::<
                Seq<TokenView>,
                Seq<char>,
            >(tokens + rest),
            _ => tokens_from(before + s + after, before.len() + i) is Err,
        },
    decreases s.len() - i,
{
    let w = before + s + after;
    let rest = tokens_from(w, (before.len() + s.len()) as int);
    if i == s.len() {
        if let Ok(more) = rest {
            assert(Seq::<TokenView>::empty() + more =~= more);
        }
    } else {
        lemma_token_at(s, i);
        lemma_token_among(before, s, after, i);
        if let Ok((token, end)) = token_at(s, i) {
            lemma_tokens_among(before, s, after, end);
            if let (Some(token), Ok(tokens), Ok(more)) = (token, tokens_from(s, end), rest) {
                assert(seq![token] + (tokens + more) =~= (seq![token] + tokens) + more);
            }
        }
    }
}

/// Blanks hold no token.
proof fn lemma_blanks(s: Seq<char>, i: int, end: int)
    requires
        0 <= i <= end <= s.len(),
        forall|k: int| i <= k < end ==> is_blank(#[trigger] s[k]),
    ensures
        tokens_from(s, i) == tokens_from(s, end),
    decreases end - i,
{
    if i < end {
        lemma_blanks(s, i + 1, end);
    }
}

/// Blanks around an expression change none of its tokens, and make neither an
/// expression of what is none nor the other way round.
pub proof fn law_blanks_around_change_nothing(before: Seq<char>, s: Seq<char>, after: Seq<char>)
    requires
        forall|k: int| 0 <= k < before.len() ==> is_blank(#[trigger] before[k]),
        forall|k: int| 0 <= k < after.len() ==> is_blank(#[trigger] after[k]),
    ensures
        match tokens_from(s, 0) {
            Ok(tokens) => tokens_from(before + s + after, 0) == Ok::<Seq<TokenView>, Seq<char>>(
                tokens,
            ),
            Err(_) => tokens_from(before + s + after, 0) is Err,
        },
{
    let w = before + s + after;
    let n = before.len() as int;
    let end = n + s.len();
    assert forall|k: int| 0 <= k < n implies is_blank(#[trigger] w[k]) by {
        assert(w[k] == before[k]);
    }
    assert forall|k: int| end <= k < w.len() implies is_blank(#[trigger] w[k]) by {
        assert(w[k] == after[k - end]);
    }
    assert(stands_apart(after)) by {
        assert forall|k: int| 0 <= k < after.len() implies #[trigger] after[k] != '"' by {
            assert(is_blank(after[k]));
        }
    }
    lemma_blanks(w, 0, n);
    lemma_blanks(w, end, w.len() as int);
    lemma_tokens_among(before, s, after, 0);
    if let Ok(tokens) = tokens_from(s, 0) {
        assert(tokens + Seq::<TokenView>::empty() =~= tokens);
    }
}

/// Which characters words are made of, and which separate tokens.
pub proof fn law_word_characters(c: char)
    ensures
        starts_word(c) <==> ('a' <= c && c <= 'z') || ('A' <= c && c <= 'Z') || c == '_',
        in_word(c) <==> ('a' <= c && c <= 'z') || ('A' <= c && c <= 'Z') || ('0' <= c && c <= '9')
            || c == '_' || c == '-',
        is_blank(c) <==> seq![' ', '\t', '\r', '\n'].contains(c),
{
    let blanks = seq![' ', '\t', '\r', '\n'];
    assert(blanks[0] == ' ' && blanks[1] == '\t' && blanks[2] == '\r' && blanks[3] == '\n');
}

/// A word among other text is one token, up to where no character of words
/// follows: an operator or a truth value for each word that names one, and a
/// name for every other.
pub proof fn law_words(before: Seq<char>, word: Seq<char>, after: Seq<char>)
    requires
        word.len() > 0,
        starts_word(word[0]),
        forall|k: int| 0 <= k < word.len() ==> in_word(#[trigger] word[k]),
        after.len() > 0 ==> !in_word(after[0]),
    ensures
        token_at(before + word + after, before.len() as int) == Ok::<
            (Option<TokenView>, int),
            Seq<char>,
        >((Some(word_token(word)), (before.len() + word.len()) as int)),
        word_token("and"@) == TokenView::Sign(Sign::And),
        word_token("or"@) == TokenView::Sign(Sign::Or),
        word_token("not"@) == TokenView::Sign(Sign::Not),
        word_token("in"@) == TokenView::Sign(Sign::In),
        word_token("true"@) == TokenView::True,
        word_token("false"@) == TokenView::False,
        word != "and"@ && word != "or"@ && word != "not"@ && word != "in"@ && word != "true"@
            && word != "false"@ ==> word_token(word) == TokenView::Ident(word),
{
    reveal_strlit("and");
    reveal_strlit("or");
    reveal_strlit("not");
    reveal_strlit("in");
    reveal_strlit("true");
    reveal_strlit("false");
    assert("and"@[0] == 'a' && "or"@[0] == 'o' && "not"@[0] == 'n' && "in"@[0] == 'i' && "true"@[0]
        == 't' && "false"@[0] == 'f');
    let s = before + word + after;
    let i = before.len() as int;
    let end = i + word.len();
    assert(s[i] == word[0]);
    assert forall|k: int| i <= k < end implies in_word(#[trigger] s[k]) by {
        assert(s[k] == word[k - i]);
    }
    if after.len() > 0 {
        assert(s[end] == after[0]);
    }
    lemma_run_of_word(s, i, end);
    assert(s.subrange(i, end) =~= word);
}

proof fn lemma_run_of_word(s: Seq<char>, i: int, end: int)
    requires
        0 <= i <= end <= s.len(),
        forall|k: int| i <= k < end ==> in_word(#[trigger] s[k]),
        end < s.len() ==> !in_word(s[end]),
    ensures
        word_end(s, i) == end,
    decreases end - i,
{
    if i < end {
        lemma_run_of_word(s, i + 1, end);
    }
}

proof fn lemma_run_of_digits(s: Seq<char>, i: int, end: int)
    requires
        0 <= i <= end <= s.len(),
        forall|k: int| i <= k < end ==> text::is_digit(#[trigger] s[k]),
        end < s.len() ==> !text::is_digit(s[end]),
    ensures
        digits_end(s, i) == end,
    decreases end - i,
{
    if i < end {
        lemma_run_of_digits(s, i + 1, end);
    }
}

/// What digits before a point and behind it write, as a fraction.
pub open spec fn digits_and_part(whole: Seq<char>, part: Seq<char>) -> (int, int) {
    let tens = vstd::arithmetic::power::pow(10, part.len());
    (text::digits_value(whole) * tens + text::digits_value(part), tens)
}

/// A number among other text is one token, up to where it ends: digits that no
/// digit and no point with a digit follows, or digits, a point, and digits that
/// no digit follows. The token is the double nearest to what the literal
/// writes, and has no value where that is beyond all doubles.
pub proof fn law_numbers(
    before: Seq<char>,
    whole: Seq<char>,
    part: Seq<char>,
    after: Seq<char>,
)
    requires
        whole.len() > 0,
        text::all_digits(whole),
        part.len() > 0,
        text::all_digits(part),
        after.len() > 0 ==> !text::is_digit(after[0]),
    ensures
        !(after.len() > 1 && after[0] == '.' && text::is_digit(after[1])) ==> token_at(
            before + whole + after,
            before.len() as int,
        ) == Ok::<(Option<TokenView>, int), Seq<char>>(
            (
                Some(TokenView::Number(literal_view(whole))),
                (before.len() + whole.len()) as int,
            ),
        ),
        token_at(before + (whole + seq!['.'] + part) + after, before.len() as int) == Ok::<
            (Option<TokenView>, int),
            Seq<char>,
        >(
            (
                Some(TokenView::Number(literal_view(whole + seq!['.'] + part))),
                (before.len() + whole.len() + 1 + part.len()) as int,
            ),
        ),
        ({
            let value = digits_and_part(whole, part);
            match literal_view(whole + seq!['.'] + part) {
                Some(n) => n == number::Num::Float(number::double_near(value.0, value.1))
                    && !number::rounds_to_infinity(value.0, value.1),
                None => number::rounds_to_infinity(value.0, value.1),
            }
        }),
        match literal_view(whole) {
            Some(n) => n == number::Num::Float(
                number::double_near(text::digits_value(whole), 1),
            ) && !number::rounds_to_infinity(text::digits_value(whole), 1),
            None => number::rounds_to_infinity(text::digits_value(whole), 1),
        },
{
    text::law_literals(whole, part);
    let i = before.len() as int;
    let s = before + whole + after;
    let end = i + whole.len();
    assert(s[i] == whole[0]);
    assert(text::is_digit(whole[0]));
    assert forall|k: int| i <= k < end implies text::is_digit(#[trigger] s[k]) by {
        assert(s[k] == whole[k - i]);
        assert(text::is_digit(whole[k - i]));
    }
    if after.len() > 0 {
        assert(s[end] == after[0]);
    }
    if after.len() > 1 {
        assert(s[end + 1] == after[1]);
    }
    lemma_run_of_digits(s, i, end);
    assert(s.subrange(i, end) =~= whole);
    let literal = whole + seq!['.'] + part;
    let t = before + literal + after;
    let last = end + 1 + part.len();
    assert(t[i] == whole[0]);
    assert forall|k: int| i <= k < end implies text::is_digit(#[trigger] t[k]) by {
        assert(t[k] == whole[k - i]);
        assert(text::is_digit(whole[k - i]));
    }
    assert(t[end] == '.');
    lemma_run_of_digits(t, i, end);
    assert forall|k: int| end + 1 <= k < last implies text::is_digit(#[trigger] t[k]) by {
        assert(t[k] == part[k - end - 1]);
        assert(text::is_digit(part[k - end - 1]));
    }
    if after.len() > 0 {
        assert(t[last] == after[0]);
    }
    lemma_run_of_digits(t, end + 1, last);
    assert(t.subrange(i, last) =~= literal);
}

/// The signs that are read: which characters each is written by. A single
/// equals sign or exclamation mark is none.
pub proof fn law_signs(next: Option<char>)
    ensures
        sign_at('.', next) == Some((Sign::Dot, 1int)),
        sign_at('(', next) == Some((Sign::LParen, 1int)),
        sign_at(')', next) == Some((Sign::RParen, 1int)),
        sign_at('[', next) == Some((Sign::LBracket, 1int)),
        sign_at(']', next) == Some((Sign::RBracket, 1int)),
        sign_at(',', next) == Some((Sign::Comma, 1int)),
        sign_at('=', Some('=')) == Some((Sign::Eq, 2int)),
        sign_at('!', Some('=')) == Some((Sign::Ne, 2int)),
        sign_at('<', Some('=')) == Some((Sign::Le, 2int)),
        sign_at('>', Some('=')) == Some((Sign::Ge, 2int)),
        next != Some('=') ==> {
            &&& sign_at('<', next) == Some((Sign::Lt, 1int))
            &&& sign_at('>', next) == Some((Sign::Gt, 1int))
            &&& sign_at('=', next) is None
            &&& sign_at('!', next) is None
        },
        forall|c: char|
            !seq!['.', '(', ')', '[', ']', ',', '=', '!', '<', '>'].contains(c)
                ==> #[trigger] sign_at(c, next) is None,
{
    let signs = seq!['.', '(', ')', '[', ']', ',', '=', '!', '<', '>'];
    assert(signs[0] == '.' && signs[1] == '(' && signs[2] == ')' && signs[3] == '[' && signs[4]
        == ']' && signs[5] == ',' && signs[6] == '=' && signs[7] == '!' && signs[8] == '<'
        && signs[9] == '>');
}

/// A character that starts no token is an error that tells it and its column,
/// counted from one; a single equals sign or exclamation mark tells which
/// operators there are.
pub proof fn law_other_characters(before: Seq<char>, c: char, after: Seq<char>)
    ensures
        ({
            let s = before + seq![c] + after;
            let i = before.len() as int;
            &&& !is_blank(c) && !starts_word(c) && !text::is_digit(c) && !seq![
                '.',
                '(',
                ')',
                '[',
                ']',
                ',',
                '=',
                '!',
                '<',
                '>',
                '"',
            ].contains(c) ==> token_at(s, i) == Err::<(Option<TokenView>, int), Seq<char>>(
                "unexpected character '"@ + seq![c] + "' at column "@ + text::decimal(
                    (i + 1) as nat,
                ),
            )
            &&& c == '=' && (after.len() == 0 || after[0] != '=') ==> token_at(s, i) == Err::<
                (Option<TokenView>, int),
                Seq<char>,
            >("single '=' is not an operator; use ==, !=, <=, >=, <, >"@)
            &&& c == '!' && (after.len() == 0 || after[0] != '=') ==> token_at(s, i) == Err::<
                (Option<TokenView>, int),
                Seq<char>,
            >("single '!' is not an operator; use != for inequality"@)
        }),
{
    let s = before + seq![c] + after;
    let i = before.len() as int;
    assert(s[i] == c);
    if after.len() > 0 {
        assert(s[i + 1] == after[0]);
    }
    let known = seq!['.', '(', ')', '[', ']', ',', '=', '!', '<', '>', '"'];
    assert(known[0] == '.' && known[1] == '(' && known[2] == ')' && known[3] == '[' && known[4]
        == ']' && known[5] == ',' && known[6] == '=' && known[7] == '!' && known[8] == '<'
        && known[9] == '>' && known[10] == '"');
}

/// A text is read token by token from where it starts, blanks give none, and
/// the first thing that is no token is its error.
pub proof fn law_token_by_token(s: Seq<char>, i: int)
    requires
        0 <= i < s.len(),
    ensures
        tokens_from(s, s.len() as int) == Ok::<Seq<TokenView>, Seq<char>>(Seq::empty()),
        match token_at(s, i) {
            Err(e) => tokens_from(s, i) == Err::<Seq<TokenView>, Seq<char>>(e),
            Ok((token, end)) => match tokens_from(s, end) {
                Err(e) => tokens_from(s, i) == Err::<Seq<TokenView>, Seq<char>>(e),
                Ok(rest) => tokens_from(s, i) == Ok::<Seq<TokenView>, Seq<char>>(
                    match token {
                        Some(token) => seq![token] + rest,
                        None => rest,
                    },
                ),
            },
        },
        is_blank(s[i]) ==> token_at(s, i) == Ok::<(Option<TokenView>, int), Seq<char>>(
            (None, i + 1),
        ),
        s[i] == '"' ==> match string_at(s, i + 1) {
            Ok((said, end)) => token_at(s, i) == Ok::<(Option<TokenView>, int), Seq<char>>(
                (Some(TokenView::Str(said)), end),
            ),
            Err(e) => token_at(s, i) == Err::<(Option<TokenView>, int), Seq<char>>(
                "at column "@ + text::decimal((i + 1) as nat) + ": bad string literal"@ + ": "@ + e,
            ),
        },
{
    lemma_token_at(s, i);
}

}
