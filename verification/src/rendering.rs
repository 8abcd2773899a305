//! Clauses as reports render them: each reads back as the clause that it
//! renders.

use crate::assertion;
use crate::grammar;
use crate::lexer;
use crate::lexer::{Sign, TokenView};
use crate::syntax;
use crate::syntax::{CmpOp, LitView, NodeView, OperandView, SegView};
use crate::text;
use vstd::prelude::*;

verus! {

/// A word that names a key, and is no word of the grammar.
pub open spec fn is_name(word: Seq<char>) -> bool {
    &&& word.len() > 0
    &&& lexer::starts_word(word[0])
    &&& forall|k: int| 0 <= k < word.len() ==> lexer::in_word(#[trigger] word[k])
    &&& lexer::word_token(word) == TokenView::Ident(word)
}

/// A step behind a dot is a name.
pub open spec fn step_is_written(step: SegView) -> bool {
    step matches SegView::Key(key) ==> is_name(key)
}

/// An operand that an expression can have and that holds no number: a path of
/// names and quoted keys, a string, or a truth value.
pub open spec fn operand_is_written(operand: OperandView) -> bool {
    match operand {
        OperandView::Path(steps) => steps.len() > 0 && steps[0] is Key && forall|k: int|
            0 <= k < steps.len() ==> step_is_written(#[trigger] steps[k]),
        OperandView::Lit(LitView::Num(_)) => false,
        OperandView::Lit(_) => true,
    }
}

/// Whether a text stands at `i`.
spec fn at(s: Seq<char>, i: int, w: Seq<char>) -> bool {
    &&& 0 <= i
    &&& i + w.len() <= s.len()
    &&& forall|k: int| 0 <= k < w.len() ==> s[i + k] == #[trigger] w[k]
}

/// What stands at `i` does not go on with a word.
spec fn ends_word(s: Seq<char>, i: int) -> bool {
    i >= s.len() || !lexer::in_word(s[i])
}

/// Tokens before those that follow.
spec fn before(
    tokens: Seq<TokenView>,
    rest: Result<Seq<TokenView>, Seq<char>>,
) -> Result<Seq<TokenView>, Seq<char>> {
    match rest {
        Ok(more) => Ok(tokens + more),
        Err(e) => Err(e),
    }
}

/// Where two pieces stand, each of them does.
proof fn lemma_split(s: Seq<char>, i: int, a: Seq<char>, b: Seq<char>)
    requires
        at(s, i, a + b),
    ensures
        at(s, i, a),
        at(s, i + a.len(), b),
{
    let w = a + b;
    assert forall|k: int| 0 <= k < a.len() implies s[i + k] == #[trigger] a[k] by {
        assert(s[i + k] == w[k]);
    }
    assert forall|k: int| 0 <= k < b.len() implies s[i + a.len() + k] == #[trigger] b[k] by {
        assert(s[i + (a.len() + k)] == w[a.len() + k]);
    }
}

/// Tokens before others before what follows.
proof fn lemma_before(
    a: Seq<TokenView>,
    b: Seq<TokenView>,
    rest: Result<Seq<TokenView>, Seq<char>>,
)
    ensures
        before(a, before(b, rest)) == before(a + b, rest),
{
    if let Ok(more) = rest {
        assert(a + (b + more) =~= (a + b) + more);
    }
}

/// A sign of one character is a token.
proof fn lemma_sign(s: Seq<char>, i: int, sign: Sign)
    requires
        0 <= i < s.len(),
        match sign {
            Sign::Dot => s[i] == '.',
            Sign::LBracket => s[i] == '[',
            Sign::RBracket => s[i] == ']',
            Sign::Comma => s[i] == ',',
            _ => false,
        },
    ensures
        lexer::tokens_from(s, i) == before(grammar::one(sign), lexer::tokens_from(s, i + 1)),
{
}

/// A space is no token.
proof fn lemma_space(s: Seq<char>, i: int)
    requires
        0 <= i < s.len(),
        s[i] == ' ',
    ensures
        lexer::tokens_from(s, i) == lexer::tokens_from(s, i + 1),
{
}

/// A run of word characters ends where they do.
proof fn lemma_word_end(s: Seq<char>, i: int, end: int)
    requires
        0 <= i <= end <= s.len(),
        forall|k: int| i <= k < end ==> lexer::in_word(#[trigger] s[k]),
        ends_word(s, end),
    ensures
        lexer::word_end(s, i) == end,
    decreases end - i,
{
    if i < end {
        lemma_word_end(s, i + 1, end);
    }
}

/// A word is a token.
proof fn lemma_word(s: Seq<char>, i: int, word: Seq<char>)
    requires
        word.len() > 0,
        lexer::starts_word(word[0]),
        forall|k: int| 0 <= k < word.len() ==> lexer::in_word(#[trigger] word[k]),
        at(s, i, word),
        ends_word(s, i + word.len()),
    ensures
        lexer::tokens_from(s, i) == before(
            seq![lexer::word_token(word)],
            lexer::tokens_from(s, i + word.len()),
        ),
{
    let end = i + word.len();
    assert(s[i + 0] == word[0]);
    assert forall|k: int| i <= k < end implies lexer::in_word(#[trigger] s[k]) by {
        assert(s[i + (k - i)] == word[k - i]);
    }
    lemma_word_end(s, i, end);
    assert(s.subrange(i, end) =~= word) by {
        assert forall|k: int| 0 <= k < word.len() implies s.subrange(i, end)[k] == word[k] by {
            assert(s[i + k] == word[k]);
        }
    }
}

/// A quoted text is a token.
proof fn lemma_string(s: Seq<char>, i: int, said: Seq<char>)
    requires
        at(s, i, seq!['"'] + assertion::escaped(said) + seq!['"']),
    ensures
        lexer::tokens_from(s, i) == before(
            seq![TokenView::Str(said)],
            lexer::tokens_from(s, i + assertion::escaped(said).len() + 2),
        ),
{
    let inner = assertion::escaped(said);
    let end = i + 1 + inner.len();
    lemma_split(s, i, seq!['"'] + inner, seq!['"']);
    lemma_split(s, i, seq!['"'], inner);
    assert(s[i + 0] == seq!['"'][0]);
    assert(s[end + 0] == seq!['"'][0]);
    let front = s.take(i + 1);
    let tail = s.skip(end);
    assert(s =~= front + inner + tail) by {
        assert forall|k: int| 0 <= k < s.len() implies s[k] == (front + inner + tail)[k] by {
            if i + 1 <= k < end {
                assert(s[i + 1 + (k - i - 1)] == inner[k - i - 1]);
            }
        }
    }
    assertion::lemma_escaped_at(front, said, tail);
}

/// The tokens of a step behind others.
spec fn step_tokens(step: SegView) -> Seq<TokenView> {
    match step {
        SegView::Key(key) => grammar::one(Sign::Dot) + seq![TokenView::Ident(key)],
        SegView::Index(key) => grammar::one(Sign::LBracket) + seq![TokenView::Str(key)]
            + grammar::one(Sign::RBracket),
    }
}

/// Steps one by one are steps before a last one.
proof fn lemma_steps_last(steps: Seq<SegView>)
    requires
        steps.len() > 0,
    ensures
        grammar::written_steps(steps) == grammar::written_steps(steps.drop_last()) + step_tokens(
            steps.last(),
        ),
    decreases steps.len(),
{
    reveal_with_fuel(grammar::written_steps, 2);
    if steps.len() == 1 {
        assert(steps.skip(1) =~= Seq::empty());
        assert(steps.drop_last() =~= Seq::empty());
        assert(grammar::written_steps(steps.skip(1)) =~= Seq::empty());
        assert(grammar::written_steps(steps.drop_last()) =~= Seq::empty());
        assert(step_tokens(steps[0]) + Seq::<TokenView>::empty() =~= Seq::<TokenView>::empty()
            + step_tokens(steps[0]));
    } else {
        let rest = steps.skip(1);
        lemma_steps_last(rest);
        assert(rest.drop_last() =~= steps.drop_last().skip(1));
        assert(rest.last() == steps.last());
        assert(steps.drop_last()[0] == steps[0]);
        assert(step_tokens(steps[0]) + (grammar::written_steps(rest.drop_last()) + step_tokens(
            steps.last(),
        )) =~= (step_tokens(steps[0]) + grammar::written_steps(rest.drop_last())) + step_tokens(
            steps.last(),
        ));
    }
}

/// The tokens of a path are those of its text.
proof fn lemma_path(s: Seq<char>, i: int, steps: Seq<SegView>)
    requires
        operand_is_written(OperandView::Path(steps)),
        at(s, i, assertion::path_text(steps)),
        ends_word(s, i + assertion::path_text(steps).len()),
    ensures
        lexer::tokens_from(s, i) == before(
            grammar::written_operand(OperandView::Path(steps)),
            lexer::tokens_from(s, i + assertion::path_text(steps).len()),
        ),
    decreases steps.len(),
{
    let whole = assertion::path_text(steps);
    let end = i + whole.len();
    let rest = lexer::tokens_from(s, end);
    let head = seq![TokenView::Ident(steps[0]->Key_0)];
    assert(step_is_written(steps[0]));
    if steps.len() == 1 {
        assert(steps.drop_last() =~= Seq::empty());
        assert(assertion::path_text(steps.drop_last()).len() == 0);
        assert(whole == steps[0]->Key_0);
        lemma_word(s, i, whole);
        assert(steps.skip(1) =~= Seq::empty());
        assert(grammar::written_steps(steps.skip(1)) =~= Seq::empty());
        assert(head + Seq::<TokenView>::empty() =~= head);
    } else {
        let front = steps.drop_last();
        let start = assertion::path_text(front);
        let mid = i + start.len();
        let last = steps.last();
        assert(front[0] == steps[0]);
        assert forall|k: int| 0 <= k < front.len() implies step_is_written(#[trigger] front[k]) by {
            assert(front[k] == steps[k]);
        }
        lemma_path_is_plain(front);
        assert(step_is_written(steps[steps.len() - 1]));
        let tail = steps.skip(1);
        assert(tail.drop_last() =~= front.skip(1));
        assert(tail.last() == last);
        lemma_steps_last(tail);
        let written_front = grammar::written_operand(OperandView::Path(front));
        assert(grammar::written_operand(OperandView::Path(steps)) =~= written_front + step_tokens(
            last,
        ));
        match last {
            SegView::Key(key) => {
                reveal_strlit(".");
                assert("."@ =~= seq!['.']);
                assert(whole == start + seq!['.'] + key);
                lemma_split(s, i, start + seq!['.'], key);
                lemma_split(s, i, start, seq!['.']);
                assert(s[mid + 0] == seq!['.'][0]);
                lemma_path(s, i, front);
                lemma_sign(s, mid, Sign::Dot);
                lemma_word(s, mid + 1, key);
                lemma_before(grammar::one(Sign::Dot), seq![TokenView::Ident(key)], rest);
            },
            SegView::Index(key) => {
                let inner = assertion::escaped(key);
                reveal_strlit("[\"");
                reveal_strlit("\"]");
                let quoted = seq!['"'] + inner + seq!['"'];
                assert(whole =~= start + (seq!['['] + quoted + seq![']']));
                lemma_split(s, i, start, seq!['['] + quoted + seq![']']);
                lemma_split(s, mid, seq!['['] + quoted, seq![']']);
                lemma_split(s, mid, seq!['['], quoted);
                assert(s[mid + 0] == seq!['['][0]);
                let close = mid + 1 + quoted.len();
                assert(s[close + 0] == seq![']'][0]);
                assert(close + 1 == end);
                lemma_path(s, i, front);
                lemma_sign(s, mid, Sign::LBracket);
                lemma_string(s, mid + 1, key);
                lemma_sign(s, close, Sign::RBracket);
                lemma_before(seq![TokenView::Str(key)], grammar::one(Sign::RBracket), rest);
                lemma_before(
                    grammar::one(Sign::LBracket),
                    seq![TokenView::Str(key)] + grammar::one(Sign::RBracket),
                    rest,
                );
                assert(step_tokens(last) =~= grammar::one(Sign::LBracket) + (seq![
                    TokenView::Str(key),
                ] + grammar::one(Sign::RBracket)));
            },
        }
        lemma_before(written_front, step_tokens(last), rest);
    }
}

/// The tokens of an operand are those of its text.
proof fn lemma_operand(s: Seq<char>, i: int, operand: OperandView)
    requires
        operand_is_written(operand),
        at(s, i, assertion::operand_text(operand)),
        ends_word(s, i + assertion::operand_text(operand).len()),
    ensures
        lexer::tokens_from(s, i) == before(
            grammar::written_operand(operand),
            lexer::tokens_from(s, i + assertion::operand_text(operand).len()),
        ),
{
    match operand {
        OperandView::Path(steps) => {
            lemma_path(s, i, steps);
        },
        OperandView::Lit(LitView::Str(said)) => {
            reveal_strlit("\"");
            assert("\""@ =~= seq!['"']);
            lemma_string(s, i, said);
        },
        OperandView::Lit(LitView::Bool(b)) => {
            lemma_truth_values();
            lemma_word(s, i, assertion::operand_text(operand));
        },
        _ => {},
    }
}

/// An operand without numbers, as reports render it, reads back as that
/// operand, and nothing is left over.
pub proof fn law_rendered_operand_reads_back(operand: OperandView)
    requires
        operand_is_written(operand),
    ensures
        lexer::tokens_from(assertion::operand_text(operand), 0) == Ok::<Seq<TokenView>, Seq<char>>(
            grammar::written_operand(operand),
        ),
        syntax::operand_at(grammar::written_operand(operand), 0) == Ok::<
            (OperandView, int),
            Seq<char>,
        >((operand, grammar::written_operand(operand).len() as int)),
{
    let s = assertion::operand_text(operand);
    assert(at(s, 0, s));
    lemma_operand(s, 0, operand);
    let tokens = grammar::written_operand(operand);
    assert(tokens + Seq::<TokenView>::empty() =~= tokens);
    grammar::law_operand_reads_back(operand);
}

/// Where a run of word characters ends, all before are such characters.
proof fn lemma_in_word(s: Seq<char>, i: int)
    requires
        0 <= i <= s.len(),
    ensures
        i <= lexer::word_end(s, i) <= s.len(),
        forall|k: int| i <= k < lexer::word_end(s, i) ==> lexer::in_word(#[trigger] s[k]),
    decreases s.len() - i,
{
    if i < s.len() && lexer::in_word(s[i]) {
        lemma_in_word(s, i + 1);
    }
}

/// Whether all word tokens are names.
spec fn are_names(t: Seq<TokenView>) -> bool {
    forall|k: int| 0 <= k < t.len() && (#[trigger] t[k]) is Ident ==> is_name(t[k]->Ident_0)
}

/// Every word token of a text is a name.
proof fn lemma_names(s: Seq<char>, i: int)
    requires
        0 <= i <= s.len(),
    ensures
        lexer::tokens_from(s, i) matches Ok(tokens) ==> are_names(tokens),
    decreases s.len() - i,
{
    if i < s.len() {
        lexer::lemma_token_at(s, i);
        if let Ok((token, end)) = lexer::token_at(s, i) {
            lemma_names(s, end);
            if let (Some(token), Ok(rest)) = (token, lexer::tokens_from(s, end)) {
                if token is Ident {
                    lemma_in_word(s, i);
                    lemma_in_word(s, i + 1);
                    let word = s.subrange(i, lexer::word_end(s, i));
                    assert(word[0] == s[i]);
                    assert forall|k: int| 0 <= k < word.len() implies lexer::in_word(
                        #[trigger] word[k],
                    ) by {
                        assert(word[k] == s[i + k]);
                    }
                    assert(is_name(token->Ident_0));
                }
                let tokens = seq![token] + rest;
                assert forall|k: int|
                    0 <= k < tokens.len() && (#[trigger] tokens[k]) is Ident implies is_name(
                    tokens[k]->Ident_0,
                ) by {
                    if k > 0 {
                        assert(tokens[k] == rest[k - 1]);
                    }
                }
            }
        }
    }
}

/// The steps of a path that is read from names are written as steps are.
proof fn lemma_path_is_written(t: Seq<TokenView>, i: int, steps: Seq<SegView>)
    requires
        are_names(t),
        operand_is_written(OperandView::Path(steps)),
        0 <= i,
    ensures
        syntax::path_at(t, i, steps) matches Ok((path, _)) ==> path is Path
            && operand_is_written(path),
    decreases t.len() - i,
{
    if syntax::sign_here(t, i, Sign::Dot) {
        if i + 1 < t.len() && t[i + 1] is Ident {
            let more = steps.push(SegView::Key(t[i + 1]->Ident_0));
            lemma_pushed_is_written(steps, SegView::Key(t[i + 1]->Ident_0));
            lemma_path_is_written(t, i + 2, more);
        }
    } else if syntax::sign_here(t, i, Sign::LBracket) {
        if i + 1 < t.len() && t[i + 1] is Str && syntax::sign_here(t, i + 2, Sign::RBracket) {
            let more = steps.push(SegView::Index(t[i + 1]->Str_0));
            lemma_pushed_is_written(steps, SegView::Index(t[i + 1]->Str_0));
            lemma_path_is_written(t, i + 3, more);
        }
    }
}

/// One more step behind others.
proof fn lemma_pushed_is_written(steps: Seq<SegView>, step: SegView)
    requires
        operand_is_written(OperandView::Path(steps)),
        step_is_written(step),
    ensures
        operand_is_written(OperandView::Path(steps.push(step))),
{
    let more = steps.push(step);
    assert(more[0] == steps[0]);
    assert forall|k: int| 0 <= k < more.len() implies step_is_written(#[trigger] more[k]) by {
        if k < steps.len() {
            assert(more[k] == steps[k]);
        }
    }
}

/// A path that can be written starts with a name.
proof fn lemma_path_is_plain(steps: Seq<SegView>)
    requires
        operand_is_written(OperandView::Path(steps)),
    ensures
        assertion::path_text(steps).len() > 0,
        lexer::starts_word(assertion::path_text(steps)[0]),
    decreases steps.len(),
{
    let front = steps.drop_last();
    assert(step_is_written(steps[0]));
    if steps.len() > 1 {
        assert(front[0] == steps[0]);
        assert forall|k: int| 0 <= k < front.len() implies step_is_written(#[trigger] front[k]) by {
            assert(front[k] == steps[k]);
        }
        lemma_path_is_plain(front);
        assert(assertion::path_text(steps)[0] == assertion::path_text(front)[0]);
    } else {
        assert(front =~= Seq::empty());
        assert(assertion::path_text(front).len() == 0);
        assert(steps.last() == steps[0]);
    }
}

/// An operand that is read starts as no array or object does.
proof fn lemma_operand_is_plain(t: Seq<TokenView>, i: int)
    requires
        are_names(t),
    ensures
        syntax::operand_at(t, i) matches Ok((operand, _)) ==> assertion::is_plain(operand),
{
    if 0 <= i < t.len() {
        if let TokenView::Ident(head) = t[i] {
            let first = seq![SegView::Key(head)];
            assert(operand_is_written(OperandView::Path(first)));
            lemma_path_is_written(t, i + 1, first);
            if let Ok((OperandView::Path(steps), _)) = syntax::operand_at(t, i) {
                lemma_path_is_plain(steps);
            }
        }
    }
}

/// A list keeps its first item.
proof fn lemma_first_item(t: Seq<TokenView>, i: int, items: Seq<OperandView>)
    requires
        items.len() > 0,
        0 <= i,
    ensures
        syntax::items_at(t, i, items) matches Ok((list, _)) ==> list.len() > 0 && list[0]
            == items[0],
    decreases t.len() - i,
{
    if syntax::sign_here(t, i, Sign::Comma) {
        syntax::lemma_operand_at(t, i + 1);
        if let Ok((item, end)) = syntax::operand_at(t, i + 1) {
            lemma_first_item(t, end, items.push(item));
        }
    }
}

proof fn lemma_comparison_is_plain(t: Seq<TokenView>, i: int)
    requires
        are_names(t),
    ensures
        syntax::comparison_at(t, i) matches Ok((node, _)) ==> assertion::has_plain_lists(node),
{
    if let Ok((left, mid)) = syntax::operand_at(t, i) {
        if syntax::sign_here(t, mid, Sign::In) {
            lemma_operand_is_plain(t, mid + 2);
            syntax::lemma_operand_at(t, mid + 2);
            if let Ok((item, end)) = syntax::operand_at(t, mid + 2) {
                lemma_first_item(t, end, seq![item]);
            }
        }
    }
}

proof fn lemma_unary_is_plain(t: Seq<TokenView>, i: int)
    requires
        are_names(t),
    ensures
        syntax::unary_at(t, i) matches Ok((node, _)) ==> assertion::has_plain_lists(node),
    decreases t.len() - i, 0nat,
{
    if syntax::sign_here(t, i, Sign::Not) {
        lemma_unary_is_plain(t, i + 1);
    } else if syntax::sign_here(t, i, Sign::LParen) {
        lemma_any_is_plain(t, i + 1, Seq::empty());
    } else {
        lemma_comparison_is_plain(t, i);
    }
}

proof fn lemma_all_is_plain(t: Seq<TokenView>, i: int, parts: Seq<NodeView>)
    requires
        are_names(t),
        assertion::all_have_plain_lists(parts),
    ensures
        syntax::and_at(t, i, parts) matches Ok((node, _)) ==> assertion::has_plain_lists(node),
    decreases t.len() - i, 1nat,
{
    lemma_unary_is_plain(t, i);
    if let Ok((part, end)) = syntax::unary_at(t, i) {
        assert(parts.push(part).drop_last() =~= parts);
        assert(assertion::all_have_plain_lists(parts.push(part)));
        if i <= end && syntax::sign_here(t, end, Sign::And) {
            lemma_all_is_plain(t, end + 1, parts.push(part));
        }
    }
}

proof fn lemma_any_is_plain(t: Seq<TokenView>, i: int, parts: Seq<NodeView>)
    requires
        are_names(t),
        assertion::all_have_plain_lists(parts),
    ensures
        syntax::or_at(t, i, parts) matches Ok((node, _)) ==> assertion::has_plain_lists(node),
    decreases t.len() - i, 2nat,
{
    lemma_all_is_plain(t, i, Seq::empty());
    if let Ok((part, end)) = syntax::and_at(t, i, Seq::empty()) {
        assert(parts.push(part).drop_last() =~= parts);
        assert(assertion::all_have_plain_lists(parts.push(part)));
        if i <= end && syntax::sign_here(t, end, Sign::Or) {
            lemma_any_is_plain(t, end + 1, parts.push(part));
        }
    }
}

/// The lists of an expression that is read from a text, written out, start as
/// no array or object does.
pub proof fn lemma_lists_are_plain(src: Seq<char>)
    ensures
        assertion::parsed(src) matches Ok(node) ==> assertion::has_plain_lists(node),
{
    lemma_names(src, 0);
    if let Ok(tokens) = lexer::tokens_from(src, 0) {
        lemma_any_is_plain(tokens, 0, Seq::empty());
    }
}

/// Every path that is read from a text, rendered, reads back as that path, and
/// nothing is left over.
pub proof fn law_path_reads_back(
    src: Seq<char>,
    tokens: Seq<TokenView>,
    i: int,
    steps: Seq<SegView>,
    end: int,
)
    requires
        lexer::tokens_from(src, 0) == Ok::<Seq<TokenView>, Seq<char>>(tokens),
        syntax::operand_at(tokens, i) == Ok::<(OperandView, int), Seq<char>>(
            (OperandView::Path(steps), end),
        ),
    ensures
        lexer::tokens_from(assertion::path_text(steps), 0) matches Ok(again)
            && syntax::operand_at(again, 0) == Ok::<(OperandView, int), Seq<char>>(
            (OperandView::Path(steps), again.len() as int),
        ),
{
    lemma_names(src, 0);
    let head = tokens[i]->Ident_0;
    assert(tokens[i] is Ident);
    let first = seq![SegView::Key(head)];
    assert(operand_is_written(OperandView::Path(first)));
    lemma_path_is_written(tokens, i + 1, first);
    law_rendered_operand_reads_back(OperandView::Path(steps));
}

/// The words of truth values.
proof fn lemma_truth_values()
    ensures
        "true"@.len() > 0,
        "false"@.len() > 0,
        lexer::starts_word("true"@[0]),
        lexer::starts_word("false"@[0]),
        forall|k: int| 0 <= k < "true"@.len() ==> lexer::in_word(#[trigger] "true"@[k]),
        forall|k: int| 0 <= k < "false"@.len() ==> lexer::in_word(#[trigger] "false"@[k]),
        lexer::word_token("true"@) == TokenView::True,
        lexer::word_token("false"@) == TokenView::False,
{
    reveal_strlit("true");
    reveal_strlit("false");
    reveal_strlit("and");
    reveal_strlit("or");
    reveal_strlit("not");
    reveal_strlit("in");
    assert("true"@.len() == 4 && "false"@.len() == 5 && "and"@.len() == 3);
    assert("or"@.len() == 2 && "not"@.len() == 3 && "in"@.len() == 2);
}

/// An operator before a space is a token.
proof fn lemma_operator(s: Seq<char>, i: int, op: CmpOp)
    requires
        at(s, i, assertion::operator_text(op) + seq![' ']),
    ensures
        lexer::tokens_from(s, i) == before(
            grammar::one(grammar::operator_sign(op)),
            lexer::tokens_from(s, i + assertion::operator_text(op).len()),
        ),
{
    let w = assertion::operator_text(op);
    reveal_strlit("<=");
    reveal_strlit(">=");
    reveal_strlit("==");
    reveal_strlit("!=");
    reveal_strlit("<");
    reveal_strlit(">");
    lemma_split(s, i, w, seq![' ']);
    assert(s[i + 0] == w[0]);
    assert(s[i + w.len() + 0] == seq![' '][0]);
    if w.len() == 2 {
        assert(s[i + 1] == w[1]);
    }
}

/// The text of a comparison behind its left operand.
spec fn tail_text(op: CmpOp, right: OperandView) -> Seq<char> {
    seq![' '] + ((assertion::operator_text(op) + seq![' ']) + assertion::operand_text(right))
}

/// A comparison is its left operand, and what stands behind it.
proof fn lemma_comparison_text(left: OperandView, op: CmpOp, right: OperandView)
    ensures
        assertion::comparison_text(left, op, right) == assertion::operand_text(left) + tail_text(
            op,
            right,
        ),
{
    reveal_strlit(" ");
    assert(" "@ =~= seq![' ']);
    assert(assertion::comparison_text(left, op, right) =~= assertion::operand_text(left)
        + tail_text(op, right));
}

/// The tokens of a comparison behind its left operand.
proof fn lemma_tail(s: Seq<char>, n: int, op: CmpOp, right: OperandView)
    requires
        operand_is_written(right),
        at(s, n, tail_text(op, right)),
        n + tail_text(op, right).len() == s.len(),
    ensures
        ends_word(s, n),
        lexer::tokens_from(s, n) == Ok::<Seq<TokenView>, Seq<char>>(
            grammar::one(grammar::operator_sign(op)) + grammar::written_operand(right),
        ),
{
    let r = assertion::operand_text(right);
    let o = assertion::operator_text(op);
    let gap = seq![' '];
    let from = n + 1;
    let to = from + o.len();
    lemma_split(s, n, gap, (o + gap) + r);
    lemma_split(s, from, o + gap, r);
    lemma_split(s, from, o, gap);
    assert(s[n + 0] == gap[0]);
    assert(s[to + 0] == gap[0]);
    let b = grammar::written_operand(right);
    lemma_space(s, n);
    lemma_operator(s, from, op);
    lemma_space(s, to);
    lemma_operand(s, to + 1, right);
    assert(lexer::tokens_from(s, s.len() as int) == Ok::<Seq<TokenView>, Seq<char>>(Seq::empty()));
    assert(b + Seq::<TokenView>::empty() =~= b);
}

/// A comparison without numbers, as reports render it, reads back as that
/// comparison.
pub proof fn law_rendered_comparison_reads_back(left: OperandView, op: CmpOp, right: OperandView)
    requires
        operand_is_written(left),
        operand_is_written(right),
    ensures
        assertion::parsed(assertion::comparison_text(left, op, right)) == Ok::<
            NodeView,
            Seq<char>,
        >((NodeView::Cmp { left, op, right })),
{
    let s = assertion::comparison_text(left, op, right);
    let node = NodeView::Cmp { left, op, right };
    let l = assertion::operand_text(left);
    lemma_comparison_text(left, op, right);
    assert(at(s, 0, s));
    lemma_split(s, 0, l, tail_text(op, right));
    lemma_tail(s, l.len() as int, op, right);
    lemma_operand(s, 0, left);
    let a = grammar::written_operand(left);
    let sign = grammar::one(grammar::operator_sign(op));
    let b = grammar::written_operand(right);
    assert(a + (sign + b) =~= grammar::written(node, grammar::Binding::Or));
    grammar::law_written_reads_back(node);
}

/// The operands of a list, with commas and spaces between them, up to the
/// closing bracket.
spec fn items_text(list: Seq<OperandView>) -> Seq<char>
    decreases list.len(),
{
    if list.len() == 0 {
        seq![']']
    } else {
        seq![',', ' '] + assertion::operand_text(list[0]) + items_text(list.skip(1))
    }
}

/// The texts of operands.
spec fn operand_texts(list: Seq<OperandView>) -> Seq<Seq<char>> {
    list.map_values(|o: OperandView| assertion::operand_text(o))
}

/// Operands joined behind a first one, and closed.
proof fn lemma_joined(list: Seq<OperandView>)
    requires
        list.len() > 0,
    ensures
        text::joined(operand_texts(list), ", "@) + seq![']'] == assertion::operand_text(list[0])
            + items_text(list.skip(1)),
    decreases list.len(),
{
    let texts = operand_texts(list);
    let front = list.drop_last();
    reveal_strlit(", ");
    assert(", "@ =~= seq![',', ' ']);
    if list.len() == 1 {
        assert(list.skip(1) =~= Seq::empty());
        assert(items_text(list.skip(1)) =~= seq![']']);
    } else {
        assert(texts.drop_last() =~= operand_texts(front));
        assert(texts.last() == assertion::operand_text(list.last()));
        lemma_joined(front);
        assert(front.skip(1) =~= list.skip(1).drop_last());
        lemma_items_last(list.skip(1));
        assert(list.skip(1).last() == list.last());
        let shorter = text::joined(operand_texts(front), ", "@);
        let open = items_open(front.skip(1));
        let first = assertion::operand_text(list[0]);
        let last = assertion::operand_text(list.last());
        lemma_items_close(front.skip(1));
        assert(shorter =~= first + open) by {
            assert(shorter + seq![']'] == first + (open + seq![']']));
            assert((shorter + seq![']']).drop_last() =~= shorter);
            assert((first + (open + seq![']'])).drop_last() =~= first + open);
        }
        assert(text::joined(texts, ", "@) + seq![']'] =~= first + (open + seq![',', ' '] + last
            + seq![']']));
    }
}

/// The operands of a list, with commas and spaces before them.
spec fn items_open(list: Seq<OperandView>) -> Seq<char>
    decreases list.len(),
{
    if list.len() == 0 {
        Seq::empty()
    } else {
        seq![',', ' '] + assertion::operand_text(list[0]) + items_open(list.skip(1))
    }
}

proof fn lemma_items_close(list: Seq<OperandView>)
    ensures
        items_text(list) == items_open(list) + seq![']'],
    decreases list.len(),
{
    if list.len() == 0 {
        assert(items_open(list) + seq![']'] =~= seq![']']);
    } else {
        lemma_items_close(list.skip(1));
        let first = seq![',', ' '] + assertion::operand_text(list[0]);
        assert(first + (items_open(list.skip(1)) + seq![']']) =~= (first + items_open(
            list.skip(1),
        )) + seq![']']);
    }
}

proof fn lemma_items_last(list: Seq<OperandView>)
    requires
        list.len() > 0,
    ensures
        items_text(list) == items_open(list.drop_last()) + seq![',', ' ']
            + assertion::operand_text(list.last()) + seq![']'],
    decreases list.len(),
{
    let gap = seq![',', ' '];
    let last = assertion::operand_text(list.last());
    if list.len() == 1 {
        assert(list.skip(1) =~= Seq::empty());
        assert(list.drop_last() =~= Seq::empty());
        assert(items_text(list.skip(1)) =~= seq![']']);
        assert(items_open(list.drop_last()) =~= Seq::empty());
        assert(items_text(list) =~= Seq::<char>::empty() + gap + last + seq![']']);
    } else {
        let rest = list.skip(1);
        lemma_items_last(rest);
        assert(rest.drop_last() =~= list.drop_last().skip(1));
        assert(rest.last() == list.last());
        assert(list.drop_last()[0] == list[0]);
        let first = gap + assertion::operand_text(list[0]);
        let open = items_open(rest.drop_last());
        assert(items_open(list.drop_last()) =~= first + open);
        assert(first + (open + gap + last + seq![']']) =~= (first + open) + gap + last + seq![
            ']',
        ]);
    }
}

/// The tokens of the rest of a list are those of its text.
proof fn lemma_items(s: Seq<char>, i: int, list: Seq<OperandView>)
    requires
        forall|k: int| 0 <= k < list.len() ==> operand_is_written(#[trigger] list[k]),
        at(s, i, items_text(list)),
    ensures
        lexer::tokens_from(s, i) == before(
            grammar::written_items(list),
            lexer::tokens_from(s, i + items_text(list).len()),
        ),
    decreases list.len(),
{
    let end = i + items_text(list).len();
    let after = lexer::tokens_from(s, end);
    if list.len() == 0 {
        assert(s[i + 0] == seq![']'][0]);
        lemma_sign(s, i, Sign::RBracket);
    } else {
        let rest = list.skip(1);
        let gap = seq![',', ' '];
        let first = assertion::operand_text(list[0]);
        lemma_split(s, i, gap + first, items_text(rest));
        lemma_split(s, i, gap, first);
        assert(s[i + 0] == gap[0]);
        assert(s[i + 1] == gap[1]);
        let mid = i + 2 + first.len();
        assert forall|k: int| 0 <= k < rest.len() implies operand_is_written(
            #[trigger] rest[k],
        ) by {
            assert(rest[k] == list[k + 1]);
        }
        assert(items_text(rest).len() > 0);
        assert(s[mid + 0] == items_text(rest)[0]);
        assert(ends_word(s, mid));
        lemma_items(s, mid, rest);
        assert(operand_is_written(list[0]));
        lemma_operand(s, i + 2, list[0]);
        lemma_space(s, i + 1);
        lemma_sign(s, i, Sign::Comma);
        let a = grammar::one(Sign::Comma);
        let b = grammar::written_operand(list[0]);
        let c = grammar::written_items(rest);
        lemma_before(b, c, after);
        lemma_before(a, b + c, after);
        assert(a + (b + c) =~= a + b + c);
    }
}

/// The text of a membership test behind its item.
spec fn test_text(list: Seq<OperandView>) -> Seq<char> {
    seq![' '] + ("in"@ + (seq![' '] + (seq!['['] + (assertion::operand_text(list[0]) + items_text(
        list.skip(1),
    )))))
}

/// A membership test is its item, and the test behind it.
proof fn lemma_membership_text(item: OperandView, list: Seq<OperandView>)
    requires
        list.len() > 0,
    ensures
        assertion::membership_text(item, list) == assertion::operand_text(item) + test_text(list),
{
    let l = assertion::operand_text(item);
    let joined = text::joined(operand_texts(list), ", "@);
    let gap = seq![' '];
    reveal_strlit(" in [");
    reveal_strlit("]");
    reveal_strlit("in");
    assert("]"@ =~= seq![']']);
    assert(" in ["@ =~= gap + "in"@ + gap + seq!['[']);
    assert(assertion::list_text(list) == joined);
    lemma_joined(list);
    assert(l + " in ["@ + joined + "]"@ =~= l + (gap + ("in"@ + (gap + (seq!['['] + (joined + seq![
        ']',
    ]))))));
}

/// The tokens of a membership test behind its item.
proof fn lemma_test(s: Seq<char>, n: int, list: Seq<OperandView>)
    requires
        list.len() > 0,
        forall|k: int| 0 <= k < list.len() ==> operand_is_written(#[trigger] list[k]),
        at(s, n, test_text(list)),
        n + test_text(list).len() == s.len(),
    ensures
        ends_word(s, n),
        lexer::tokens_from(s, n) == Ok::<Seq<TokenView>, Seq<char>>(
            grammar::one(Sign::In) + (grammar::one(Sign::LBracket) + (grammar::written_operand(
                list[0],
            ) + grammar::written_items(list.skip(1)))),
        ),
{
    let first = assertion::operand_text(list[0]);
    let rest = list.skip(1);
    let items = items_text(rest);
    let gap = seq![' '];
    let word = "in"@;
    reveal_strlit("in");
    lemma_split(s, n, gap, word + (gap + (seq!['['] + (first + items))));
    lemma_split(s, n + 1, word, gap + (seq!['['] + (first + items)));
    lemma_split(s, n + 3, gap, seq!['['] + (first + items));
    lemma_split(s, n + 4, seq!['['], first + items);
    assert(s[n + 0] == gap[0]);
    assert(s[n + 3 + 0] == gap[0]);
    assert(s[n + 4 + 0] == seq!['['][0]);
    lemma_first(s, n + 5, list);
    let b = grammar::one(Sign::In);
    let c = grammar::one(Sign::LBracket);
    let d = grammar::written_operand(list[0]) + grammar::written_items(rest);
    assert(d + Seq::<TokenView>::empty() =~= d);
    lemma_space(s, n);
    lemma_in();
    lemma_word(s, n + 1, word);
    lemma_space(s, n + 3);
    lemma_sign(s, n + 4, Sign::LBracket);
}

/// The tokens of a list behind its opening bracket.
proof fn lemma_first(s: Seq<char>, i: int, list: Seq<OperandView>)
    requires
        list.len() > 0,
        forall|k: int| 0 <= k < list.len() ==> operand_is_written(#[trigger] list[k]),
        at(s, i, assertion::operand_text(list[0]) + items_text(list.skip(1))),
        i + assertion::operand_text(list[0]).len() + items_text(list.skip(1)).len() == s.len(),
    ensures
        lexer::tokens_from(s, i) == Ok::<Seq<TokenView>, Seq<char>>(
            grammar::written_operand(list[0]) + grammar::written_items(list.skip(1)),
        ),
{
    let first = assertion::operand_text(list[0]);
    let rest = list.skip(1);
    let items = items_text(rest);
    let mid = i + first.len();
    lemma_split(s, i, first, items);
    assert(items.len() > 0);
    assert(s[mid + 0] == items[0]);
    assert forall|k: int| 0 <= k < rest.len() implies operand_is_written(#[trigger] rest[k]) by {
        assert(rest[k] == list[k + 1]);
    }
    let none = Ok::<Seq<TokenView>, Seq<char>>(Seq::empty());
    assert(lexer::tokens_from(s, s.len() as int) == none);
    assert(operand_is_written(list[0]));
    lemma_operand(s, i, list[0]);
    lemma_items(s, mid, rest);
    lemma_before(grammar::written_operand(list[0]), grammar::written_items(rest), none);
    let tokens = grammar::written_operand(list[0]) + grammar::written_items(rest);
    assert(tokens + Seq::<TokenView>::empty() =~= tokens);
}

/// The word of a membership test.
proof fn lemma_in()
    ensures
        "in"@.len() == 2,
        lexer::starts_word("in"@[0]),
        forall|k: int| 0 <= k < "in"@.len() ==> lexer::in_word(#[trigger] "in"@[k]),
        lexer::word_token("in"@) == TokenView::Sign(Sign::In),
{
    reveal_strlit("in");
    reveal_strlit("and");
    reveal_strlit("or");
    reveal_strlit("not");
    assert("and"@.len() == 3 && "not"@.len() == 3 && "or"@[0] == 'o' && "in"@[0] == 'i');
}

/// A membership test without numbers, as reports render it, reads back as that
/// test.
pub proof fn law_rendered_membership_reads_back(item: OperandView, list: Seq<OperandView>)
    requires
        operand_is_written(item),
        list.len() > 0,
        forall|k: int| 0 <= k < list.len() ==> operand_is_written(#[trigger] list[k]),
    ensures
        assertion::parsed(assertion::membership_text(item, list)) == Ok::<NodeView, Seq<char>>(
            (NodeView::In { item, list }),
        ),
{
    let s = assertion::membership_text(item, list);
    let node = NodeView::In { item, list };
    let l = assertion::operand_text(item);
    lemma_membership_text(item, list);
    assert(at(s, 0, s));
    lemma_split(s, 0, l, test_text(list));
    lemma_test(s, l.len() as int, list);
    lemma_operand(s, 0, item);
    let a = grammar::written_operand(item);
    let b = grammar::one(Sign::In);
    let c = grammar::one(Sign::LBracket);
    let d = grammar::written_operand(list[0]);
    let e = grammar::written_items(list.skip(1));
    assert(a + (b + (c + (d + e))) =~= grammar::written(node, grammar::Binding::Or));
    assert forall|k: int| 0 <= k < list.len() implies grammar::operand_has_form(
        #[trigger] list[k],
    ) by {
        assert(operand_is_written(list[k]));
    }
    grammar::law_written_reads_back(node);
}

} // verus!
