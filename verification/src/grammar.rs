//! Expressions written out as tokens, and read back.
//!
//! An expression is written with parentheses only where the precedence of
//! `not`, `and` and `or` asks for them. What is written reads back as the
//! same expression.

use crate::lexer::{Sign, TokenView};
use crate::syntax;
use crate::syntax::{CmpOp, LitView, NodeView, OperandView, SegView};
use vstd::prelude::*;

verus! {

/// One of the signs that join expressions and close them.
pub open spec fn one(sign: Sign) -> Seq<TokenView> {
    seq![TokenView::Sign(sign)]
}

/// The steps of a path behind its head.
pub open spec fn written_steps(steps: Seq<SegView>) -> Seq<TokenView>
    decreases steps.len(),
{
    if steps.len() == 0 {
        Seq::empty()
    } else {
        let first = match steps[0] {
            SegView::Key(key) => one(Sign::Dot) + seq![TokenView::Ident(key)],
            SegView::Index(key) => one(Sign::LBracket) + seq![TokenView::Str(key)] + one(
                Sign::RBracket,
            ),
        };
        first + written_steps(steps.skip(1))
    }
}

/// An operand that the grammar has: a path begins with a name.
pub open spec fn operand_has_form(operand: OperandView) -> bool {
    operand matches OperandView::Path(steps) ==> steps.len() > 0 && steps[0] is Key
}

/// An operand, written out.
pub open spec fn written_operand(operand: OperandView) -> Seq<TokenView> {
    match operand {
        OperandView::Lit(LitView::Num(n)) => seq![TokenView::Number(n)],
        OperandView::Lit(LitView::Str(s)) => seq![TokenView::Str(s)],
        OperandView::Lit(LitView::Bool(b)) => seq![
            if b {
                TokenView::True
            } else {
                TokenView::False
            },
        ],
        OperandView::Path(steps) => seq![TokenView::Ident(steps[0]->Key_0)] + written_steps(
            steps.skip(1),
        ),
    }
}

/// The rest of a list behind an operand of it, up to the closing bracket.
pub open spec fn written_items(list: Seq<OperandView>) -> Seq<TokenView>
    decreases list.len(),
{
    if list.len() == 0 {
        one(Sign::RBracket)
    } else {
        one(Sign::Comma) + written_operand(list[0]) + written_items(list.skip(1))
    }
}

/// The sign of a comparison operator.
pub open spec fn operator_sign(op: CmpOp) -> Sign {
    match op {
        CmpOp::Le => Sign::Le,
        CmpOp::Ge => Sign::Ge,
        CmpOp::Eq => Sign::Eq,
        CmpOp::Ne => Sign::Ne,
        CmpOp::Lt => Sign::Lt,
        CmpOp::Gt => Sign::Gt,
    }
}

/// How tightly an expression binds.
pub enum Binding {
    Or,
    And,
    Unary,
}

/// An expression where one is asked for that binds as tightly as `binding`.
pub open spec fn written(node: NodeView, binding: Binding) -> Seq<TokenView>
    decreases node,
{
    match node {
        NodeView::Or(parts) => {
            let inside = written_parts(parts, Sign::Or, Binding::And);
            if binding is Or {
                inside
            } else {
                one(Sign::LParen) + inside + one(Sign::RParen)
            }
        },
        NodeView::And(parts) => {
            let inside = written_parts(parts, Sign::And, Binding::Unary);
            if binding is Unary {
                one(Sign::LParen) + inside + one(Sign::RParen)
            } else {
                inside
            }
        },
        NodeView::Not(inner) => one(Sign::Not) + written(*inner, Binding::Unary),
        NodeView::Cmp { left, op, right } => written_operand(left) + one(operator_sign(op))
            + written_operand(right),
        NodeView::In { item, list } => written_operand(item) + one(Sign::In) + one(Sign::LBracket)
            + written_operand(list[0]) + written_items(list.skip(1)),
    }
}

/// Expressions with a sign between each two of them.
pub open spec fn written_parts(parts: Seq<NodeView>, sign: Sign, binding: Binding) -> Seq<
    TokenView,
>
    decreases parts,
{
    if parts.len() == 0 {
        Seq::empty()
    } else if parts.len() == 1 {
        written(parts[0], binding)
    } else {
        written(parts[0], binding) + one(sign) + written_parts(parts.skip(1), sign, binding)
    }
}

/// An expression that the grammar has: `and` and `or` join two expressions or
/// more, and a list is not empty.
pub open spec fn has_form(node: NodeView) -> bool
    decreases node,
{
    match node {
        NodeView::Or(parts) => parts.len() >= 2 && all_have_form(parts),
        NodeView::And(parts) => parts.len() >= 2 && all_have_form(parts),
        NodeView::Not(inner) => has_form(*inner),
        NodeView::Cmp { left, op, right } => operand_has_form(left) && operand_has_form(right),
        NodeView::In { item, list } => operand_has_form(item) && list.len() > 0 && forall|i: int|
            0 <= i < list.len() ==> operand_has_form(#[trigger] list[i]),
    }
}

/// Expressions that the grammar has.
pub open spec fn all_have_form(parts: Seq<NodeView>) -> bool
    decreases parts,
{
    parts.len() == 0 || (has_form(parts[0]) && all_have_form(parts.skip(1)))
}

/// Whether tokens stand at `i`.
spec fn at(t: Seq<TokenView>, i: int, w: Seq<TokenView>) -> bool {
    &&& 0 <= i
    &&& i + w.len() <= t.len()
    &&& forall|k: int| 0 <= k < w.len() ==> t[i + k] == #[trigger] w[k]
}

/// What stands at `i` ends an operand: it goes on with no dot and no bracket.
spec fn closes(t: Seq<TokenView>, i: int) -> bool {
    !syntax::sign_here(t, i, Sign::Dot) && !syntax::sign_here(t, i, Sign::LBracket)
}

/// Where two pieces stand, each of them does.
proof fn lemma_split(t: Seq<TokenView>, i: int, a: Seq<TokenView>, b: Seq<TokenView>)
    requires
        at(t, i, a + b),
    ensures
        at(t, i, a),
        at(t, i + a.len(), b),
{
    let w = a + b;
    assert forall|k: int| 0 <= k < a.len() implies t[i + k] == #[trigger] a[k] by {
        assert(t[i + k] == w[k]);
    }
    assert forall|k: int| 0 <= k < b.len() implies t[i + a.len() + k] == #[trigger] b[k] by {
        assert(t[i + (a.len() + k)] == w[a.len() + k]);
    }
}

/// Where a sign stands first, it is the sign there.
proof fn lemma_sign(t: Seq<TokenView>, i: int, sign: Sign)
    requires
        at(t, i, one(sign)),
    ensures
        syntax::sign_here(t, i, sign),
{
    assert(t[i + 0] == one(sign)[0]);
}

/// Nothing before a list is the list.
proof fn lemma_none_before(parts: Seq<NodeView>)
    ensures
        Seq::<NodeView>::empty() + parts == parts,
        parts.len() != 1 ==> syntax::any_of(Seq::<NodeView>::empty() + parts) == NodeView::Or(parts),
{
    assert(Seq::<NodeView>::empty() + parts =~= parts);
}

proof fn lemma_steps(t: Seq<TokenView>, i: int, before: Seq<SegView>, steps: Seq<SegView>)
    requires
        at(t, i, written_steps(steps)),
        closes(t, i + written_steps(steps).len()),
    ensures
        syntax::path_at(t, i, before) == Ok::<(OperandView, int), Seq<char>>(
            (OperandView::Path(before + steps), i + written_steps(steps).len()),
        ),
    decreases steps.len(),
{
    if steps.len() == 0 {
        assert(before + steps =~= before);
    } else {
        let rest = steps.skip(1);
        assert(before.push(steps[0]) + rest =~= before + steps);
        match steps[0] {
            SegView::Key(key) => {
                let first = one(Sign::Dot) + seq![TokenView::Ident(key)];
                lemma_split(t, i, first, written_steps(rest));
                assert(t[i + 0] == first[0]);
                assert(t[i + 1] == first[1]);
                lemma_steps(t, i + 2, before.push(steps[0]), rest);
            },
            SegView::Index(key) => {
                let first = one(Sign::LBracket) + seq![TokenView::Str(key)] + one(Sign::RBracket);
                lemma_split(t, i, first, written_steps(rest));
                assert(t[i + 0] == first[0]);
                assert(t[i + 1] == first[1]);
                assert(t[i + 2] == first[2]);
                lemma_steps(t, i + 3, before.push(steps[0]), rest);
            },
        }
    }
}

proof fn lemma_operand(t: Seq<TokenView>, i: int, operand: OperandView)
    requires
        operand_has_form(operand),
        at(t, i, written_operand(operand)),
        closes(t, i + written_operand(operand).len()),
    ensures
        syntax::operand_at(t, i) == Ok::<(OperandView, int), Seq<char>>(
            (operand, i + written_operand(operand).len()),
        ),
{
    let w = written_operand(operand);
    assert(t[i + 0] == w[0]);
    if let OperandView::Path(steps) = operand {
        let head = seq![TokenView::Ident(steps[0]->Key_0)];
        lemma_split(t, i, head, written_steps(steps.skip(1)));
        let key = seq![SegView::Key(steps[0]->Key_0)];
        lemma_steps(t, i + 1, key, steps.skip(1));
        assert(key + steps.skip(1) =~= steps);
    }
}

proof fn lemma_items(
    t: Seq<TokenView>,
    i: int,
    before: Seq<OperandView>,
    list: Seq<OperandView>,
)
    requires
        at(t, i, written_items(list)),
        forall|k: int| 0 <= k < list.len() ==> operand_has_form(#[trigger] list[k]),
    ensures
        syntax::items_at(t, i, before) == Ok::<(Seq<OperandView>, int), Seq<char>>(
            (before + list, i + written_items(list).len()),
        ),
    decreases list.len(),
{
    if list.len() == 0 {
        lemma_sign(t, i, Sign::RBracket);
        assert(before + list =~= before);
    } else {
        let rest = list.skip(1);
        let first = one(Sign::Comma) + written_operand(list[0]);
        lemma_split(t, i, first, written_items(rest));
        lemma_split(t, i, one(Sign::Comma), written_operand(list[0]));
        lemma_sign(t, i, Sign::Comma);
        lemma_items_close(t, i + first.len(), rest);
        lemma_operand(t, i + 1, list[0]);
        assert forall|k: int| 0 <= k < rest.len() implies operand_has_form(#[trigger] rest[k]) by {
            assert(rest[k] == list[k + 1]);
        }
        lemma_items(t, i + first.len(), before.push(list[0]), rest);
        assert(before.push(list[0]) + rest =~= before + list);
    }
}

/// What follows an operand of a list ends it.
proof fn lemma_items_close(t: Seq<TokenView>, i: int, list: Seq<OperandView>)
    requires
        at(t, i, written_items(list)),
    ensures
        closes(t, i),
{
    let w = written_items(list);
    assert(w[0] == TokenView::Sign(Sign::RBracket) || w[0] == TokenView::Sign(Sign::Comma));
    assert(t[i + 0] == w[0]);
}

/// What follows a unary expression ends its last operand.
proof fn lemma_comparison(t: Seq<TokenView>, i: int, node: NodeView)
    requires
        node is Cmp || node is In,
        has_form(node),
        at(t, i, written(node, Binding::Unary)),
        closes(t, i + written(node, Binding::Unary).len()),
    ensures
        syntax::unary_at(t, i) == Ok::<(NodeView, int), Seq<char>>(
            (node, i + written(node, Binding::Unary).len()),
        ),
{
    match node {
        NodeView::Cmp { left, op, right } => {
            let sign = operator_sign(op);
            let l = written_operand(left);
            let r = written_operand(right);
            lemma_split(t, i, l + one(sign), r);
            lemma_split(t, i, l, one(sign));
            lemma_sign(t, i + l.len(), sign);
            lemma_operand(t, i, left);
            lemma_operand(t, i + l.len() + 1, right);
            assert(t[i + 0] == l[0]);
        },
        NodeView::In { item, list } => {
            let l = written_operand(item);
            let first = written_operand(list[0]);
            let rest = list.skip(1);
            let head = l + one(Sign::In) + one(Sign::LBracket);
            lemma_split(t, i, head + first, written_items(rest));
            lemma_split(t, i, head, first);
            lemma_split(t, i, l + one(Sign::In), one(Sign::LBracket));
            lemma_split(t, i, l, one(Sign::In));
            lemma_sign(t, i + l.len(), Sign::In);
            lemma_sign(t, i + l.len() + 1, Sign::LBracket);
            lemma_operand(t, i, item);
            let j = i + l.len() + 2;
            lemma_items_close(t, j + first.len(), rest);
            assert(operand_has_form(list[0]));
            lemma_operand(t, j, list[0]);
            assert forall|k: int| 0 <= k < rest.len() implies operand_has_form(
                #[trigger] rest[k],
            ) by {
                assert(rest[k] == list[k + 1]);
            }
            lemma_items(t, j + first.len(), seq![list[0]], rest);
            assert(seq![list[0]] + rest =~= list);
            assert(t[i + 0] == l[0]);
        },
        _ => {},
    }
}

/// A unary expression reads back.
proof fn lemma_unary(t: Seq<TokenView>, i: int, node: NodeView)
    requires
        has_form(node),
        at(t, i, written(node, Binding::Unary)),
        closes(t, i + written(node, Binding::Unary).len()),
    ensures
        syntax::unary_at(t, i) == Ok::<(NodeView, int), Seq<char>>(
            (node, i + written(node, Binding::Unary).len()),
        ),
    decreases node, 0nat, 0nat,
{
    let w = written(node, Binding::Unary);
    match node {
        NodeView::Or(parts) => {
            let inside = written_parts(parts, Sign::Or, Binding::And);
            lemma_split(t, i, one(Sign::LParen) + inside, one(Sign::RParen));
            lemma_split(t, i, one(Sign::LParen), inside);
            lemma_sign(t, i, Sign::LParen);
            lemma_sign(t, i + 1 + inside.len(), Sign::RParen);
            assert(decreases_to!(node => node->Or_0));
            lemma_any(t, i + 1, Seq::empty(), parts);
            lemma_none_before(parts);
        },
        NodeView::And(parts) => {
            let inside = written_parts(parts, Sign::And, Binding::Unary);
            lemma_split(t, i, one(Sign::LParen) + inside, one(Sign::RParen));
            lemma_split(t, i, one(Sign::LParen), inside);
            lemma_sign(t, i, Sign::LParen);
            lemma_sign(t, i + 1 + inside.len(), Sign::RParen);
            assert(decreases_to!(node => node->And_0));
            lemma_all(t, i + 1, Seq::empty(), parts);
            lemma_none_before(parts);
            reveal_with_fuel(syntax::or_at, 2);
            assert(Seq::<NodeView>::empty().push(node) =~= seq![node]);
            assert(syntax::and_at(t, i + 1, Seq::empty()) == Ok::<(NodeView, int), Seq<char>>(
                (node, i + 1 + inside.len()),
            ));
            assert(syntax::or_at(t, i + 1, Seq::empty()) == Ok::<(NodeView, int), Seq<char>>(
                (node, i + 1 + inside.len()),
            ));
        },
        NodeView::Not(inner) => {
            lemma_split(t, i, one(Sign::Not), written(*inner, Binding::Unary));
            lemma_sign(t, i, Sign::Not);
            lemma_unary(t, i + 1, *inner);
        },
        _ => {
            lemma_comparison(t, i, node);
        },
    }
}

/// The rest of a conjunction reads back.
proof fn lemma_all(t: Seq<TokenView>, i: int, before: Seq<NodeView>, parts: Seq<NodeView>)
    requires
        parts.len() > 0,
        all_have_form(parts),
        at(t, i, written_parts(parts, Sign::And, Binding::Unary)),
        closes(t, i + written_parts(parts, Sign::And, Binding::Unary).len()),
        !syntax::sign_here(
            t,
            i + written_parts(parts, Sign::And, Binding::Unary).len(),
            Sign::And,
        ),
    ensures
        syntax::and_at(t, i, before) == Ok::<(NodeView, int), Seq<char>>(
            (
                syntax::all_of(before + parts),
                i + written_parts(parts, Sign::And, Binding::Unary).len(),
            ),
        ),
    decreases parts, 0nat, 0nat,
{
    let first = written(parts[0], Binding::Unary);
    assert(decreases_to!(parts => parts[0]));
    if parts.len() == 1 {
        lemma_unary(t, i, parts[0]);
        assert(before.push(parts[0]) =~= before + parts);
    } else {
        let rest = parts.skip(1);
        let others = written_parts(rest, Sign::And, Binding::Unary);
        lemma_split(t, i, first + one(Sign::And), others);
        lemma_split(t, i, first, one(Sign::And));
        lemma_sign(t, i + first.len(), Sign::And);
        lemma_unary(t, i, parts[0]);
        lemma_all(t, i + first.len() + 1, before.push(parts[0]), rest);
        assert(before.push(parts[0]) + rest =~= before + parts);
    }
}

/// A part of a disjunction reads back.
proof fn lemma_part(t: Seq<TokenView>, i: int, node: NodeView)
    requires
        has_form(node),
        at(t, i, written(node, Binding::And)),
        closes(t, i + written(node, Binding::And).len()),
        !syntax::sign_here(t, i + written(node, Binding::And).len(), Sign::And),
    ensures
        syntax::and_at(t, i, Seq::empty()) == Ok::<(NodeView, int), Seq<char>>(
            (node, i + written(node, Binding::And).len()),
        ),
    decreases node, 1nat, 0nat,
{
    if let NodeView::And(parts) = node {
        assert(decreases_to!(node => node->And_0));
        lemma_all(t, i, Seq::empty(), parts);
        lemma_none_before(parts);
    } else {
        lemma_unary(t, i, node);
        assert(Seq::<NodeView>::empty().push(node) =~= seq![node]);
    }
}

/// The rest of a disjunction reads back.
proof fn lemma_any(t: Seq<TokenView>, i: int, before: Seq<NodeView>, parts: Seq<NodeView>)
    requires
        parts.len() > 0,
        all_have_form(parts),
        at(t, i, written_parts(parts, Sign::Or, Binding::And)),
        closes(t, i + written_parts(parts, Sign::Or, Binding::And).len()),
        !syntax::sign_here(t, i + written_parts(parts, Sign::Or, Binding::And).len(), Sign::And),
        !syntax::sign_here(t, i + written_parts(parts, Sign::Or, Binding::And).len(), Sign::Or),
    ensures
        syntax::or_at(t, i, before) == Ok::<(NodeView, int), Seq<char>>(
            (
                syntax::any_of(before + parts),
                i + written_parts(parts, Sign::Or, Binding::And).len(),
            ),
        ),
    decreases parts, 0nat, 0nat,
{
    let first = written(parts[0], Binding::And);
    assert(decreases_to!(parts => parts[0]));
    if parts.len() == 1 {
        lemma_part(t, i, parts[0]);
        assert(before.push(parts[0]) =~= before + parts);
    } else {
        let rest = parts.skip(1);
        let others = written_parts(rest, Sign::Or, Binding::And);
        lemma_split(t, i, first + one(Sign::Or), others);
        lemma_split(t, i, first, one(Sign::Or));
        lemma_sign(t, i + first.len(), Sign::Or);
        lemma_part(t, i, parts[0]);
        lemma_any(t, i + first.len() + 1, before.push(parts[0]), rest);
        assert(before.push(parts[0]) + rest =~= before + parts);
    }
}

/// Every operand of the grammar, written out, reads back as that operand.
pub proof fn law_operand_reads_back(operand: OperandView)
    requires
        operand_has_form(operand),
    ensures
        syntax::operand_at(written_operand(operand), 0) == Ok::<(OperandView, int), Seq<char>>(
            (operand, written_operand(operand).len() as int),
        ),
{
    lemma_operand(written_operand(operand), 0, operand);
}

/// Every expression of the grammar, written out with parentheses only where
/// precedence asks for them, reads back as that expression.
pub proof fn law_written_reads_back(node: NodeView)
    requires
        has_form(node),
    ensures
        syntax::expression(written(node, Binding::Or)) == Ok::<NodeView, Seq<char>>(node),
{
    let t = written(node, Binding::Or);
    if let NodeView::Or(parts) = node {
        lemma_any(t, 0, Seq::empty(), parts);
        lemma_none_before(parts);
    } else {
        lemma_part(t, 0, node);
        assert(Seq::<NodeView>::empty().push(node) =~= seq![node]);
        match node {
            NodeView::Cmp { left, .. } => assert(written_operand(left).len() > 0),
            NodeView::In { item, .. } => assert(written_operand(item).len() > 0),
            NodeView::And(parts) => assert(written_parts(parts, Sign::And, Binding::Unary).len()
                > 0),
            _ => {},
        }
        assert(t.len() > 0);
        assert(syntax::or_at(t, 0, Seq::empty()) == Ok::<(NodeView, int), Seq<char>>(
            (node, t.len() as int),
        ));
    }
}

/// Tokens behind others, and closed by a parenthesis.
pub open spec fn enclosed(before: Seq<TokenView>, t: Seq<TokenView>) -> Seq<TokenView> {
    before + t + one(Sign::RParen)
}

/// Other signs stand at the same places where tokens are enclosed.
proof fn lemma_sign_enclosed(before: Seq<TokenView>, t: Seq<TokenView>, i: int)
    requires
        0 <= i <= t.len(),
    ensures
        forall|sign: Sign|
            sign != Sign::RParen || i < t.len() ==> #[trigger] syntax::sign_here(
                enclosed(before, t),
                before.len() + i,
                sign,
            ) == syntax::sign_here(t, i, sign),
        syntax::comparison_operator(enclosed(before, t), before.len() + i)
            == syntax::comparison_operator(t, i),
        i < t.len() ==> enclosed(before, t)[before.len() + i] == t[i],
{
    if i == t.len() {
        assert(enclosed(before, t)[before.len() + i] == TokenView::Sign(Sign::RParen));
    }
}

proof fn lemma_path_enclosed(
    before: Seq<TokenView>,
    t: Seq<TokenView>,
    i: int,
    steps: Seq<SegView>,
)
    requires
        0 <= i <= t.len(),
    ensures
        syntax::path_at(t, i, steps) matches Ok((path, end)) ==> syntax::path_at(
            enclosed(before, t),
            before.len() + i,
            steps,
        ) == Ok::<(OperandView, int), Seq<char>>((path, before.len() + end)),
    decreases t.len() - i,
{
    lemma_sign_enclosed(before, t, i);
    if i + 1 <= t.len() {
        lemma_sign_enclosed(before, t, i + 1);
    }
    if i + 2 <= t.len() {
        lemma_sign_enclosed(before, t, i + 2);
    }
    if syntax::sign_here(t, i, Sign::Dot) {
        if i + 1 < t.len() && t[i + 1] is Ident {
            lemma_path_enclosed(before, t, i + 2, steps.push(SegView::Key(t[i + 1]->Ident_0)));
        }
    } else if syntax::sign_here(t, i, Sign::LBracket) {
        if i + 1 < t.len() && t[i + 1] is Str && syntax::sign_here(t, i + 2, Sign::RBracket) {
            lemma_path_enclosed(before, t, i + 3, steps.push(SegView::Index(t[i + 1]->Str_0)));
        }
    }
}

proof fn lemma_operand_enclosed(before: Seq<TokenView>, t: Seq<TokenView>, i: int)
    requires
        0 <= i <= t.len(),
    ensures
        syntax::operand_at(t, i) matches Ok((operand, end)) ==> i < end <= t.len()
            && syntax::operand_at(enclosed(before, t), before.len() + i) == Ok::<
            (OperandView, int),
            Seq<char>,
        >((operand, before.len() + end)),
{
    syntax::lemma_operand_at(t, i);
    lemma_sign_enclosed(before, t, i);
    if i < t.len() {
        if let TokenView::Ident(head) = t[i] {
            lemma_path_enclosed(before, t, i + 1, seq![SegView::Key(head)]);
        }
    }
}

proof fn lemma_items_enclosed(
    before: Seq<TokenView>,
    t: Seq<TokenView>,
    i: int,
    items: Seq<OperandView>,
)
    requires
        0 <= i <= t.len(),
    ensures
        syntax::items_at(t, i, items) matches Ok((list, end)) ==> i < end <= t.len()
            && syntax::items_at(enclosed(before, t), before.len() + i, items) == Ok::<
            (Seq<OperandView>, int),
            Seq<char>,
        >((list, before.len() + end)),
    decreases t.len() - i,
{
    lemma_sign_enclosed(before, t, i);
    if syntax::sign_here(t, i, Sign::Comma) {
        lemma_operand_enclosed(before, t, i + 1);
        if let Ok((item, end)) = syntax::operand_at(t, i + 1) {
            lemma_items_enclosed(before, t, end, items.push(item));
        }
    }
}

proof fn lemma_comparison_enclosed(before: Seq<TokenView>, t: Seq<TokenView>, i: int)
    requires
        0 <= i <= t.len(),
    ensures
        syntax::comparison_at(t, i) matches Ok((node, end)) ==> i < end <= t.len()
            && syntax::comparison_at(enclosed(before, t), before.len() + i) == Ok::<
            (NodeView, int),
            Seq<char>,
        >((node, before.len() + end)),
{
    lemma_operand_enclosed(before, t, i);
    if let Ok((left, mid)) = syntax::operand_at(t, i) {
        lemma_sign_enclosed(before, t, mid);
        if mid < t.len() {
            lemma_sign_enclosed(before, t, mid + 1);
            lemma_operand_enclosed(before, t, mid + 1);
            if syntax::sign_here(t, mid, Sign::In) && syntax::sign_here(
                t,
                mid + 1,
                Sign::LBracket,
            ) {
                lemma_operand_enclosed(before, t, mid + 2);
                if let Ok((item, end)) = syntax::operand_at(t, mid + 2) {
                    lemma_items_enclosed(before, t, end, seq![item]);
                }
            }
        }
    }
}

proof fn lemma_unary_enclosed(before: Seq<TokenView>, t: Seq<TokenView>, i: int)
    requires
        0 <= i <= t.len(),
    ensures
        syntax::unary_at(t, i) matches Ok((node, end)) ==> i < end <= t.len() && syntax::unary_at(
            enclosed(before, t),
            before.len() + i,
        ) == Ok::<(NodeView, int), Seq<char>>((node, before.len() + end)),
    decreases t.len() - i, 0nat,
{
    lemma_sign_enclosed(before, t, i);
    if syntax::sign_here(t, i, Sign::Not) {
        lemma_unary_enclosed(before, t, i + 1);
    } else if syntax::sign_here(t, i, Sign::LParen) {
        lemma_any_enclosed(before, t, i + 1, Seq::empty());
        if let Ok((inner, end)) = syntax::or_at(t, i + 1, Seq::empty()) {
            lemma_sign_enclosed(before, t, end);
        }
    } else {
        lemma_comparison_enclosed(before, t, i);
    }
}

proof fn lemma_all_enclosed(
    before: Seq<TokenView>,
    t: Seq<TokenView>,
    i: int,
    parts: Seq<NodeView>,
)
    requires
        0 <= i <= t.len(),
    ensures
        syntax::and_at(t, i, parts) matches Ok((node, end)) ==> i < end <= t.len()
            && syntax::and_at(enclosed(before, t), before.len() + i, parts) == Ok::<
            (NodeView, int),
            Seq<char>,
        >((node, before.len() + end)),
    decreases t.len() - i, 1nat,
{
    lemma_unary_enclosed(before, t, i);
    if let Ok((part, end)) = syntax::unary_at(t, i) {
        lemma_sign_enclosed(before, t, end);
        if syntax::sign_here(t, end, Sign::And) {
            lemma_all_enclosed(before, t, end + 1, parts.push(part));
        }
    }
}

/// An expression reads the same behind other tokens and before a closing
/// parenthesis.
proof fn lemma_any_enclosed(
    before: Seq<TokenView>,
    t: Seq<TokenView>,
    i: int,
    parts: Seq<NodeView>,
)
    requires
        0 <= i <= t.len(),
    ensures
        syntax::or_at(t, i, parts) matches Ok((node, end)) ==> i < end <= t.len() && syntax::or_at(
            enclosed(before, t),
            before.len() + i,
            parts,
        ) == Ok::<(NodeView, int), Seq<char>>((node, before.len() + end)),
    decreases t.len() - i, 2nat,
{
    lemma_all_enclosed(before, t, i, Seq::empty());
    if let Ok((part, end)) = syntax::and_at(t, i, Seq::empty()) {
        lemma_sign_enclosed(before, t, end);
        if syntax::sign_here(t, end, Sign::Or) {
            lemma_any_enclosed(before, t, end + 1, parts.push(part));
        }
    }
}

/// `not` before an expression in parentheses negates the whole expression,
/// however it is written.
pub proof fn law_not_takes_parentheses(t: Seq<TokenView>)
    requires
        syntax::expression(t) is Ok,
    ensures
        syntax::expression(enclosed(one(Sign::Not) + one(Sign::LParen), t)) == Ok::<
            NodeView,
            Seq<char>,
        >(NodeView::Not(Box::new(syntax::expression(t)->Ok_0))),
{
    let before = one(Sign::Not) + one(Sign::LParen);
    let w = enclosed(before, t);
    let node = syntax::expression(t)->Ok_0;
    let not = NodeView::Not(Box::new(node));
    let end = w.len() as int;
    lemma_any_enclosed(before, t, 0, Seq::empty());
    assert(w[0] == TokenView::Sign(Sign::Not));
    assert(w[1] == TokenView::Sign(Sign::LParen));
    assert(w[end - 1] == TokenView::Sign(Sign::RParen));
    assert(syntax::unary_at(w, 1) == Ok::<(NodeView, int), Seq<char>>((node, end)));
    assert(syntax::unary_at(w, 0) == Ok::<(NodeView, int), Seq<char>>((not, end)));
    assert(Seq::<NodeView>::empty().push(not) =~= seq![not]);
    assert(syntax::and_at(w, 0, Seq::empty()) == Ok::<(NodeView, int), Seq<char>>((not, end)));
    assert(syntax::or_at(w, 0, Seq::empty()) == Ok::<(NodeView, int), Seq<char>>((not, end)));
}

/// A comparison never needs parentheses.
proof fn lemma_leaf_written(node: NodeView, one: Binding, other: Binding)
    requires
        node is Cmp || node is In,
    ensures
        written(node, one) == written(node, other),
{
}

/// `not` binds tighter than `and`, and `and` tighter than `or`: `a or b and
/// not c` is `a or (b and (not c))`.
pub proof fn law_precedence(a: NodeView, b: NodeView, c: NodeView)
    requires
        a is Cmp || a is In,
        b is Cmp || b is In,
        c is Cmp || c is In,
        has_form(a),
        has_form(b),
        has_form(c),
    ensures
        syntax::expression(
            written(a, Binding::Or) + one(Sign::Or) + (written(b, Binding::Or) + one(Sign::And) + (
            one(Sign::Not) + written(c, Binding::Or))),
        ) == Ok::<NodeView, Seq<char>>(
            NodeView::Or(
                seq![a, NodeView::And(seq![b, NodeView::Not(Box::new(c))])],
            ),
        ),
{
    let not_c = NodeView::Not(Box::new(c));
    let inner = seq![b, not_c];
    let b_and = NodeView::And(inner);
    let outer = seq![a, b_and];
    assert(inner.skip(1) =~= seq![not_c]);
    assert(outer.skip(1) =~= seq![b_and]);
    assert(has_form(not_c));
    assert(all_have_form(seq![not_c].skip(1)));
    assert(all_have_form(seq![not_c]));
    assert(all_have_form(inner));
    assert(has_form(b_and));
    lemma_leaf_written(a, Binding::And, Binding::Or);
    lemma_leaf_written(b, Binding::Unary, Binding::Or);
    lemma_leaf_written(c, Binding::Unary, Binding::Or);
    assert(all_have_form(seq![b_and].skip(1)));
    assert(all_have_form(seq![b_and]));
    assert(written(not_c, Binding::Unary) == one(Sign::Not) + written(c, Binding::Or));
    assert(written_parts(seq![not_c], Sign::And, Binding::Unary) == written(
        not_c,
        Binding::Unary,
    ));
    assert(written_parts(inner, Sign::And, Binding::Unary) == written(b, Binding::Or) + one(
        Sign::And,
    ) + written_parts(seq![not_c], Sign::And, Binding::Unary));
    assert(written_parts(seq![b_and], Sign::Or, Binding::And) == written(b_and, Binding::And));
    assert(written_parts(outer, Sign::Or, Binding::And) == written(a, Binding::Or) + one(Sign::Or)
        + written_parts(seq![b_and], Sign::Or, Binding::And));
    assert(all_have_form(outer));
    law_written_reads_back(NodeView::Or(outer));
}

/// Whether a token is a parenthesis.
pub open spec fn is_parenthesis(token: TokenView) -> bool {
    token == TokenView::Sign(Sign::LParen) || token == TokenView::Sign(Sign::RParen)
}

/// Tokens without their parentheses.
pub open spec fn unbracketed(t: Seq<TokenView>) -> Seq<TokenView> {
    t.filter(|token: TokenView| !is_parenthesis(token))
}

/// How many parentheses are opened more often than they are closed.
pub open spec fn depth(t: Seq<TokenView>) -> int
    decreases t.len(),
{
    if t.len() == 0 {
        0
    } else if t.last() == TokenView::Sign(Sign::LParen) {
        depth(t.drop_last()) + 1
    } else if t.last() == TokenView::Sign(Sign::RParen) {
        depth(t.drop_last()) - 1
    } else {
        depth(t.drop_last())
    }
}

proof fn lemma_brackets_add(a: Seq<TokenView>, b: Seq<TokenView>)
    ensures
        unbracketed(a + b) == unbracketed(a) + unbracketed(b),
        depth(a + b) == depth(a) + depth(b),
    decreases b.len(),
{
    reveal(Seq::filter);
    if b.len() == 0 {
        assert(a + b =~= a);
        assert(unbracketed(b) =~= Seq::empty());
        assert(unbracketed(a) + unbracketed(b) =~= unbracketed(a));
    } else {
        assert((a + b).drop_last() =~= a + b.drop_last());
        assert((a + b).last() == b.last());
        lemma_brackets_add(a, b.drop_last());
        if !is_parenthesis(b.last()) {
            assert(unbracketed(a) + unbracketed(b.drop_last()).push(b.last()) =~= (unbracketed(a)
                + unbracketed(b.drop_last())).push(b.last()));
        }
    }
}

proof fn lemma_brackets_of_one(sign: Sign)
    ensures
        sign != Sign::LParen && sign != Sign::RParen ==> unbracketed(one(sign)) == one(sign)
            && depth(one(sign)) == 0,
        sign == Sign::LParen || sign == Sign::RParen ==> unbracketed(one(sign)) == Seq::<
            TokenView,
        >::empty(),
        depth(one(Sign::LParen)) == 1,
        depth(one(Sign::RParen)) == -1,
{
    reveal(Seq::filter);
    let none = Seq::<TokenView>::empty();
    assert(one(sign).drop_last() =~= none);
    assert(one(Sign::LParen).drop_last() =~= none);
    assert(one(Sign::RParen).drop_last() =~= none);
    assert(unbracketed(none) =~= none);
    assert(depth(none) == 0);
    assert(none.push(TokenView::Sign(sign)) =~= one(sign));
}

/// Tokens without parentheses open none.
proof fn lemma_no_brackets(t: Seq<TokenView>)
    requires
        forall|k: int| 0 <= k < t.len() ==> !is_parenthesis(#[trigger] t[k]),
    ensures
        depth(t) == 0,
    decreases t.len(),
{
    if t.len() > 0 {
        let front = t.drop_last();
        assert forall|k: int| 0 <= k < front.len() implies !is_parenthesis(#[trigger] front[k]) by {
            assert(front[k] == t[k]);
        }
        assert(!is_parenthesis(t[t.len() - 1]));
        lemma_no_brackets(front);
    }
}

/// How tightly an expression is asked to bind changes nothing but parentheses,
/// and these are closed.
proof fn lemma_binding(node: NodeView, binding: Binding)
    ensures
        unbracketed(written(node, binding)) == unbracketed(written(node, Binding::Or)),
{
    let inside = match node {
        NodeView::Or(parts) => written_parts(parts, Sign::Or, Binding::And),
        NodeView::And(parts) => written_parts(parts, Sign::And, Binding::Unary),
        _ => Seq::empty(),
    };
    let (open, close) = (one(Sign::LParen), one(Sign::RParen));
    lemma_brackets_of_one(Sign::LParen);
    lemma_brackets_of_one(Sign::RParen);
    lemma_brackets_add(open, inside);
    lemma_brackets_add(open + inside, close);
    assert(unbracketed(open + inside + close) =~= unbracketed(inside));
}

/// The steps of a path that is read, behind those that were read before, are
/// what stands there.
proof fn lemma_read_steps(t: Seq<TokenView>, i: int, steps: Seq<SegView>) -> (more: Seq<SegView>)
    requires
        0 <= i <= t.len(),
        syntax::path_at(t, i, steps) is Ok,
    ensures
        ({
            let (operand, end) = syntax::path_at(t, i, steps)->Ok_0;
            &&& operand == OperandView::Path(steps + more)
            &&& i <= end <= t.len()
            &&& t.subrange(i, end) == written_steps(more)
        }),
    decreases t.len() - i,
{
    let (operand, end) = syntax::path_at(t, i, steps)->Ok_0;
    if syntax::sign_here(t, i, Sign::Dot) {
        let step = SegView::Key(t[i + 1]->Ident_0);
        let rest = lemma_read_steps(t, i + 2, steps.push(step));
        let more = seq![step] + rest;
        assert(steps.push(step) + rest =~= steps + more);
        assert(more.skip(1) =~= rest);
        assert(t.subrange(i, end) =~= one(Sign::Dot) + seq![TokenView::Ident(t[i + 1]->Ident_0)]
            + t.subrange(i + 2, end));
        more
    } else if syntax::sign_here(t, i, Sign::LBracket) {
        let step = SegView::Index(t[i + 1]->Str_0);
        let rest = lemma_read_steps(t, i + 3, steps.push(step));
        let more = seq![step] + rest;
        assert(steps.push(step) + rest =~= steps + more);
        assert(more.skip(1) =~= rest);
        assert(t.subrange(i, end) =~= one(Sign::LBracket) + seq![
            TokenView::Str(t[i + 1]->Str_0),
        ] + one(Sign::RBracket) + t.subrange(i + 3, end));
        more
    } else {
        let none = Seq::<SegView>::empty();
        assert(steps + none =~= steps);
        assert(t.subrange(i, end) =~= written_steps(none));
        none
    }
}

/// An operand that is read is what stands there.
proof fn lemma_read_operand(t: Seq<TokenView>, i: int)
    requires
        syntax::operand_at(t, i) is Ok,
    ensures
        ({
            let (operand, end) = syntax::operand_at(t, i)->Ok_0;
            &&& operand_has_form(operand)
            &&& 0 <= i < end <= t.len()
            &&& t.subrange(i, end) == written_operand(operand)
        }),
{
    let (operand, end) = syntax::operand_at(t, i)->Ok_0;
    if let TokenView::Ident(head) = t[i] {
        let key = seq![SegView::Key(head)];
        let more = lemma_read_steps(t, i + 1, key);
        let steps = key + more;
        assert(steps.skip(1) =~= more);
        assert(t.subrange(i, end) =~= seq![t[i]] + t.subrange(i + 1, end));
    } else {
        assert(t.subrange(i, end) =~= seq![t[i]]);
    }
}

/// The items of a list that is read, behind those that were read before, are
/// what stands there.
proof fn lemma_read_items(t: Seq<TokenView>, i: int, items: Seq<OperandView>) -> (more: Seq<
    OperandView,
>)
    requires
        0 <= i <= t.len(),
        syntax::items_at(t, i, items) is Ok,
    ensures
        ({
            let (list, end) = syntax::items_at(t, i, items)->Ok_0;
            &&& list == items + more
            &&& i < end <= t.len()
            &&& t.subrange(i, end) == written_items(more)
            &&& forall|k: int| 0 <= k < more.len() ==> operand_has_form(#[trigger] more[k])
        }),
    decreases t.len() - i,
{
    let (list, end) = syntax::items_at(t, i, items)->Ok_0;
    if syntax::sign_here(t, i, Sign::Comma) {
        lemma_read_operand(t, i + 1);
        let (item, mid) = syntax::operand_at(t, i + 1)->Ok_0;
        let rest = lemma_read_items(t, mid, items.push(item));
        let more = seq![item] + rest;
        assert(items.push(item) + rest =~= items + more);
        assert(more.skip(1) =~= rest);
        assert(t.subrange(i, end) =~= one(Sign::Comma) + t.subrange(i + 1, mid) + t.subrange(
            mid,
            end,
        ));
        assert forall|k: int| 0 <= k < more.len() implies operand_has_form(#[trigger] more[k]) by {
            if k > 0 {
                assert(more[k] == rest[k - 1]);
            }
        }
        more
    } else {
        let none = Seq::<OperandView>::empty();
        assert(items + none =~= items);
        assert(t.subrange(i, end) =~= written_items(none));
        none
    }
}

/// A comparison that is read is what stands there.
proof fn lemma_read_comparison(t: Seq<TokenView>, i: int)
    requires
        syntax::comparison_at(t, i) is Ok,
    ensures
        ({
            let (node, end) = syntax::comparison_at(t, i)->Ok_0;
            &&& node is Cmp || node is In
            &&& has_form(node)
            &&& 0 <= i < end <= t.len()
            &&& t.subrange(i, end) == written(node, Binding::Or)
        }),
{
    let (node, end) = syntax::comparison_at(t, i)->Ok_0;
    lemma_read_operand(t, i);
    let (left, mid) = syntax::operand_at(t, i)->Ok_0;
    if syntax::sign_here(t, mid, Sign::In) {
        lemma_read_operand(t, mid + 2);
        let (item, next) = syntax::operand_at(t, mid + 2)->Ok_0;
        let rest = lemma_read_items(t, next, seq![item]);
        let list = seq![item] + rest;
        assert(list.skip(1) =~= rest);
        assert(list[0] == item);
        assert forall|k: int| 0 <= k < list.len() implies operand_has_form(#[trigger] list[k]) by {
            if k > 0 {
                assert(list[k] == rest[k - 1]);
            }
        }
        assert(t.subrange(i, end) =~= t.subrange(i, mid) + one(Sign::In) + one(Sign::LBracket)
            + t.subrange(mid + 2, next) + t.subrange(next, end));
    } else {
        let op = syntax::comparison_operator(t, mid)->0;
        lemma_read_operand(t, mid + 1);
        assert(t[mid] == TokenView::Sign(operator_sign(op)));
        assert(t.subrange(i, end) =~= t.subrange(i, mid) + one(operator_sign(op)) + t.subrange(
            mid + 1,
            end,
        ));
    }
}

/// An operand has no parentheses.
proof fn lemma_operand_is_bare(operand: OperandView, k: int)
    requires
        0 <= k < written_operand(operand).len(),
    ensures
        !is_parenthesis(written_operand(operand)[k]),
{
    if let OperandView::Path(steps) = operand {
        if k > 0 {
            lemma_steps_are_bare(steps.skip(1), k - 1);
        }
    }
}

proof fn lemma_steps_are_bare(steps: Seq<SegView>, k: int)
    requires
        0 <= k < written_steps(steps).len(),
    ensures
        !is_parenthesis(written_steps(steps)[k]),
    decreases steps.len(),
{
    let n: int = match steps[0] {
        SegView::Key(_) => 2,
        SegView::Index(_) => 3,
    };
    if k >= n {
        lemma_steps_are_bare(steps.skip(1), k - n);
    }
}

proof fn lemma_items_are_bare(list: Seq<OperandView>, k: int)
    requires
        0 <= k < written_items(list).len(),
    ensures
        !is_parenthesis(written_items(list)[k]),
    decreases list.len(),
{
    if list.len() > 0 && k > 0 {
        let w = written_operand(list[0]);
        if k - 1 < w.len() {
            lemma_operand_is_bare(list[0], k - 1);
        } else {
            lemma_items_are_bare(list.skip(1), k - 1 - w.len());
        }
    }
}

/// A comparison opens no parentheses.
proof fn lemma_comparison_is_bare(node: NodeView)
    requires
        node is Cmp || node is In,
    ensures
        depth(written(node, Binding::Or)) == 0,
{
    let w = written(node, Binding::Or);
    assert forall|k: int| 0 <= k < w.len() implies !is_parenthesis(#[trigger] w[k]) by {
        match node {
            NodeView::Cmp { left, op, right } => {
                let l = written_operand(left);
                if k < l.len() {
                    lemma_operand_is_bare(left, k);
                } else if k > l.len() {
                    lemma_operand_is_bare(right, k - l.len() - 1);
                }
            },
            NodeView::In { item, list } => {
                let l = written_operand(item);
                let f = written_operand(list[0]);
                if k < l.len() {
                    lemma_operand_is_bare(item, k);
                } else if k >= l.len() + 2 {
                    if k - l.len() - 2 < f.len() {
                        lemma_operand_is_bare(list[0], k - l.len() - 2);
                    } else {
                        lemma_items_are_bare(list.skip(1), k - l.len() - 2 - f.len());
                    }
                }
            },
            _ => {},
        }
    }
    lemma_no_brackets(w);
}

/// Whether what is read between two places is an expression of the grammar,
/// and what stands there, but for parentheses, which are closed.
spec fn reads(t: Seq<TokenView>, i: int, end: int, node: NodeView) -> bool {
    &&& has_form(node)
    &&& 0 <= i < end <= t.len()
    &&& unbracketed(t.subrange(i, end)) == unbracketed(written(node, Binding::Or))
    &&& depth(t.subrange(i, end)) == 0
}

/// Whether what is read between two places are expressions of the grammar with
/// signs between them.
spec fn reads_parts(
    t: Seq<TokenView>,
    i: int,
    end: int,
    parts: Seq<NodeView>,
    sign: Sign,
    binding: Binding,
) -> bool {
    &&& parts.len() > 0
    &&& all_have_form(parts)
    &&& 0 <= i < end <= t.len()
    &&& unbracketed(t.subrange(i, end)) == unbracketed(written_parts(parts, sign, binding))
    &&& depth(t.subrange(i, end)) == 0
}

proof fn lemma_read_unary(t: Seq<TokenView>, i: int)
    requires
        0 <= i,
        syntax::unary_at(t, i) is Ok,
    ensures
        reads(t, i, syntax::unary_at(t, i)->Ok_0.1, syntax::unary_at(t, i)->Ok_0.0),
    decreases t.len() - i, 0nat,
{
    let (node, end) = syntax::unary_at(t, i)->Ok_0;
    if syntax::sign_here(t, i, Sign::Not) {
        lemma_read_unary(t, i + 1);
        let inner = syntax::unary_at(t, i + 1)->Ok_0.0;
        let first = one(Sign::Not);
        assert(t.subrange(i, end) =~= first + t.subrange(i + 1, end));
        lemma_brackets_of_one(Sign::Not);
        lemma_brackets_add(first, t.subrange(i + 1, end));
        lemma_brackets_add(first, written(inner, Binding::Unary));
        lemma_binding(inner, Binding::Unary);
    } else if syntax::sign_here(t, i, Sign::LParen) {
        lemma_read_any(t, i + 1, Seq::empty());
        let (inner, mid) = syntax::or_at(t, i + 1, Seq::empty())->Ok_0;
        lemma_whole_any(t, i + 1);
        let (open, close) = (one(Sign::LParen), one(Sign::RParen));
        let middle = t.subrange(i + 1, mid);
        assert(t.subrange(i, end) =~= open + middle + close);
        lemma_brackets_of_one(Sign::LParen);
        lemma_brackets_of_one(Sign::RParen);
        lemma_brackets_add(open, middle);
        lemma_brackets_add(open + middle, close);
        assert(unbracketed(t.subrange(i, end)) =~= unbracketed(middle));
    } else {
        lemma_read_comparison(t, i);
        lemma_comparison_is_bare(node);
    }
}

/// The rest of a conjunction that is read: its parts behind those before.
spec fn all_read(t: Seq<TokenView>, i: int, parts: Seq<NodeView>, more: Seq<NodeView>) -> bool {
    let (node, end) = syntax::and_at(t, i, parts)->Ok_0;
    node == syntax::all_of(parts + more) && reads_parts(t, i, end, more, Sign::And, Binding::Unary)
}

/// The rest of a disjunction that is read: its parts behind those before.
spec fn any_read(t: Seq<TokenView>, i: int, parts: Seq<NodeView>, more: Seq<NodeView>) -> bool {
    let (node, end) = syntax::or_at(t, i, parts)->Ok_0;
    node == syntax::any_of(parts + more) && reads_parts(t, i, end, more, Sign::Or, Binding::And)
}

proof fn lemma_read_all(t: Seq<TokenView>, i: int, parts: Seq<NodeView>)
    requires
        0 <= i,
        syntax::and_at(t, i, parts) is Ok,
    ensures
        exists|more: Seq<NodeView>| all_read(t, i, parts, more),
    decreases t.len() - i, 1nat,
{
    lemma_read_unary(t, i);
    let (part, mid) = syntax::unary_at(t, i)->Ok_0;
    lemma_binding(part, Binding::Unary);
    if syntax::sign_here(t, mid, Sign::And) {
        let next = mid + 1;
        let before = parts.push(part);
        lemma_read_all(t, next, before);
        let rest = choose|rest: Seq<NodeView>| all_read(t, next, before, rest);
        let end = syntax::and_at(t, next, before)->Ok_0.1;
        lemma_join(t, i, mid, end, part, rest, Sign::And, Binding::Unary);
        assert(parts.push(part) + rest =~= parts + (seq![part] + rest));
        assert(all_read(t, i, parts, seq![part] + rest));
    } else {
        lemma_alone(t, i, mid, part, Sign::And, Binding::Unary);
        assert(parts.push(part) =~= parts + seq![part]);
        assert(all_read(t, i, parts, seq![part]));
    }
}

proof fn lemma_read_any(t: Seq<TokenView>, i: int, parts: Seq<NodeView>)
    requires
        0 <= i,
        syntax::or_at(t, i, parts) is Ok,
    ensures
        exists|more: Seq<NodeView>| any_read(t, i, parts, more),
    decreases t.len() - i, 2nat,
{
    lemma_read_all(t, i, Seq::empty());
    lemma_whole_all(t, i);
    let (part, mid) = syntax::and_at(t, i, Seq::empty())->Ok_0;
    lemma_binding(part, Binding::And);
    if syntax::sign_here(t, mid, Sign::Or) {
        let next = mid + 1;
        let before = parts.push(part);
        lemma_read_any(t, next, before);
        let rest = choose|rest: Seq<NodeView>| any_read(t, next, before, rest);
        let end = syntax::or_at(t, next, before)->Ok_0.1;
        lemma_join(t, i, mid, end, part, rest, Sign::Or, Binding::And);
        assert(parts.push(part) + rest =~= parts + (seq![part] + rest));
        assert(any_read(t, i, parts, seq![part] + rest));
    } else {
        lemma_alone(t, i, mid, part, Sign::Or, Binding::And);
        assert(parts.push(part) =~= parts + seq![part]);
        assert(any_read(t, i, parts, seq![part]));
    }
}

/// One part that is read.
proof fn lemma_alone(
    t: Seq<TokenView>,
    i: int,
    end: int,
    part: NodeView,
    sign: Sign,
    binding: Binding,
)
    requires
        reads(t, i, end, part),
        unbracketed(written(part, binding)) == unbracketed(written(part, Binding::Or)),
    ensures
        reads_parts(t, i, end, seq![part], sign, binding),
{
    assert(seq![part].skip(1) =~= Seq::empty());
    assert(all_have_form(seq![part].skip(1)));
}

/// A part that is read, and others behind a sign.
proof fn lemma_join(
    t: Seq<TokenView>,
    i: int,
    mid: int,
    end: int,
    part: NodeView,
    rest: Seq<NodeView>,
    sign: Sign,
    binding: Binding,
)
    requires
        reads(t, i, mid, part),
        unbracketed(written(part, binding)) == unbracketed(written(part, Binding::Or)),
        syntax::sign_here(t, mid, sign),
        sign == Sign::And || sign == Sign::Or,
        reads_parts(t, mid + 1, end, rest, sign, binding),
    ensures
        reads_parts(t, i, end, seq![part] + rest, sign, binding),
{
    let parts = seq![part] + rest;
    assert(parts.skip(1) =~= rest);
    let (head, tail) = (t.subrange(i, mid), t.subrange(mid + 1, end));
    assert(t.subrange(i, end) =~= head + one(sign) + tail);
    lemma_brackets_of_one(sign);
    lemma_brackets_add(head, one(sign));
    lemma_brackets_add(head + one(sign), tail);
    let w = written(part, binding);
    lemma_brackets_add(w, one(sign));
    lemma_brackets_add(w + one(sign), written_parts(rest, sign, binding));
}

/// A conjunction that is read from its start.
proof fn lemma_whole_all(t: Seq<TokenView>, i: int)
    requires
        syntax::and_at(t, i, Seq::empty()) is Ok,
        exists|more: Seq<NodeView>| all_read(t, i, Seq::empty(), more),
    ensures
        ({
            let (node, end) = syntax::and_at(t, i, Seq::empty())->Ok_0;
            reads(t, i, end, node)
        }),
{
    let more = choose|more: Seq<NodeView>| all_read(t, i, Seq::empty(), more);
    assert(Seq::<NodeView>::empty() + more =~= more);
    if more.len() == 1 {
        lemma_binding(more[0], Binding::Unary);
    }
}

/// A disjunction that is read from its start.
proof fn lemma_whole_any(t: Seq<TokenView>, i: int)
    requires
        syntax::or_at(t, i, Seq::empty()) is Ok,
        exists|more: Seq<NodeView>| any_read(t, i, Seq::empty(), more),
    ensures
        ({
            let (node, end) = syntax::or_at(t, i, Seq::empty())->Ok_0;
            reads(t, i, end, node)
        }),
{
    let more = choose|more: Seq<NodeView>| any_read(t, i, Seq::empty(), more);
    assert(Seq::<NodeView>::empty() + more =~= more);
    if more.len() == 1 {
        lemma_binding(more[0], Binding::And);
    }
}

/// Tokens that read as an expression are that expression, written out: none is
/// passed over, none is added, and none stands behind it. Only parentheses may
/// be more than precedence asks for, and they are all closed. What is read has
/// the form that the grammar gives.
pub proof fn law_reads_what_is_written(t: Seq<TokenView>)
    requires
        syntax::expression(t) is Ok,
    ensures
        has_form(syntax::expression(t)->Ok_0),
        unbracketed(t) == unbracketed(written(syntax::expression(t)->Ok_0, Binding::Or)),
        depth(t) == 0,
{
    lemma_read_any(t, 0, Seq::empty());
    lemma_whole_any(t, 0);
    assert(t.subrange(0, t.len() as int) =~= t);
}

/// Parentheses around a whole expression change nothing.
pub proof fn law_parentheses(t: Seq<TokenView>)
    requires
        syntax::expression(t) is Ok,
    ensures
        syntax::expression(one(Sign::LParen) + t + one(Sign::RParen)) == syntax::expression(t),
        syntax::expression(Seq::empty()) == Err::<NodeView, Seq<char>>("empty expression"@),
{
    let before = one(Sign::LParen);
    let w = enclosed(before, t);
    let node = syntax::expression(t)->Ok_0;
    let end = w.len() as int;
    assert(w =~= one(Sign::LParen) + t + one(Sign::RParen));
    lemma_any_enclosed(before, t, 0, Seq::empty());
    assert(w[0] == TokenView::Sign(Sign::LParen));
    assert(w[end - 1] == TokenView::Sign(Sign::RParen));
    assert(syntax::unary_at(w, 0) == Ok::<(NodeView, int), Seq<char>>((node, end)));
    assert(Seq::<NodeView>::empty().push(node) =~= seq![node]);
    assert(syntax::and_at(w, 0, Seq::empty()) == Ok::<(NodeView, int), Seq<char>>((node, end)));
    assert(syntax::or_at(w, 0, Seq::empty()) == Ok::<(NodeView, int), Seq<char>>((node, end)));
}

} // verus!
