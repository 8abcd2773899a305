//! Assertion expressions as trees.
//!
//! Grammar (precedence: `not` > `and` > `or`):
//!
//! ```text
//! expr       := or
//! or         := and { "or" and }
//! and        := unary { "and" unary }
//! unary      := "not" unary | "(" expr ")" | comparison
//! comparison := operand op operand | operand "in" list
//! operand    := path | number | true | false | "string"
//! path       := ident { "." ident | "[" "string" "]" }
//! op         := <= | >= | == | != | < | >
//! list       := "[" operand { "," operand } "]"
//! ```

use crate::error::UsageError;
use crate::lexer;
use crate::lexer::{Sign, Token, TokenView};
use crate::number;
use vstd::prelude::*;

verus! {

/// An expression: a comparison, or expressions joined by `or`, `and` and `not`.
#[derive(Debug)]
pub enum Node {
    Or(Vec<Node>),
    And(Vec<Node>),
    Not(Box<Node>),
    Cmp { left: Operand, op: CmpOp, right: Operand },
    In { item: Operand, list: Vec<Operand> },
}

/// One side of a comparison.
#[derive(Debug)]
pub enum Operand {
    Path(Path),
    Lit(Lit),
}

/// The way to a value in a document.
#[derive(Debug)]
pub struct Path {
    pub segments: Vec<Seg>,
}

/// One step of a path: a key behind a dot, or a quoted key in brackets.
#[derive(Debug)]
pub enum Seg {
    Key(String),
    Index(String),
}

/// A comparison operator.
#[derive(Clone, Copy, Debug, PartialEq, Eq, Structural)]
pub enum CmpOp {
    Le,
    Ge,
    Eq,
    Ne,
    Lt,
    Gt,
}

/// A literal. A number that no finite double is near to has no value.
#[derive(Debug)]
pub enum Lit {
    Num(Option<serde_json::Number>),
    Str(String),
    Bool(bool),
}

/// What an expression says.
#[verifier::ext_equal]
pub enum NodeView {
    Or(Seq<NodeView>),
    And(Seq<NodeView>),
    Not(Box<NodeView>),
    Cmp { left: OperandView, op: CmpOp, right: OperandView },
    In { item: OperandView, list: Seq<OperandView> },
}

/// What an operand says.
#[verifier::ext_equal]
pub enum OperandView {
    Path(Seq<SegView>),
    Lit(LitView),
}

/// What a step of a path says.
#[verifier::ext_equal]
pub enum SegView {
    Key(Seq<char>),
    Index(Seq<char>),
}

/// What a literal says.
#[verifier::ext_equal]
pub enum LitView {
    Num(Option<number::Num>),
    Str(Seq<char>),
    Bool(bool),
}

impl View for Seg {
    type V = SegView;

    open spec fn view(&self) -> SegView {
        match *self {
            Seg::Key(k) => SegView::Key(k@),
            Seg::Index(k) => SegView::Index(k@),
        }
    }
}

impl View for Path {
    type V = Seq<SegView>;

    open spec fn view(&self) -> Seq<SegView> {
        self.segments@.map_values(|s: Seg| s@)
    }
}

impl View for Lit {
    type V = LitView;

    open spec fn view(&self) -> LitView {
        match *self {
            Lit::Num(n) => LitView::Num(lexer::number_view(n)),
            Lit::Str(s) => LitView::Str(s@),
            Lit::Bool(b) => LitView::Bool(b),
        }
    }
}

impl View for Operand {
    type V = OperandView;

    open spec fn view(&self) -> OperandView {
        match *self {
            Operand::Path(path) => OperandView::Path(path@),
            Operand::Lit(lit) => OperandView::Lit(lit@),
        }
    }
}

/// What each operand of a list says.
pub open spec fn operand_views(list: Seq<Operand>) -> Seq<OperandView> {
    list.map_values(|o: Operand| o@)
}

impl Node {
    /// What the expression says.
    pub open spec fn model(self) -> NodeView
        decreases self,
    {
        match self {
            Node::Or(parts) => NodeView::Or(node_models(parts@)),
            Node::And(parts) => NodeView::And(node_models(parts@)),
            Node::Not(inner) => NodeView::Not(Box::new(inner.model())),
            Node::Cmp { left, op, right } => NodeView::Cmp { left: left@, op, right: right@ },
            Node::In { item, list } => NodeView::In { item: item@, list: operand_views(list@) },
        }
    }
}

/// What each expression of a list says.
pub open spec fn node_models(parts: Seq<Node>) -> Seq<NodeView>
    decreases parts,
{
    Seq::new(
        parts.len(),
        |i: int|
            if 0 <= i < parts.len() {
                parts[i].model()
            } else {
                NodeView::Or(Seq::empty())
            },
    )
}

impl View for Node {
    type V = NodeView;

    open spec fn view(&self) -> NodeView {
        self.model()
    }
}

/// A list of expressions says what they say, one by one.
pub broadcast proof fn lemma_node_models(parts: Seq<Node>)
    ensures
        #![trigger node_models(parts)]
        node_models(parts).len() == parts.len(),
        forall|i: int| 0 <= i < parts.len() ==> #[trigger] node_models(parts)[i] == parts[i]@,
{
}

/// Whether a sign stands at `i`.
pub open spec fn sign_here(t: Seq<TokenView>, i: int, sign: Sign) -> bool {
    0 <= i < t.len() && t[i] == TokenView::Sign(sign)
}

/// The name of a sign in messages.
pub open spec fn sign_name(sign: Sign) -> Seq<char> {
    match sign {
        Sign::Dot => "Dot"@,
        Sign::Le => "Le"@,
        Sign::Ge => "Ge"@,
        Sign::Eq => "Eq"@,
        Sign::Ne => "Ne"@,
        Sign::Lt => "Lt"@,
        Sign::Gt => "Gt"@,
        Sign::LParen => "LParen"@,
        Sign::RParen => "RParen"@,
        Sign::LBracket => "LBracket"@,
        Sign::RBracket => "RBracket"@,
        Sign::Comma => "Comma"@,
        Sign::And => "And"@,
        Sign::Or => "Or"@,
        Sign::Not => "Not"@,
        Sign::In => "In"@,
    }
}

/// The rest of a path at `i`, behind the steps that were read.
pub open spec fn path_at(t: Seq<TokenView>, i: int, steps: Seq<SegView>) -> Result<
    (OperandView, int),
    Seq<char>,
>
    decreases t.len() - i,
{
    if sign_here(t, i, Sign::Dot) {
        if i + 1 < t.len() && t[i + 1] is Ident {
            path_at(t, i + 2, steps.push(SegView::Key(t[i + 1]->Ident_0)))
        } else {
            Err("expected a path segment name after '.'"@)
        }
    } else if sign_here(t, i, Sign::LBracket) {
        if !(i + 1 < t.len() && t[i + 1] is Str) {
            Err(
                "expected a quoted string inside [ ] to name a key with spaces or punctuation"@,
            )
        } else if !sign_here(t, i + 2, Sign::RBracket) {
            Err("expected ']' after the bracketed key"@)
        } else {
            path_at(t, i + 3, steps.push(SegView::Index(t[i + 1]->Str_0)))
        }
    } else {
        Ok((OperandView::Path(steps), i))
    }
}

/// The operand at `i`, and where the tokens go on.
pub open spec fn operand_at(t: Seq<TokenView>, i: int) -> Result<(OperandView, int), Seq<char>> {
    if i < 0 || i >= t.len() {
        Err("expression ended where an operand was expected"@)
    } else {
        match t[i] {
            TokenView::Number(n) => Ok((OperandView::Lit(LitView::Num(n)), i + 1)),
            TokenView::Str(s) => Ok((OperandView::Lit(LitView::Str(s)), i + 1)),
            TokenView::True => Ok((OperandView::Lit(LitView::Bool(true)), i + 1)),
            TokenView::False => Ok((OperandView::Lit(LitView::Bool(false)), i + 1)),
            TokenView::Ident(head) => path_at(t, i + 1, seq![SegView::Key(head)]),
            TokenView::Sign(sign) => Err(
                "expected a path or literal, found "@ + sign_name(sign),
            ),
        }
    }
}

/// A path reads on, if at all.
pub proof fn lemma_path_at(t: Seq<TokenView>, i: int, steps: Seq<SegView>)
    requires
        0 <= i <= t.len(),
    ensures
        path_at(t, i, steps) matches Ok((_, end)) ==> i <= end <= t.len(),
    decreases t.len() - i,
{
    if sign_here(t, i, Sign::Dot) {
        if i + 1 < t.len() && t[i + 1] is Ident {
            lemma_path_at(t, i + 2, steps.push(SegView::Key(t[i + 1]->Ident_0)));
        }
    } else if sign_here(t, i, Sign::LBracket) {
        if i + 1 < t.len() && t[i + 1] is Str && sign_here(t, i + 2, Sign::RBracket) {
            lemma_path_at(t, i + 3, steps.push(SegView::Index(t[i + 1]->Str_0)));
        }
    }
}

/// An operand takes up tokens.
pub proof fn lemma_operand_at(t: Seq<TokenView>, i: int)
    ensures
        operand_at(t, i) matches Ok((_, end)) ==> 0 <= i < end <= t.len(),
{
    if 0 <= i < t.len() {
        if let TokenView::Ident(head) = t[i] {
            lemma_path_at(t, i + 1, seq![SegView::Key(head)]);
        }
    }
}

/// The rest of a list at `i`, behind the items that were read.
pub open spec fn items_at(t: Seq<TokenView>, i: int, items: Seq<OperandView>) -> Result<
    (Seq<OperandView>, int),
    Seq<char>,
>
    decreases t.len() - i,
{
    if sign_here(t, i, Sign::Comma) {
        proof {
            lemma_operand_at(t, i + 1);
        }
        match operand_at(t, i + 1) {
            Err(e) => Err(e),
            Ok((item, end)) => items_at(t, end, items.push(item)),
        }
    } else if sign_here(t, i, Sign::RBracket) {
        Ok((items, i + 1))
    } else {
        Err("expected ']' to close the 'in' list"@)
    }
}

/// The list at `i`, and where the tokens go on.
pub open spec fn list_at(t: Seq<TokenView>, i: int) -> Result<
    (Seq<OperandView>, int),
    Seq<char>,
> {
    if !sign_here(t, i, Sign::LBracket) {
        Err("expected '[' to open an 'in' list"@)
    } else {
        match operand_at(t, i + 1) {
            Err(e) => Err(e),
            Ok((item, end)) => items_at(t, end, seq![item]),
        }
    }
}

/// The comparison operator of a sign.
pub open spec fn comparison_operator(t: Seq<TokenView>, i: int) -> Option<CmpOp> {
    if 0 <= i < t.len() {
        match t[i] {
            TokenView::Sign(Sign::Le) => Some(CmpOp::Le),
            TokenView::Sign(Sign::Ge) => Some(CmpOp::Ge),
            TokenView::Sign(Sign::Eq) => Some(CmpOp::Eq),
            TokenView::Sign(Sign::Ne) => Some(CmpOp::Ne),
            TokenView::Sign(Sign::Lt) => Some(CmpOp::Lt),
            TokenView::Sign(Sign::Gt) => Some(CmpOp::Gt),
            _ => None,
        }
    } else {
        None
    }
}

/// The comparison at `i`, and where the tokens go on.
pub open spec fn comparison_at(t: Seq<TokenView>, i: int) -> Result<(NodeView, int), Seq<char>> {
    match operand_at(t, i) {
        Err(e) => Err(e),
        Ok((left, mid)) => if sign_here(t, mid, Sign::In) {
            match list_at(t, mid + 1) {
                Err(e) => Err(e),
                Ok((list, end)) => Ok((NodeView::In { item: left, list }, end)),
            }
        } else {
            match comparison_operator(t, mid) {
                None => Err(
                    "expected a comparison operator (==, !=, <=, >=, <, >) or 'in' after the operand; only comparisons produce booleans"@,
                ),
                Some(op) => match operand_at(t, mid + 1) {
                    Err(e) => Err(e),
                    Ok((right, end)) => Ok((NodeView::Cmp { left, op, right }, end)),
                },
            }
        },
    }
}

/// A list of one expression is that expression.
pub open spec fn any_of(parts: Seq<NodeView>) -> NodeView {
    if parts.len() == 1 {
        parts[0]
    } else {
        NodeView::Or(parts)
    }
}

/// A list of one expression is that expression.
pub open spec fn all_of(parts: Seq<NodeView>) -> NodeView {
    if parts.len() == 1 {
        parts[0]
    } else {
        NodeView::And(parts)
    }
}

/// The unary expression at `i`, and where the tokens go on.
pub open spec fn unary_at(t: Seq<TokenView>, i: int) -> Result<(NodeView, int), Seq<char>>
    decreases t.len() - i, 0nat,
{
    if sign_here(t, i, Sign::Not) {
        match unary_at(t, i + 1) {
            Err(e) => Err(e),
            Ok((inner, end)) => Ok((NodeView::Not(Box::new(inner)), end)),
        }
    } else if sign_here(t, i, Sign::LParen) {
        match or_at(t, i + 1, Seq::empty()) {
            Err(e) => Err(e),
            Ok((inner, end)) => if sign_here(t, end, Sign::RParen) {
                Ok((inner, end + 1))
            } else {
                Err("expected ')' to close '('"@)
            },
        }
    } else {
        comparison_at(t, i)
    }
}

/// The rest of a conjunction at `i`, behind the parts that were read.
pub open spec fn and_at(t: Seq<TokenView>, i: int, parts: Seq<NodeView>) -> Result<
    (NodeView, int),
    Seq<char>,
>
    decreases t.len() - i, 1nat,
{
    match unary_at(t, i) {
        Err(e) => Err(e),
        Ok((part, end)) => if i <= end && sign_here(t, end, Sign::And) {
            and_at(t, end + 1, parts.push(part))
        } else {
            Ok((all_of(parts.push(part)), end))
        },
    }
}

/// The rest of a disjunction at `i`, behind the parts that were read.
pub open spec fn or_at(t: Seq<TokenView>, i: int, parts: Seq<NodeView>) -> Result<
    (NodeView, int),
    Seq<char>,
>
    decreases t.len() - i, 2nat,
{
    match and_at(t, i, Seq::empty()) {
        Err(e) => Err(e),
        Ok((part, end)) => if i <= end && sign_here(t, end, Sign::Or) {
            or_at(t, end + 1, parts.push(part))
        } else {
            Ok((any_of(parts.push(part)), end))
        },
    }
}

/// The expression that tokens write.
pub open spec fn expression(t: Seq<TokenView>) -> Result<NodeView, Seq<char>> {
    if t.len() == 0 {
        Err("empty expression"@)
    } else {
        match or_at(t, 0, Seq::empty()) {
            Err(e) => Err(e),
            Ok((node, end)) => if end == t.len() {
                Ok(node)
            } else {
                Err("unexpected trailing tokens after the expression"@)
            },
        }
    }
}

/// Reads expressions from tokens, one after another.
#[derive(Debug)]
pub struct Parser {
    pub tokens: Vec<Token>,
    pub pos: usize,
}

impl Parser {
    /// What the tokens say.
    pub open spec fn views(self) -> Seq<TokenView> {
        lexer::token_views(self.tokens@)
    }

    /// Whether the parser stands at a token, or behind the last.
    pub open spec fn wf(self) -> bool {
        self.pos <= self.tokens@.len()
    }

    /// Whether the parser stands where another stood, or behind it.
    spec fn follows(self, before: Parser) -> bool {
        &&& self.tokens == before.tokens
        &&& self.wf()
        &&& before.pos <= self.pos
    }

    fn parse(&mut self) -> (r: Result<Node, UsageError>)
        requires
            old(self).pos == 0,
        ensures
            match r {
                Ok(node) => expression(old(self).views()) == Ok::<NodeView, Seq<char>>(node@),
                Err(e) => expression(old(self).views()) == Err::<NodeView, Seq<char>>(e@),
            },
    {
        if self.tokens.len() == 0 {
            return Err(UsageError::fixed("empty expression"));
        }
        let node = self.parse_or()?;
        if self.pos != self.tokens.len() {
            return Err(UsageError::fixed("unexpected trailing tokens after the expression"));
        }
        Ok(node)
    }

    fn parse_or(&mut self) -> (r: Result<Node, UsageError>)
        requires
            old(self).wf(),
        ensures
            final(self).follows(*old(self)),
            match r {
                Ok(node) => or_at(old(self).views(), old(self).pos as int, Seq::empty()) == Ok::<
                    (NodeView, int),
                    Seq<char>,
                >((node@, final(self).pos as int)) && old(self).pos < final(self).pos,
                Err(e) => or_at(old(self).views(), old(self).pos as int, Seq::empty()) == Err::<
                    (NodeView, int),
                    Seq<char>,
                >(e@),
            },
        decreases old(self).tokens@.len() - old(self).pos, 2nat,
    {
        broadcast use lemma_node_models;

        let ghost start = *self;
        let mut parts: Vec<Node> = Vec::new();
        assert(node_models(parts@) =~= Seq::empty());
        loop
            invariant_except_break
                parts@.len() > 0 ==> start.pos < self.pos,
                or_at(start.views(), start.pos as int, Seq::empty()) == or_at(
                    start.views(),
                    self.pos as int,
                    node_models(parts@),
                ),
            invariant
                self.follows(start),
                start == *old(self),
            ensures
                self.follows(start),
                start.pos < self.pos,
                or_at(start.views(), start.pos as int, Seq::empty()) == Ok::<
                    (NodeView, int),
                    Seq<char>,
                >((any_of(node_models(parts@)), self.pos as int)),
                parts@.len() > 0,
            decreases self.tokens@.len() - self.pos,
        {
            let ghost before = parts@;
            let part = self.parse_and()?;
            let ghost said = part@;
            parts.push(part);
            assert(node_models(parts@) =~= node_models(before).push(said));
            if !self.eat(Sign::Or) {
                break;
            }
        }
        if parts.len() == 1 {
            Ok(parts.pop().unwrap())
        } else {
            Ok(Node::Or(parts))
        }
    }

    fn parse_and(&mut self) -> (r: Result<Node, UsageError>)
        requires
            old(self).wf(),
        ensures
            final(self).follows(*old(self)),
            match r {
                Ok(node) => and_at(old(self).views(), old(self).pos as int, Seq::empty()) == Ok::<
                    (NodeView, int),
                    Seq<char>,
                >((node@, final(self).pos as int)) && old(self).pos < final(self).pos,
                Err(e) => and_at(old(self).views(), old(self).pos as int, Seq::empty()) == Err::<
                    (NodeView, int),
                    Seq<char>,
                >(e@),
            },
        decreases old(self).tokens@.len() - old(self).pos, 1nat,
    {
        broadcast use lemma_node_models;

        let ghost start = *self;
        let mut parts: Vec<Node> = Vec::new();
        assert(node_models(parts@) =~= Seq::empty());
        loop
            invariant_except_break
                parts@.len() > 0 ==> start.pos < self.pos,
                and_at(start.views(), start.pos as int, Seq::empty()) == and_at(
                    start.views(),
                    self.pos as int,
                    node_models(parts@),
                ),
            invariant
                self.follows(start),
                start == *old(self),
            ensures
                self.follows(start),
                start.pos < self.pos,
                and_at(start.views(), start.pos as int, Seq::empty()) == Ok::<
                    (NodeView, int),
                    Seq<char>,
                >((all_of(node_models(parts@)), self.pos as int)),
                parts@.len() > 0,
            decreases self.tokens@.len() - self.pos,
        {
            let ghost before = parts@;
            let part = self.parse_unary()?;
            let ghost said = part@;
            parts.push(part);
            assert(node_models(parts@) =~= node_models(before).push(said));
            if !self.eat(Sign::And) {
                break;
            }
        }
        if parts.len() == 1 {
            Ok(parts.pop().unwrap())
        } else {
            Ok(Node::And(parts))
        }
    }

    fn parse_unary(&mut self) -> (r: Result<Node, UsageError>)
        requires
            old(self).wf(),
        ensures
            final(self).follows(*old(self)),
            match r {
                Ok(node) => unary_at(old(self).views(), old(self).pos as int) == Ok::<
                    (NodeView, int),
                    Seq<char>,
                >((node@, final(self).pos as int)) && old(self).pos < final(self).pos,
                Err(e) => unary_at(old(self).views(), old(self).pos as int) == Err::<
                    (NodeView, int),
                    Seq<char>,
                >(e@),
            },
        decreases old(self).tokens@.len() - old(self).pos, 0nat,
    {
        if self.eat(Sign::Not) {
            let inner = self.parse_unary()?;
            return Ok(Node::Not(Box::new(inner)));
        }
        if self.eat(Sign::LParen) {
            let inner = self.parse_or()?;
            if !self.eat(Sign::RParen) {
                return Err(UsageError::fixed("expected ')' to close '('"));
            }
            return Ok(inner);
        }
        self.parse_comparison()
    }

    fn parse_comparison(&mut self) -> (r: Result<Node, UsageError>)
        requires
            old(self).wf(),
        ensures
            final(self).follows(*old(self)),
            match r {
                Ok(node) => comparison_at(old(self).views(), old(self).pos as int) == Ok::<
                    (NodeView, int),
                    Seq<char>,
                >((node@, final(self).pos as int)) && old(self).pos < final(self).pos,
                Err(e) => comparison_at(old(self).views(), old(self).pos as int) == Err::<
                    (NodeView, int),
                    Seq<char>,
                >(e@),
            },
    {
        let left = self.parse_operand()?;
        if self.eat(Sign::In) {
            let list = self.parse_list()?;
            return Ok(Node::In { item: left, list });
        }
        let op = match self.peek_sign() {
            Some(Sign::Le) => CmpOp::Le,
            Some(Sign::Ge) => CmpOp::Ge,
            Some(Sign::Eq) => CmpOp::Eq,
            Some(Sign::Ne) => CmpOp::Ne,
            Some(Sign::Lt) => CmpOp::Lt,
            Some(Sign::Gt) => CmpOp::Gt,
            _ => {
                return Err(
                    UsageError::fixed(
                        "expected a comparison operator (==, !=, <=, >=, <, >) or 'in' after the operand; only comparisons produce booleans",
                    ),
                );
            },
        };
        self.advance();
        let right = self.parse_operand()?;
        Ok(Node::Cmp { left, op, right })
    }

    fn parse_list(&mut self) -> (r: Result<Vec<Operand>, UsageError>)
        requires
            old(self).wf(),
        ensures
            final(self).follows(*old(self)),
            match r {
                Ok(list) => list_at(old(self).views(), old(self).pos as int) == Ok::<
                    (Seq<OperandView>, int),
                    Seq<char>,
                >((operand_views(list@), final(self).pos as int)),
                Err(e) => list_at(old(self).views(), old(self).pos as int) == Err::<
                    (Seq<OperandView>, int),
                    Seq<char>,
                >(e@),
            },
    {
        let ghost start = *self;
        if !self.eat(Sign::LBracket) {
            return Err(UsageError::fixed("expected '[' to open an 'in' list"));
        }
        let first = self.parse_operand()?;
        let ghost said = first@;
        let mut items: Vec<Operand> = Vec::new();
        items.push(first);
        assert(operand_views(items@) =~= seq![said]);
        while self.eat(Sign::Comma)
            invariant
                self.follows(start),
                start == *old(self),
                list_at(start.views(), start.pos as int) == items_at(
                    start.views(),
                    self.pos as int,
                    operand_views(items@),
                ),
            decreases self.tokens@.len() - self.pos,
        {
            let ghost before = items@;
            let item = self.parse_operand()?;
            let ghost said = item@;
            items.push(item);
            assert(operand_views(items@) =~= operand_views(before).push(said));
        }
        if !self.eat(Sign::RBracket) {
            return Err(UsageError::fixed("expected ']' to close the 'in' list"));
        }
        Ok(items)
    }

    /// Reads the operand at which the parser stands, and goes on behind it. It
    /// never goes back, and leaves the tokens as they are.
    pub fn parse_operand(&mut self) -> (r: Result<Operand, UsageError>)
        ensures
            final(self).tokens == old(self).tokens,
            old(self).pos <= final(self).pos,
            old(self).wf() ==> final(self).wf(),
            match r {
                Ok(operand) => operand_at(old(self).views(), old(self).pos as int) == Ok::<
                    (OperandView, int),
                    Seq<char>,
                >((operand@, final(self).pos as int)) && old(self).pos < final(self).pos,
                Err(e) => operand_at(old(self).views(), old(self).pos as int) == Err::<
                    (OperandView, int),
                    Seq<char>,
                >(e@),
            },
    {
        if self.pos >= self.tokens.len() {
            return Err(UsageError::fixed("expression ended where an operand was expected"));
        }
        let head = match &self.tokens[self.pos] {
            Token::Number(n) => {
                let literal = Lit::Num(clone_number(n));
                self.advance();
                return Ok(Operand::Lit(literal));
            },
            Token::Str(s) => {
                let literal = Lit::Str(s.clone());
                self.advance();
                return Ok(Operand::Lit(literal));
            },
            Token::True => {
                self.advance();
                return Ok(Operand::Lit(Lit::Bool(true)));
            },
            Token::False => {
                self.advance();
                return Ok(Operand::Lit(Lit::Bool(false)));
            },
            Token::Sign(sign) => {
                let mut message = "expected a path or literal, found ".to_owned();
                message.append(name_of_sign(*sign));
                return Err(UsageError::new(message));
            },
            Token::Ident(head) => head.clone(),
        };
        self.advance();
        self.parse_path(head)
    }

    /// Reads the rest of a path behind its head.
    fn parse_path(&mut self, head: String) -> (r: Result<Operand, UsageError>)
        requires
            old(self).wf(),
        ensures
            final(self).follows(*old(self)),
            match r {
                Ok(operand) => path_at(
                    old(self).views(),
                    old(self).pos as int,
                    seq![SegView::Key(head@)],
                ) == Ok::<(OperandView, int), Seq<char>>((operand@, final(self).pos as int)),
                Err(e) => path_at(
                    old(self).views(),
                    old(self).pos as int,
                    seq![SegView::Key(head@)],
                ) == Err::<(OperandView, int), Seq<char>>(e@),
            },
    {
        let ghost start = *self;
        let ghost first = seq![SegView::Key(head@)];
        let mut segments: Vec<Seg> = Vec::new();
        segments.push(Seg::Key(head));
        assert(segments@.map_values(|s: Seg| s@) =~= first);
        loop
            invariant
                self.follows(start),
                start == *old(self),
                path_at(start.views(), start.pos as int, first) == path_at(
                    start.views(),
                    self.pos as int,
                    segments@.map_values(|s: Seg| s@),
                ),
                first == seq![SegView::Key(head@)],
            decreases self.tokens@.len() - self.pos,
        {
            let ghost before = segments@;
            if self.eat(Sign::Dot) {
                let key = match self.peek() {
                    Some(Token::Ident(key)) => key.clone(),
                    _ => {
                        return Err(UsageError::fixed("expected a path segment name after '.'"));
                    },
                };
                self.advance();
                let ghost said = key@;
                segments.push(Seg::Key(key));
                assert(segments@.map_values(|s: Seg| s@) =~= before.map_values(|s: Seg| s@).push(
                    SegView::Key(said),
                ));
            } else if self.eat(Sign::LBracket) {
                let key = match self.peek() {
                    Some(Token::Str(key)) => key.clone(),
                    _ => {
                        return Err(
                            UsageError::fixed(
                                "expected a quoted string inside [ ] to name a key with spaces or punctuation",
                            ),
                        );
                    },
                };
                self.advance();
                if !self.eat(Sign::RBracket) {
                    return Err(UsageError::fixed("expected ']' after the bracketed key"));
                }
                let ghost said = key@;
                segments.push(Seg::Index(key));
                assert(segments@.map_values(|s: Seg| s@) =~= before.map_values(|s: Seg| s@).push(
                    SegView::Index(said),
                ));
            } else {
                return Ok(Operand::Path(Path { segments }));
            }
        }
    }

    fn peek(&self) -> (r: Option<&Token>)
        requires
            self.wf(),
        ensures
            match r {
                Some(token) => self.pos < self.tokens@.len() && token@
                    == self.views()[self.pos as int],
                None => self.pos == self.tokens@.len(),
            },
    {
        if self.pos < self.tokens.len() {
            Some(&self.tokens[self.pos])
        } else {
            None
        }
    }

    fn peek_sign(&self) -> (r: Option<Sign>)
        requires
            self.wf(),
        ensures
            match r {
                Some(sign) => sign_here(self.views(), self.pos as int, sign),
                None => self.pos < self.tokens@.len() ==> !(self.views()[self.pos as int] is Sign),
            },
    {
        match self.peek() {
            Some(Token::Sign(sign)) => Some(*sign),
            _ => None,
        }
    }

    fn advance(&mut self)
        requires
            old(self).wf(),
        ensures
            final(self).follows(*old(self)),
            old(self).pos < old(self).tokens@.len() ==> final(self).pos == old(self).pos + 1,
            old(self).pos == old(self).tokens@.len() ==> final(self).pos == old(self).pos,
    {
        if self.pos < self.tokens.len() {
            self.pos += 1;
        }
    }

    fn eat(&mut self, sign: Sign) -> (r: bool)
        requires
            old(self).wf(),
        ensures
            final(self).follows(*old(self)),
            r == sign_here(old(self).views(), old(self).pos as int, sign),
            final(self).pos == (if r {
                old(self).pos + 1
            } else {
                old(self).pos as int
            }),
    {
        match self.peek_sign() {
            Some(found) => {
                if found == sign {
                    self.advance();
                    true
                } else {
                    false
                }
            },
            None => false,
        }
    }
}

impl Clone for Seg {
    fn clone(&self) -> (r: Seg)
        ensures
            r@ == self@,
    {
        match self {
            Seg::Key(key) => Seg::Key(key.clone()),
            Seg::Index(key) => Seg::Index(key.clone()),
        }
    }
}

impl Clone for Path {
    fn clone(&self) -> (r: Path)
        ensures
            r@ == self@,
    {
        let mut segments: Vec<Seg> = Vec::new();
        let mut i: usize = 0;
        while i < self.segments.len()
            invariant
                i <= self.segments@.len(),
                segments@.len() == i,
                forall|k: int| 0 <= k < i ==> (#[trigger] segments@[k])@ == self.segments@[k]@,
            decreases self.segments@.len() - i,
        {
            segments.push(self.segments[i].clone());
            i += 1;
        }
        let r = Path { segments };
        assert(r@ =~= self@);
        r
    }
}

impl Clone for Lit {
    fn clone(&self) -> (r: Lit)
        ensures
            r@ == self@,
    {
        match self {
            Lit::Num(n) => Lit::Num(clone_number(n)),
            Lit::Str(s) => Lit::Str(s.clone()),
            Lit::Bool(b) => Lit::Bool(*b),
        }
    }
}

impl Clone for Operand {
    fn clone(&self) -> (r: Operand)
        ensures
            r@ == self@,
    {
        match self {
            Operand::Path(path) => Operand::Path(path.clone()),
            Operand::Lit(lit) => Operand::Lit(lit.clone()),
        }
    }
}

fn clone_operands(list: &Vec<Operand>) -> (copies: Vec<Operand>)
    ensures
        operand_views(copies@) == operand_views(list@),
{
    let mut copies: Vec<Operand> = Vec::new();
    let mut i: usize = 0;
    while i < list.len()
        invariant
            i <= list@.len(),
            copies@.len() == i,
            forall|k: int| 0 <= k < i ==> (#[trigger] copies@[k])@ == list@[k]@,
        decreases list@.len() - i,
    {
        copies.push(list[i].clone());
        i += 1;
    }
    assert(operand_views(copies@) =~= operand_views(list@));
    copies
}

impl Clone for Node {
    fn clone(&self) -> (r: Node)
        ensures
            r@ == self@,
        decreases self,
    {
        match self {
            Node::Or(parts) => Node::Or(clone_nodes(parts)),
            Node::And(parts) => Node::And(clone_nodes(parts)),
            Node::Not(inner) => Node::Not(Box::new((&**inner).clone())),
            Node::Cmp { left, op, right } => Node::Cmp {
                left: left.clone(),
                op: *op,
                right: right.clone(),
            },
            Node::In { item, list } => Node::In { item: item.clone(), list: clone_operands(list) },
        }
    }
}

fn clone_nodes(parts: &Vec<Node>) -> (copies: Vec<Node>)
    ensures
        node_models(copies@) == node_models(parts@),
    decreases parts,
{
    broadcast use lemma_node_models;

    let mut copies: Vec<Node> = Vec::new();
    let mut i: usize = 0;
    while i < parts.len()
        invariant
            i <= parts@.len(),
            copies@.len() == i,
            forall|k: int| 0 <= k < i ==> (#[trigger] copies@[k])@ == parts@[k]@,
        decreases parts@.len() - i,
    {
        copies.push(parts[i].clone());
        i += 1;
    }
    assert(node_models(copies@) =~= node_models(parts@));
    copies
}

fn clone_number(n: &Option<serde_json::Number>) -> (r: Option<serde_json::Number>)
    ensures
        r == *n,
{
    match n {
        Some(n) => Some(n.clone()),
        None => None,
    }
}

fn name_of_sign(sign: Sign) -> (r: &'static str)
    ensures
        r@ == sign_name(sign),
{
    match sign {
        Sign::Dot => "Dot",
        Sign::Le => "Le",
        Sign::Ge => "Ge",
        Sign::Eq => "Eq",
        Sign::Ne => "Ne",
        Sign::Lt => "Lt",
        Sign::Gt => "Gt",
        Sign::LParen => "LParen",
        Sign::RParen => "RParen",
        Sign::LBracket => "LBracket",
        Sign::RBracket => "RBracket",
        Sign::Comma => "Comma",
        Sign::And => "And",
        Sign::Or => "Or",
        Sign::Not => "Not",
        Sign::In => "In",
    }
}

/// Reads the expression that tokens write.
pub fn parse_expression(tokens: Vec<Token>) -> (r: Result<Node, UsageError>)
    ensures
        match r {
            Ok(node) => expression(lexer::token_views(tokens@)) == Ok::<NodeView, Seq<char>>(
                node@,
            ),
            Err(e) => expression(lexer::token_views(tokens@)) == Err::<NodeView, Seq<char>>(e@),
        },
{
    let mut parser = Parser { tokens, pos: 0 };
    parser.parse()
}

/// What is no operand says what was expected in its place.
pub proof fn law_operand_errors(t: Seq<TokenView>, i: int, steps: Seq<SegView>)
    requires
        0 <= i,
    ensures
        i >= t.len() ==> operand_at(t, i) == Err::<(OperandView, int), Seq<char>>(
            "expression ended where an operand was expected"@,
        ),
        i < t.len() ==> (t[i] matches TokenView::Sign(sign) ==> operand_at(t, i) == Err::<
            (OperandView, int),
            Seq<char>,
        >("expected a path or literal, found "@ + sign_name(sign))),
        sign_here(t, i, Sign::Dot) && !(i + 1 < t.len() && t[i + 1] is Ident) ==> path_at(
            t,
            i,
            steps,
        ) == Err::<(OperandView, int), Seq<char>>("expected a path segment name after '.'"@),
        sign_here(t, i, Sign::LBracket) && !(i + 1 < t.len() && t[i + 1] is Str) ==> path_at(
            t,
            i,
            steps,
        ) == Err::<(OperandView, int), Seq<char>>(
            "expected a quoted string inside [ ] to name a key with spaces or punctuation"@,
        ),
        sign_here(t, i, Sign::LBracket) && i + 1 < t.len() && t[i + 1] is Str && !sign_here(
            t,
            i + 2,
            Sign::RBracket,
        ) ==> path_at(t, i, steps) == Err::<(OperandView, int), Seq<char>>(
            "expected ']' after the bracketed key"@,
        ),
{
}

/// How signs are called in messages.
pub proof fn law_signs_have_names()
    ensures
        sign_name(Sign::Dot) == "Dot"@,
        sign_name(Sign::Le) == "Le"@,
        sign_name(Sign::Ge) == "Ge"@,
        sign_name(Sign::Eq) == "Eq"@,
        sign_name(Sign::Ne) == "Ne"@,
        sign_name(Sign::Lt) == "Lt"@,
        sign_name(Sign::Gt) == "Gt"@,
        sign_name(Sign::LParen) == "LParen"@,
        sign_name(Sign::RParen) == "RParen"@,
        sign_name(Sign::LBracket) == "LBracket"@,
        sign_name(Sign::RBracket) == "RBracket"@,
        sign_name(Sign::Comma) == "Comma"@,
        sign_name(Sign::And) == "And"@,
        sign_name(Sign::Or) == "Or"@,
        sign_name(Sign::Not) == "Not"@,
        sign_name(Sign::In) == "In"@,
{
}

/// What is no comparison says what was expected behind its operand: an operator,
/// or a list that is opened and closed. Parentheses that are opened have to be
/// closed, and nothing may stand behind an expression.
pub proof fn law_expression_errors(t: Seq<TokenView>, i: int, items: Seq<OperandView>)
    requires
        0 <= i,
    ensures
        operand_at(t, i) matches Err(e) ==> comparison_at(t, i) == Err::<
            (NodeView, int),
            Seq<char>,
        >(e),
        operand_at(t, i) matches Ok((_, mid)) ==> !sign_here(t, mid, Sign::In)
            && !(mid < t.len() && (t[mid] matches TokenView::Sign(sign) && seq![
            Sign::Le,
            Sign::Ge,
            Sign::Eq,
            Sign::Ne,
            Sign::Lt,
            Sign::Gt,
        ].contains(sign))) ==> comparison_at(t, i) == Err::<(NodeView, int), Seq<char>>(
            "expected a comparison operator (==, !=, <=, >=, <, >) or 'in' after the operand; only comparisons produce booleans"@,
        ),
        !sign_here(t, i, Sign::LBracket) ==> list_at(t, i) == Err::<
            (Seq<OperandView>, int),
            Seq<char>,
        >("expected '[' to open an 'in' list"@),
        !sign_here(t, i, Sign::Comma) && !sign_here(t, i, Sign::RBracket) ==> items_at(t, i, items)
            == Err::<(Seq<OperandView>, int), Seq<char>>("expected ']' to close the 'in' list"@),
        sign_here(t, i, Sign::LParen) ==> (or_at(t, i + 1, Seq::empty()) matches Ok((_, end))
            ==> !sign_here(t, end, Sign::RParen) ==> unary_at(t, i) == Err::<
            (NodeView, int),
            Seq<char>,
        >("expected ')' to close '('"@)),
        t.len() > 0 ==> (or_at(t, 0, Seq::empty()) matches Ok((_, end)) ==> end != t.len()
            ==> expression(t) == Err::<NodeView, Seq<char>>(
            "unexpected trailing tokens after the expression"@,
        )),
        t.len() > 0 ==> (or_at(t, 0, Seq::empty()) matches Err(e) ==> expression(t) == Err::<
            NodeView,
            Seq<char>,
        >(e)),
{
    if let Ok((_, mid)) = operand_at(t, i) {
        lemma_operand_at(t, i);
        let signs = seq![Sign::Le, Sign::Ge, Sign::Eq, Sign::Ne, Sign::Lt, Sign::Gt];
        assert(signs[0] == Sign::Le && signs[1] == Sign::Ge && signs[2] == Sign::Eq && signs[3]
            == Sign::Ne && signs[4] == Sign::Lt && signs[5] == Sign::Gt);
    }
}

}
