//! Assertion expressions turn answer sets into branchable outcomes.
//!
//! Paths resolve against the evaluated response envelope (`model`, `answers`,
//! `usage`). A path that cannot be resolved, or a comparison between mixed
//! scalar types, is a usage error: it never silently evaluates to `false`,
//! because a silent false would pass or block a gate without notice.

use crate::document;
use crate::error;
use crate::error::UsageError;
use crate::grammar;
use crate::json::{Json, JsonView};
use crate::lexer;
use crate::lexer::{Sign, TokenView};
use crate::number;
use crate::rendering;
use crate::syntax;
use crate::syntax::{CmpOp, Lit, LitView, Node, NodeView, Operand, OperandView, Path, Seg, SegView};
use crate::text;
use vstd::prelude::*;

verus! {

/// A parsed assertion expression.
#[derive(Debug)]
pub struct Expr {
    root: Node,
}

impl View for Expr {
    type V = NodeView;

    closed spec fn view(&self) -> NodeView {
        self.root@
    }
}

impl Expr {
    /// Every list, written out, starts as no array or object does.
    #[verifier::type_invariant]
    spec fn wf(self) -> bool {
        has_plain_lists(self.root@)
    }
}

impl Clone for Expr {
    fn clone(&self) -> (r: Expr)
        ensures
            r@ == self@,
    {
        proof {
            use_type_invariant(self);
        }
        Expr { root: self.root.clone() }
    }
}

/// Result of evaluating an expression against a response envelope.
#[derive(Debug)]
pub struct Outcome {
    pub passed: bool,
    pub failed: Vec<FailedClause>,
}

/// A comparison that did not hold, with both of its sides.
#[derive(Debug)]
pub struct FailedClause {
    pub clause: String,
    pub expected: String,
    pub actual: String,
}

/// What a failed clause says.
#[verifier::ext_equal]
pub struct FailedView {
    pub clause: Seq<char>,
    pub expected: Seq<char>,
    pub actual: Seq<char>,
}

/// What an outcome says.
#[verifier::ext_equal]
pub struct OutcomeView {
    pub passed: bool,
    pub failed: Seq<FailedView>,
}

impl View for FailedClause {
    type V = FailedView;

    open spec fn view(&self) -> FailedView {
        FailedView { clause: self.clause@, expected: self.expected@, actual: self.actual@ }
    }
}

/// What each failed clause of a list says.
pub open spec fn failed_views(failed: Seq<FailedClause>) -> Seq<FailedView> {
    failed.map_values(|f: FailedClause| f@)
}

impl View for Outcome {
    type V = OutcomeView;

    open spec fn view(&self) -> OutcomeView {
        OutcomeView { passed: self.passed, failed: failed_views(self.failed@) }
    }
}

/// A comparison that was evaluated.
struct Leaf {
    clause: String,
    passed: bool,
    expected: String,
    actual: String,
}

/// What an evaluated comparison says.
#[verifier::ext_equal]
pub struct LeafView {
    pub clause: Seq<char>,
    pub passed: bool,
    pub expected: Seq<char>,
    pub actual: Seq<char>,
}

impl View for Leaf {
    type V = LeafView;

    closed spec fn view(&self) -> LeafView {
        LeafView {
            clause: self.clause@,
            passed: self.passed,
            expected: self.expected@,
            actual: self.actual@,
        }
    }
}

spec fn leaf_views(leaves: Seq<Leaf>) -> Seq<LeafView> {
    leaves.map_values(|l: Leaf| l@)
}

// Rendering.

/// A text with its quotes and backslashes escaped.
pub open spec fn escaped(s: Seq<char>) -> Seq<char>
    decreases s.len(),
{
    if s.len() == 0 {
        Seq::empty()
    } else if s.last() == '\\' || s.last() == '"' {
        escaped(s.drop_last()).push('\\').push(s.last())
    } else {
        escaped(s.drop_last()).push(s.last())
    }
}

/// A path as it is written in an expression.
pub open spec fn path_text(steps: Seq<SegView>) -> Seq<char>
    decreases steps.len(),
{
    if steps.len() == 0 {
        Seq::empty()
    } else {
        let before = path_text(steps.drop_last());
        match steps.last() {
            SegView::Key(key) => if before.len() == 0 {
                key
            } else {
                before + "."@ + key
            },
            SegView::Index(key) => before + "[\""@ + escaped(key) + "\"]"@,
        }
    }
}

/// The document that a literal stands for; a number without a value is null.
pub open spec fn literal_value(lit: LitView) -> JsonView {
    match lit {
        LitView::Num(Some(n)) => JsonView::Number(n),
        LitView::Num(None) => JsonView::Null,
        LitView::Str(s) => JsonView::Str(s),
        LitView::Bool(b) => JsonView::Bool(b),
    }
}

/// A literal as it is written in an expression.
pub open spec fn literal_text(lit: LitView) -> Seq<char> {
    match lit {
        LitView::Num(_) => document::compact_text(literal_value(lit)),
        LitView::Str(s) => "\""@ + escaped(s) + "\""@,
        LitView::Bool(b) => if b {
            "true"@
        } else {
            "false"@
        },
    }
}

/// An operand as it is written in an expression.
pub open spec fn operand_text(operand: OperandView) -> Seq<char> {
    match operand {
        OperandView::Path(steps) => path_text(steps),
        OperandView::Lit(lit) => literal_text(lit),
    }
}

/// A comparison operator as it is written in an expression.
pub open spec fn operator_text(op: CmpOp) -> Seq<char> {
    match op {
        CmpOp::Le => "<="@,
        CmpOp::Ge => ">="@,
        CmpOp::Eq => "=="@,
        CmpOp::Ne => "!="@,
        CmpOp::Lt => "<"@,
        CmpOp::Gt => ">"@,
    }
}

/// The operands of a list as they are written in an expression.
pub open spec fn list_text(list: Seq<OperandView>) -> Seq<char> {
    text::joined(list.map_values(|o: OperandView| operand_text(o)), ", "@)
}

/// A comparison as it is written in an expression.
pub open spec fn comparison_text(left: OperandView, op: CmpOp, right: OperandView) -> Seq<char> {
    operand_text(left) + " "@ + operator_text(op) + " "@ + operand_text(right)
}

/// A membership test as it is written in an expression.
pub open spec fn membership_text(item: OperandView, list: Seq<OperandView>) -> Seq<char> {
    operand_text(item) + " in ["@ + list_text(list) + "]"@
}

// Evaluation.

/// A scalar that can be compared; a number is the bits of a double.
#[verifier::ext_equal]
pub enum Scalar {
    Num(u64),
    Str(Seq<char>),
    Bool(bool),
}

/// The kind of a scalar in messages.
pub open spec fn scalar_kind(s: Scalar) -> Seq<char> {
    match s {
        Scalar::Num(_) => "number"@,
        Scalar::Str(_) => "string"@,
        Scalar::Bool(_) => "boolean"@,
    }
}

/// The kind of a document in messages.
pub open spec fn kind_of(view: JsonView) -> Seq<char> {
    match view {
        JsonView::Null => "null"@,
        JsonView::Bool(_) => "boolean"@,
        JsonView::Number(_) => "number"@,
        JsonView::Str(_) => "string"@,
        JsonView::Array(_) => "array"@,
        JsonView::Object(_) => "object"@,
    }
}

/// The scalar of a document, or why it is none.
pub open spec fn scalar_of(view: JsonView, place: Seq<char>) -> Result<Scalar, Seq<char>> {
    match view {
        JsonView::Number(n) => Ok(Scalar::Num(number::double_of(n))),
        JsonView::Str(s) => Ok(Scalar::Str(s)),
        JsonView::Bool(b) => Ok(Scalar::Bool(b)),
        JsonView::Null => Err(place + " is null; nulls cannot be compared"@),
        _ => Err(place + " is an object or array; assertions compare scalars"@),
    }
}

/// Whether two scalars are of one kind.
pub open spec fn same_kind(a: Scalar, b: Scalar) -> bool {
    match (a, b) {
        (Scalar::Num(_), Scalar::Num(_)) => true,
        (Scalar::Str(_), Scalar::Str(_)) => true,
        (Scalar::Bool(_), Scalar::Bool(_)) => true,
        _ => false,
    }
}

/// Whether two scalars are equal; numbers are by their values.
pub open spec fn scalars_equal(a: Scalar, b: Scalar) -> bool {
    match (a, b) {
        (Scalar::Num(x), Scalar::Num(y)) => number::double_units(x) == number::double_units(y),
        (Scalar::Str(x), Scalar::Str(y)) => x == y,
        (Scalar::Bool(x), Scalar::Bool(y)) => x == y,
        _ => false,
    }
}

/// The key of a step of a path.
pub open spec fn step_key(step: SegView) -> Seq<char> {
    match step {
        SegView::Key(key) => key,
        SegView::Index(key) => key,
    }
}

/// The value that the steps of a path from `i` on lead to, or the step at
/// which they lead nowhere.
pub open spec fn follow(steps: Seq<SegView>, i: int, view: JsonView) -> Result<
    JsonView,
    Seq<char>,
>
    decreases steps.len() - i,
{
    if i < 0 || i >= steps.len() {
        Ok(view)
    } else if !(view is Object) {
        Err(
            "path '"@ + path_text(steps)
                + "' cannot be resolved: the value before segment "@ + text::decimal(i as nat)
                + " is a "@ + kind_of(view) + ", not an object"@,
        )
    } else {
        match view.get(step_key(steps[i])) {
            None => Err(
                "path '"@ + path_text(steps) + "' cannot be resolved: no key '"@ + step_key(
                    steps[i],
                ) + "' at segment "@ + text::decimal(i as nat),
            ),
            Some(next) => follow(steps, i + 1, next),
        }
    }
}

/// The value of an operand in a document.
pub open spec fn operand_value(operand: OperandView, envelope: JsonView) -> Result<
    JsonView,
    Seq<char>,
> {
    match operand {
        OperandView::Lit(lit) => Ok(literal_value(lit)),
        OperandView::Path(steps) => match follow(steps, 0, envelope) {
            Ok(view) => Ok(view),
            Err(cause) => Err(
                error::in_context(
                    "while resolving path '"@ + path_text(steps) + "'"@,
                    cause,
                ),
            ),
        },
    }
}

/// Whether a comparison holds, or why its sides cannot be compared.
pub open spec fn compared(
    lv: JsonView,
    rv: JsonView,
    op: CmpOp,
    left: Seq<char>,
    right: Seq<char>,
) -> Result<bool, Seq<char>> {
    match (scalar_of(lv, left), scalar_of(rv, right)) {
        (Err(e), _) => Err(e),
        (_, Err(e)) => Err(e),
        (Ok(l), Ok(r)) => {
            let clause = left + " "@ + operator_text(op) + " "@ + right;
            match op {
                CmpOp::Eq | CmpOp::Ne => if same_kind(l, r) {
                    Ok(scalars_equal(l, r) == (op == CmpOp::Eq))
                } else {
                    Err(
                        "cannot compare "@ + scalar_kind(l) + " with "@ + scalar_kind(r)
                            + " in '"@ + clause + "'"@,
                    )
                },
                _ => match (l, r) {
                    (Scalar::Num(x), Scalar::Num(y)) => {
                        let (x, y) = (number::double_units(x), number::double_units(y));
                        Ok(
                            match op {
                                CmpOp::Le => x <= y,
                                CmpOp::Ge => x >= y,
                                CmpOp::Lt => x < y,
                                _ => x > y,
                            },
                        )
                    },
                    _ => Err("ordering comparison needs numbers in '"@ + clause + "'"@),
                },
            }
        },
    }
}

/// Whether a scalar is among the first `n` operands of a list, or why it
/// cannot be compared with one of them.
pub open spec fn found_in(
    item: Scalar,
    list: Seq<OperandView>,
    n: int,
    envelope: JsonView,
    clause: Seq<char>,
) -> Result<bool, Seq<char>>
    decreases n,
{
    if n <= 0 {
        Ok(false)
    } else {
        match found_in(item, list, n - 1, envelope, clause) {
            Err(e) => Err(e),
            Ok(found) => match operand_value(list[n - 1], envelope) {
                Err(e) => Err(e),
                Ok(view) => match scalar_of(view, operand_text(list[n - 1])) {
                    Err(e) => Err(error::in_context("in clause '"@ + clause + "'"@, e)),
                    Ok(element) => if same_kind(item, element) {
                        Ok(found || scalars_equal(item, element))
                    } else {
                        Err(
                            "in clause '"@ + clause + "': cannot compare "@ + scalar_kind(item)
                                + " with "@ + scalar_kind(element),
                        )
                    },
                },
            },
        }
    }
}

/// What comes of a comparison.
pub open spec fn comparison_leaf(
    left: OperandView,
    op: CmpOp,
    right: OperandView,
    envelope: JsonView,
) -> Result<LeafView, Seq<char>> {
    match (operand_value(left, envelope), operand_value(right, envelope)) {
        (Err(e), _) => Err(e),
        (_, Err(e)) => Err(e),
        (Ok(lv), Ok(rv)) => match compared(lv, rv, op, operand_text(left), operand_text(right)) {
            Err(e) => Err(e),
            Ok(passed) => Ok(
                LeafView {
                    clause: comparison_text(left, op, right),
                    passed,
                    expected: document::compact_text(rv),
                    actual: document::compact_text(lv),
                },
            ),
        },
    }
}

/// What comes of a membership test.
pub open spec fn membership_leaf(
    item: OperandView,
    list: Seq<OperandView>,
    envelope: JsonView,
) -> Result<LeafView, Seq<char>> {
    let clause = membership_text(item, list);
    match operand_value(item, envelope) {
        Err(e) => Err(e),
        Ok(view) => match scalar_of(view, operand_text(item)) {
            Err(e) => Err(error::in_context("in clause '"@ + clause + "'"@, e)),
            Ok(scalar) => match found_in(scalar, list, list.len() as int, envelope, clause) {
                Err(e) => Err(e),
                Ok(passed) => Ok(
                    LeafView {
                        clause,
                        passed,
                        expected: list_text(list),
                        actual: document::compact_text(view),
                    },
                ),
            },
        },
    }
}

/// What comes of a comparison or a membership test.
pub open spec fn leaf_result(leaf: NodeView, envelope: JsonView) -> Result<LeafView, Seq<char>> {
    match leaf {
        NodeView::Cmp { left, op, right } => comparison_leaf(left, op, right, envelope),
        NodeView::In { item, list } => membership_leaf(item, list, envelope),
        _ => Err(Seq::empty()),
    }
}

/// The comparisons and membership tests of an expression, from left to right.
pub open spec fn leaves_of(node: NodeView) -> Seq<NodeView>
    decreases node,
{
    match node {
        NodeView::Or(parts) => leaves_of_all(parts),
        NodeView::And(parts) => leaves_of_all(parts),
        NodeView::Not(inner) => leaves_of(*inner),
        _ => seq![node],
    }
}

/// The comparisons and membership tests of expressions, from left to right.
pub open spec fn leaves_of_all(parts: Seq<NodeView>) -> Seq<NodeView>
    decreases parts,
{
    if parts.len() == 0 {
        Seq::empty()
    } else {
        leaves_of_all(parts.drop_last()) + leaves_of(parts.last())
    }
}

/// What comes of each leaf, or the first error among them.
pub open spec fn leaf_results(leaves: Seq<NodeView>, envelope: JsonView) -> Result<
    Seq<LeafView>,
    Seq<char>,
>
    decreases leaves.len(),
{
    if leaves.len() == 0 {
        Ok(Seq::empty())
    } else {
        match leaf_results(leaves.drop_last(), envelope) {
            Err(e) => Err(e),
            Ok(results) => match leaf_result(leaves.last(), envelope) {
                Err(e) => Err(e),
                Ok(result) => Ok(results.push(result)),
            },
        }
    }
}

/// Whether an expression holds in a document.
pub open spec fn holds(node: NodeView, envelope: JsonView) -> bool
    decreases node,
{
    match node {
        NodeView::Or(parts) => any_holds(parts, envelope),
        NodeView::And(parts) => all_hold(parts, envelope),
        NodeView::Not(inner) => !holds(*inner, envelope),
        leaf => leaf_result(leaf, envelope) matches Ok(result) && result.passed,
    }
}

/// Whether one of several expressions holds.
pub open spec fn any_holds(parts: Seq<NodeView>, envelope: JsonView) -> bool
    decreases parts,
{
    parts.len() > 0 && (any_holds(parts.drop_last(), envelope) || holds(parts.last(), envelope))
}

/// Whether each of several expressions holds.
pub open spec fn all_hold(parts: Seq<NodeView>, envelope: JsonView) -> bool
    decreases parts,
{
    parts.len() == 0 || (all_hold(parts.drop_last(), envelope) && holds(parts.last(), envelope))
}

/// The comparisons that did not hold.
pub open spec fn failures(results: Seq<LeafView>) -> Seq<FailedView>
    decreases results.len(),
{
    if results.len() == 0 {
        Seq::empty()
    } else {
        let before = failures(results.drop_last());
        let last = results.last();
        if last.passed {
            before
        } else {
            before.push(
                FailedView { clause: last.clause, expected: last.expected, actual: last.actual },
            )
        }
    }
}

/// Whether a path, written out, starts as no array or object does. A path that
/// is read starts with a name.
pub open spec fn is_plain(operand: OperandView) -> bool {
    operand matches OperandView::Path(steps) ==> document::starts_plainly(path_text(steps))
}

/// Whether every list of an expression, written out, starts as no array or
/// object does.
pub open spec fn has_plain_lists(node: NodeView) -> bool
    decreases node,
{
    match node {
        NodeView::Or(parts) => all_have_plain_lists(parts),
        NodeView::And(parts) => all_have_plain_lists(parts),
        NodeView::Not(inner) => has_plain_lists(*inner),
        NodeView::In { list, .. } => list.len() > 0 ==> is_plain(list[0]),
        _ => true,
    }
}

/// Whether the same holds of each of several expressions.
pub open spec fn all_have_plain_lists(parts: Seq<NodeView>) -> bool
    decreases parts,
{
    parts.len() == 0 || (all_have_plain_lists(parts.drop_last()) && has_plain_lists(parts.last()))
}

/// Whether both sides of a comparison, written out, start as no array or
/// object does.
pub open spec fn leaf_is_plain(leaf: LeafView) -> bool {
    document::starts_plainly(leaf.expected) && document::starts_plainly(leaf.actual)
}

/// Whether both sides of a comparison that did not hold, written out, start as
/// no array or object does.
pub open spec fn clause_is_plain(failed: FailedView) -> bool {
    document::starts_plainly(failed.expected) && document::starts_plainly(failed.actual)
}

spec fn leaves_are_plain(leaves: Seq<LeafView>) -> bool {
    forall|k: int| 0 <= k < leaves.len() ==> leaf_is_plain(#[trigger] leaves[k])
}

/// Each of several expressions has plain lists where all have.
proof fn lemma_plain_part(parts: Seq<NodeView>, k: int)
    requires
        all_have_plain_lists(parts),
        0 <= k < parts.len(),
    ensures
        has_plain_lists(parts[k]),
    decreases parts.len(),
{
    if k < parts.len() - 1 {
        lemma_plain_part(parts.drop_last(), k);
        assert(parts.drop_last()[k] == parts[k]);
    }
}

/// Texts that are joined start as the first of them does.
proof fn lemma_joined_plain(texts: Seq<Seq<char>>)
    requires
        texts.len() > 0 ==> document::starts_plainly(texts[0]),
    ensures
        document::starts_plainly(text::joined(texts, ", "@)),
    decreases texts.len(),
{
    if texts.len() > 1 {
        reveal_strlit(", ");
        let before = texts.drop_last();
        assert(before[0] == texts[0]);
        lemma_joined_plain(before);
        let start = text::joined(before, ", "@);
        let whole = text::joined(texts, ", "@);
        if start.len() > 0 {
            assert(whole[0] == start[0]);
        } else {
            assert(whole[0] == ", "@[0]);
        }
    }
}

/// What comes of an expression: an error where any of its comparisons cannot
/// be made, and otherwise whether it holds and which comparisons do not.
pub open spec fn evaluated(node: NodeView, envelope: JsonView) -> Result<
    OutcomeView,
    Seq<char>,
> {
    match leaf_results(leaves_of(node), envelope) {
        Err(e) => Err(e),
        Ok(results) => Ok(
            OutcomeView { passed: holds(node, envelope), failed: failures(results) },
        ),
    }
}

/// Escapes the quotes and backslashes of a text.
pub fn escape(s: &str) -> (r: String)
    ensures
        r@ == escaped(s@),
{
    let chars = text::chars_of(s);
    let mut r = String::new();
    let mut i: usize = 0;
    while i < chars.len()
        invariant
            i <= chars@.len(),
            r@ == escaped(chars@.take(i as int)),
        decreases chars@.len() - i,
    {
        let c = chars[i];
        assert(chars@.take(i + 1).drop_last() =~= chars@.take(i as int));
        if c == '\\' || c == '"' {
            r.push('\\');
        }
        r.push(c);
        i += 1;
    }
    assert(chars@.take(chars@.len() as int) =~= chars@);
    r
}

impl Path {
    /// The path as it is written in an expression.
    pub fn render(&self) -> (r: String)
        ensures
            r@ == path_text(self@),
    {
        let mut out = String::new();
        let mut i: usize = 0;
        while i < self.segments.len()
            invariant
                i <= self.segments@.len(),
                out@ == path_text(self@.take(i as int)),
            decreases self.segments@.len() - i,
        {
            assert(self@.take(i + 1).drop_last() =~= self@.take(i as int));
            match &self.segments[i] {
                Seg::Key(key) => {
                    if out.as_str().is_empty() {
                        out = key.clone();
                    } else {
                        out.append(".");
                        out.append(key.as_str());
                    }
                },
                Seg::Index(key) => {
                    out.append("[\"");
                    out.append(escape(key.as_str()).as_str());
                    out.append("\"]");
                },
            }
            i += 1;
        }
        assert(self@.take(self.segments@.len() as int) =~= self@);
        out
    }

    /// The value that the path leads to.
    pub fn lookup(&self, root: &Json) -> (r: Result<Json, UsageError>)
        ensures
            match r {
                Ok(value) => follow(self@, 0, root@) == Ok::<JsonView, Seq<char>>(value@),
                Err(e) => follow(self@, 0, root@) == Err::<JsonView, Seq<char>>(e@),
            },
    {
        let mut current = root;
        let mut i: usize = 0;
        while i < self.segments.len()
            invariant
                i <= self.segments@.len(),
                follow(self@, 0, root@) == follow(self@, i as int, current@),
            decreases self.segments@.len() - i,
        {
            let key = match &self.segments[i] {
                Seg::Key(key) => key.as_str(),
                Seg::Index(key) => key.as_str(),
            };
            assert(key@ == step_key(self@[i as int]));
            let object = match current {
                Json::Object(object) => object,
                _ => {
                    let mut message = "path '".to_owned();
                    message.append(self.render().as_str());
                    message.append("' cannot be resolved: the value before segment ");
                    message.append(text::decimal_text(i as u64).as_str());
                    message.append(" is a ");
                    message.append(json_kind(current));
                    message.append(", not an object");
                    return Err(UsageError::new(message));
                },
            };
            match object.get(key) {
                None => {
                    let mut message = "path '".to_owned();
                    message.append(self.render().as_str());
                    message.append("' cannot be resolved: no key '");
                    message.append(key);
                    message.append("' at segment ");
                    message.append(text::decimal_text(i as u64).as_str());
                    return Err(UsageError::new(message));
                },
                Some(next) => {
                    current = next;
                },
            }
            i += 1;
        }
        Ok(current.clone())
    }
}

impl CmpOp {
    /// The operator as it is written in an expression.
    pub fn render(self) -> (r: &'static str)
        ensures
            r@ == operator_text(self),
    {
        match self {
            CmpOp::Le => "<=",
            CmpOp::Ge => ">=",
            CmpOp::Eq => "==",
            CmpOp::Ne => "!=",
            CmpOp::Lt => "<",
            CmpOp::Gt => ">",
        }
    }
}

impl Lit {
    /// The literal as it is written in an expression.
    pub fn render(&self) -> (r: String)
        ensures
            r@ == literal_text(self@),
            document::starts_plainly(r@),
    {
        proof {
            reveal_strlit("\"");
            reveal_strlit("true");
            reveal_strlit("false");
        }
        match self {
            Lit::Num(_) => document::write_json(&self.value()),
            Lit::Str(s) => {
                let mut r = "\"".to_owned();
                r.append(escape(s.as_str()).as_str());
                r.append("\"");
                r
            },
            Lit::Bool(b) => {
                if *b {
                    "true".to_owned()
                } else {
                    "false".to_owned()
                }
            },
        }
    }

    /// The document that the literal stands for.
    pub fn value(&self) -> (r: Json)
        ensures
            r@ == literal_value(self@),
    {
        match self {
            Lit::Num(Some(n)) => Json::Number(n.clone()),
            Lit::Num(None) => Json::Null,
            Lit::Str(s) => Json::Str(s.clone()),
            Lit::Bool(b) => Json::Bool(*b),
        }
    }
}

fn json_kind(json: &Json) -> (r: &'static str)
    ensures
        r@ == kind_of(json@),
{
    match json {
        Json::Null => "null",
        Json::Bool(_) => "boolean",
        Json::Number(_) => "number",
        Json::Str(_) => "string",
        Json::Array(_) => "array",
        Json::Object(_) => "object",
    }
}

fn render_operand(operand: &Operand) -> (r: String)
    ensures
        r@ == operand_text(operand@),
        is_plain(operand@) ==> document::starts_plainly(r@),
{
    match operand {
        Operand::Lit(lit) => lit.render(),
        Operand::Path(path) => path.render(),
    }
}

fn render_list(list: &Vec<Operand>) -> (r: String)
    ensures
        r@ == list_text(syntax::operand_views(list@)),
        (list@.len() > 0 ==> is_plain(list@[0]@)) ==> document::starts_plainly(r@),
{
    let mut parts: Vec<String> = Vec::new();
    let mut i: usize = 0;
    while i < list.len()
        invariant
            i <= list@.len(),
            parts@.len() == i,
            forall|k: int| 0 <= k < i ==> (#[trigger] parts@[k])@ == operand_text(list@[k]@),
            i > 0 && is_plain(list@[0]@) ==> document::starts_plainly(parts@[0]@),
        decreases list@.len() - i,
    {
        parts.push(render_operand(&list[i]));
        i += 1;
    }
    proof {
        if list@.len() > 0 ==> is_plain(list@[0]@) {
            lemma_joined_plain(text::texts(parts@));
        }
    }
    assert(text::texts(parts@) =~= syntax::operand_views(list@).map_values(
        |o: OperandView| operand_text(o),
    ));
    text::join(&parts, ", ")
}

fn render_in(item: &Operand, list: &Vec<Operand>) -> (r: String)
    ensures
        r@ == membership_text(item@, syntax::operand_views(list@)),
{
    let mut r = render_operand(item);
    r.append(" in [");
    r.append(render_list(list).as_str());
    r.append("]");
    r
}

/// A scalar that can be compared; a number is the bits of a double.
enum Val {
    Num(u64),
    Str(String),
    Bool(bool),
}

impl View for Val {
    type V = Scalar;

    closed spec fn view(&self) -> Scalar {
        match *self {
            Val::Num(bits) => Scalar::Num(bits),
            Val::Str(s) => Scalar::Str(s@),
            Val::Bool(b) => Scalar::Bool(b),
        }
    }
}

impl Val {
    fn kind(&self) -> (r: &'static str)
        ensures
            r@ == scalar_kind(self@),
    {
        match self {
            Val::Num(_) => "number",
            Val::Str(_) => "string",
            Val::Bool(_) => "boolean",
        }
    }

    fn same_kind_as(&self, other: &Val) -> (r: bool)
        ensures
            r == same_kind(self@, other@),
    {
        match (self, other) {
            (Val::Num(_), Val::Num(_)) => true,
            (Val::Str(_), Val::Str(_)) => true,
            (Val::Bool(_), Val::Bool(_)) => true,
            _ => false,
        }
    }
}

fn classify(value: &Json, place: &str) -> (r: Result<Val, UsageError>)
    ensures
        match r {
            Ok(val) => scalar_of(value@, place@) == Ok::<Scalar, Seq<char>>(val@),
            Err(e) => scalar_of(value@, place@) == Err::<Scalar, Seq<char>>(e@),
        },
{
    match value {
        Json::Number(n) => Ok(Val::Num(number::number_double(n))),
        Json::Str(s) => Ok(Val::Str(s.clone())),
        Json::Bool(b) => Ok(Val::Bool(*b)),
        Json::Null => {
            let mut message = place.to_owned();
            message.append(" is null; nulls cannot be compared");
            Err(UsageError::new(message))
        },
        _ => {
            let mut message = place.to_owned();
            message.append(" is an object or array; assertions compare scalars");
            Err(UsageError::new(message))
        },
    }
}

fn values_equal(a: &Val, b: &Val) -> (r: bool)
    ensures
        r == scalars_equal(a@, b@),
{
    match (a, b) {
        (Val::Num(x), Val::Num(y)) => number::double_equal(*x, *y),
        (Val::Str(x), Val::Str(y)) => text::same(x.as_str(), y.as_str()),
        (Val::Bool(x), Val::Bool(y)) => *x == *y,
        _ => false,
    }
}

/// Compares two values; `left` and `right` are how errors name them.
pub fn compare(lv: &Json, rv: &Json, op: CmpOp, left: &str, right: &str) -> (r: Result<
    bool,
    UsageError,
>)
    ensures
        match r {
            Ok(passed) => compared(lv@, rv@, op, left@, right@) == Ok::<bool, Seq<char>>(passed),
            Err(e) => compared(lv@, rv@, op, left@, right@) == Err::<bool, Seq<char>>(e@),
        },
{
    let l = classify(lv, left)?;
    let r = classify(rv, right)?;
    let mut clause = left.to_owned();
    clause.append(" ");
    clause.append(op.render());
    clause.append(" ");
    clause.append(right);
    match op {
        CmpOp::Eq | CmpOp::Ne => {
            if !l.same_kind_as(&r) {
                let mut message = "cannot compare ".to_owned();
                message.append(l.kind());
                message.append(" with ");
                message.append(r.kind());
                message.append(" in '");
                message.append(clause.as_str());
                message.append("'");
                return Err(UsageError::new(message));
            }
            Ok(values_equal(&l, &r) == (op == CmpOp::Eq))
        },
        _ => match (&l, &r) {
            (Val::Num(x), Val::Num(y)) => Ok(
                match op {
                    CmpOp::Le => !number::double_less(*y, *x),
                    CmpOp::Ge => !number::double_less(*x, *y),
                    CmpOp::Lt => number::double_less(*x, *y),
                    _ => number::double_less(*y, *x),
                },
            ),
            _ => {
                let mut message = "ordering comparison needs numbers in '".to_owned();
                message.append(clause.as_str());
                message.append("'");
                Err(UsageError::new(message))
            },
        },
    }
}

fn resolve(operand: &Operand, envelope: &Json) -> (r: Result<Json, UsageError>)
    ensures
        match r {
            Ok(value) => operand_value(operand@, envelope@) == Ok::<JsonView, Seq<char>>(value@),
            Err(e) => operand_value(operand@, envelope@) == Err::<JsonView, Seq<char>>(e@),
        },
{
    match operand {
        Operand::Lit(lit) => Ok(lit.value()),
        Operand::Path(path) => match path.lookup(envelope) {
            Ok(value) => Ok(value),
            Err(e) => {
                let mut context = "while resolving path '".to_owned();
                context.append(path.render().as_str());
                context.append("'");
                Err(UsageError::caused(context, e.message.as_str()))
            },
        },
    }
}

/// Leaves are evaluated one after another.
proof fn lemma_results_concat(a: Seq<NodeView>, b: Seq<NodeView>, envelope: JsonView)
    ensures
        leaf_results(a + b, envelope) == (match (
            leaf_results(a, envelope),
            leaf_results(b, envelope),
        ) {
            (Err(e), _) => Err::<Seq<LeafView>, Seq<char>>(e),
            (_, Err(e)) => Err::<Seq<LeafView>, Seq<char>>(e),
            (Ok(x), Ok(y)) => Ok::<Seq<LeafView>, Seq<char>>(x + y),
        }),
    decreases b.len(),
{
    if b.len() == 0 {
        assert(a + b =~= a);
        if let Ok(x) = leaf_results(a, envelope) {
            assert(x + Seq::<LeafView>::empty() =~= x);
        }
    } else {
        lemma_results_concat(a, b.drop_last(), envelope);
        assert((a + b).drop_last() =~= a + b.drop_last());
        if let (Ok(x), Ok(y), Ok(last)) = (
            leaf_results(a, envelope),
            leaf_results(b.drop_last(), envelope),
            leaf_result(b.last(), envelope),
        ) {
            assert((x + y).push(last) =~= x + y.push(last));
        }
    }
}

fn eval_comparison(left: &Operand, op: CmpOp, right: &Operand, envelope: &Json) -> (r: Result<
    Leaf,
    UsageError,
>)
    ensures
        match r {
            Ok(leaf) => comparison_leaf(left@, op, right@, envelope@) == Ok::<
                LeafView,
                Seq<char>,
            >(leaf@),
            Err(e) => comparison_leaf(left@, op, right@, envelope@) == Err::<
                LeafView,
                Seq<char>,
            >(e@),
        },
        r matches Ok(leaf) ==> leaf_is_plain(leaf@),
{
    let lv = resolve(left, envelope)?;
    let rv = resolve(right, envelope)?;
    let left_text = render_operand(left);
    let right_text = render_operand(right);
    let passed = compare(&lv, &rv, op, left_text.as_str(), right_text.as_str())?;
    let mut clause = left_text;
    clause.append(" ");
    clause.append(op.render());
    clause.append(" ");
    clause.append(right_text.as_str());
    Ok(
        Leaf {
            clause,
            passed,
            expected: document::write_json(&rv),
            actual: document::write_json(&lv),
        },
    )
}

fn in_clause(clause: &str) -> (r: String)
    ensures
        r@ == "in clause '"@ + clause@ + "'"@,
{
    let mut r = "in clause '".to_owned();
    r.append(clause);
    r.append("'");
    r
}

fn eval_membership(item: &Operand, list: &Vec<Operand>, envelope: &Json) -> (r: Result<
    Leaf,
    UsageError,
>)
    ensures
        match r {
            Ok(leaf) => membership_leaf(item@, syntax::operand_views(list@), envelope@) == Ok::<
                LeafView,
                Seq<char>,
            >(leaf@),
            Err(e) => membership_leaf(item@, syntax::operand_views(list@), envelope@) == Err::<
                LeafView,
                Seq<char>,
            >(e@),
        },
        (list@.len() > 0 ==> is_plain(list@[0]@)) ==> (r matches Ok(leaf) ==> leaf_is_plain(
            leaf@,
        )),
{
    let ghost views = syntax::operand_views(list@);
    let clause = render_in(item, list);
    let value = resolve(item, envelope)?;
    let item_val = match classify(&value, render_operand(item).as_str()) {
        Ok(val) => val,
        Err(e) => {
            return Err(UsageError::caused(in_clause(clause.as_str()), e.message.as_str()));
        },
    };
    let mut matched = false;
    let mut i: usize = 0;
    while i < list.len()
        invariant
            i <= list@.len(),
            views == syntax::operand_views(list@),
            clause@ == membership_text(item@, views),
            operand_value(item@, envelope@) == Ok::<JsonView, Seq<char>>(value@),
            scalar_of(value@, operand_text(item@)) == Ok::<Scalar, Seq<char>>(item_val@),
            found_in(item_val@, views, i as int, envelope@, clause@) == Ok::<bool, Seq<char>>(
                matched,
            ),
        decreases list@.len() - i,
    {
        let ghost at_next = found_in(item_val@, views, i + 1, envelope@, clause@);
        assert(views[i as int] == list@[i as int]@);
        proof {
            if at_next is Err {
                lemma_found_error(
                    item_val@,
                    views,
                    i + 1,
                    views.len() as int,
                    envelope@,
                    clause@,
                );
            }
        }
        let element = resolve(&list[i], envelope)?;
        let element_val = match classify(&element, render_operand(&list[i]).as_str()) {
            Ok(val) => val,
            Err(e) => {
                return Err(UsageError::caused(in_clause(clause.as_str()), e.message.as_str()));
            },
        };
        if !item_val.same_kind_as(&element_val) {
            let mut message = "in clause '".to_owned();
            message.append(clause.as_str());
            message.append("': cannot compare ");
            message.append(item_val.kind());
            message.append(" with ");
            message.append(element_val.kind());
            return Err(UsageError::new(message));
        }
        matched = matched || values_equal(&item_val, &element_val);
        i += 1;
    }
    Ok(
        Leaf {
            clause,
            passed: matched,
            expected: render_list(list),
            actual: document::write_json(&value),
        },
    )
}

/// An error at an operand of a list is the error of the list.
proof fn lemma_found_error(
    item: Scalar,
    list: Seq<OperandView>,
    n: int,
    m: int,
    envelope: JsonView,
    clause: Seq<char>,
)
    requires
        0 <= n <= m,
        found_in(item, list, n, envelope, clause) is Err,
    ensures
        found_in(item, list, m, envelope, clause) == found_in(item, list, n, envelope, clause),
    decreases m,
{
    if n < m {
        lemma_found_error(item, list, n, m - 1, envelope, clause);
    }
}

/// Evaluates an expression, and collects what comes of its comparisons.
fn eval_node(node: &Node, envelope: &Json, leaves: &mut Vec<Leaf>) -> (r: Result<
    bool,
    UsageError,
>)
    ensures
        match r {
            Ok(passed) => {
                &&& passed == holds(node@, envelope@)
                &&& leaf_results(leaves_of(node@), envelope@) is Ok
                &&& leaf_views(final(leaves)@) == leaf_views(old(leaves)@) + leaf_results(
                    leaves_of(node@),
                    envelope@,
                )->Ok_0
            },
            Err(e) => leaf_results(leaves_of(node@), envelope@) == Err::<
                Seq<LeafView>,
                Seq<char>,
            >(e@),
        },
        r is Ok && has_plain_lists(node@) && leaves_are_plain(leaf_views(old(leaves)@))
            ==> leaves_are_plain(leaf_views(final(leaves)@)),
    decreases node,
{
    match node {
        Node::Or(parts) => {
            let (any, _) = eval_parts(parts, envelope, leaves)?;
            Ok(any)
        },
        Node::And(parts) => {
            let (_, all) = eval_parts(parts, envelope, leaves)?;
            Ok(all)
        },
        Node::Not(inner) => {
            let passed = eval_node(inner, envelope, leaves)?;
            Ok(!passed)
        },
        Node::Cmp { left, op, right } => {
            proof {
                lemma_single_leaf(node@, envelope@);
            }
            let leaf = eval_comparison(left, *op, right, envelope)?;
            Ok(keep_leaf(leaf, leaves))
        },
        Node::In { item, list } => {
            proof {
                lemma_single_leaf(node@, envelope@);
            }
            let leaf = eval_membership(item, list, envelope)?;
            Ok(keep_leaf(leaf, leaves))
        },
    }
}

/// Adds a leaf to those before it, and says whether it holds.
fn keep_leaf(leaf: Leaf, leaves: &mut Vec<Leaf>) -> (passed: bool)
    ensures
        passed == leaf@.passed,
        leaf_views(final(leaves)@) == leaf_views(old(leaves)@) + seq![leaf@],
{
    let passed = leaf.passed;
    leaves.push(leaf);
    assert(leaf_views(leaves@) =~= leaf_views(old(leaves)@) + seq![leaf@]);
    passed
}

/// An expression of one comparison has one leaf.
proof fn lemma_single_leaf(node: NodeView, envelope: JsonView)
    requires
        node is Cmp || node is In,
    ensures
        leaf_results(leaves_of(node), envelope) == (match leaf_result(node, envelope) {
            Err(e) => Err::<Seq<LeafView>, Seq<char>>(e),
            Ok(leaf) => Ok::<Seq<LeafView>, Seq<char>>(seq![leaf]),
        }),
{
    let leaves = leaves_of(node);
    assert(leaves.drop_last() =~= Seq::empty());
    assert(leaf_results(leaves.drop_last(), envelope) == Ok::<Seq<LeafView>, Seq<char>>(
        Seq::empty(),
    ));
    if let Ok(leaf) = leaf_result(node, envelope) {
        assert(Seq::<LeafView>::empty().push(leaf) =~= seq![leaf]);
    }
}

/// Leaves of the first parts come before those of the others.
proof fn lemma_leaves_error(parts: Seq<NodeView>, n: int, envelope: JsonView)
    requires
        0 <= n <= parts.len(),
        leaf_results(leaves_of_all(parts.take(n)), envelope) is Err,
    ensures
        leaf_results(leaves_of_all(parts), envelope) == leaf_results(
            leaves_of_all(parts.take(n)),
            envelope,
        ),
    decreases parts.len() - n,
{
    if n == parts.len() {
        assert(parts.take(n) =~= parts);
    } else {
        let next = parts.take(n + 1);
        assert(next.drop_last() =~= parts.take(n));
        lemma_results_concat(leaves_of_all(parts.take(n)), leaves_of(parts[n]), envelope);
        lemma_leaves_error(parts, n + 1, envelope);
    }
}

/// Evaluates every expression of a list: whether any holds, and whether all do.
fn eval_parts(parts: &Vec<Node>, envelope: &Json, leaves: &mut Vec<Leaf>) -> (r: Result<
    (bool, bool),
    UsageError,
>)
    ensures
        match r {
            Ok((any, all)) => {
                let views = syntax::node_models(parts@);
                &&& any == any_holds(views, envelope@)
                &&& all == all_hold(views, envelope@)
                &&& leaf_results(leaves_of_all(views), envelope@) is Ok
                &&& leaf_views(final(leaves)@) == leaf_views(old(leaves)@) + leaf_results(
                    leaves_of_all(views),
                    envelope@,
                )->Ok_0
            },
            Err(e) => leaf_results(leaves_of_all(syntax::node_models(parts@)), envelope@) == Err::<
                Seq<LeafView>,
                Seq<char>,
            >(e@),
        },
        r is Ok && all_have_plain_lists(syntax::node_models(parts@)) && leaves_are_plain(
            leaf_views(old(leaves)@),
        ) ==> leaves_are_plain(leaf_views(final(leaves)@)),
    decreases parts,
{
    broadcast use syntax::lemma_node_models;

    let ghost views = syntax::node_models(parts@);
    let ghost start = leaves@;
    let mut any = false;
    let mut all = true;
    let mut i: usize = 0;
    assert(leaf_views(start) + Seq::<LeafView>::empty() =~= leaf_views(start));
    while i < parts.len()
        invariant
            i <= parts@.len(),
            views == syntax::node_models(parts@),
            views.len() == parts@.len(),
            forall|k: int| 0 <= k < views.len() ==> #[trigger] views[k] == parts@[k]@,
            start == old(leaves)@,
            any == any_holds(views.take(i as int), envelope@),
            all == all_hold(views.take(i as int), envelope@),
            leaf_results(leaves_of_all(views.take(i as int)), envelope@) is Ok,
            leaf_views(leaves@) == leaf_views(start) + leaf_results(
                leaves_of_all(views.take(i as int)),
                envelope@,
            )->Ok_0,
            all_have_plain_lists(views) && leaves_are_plain(leaf_views(start)) ==> leaves_are_plain(
                leaf_views(leaves@),
            ),
        decreases parts@.len() - i,
    {
        proof {
            if all_have_plain_lists(views) {
                lemma_plain_part(views, i as int);
            }
        }
        let ghost before = leaves_of_all(views.take(i as int));
        proof {
            let next = views.take(i + 1);
            assert(next.drop_last() =~= views.take(i as int));
            assert(next.last() == views[i as int]);
            lemma_results_concat(before, leaves_of(views[i as int]), envelope@);
            if leaf_results(leaves_of_all(next), envelope@) is Err {
                lemma_leaves_error(views, i + 1, envelope@);
            }
        }
        let passed = eval_node(&parts[i], envelope, leaves)?;
        any = any || passed;
        all = all && passed;
        proof {
            let here = leaf_results(leaves_of(views[i as int]), envelope@)->Ok_0;
            let earlier = leaf_results(before, envelope@)->Ok_0;
            assert((leaf_views(start) + earlier) + here =~= leaf_views(start) + (earlier + here));
        }
        i += 1;
    }
    assert(views.take(views.len() as int) =~= views);
    Ok((any, all))
}

impl Expr {
    /// Evaluates the expression against a response envelope.
    pub fn evaluate(&self, envelope: &Json) -> (r: Result<Outcome, UsageError>)
        ensures
            match r {
                Ok(outcome) => evaluated(self@, envelope@) == Ok::<OutcomeView, Seq<char>>(
                    outcome@,
                ),
                Err(e) => evaluated(self@, envelope@) == Err::<OutcomeView, Seq<char>>(e@),
            },
            r matches Ok(outcome) ==> forall|k: int|
                0 <= k < outcome@.failed.len() ==> clause_is_plain(#[trigger] outcome@.failed[k]),
    {
        proof {
            use_type_invariant(self);
        }
        let mut leaves: Vec<Leaf> = Vec::new();
        let passed = eval_node(&self.root, envelope, &mut leaves)?;
        let ghost results = leaf_views(leaves@);
        assert(results =~= leaf_results(leaves_of(self@), envelope@)->Ok_0);
        let mut failed: Vec<FailedClause> = Vec::new();
        assert(failed_views(failed@) =~= failures(results.take(0)));
        for leaf in it: leaves
            invariant
                results == leaf_views(it.seq()),
                failed_views(failed@) == failures(results.take(it.index() as int)),
                leaves_are_plain(results),
                forall|k: int|
                    0 <= k < failed@.len() ==> clause_is_plain(
                        #[trigger] failed_views(failed@)[k],
                    ),
        {
            let ghost k = it.index() as int;
            let ghost before = failed@;
            assert(results.take(k + 1).drop_last() =~= results.take(k));
            assert(results.take(k + 1).last() == leaf@);
            let ghost said = leaf@;
            if !leaf.passed {
                failed.push(
                    FailedClause {
                        clause: leaf.clause,
                        expected: leaf.expected,
                        actual: leaf.actual,
                    },
                );
                assert(failed_views(failed@) =~= failed_views(before).push(
                    FailedView {
                        clause: said.clause,
                        expected: said.expected,
                        actual: said.actual,
                    },
                ));
            }
        }
        assert(results.take(results.len() as int) =~= results);
        Ok(Outcome { passed, failed })
    }
}

/// The expression that a text writes, or what is wrong with it.
pub open spec fn parsed(src: Seq<char>) -> Result<NodeView, Seq<char>> {
    let cause = match lexer::tokens_from(src, 0) {
        Err(e) => Err(e),
        Ok(tokens) => syntax::expression(tokens),
    };
    match cause {
        Ok(node) => Ok(node),
        Err(e) => Err(error::in_context("invalid assertion expression: "@ + src, e)),
    }
}

/// Reads an assertion expression.
pub fn parse(src: &str) -> (r: Result<Expr, UsageError>)
    ensures
        match r {
            Ok(expr) => parsed(src@) == Ok::<NodeView, Seq<char>>(expr@),
            Err(e) => parsed(src@) == Err::<NodeView, Seq<char>>(e@),
        },
{
    let root = match lexer::lex(src) {
        Ok(tokens) => syntax::parse_expression(tokens),
        Err(e) => Err(e),
    };
    match root {
        Ok(root) => {
            proof {
                rendering::lemma_lists_are_plain(src@);
            }
            Ok(Expr { root })
        },
        Err(e) => {
            let mut context = "invalid assertion expression: ".to_owned();
            context.append(src);
            Err(UsageError::caused(context, e.message.as_str()))
        },
    }
}

/// `or` holds where one of its parts does.
pub proof fn law_or(parts: Seq<NodeView>, envelope: JsonView)
    ensures
        holds(NodeView::Or(parts), envelope) <==> exists|i: int|
            0 <= i < parts.len() && holds(#[trigger] parts[i], envelope),
{
    if any_holds(parts, envelope) {
        let k = lemma_holding(parts, envelope);
        assert(holds(parts[k], envelope));
    }
    if exists|k: int| 0 <= k < parts.len() && holds(#[trigger] parts[k], envelope) {
        let k = choose|k: int| 0 <= k < parts.len() && holds(#[trigger] parts[k], envelope);
        lemma_some_holds(parts, envelope, k);
    }
}

/// Where a part holds, one of them does.
proof fn lemma_some_holds(parts: Seq<NodeView>, envelope: JsonView, k: int)
    requires
        0 <= k < parts.len(),
        holds(parts[k], envelope),
    ensures
        any_holds(parts, envelope),
    decreases parts.len(),
{
    if k < parts.len() - 1 {
        assert(parts.drop_last()[k] == parts[k]);
        lemma_some_holds(parts.drop_last(), envelope, k);
    }
}

/// Where one of several parts holds, here it is.
proof fn lemma_holding(parts: Seq<NodeView>, envelope: JsonView) -> (k: int)
    requires
        any_holds(parts, envelope),
    ensures
        0 <= k < parts.len(),
        holds(parts[k], envelope),
    decreases parts.len(),
{
    if any_holds(parts.drop_last(), envelope) {
        let k = lemma_holding(parts.drop_last(), envelope);
        assert(parts.drop_last()[k] == parts[k]);
        k
    } else {
        parts.len() - 1
    }
}

/// `and` holds where each of its parts does.
pub proof fn law_and(parts: Seq<NodeView>, envelope: JsonView)
    ensures
        holds(NodeView::And(parts), envelope) <==> forall|i: int|
            0 <= i < parts.len() ==> holds(#[trigger] parts[i], envelope),
{
    if all_hold(parts, envelope) {
        assert forall|k: int| 0 <= k < parts.len() implies holds(#[trigger] parts[k], envelope) by {
            lemma_each_holds(parts, envelope, k);
        }
    } else {
        let k = lemma_not_holding(parts, envelope);
        assert(!holds(parts[k], envelope));
    }
}

/// Where all of several parts hold, each does.
proof fn lemma_each_holds(parts: Seq<NodeView>, envelope: JsonView, k: int)
    requires
        all_hold(parts, envelope),
        0 <= k < parts.len(),
    ensures
        holds(parts[k], envelope),
    decreases parts.len(),
{
    if k < parts.len() - 1 {
        lemma_each_holds(parts.drop_last(), envelope, k);
        assert(parts.drop_last()[k] == parts[k]);
    }
}

/// Where not all of several parts hold, here is one that does not.
proof fn lemma_not_holding(parts: Seq<NodeView>, envelope: JsonView) -> (k: int)
    requires
        !all_hold(parts, envelope),
    ensures
        0 <= k < parts.len(),
        !holds(parts[k], envelope),
    decreases parts.len(),
{
    if !all_hold(parts.drop_last(), envelope) {
        let k = lemma_not_holding(parts.drop_last(), envelope);
        assert(parts.drop_last()[k] == parts[k]);
        k
    } else {
        parts.len() - 1
    }
}

/// `not` holds where its part does not.
pub proof fn law_not(inner: NodeView, envelope: JsonView)
    ensures
        holds(NodeView::Not(Box::new(inner)), envelope) == !holds(inner, envelope),
{
}

/// The tokens of an expression behind `not (` and before `)`.
proof fn lemma_negated_tokens(src: Seq<char>)
    requires
        lexer::tokens_from(src, 0) is Ok,
    ensures
        lexer::tokens_from("not ("@ + src + ")"@, 0) == Ok::<Seq<TokenView>, Seq<char>>(
            grammar::enclosed(
                grammar::one(Sign::Not) + grammar::one(Sign::LParen),
                lexer::tokens_from(src, 0)->Ok_0,
            ),
        ),
{
    let w = "not ("@ + src + ")"@;
    let tokens = lexer::tokens_from(src, 0)->Ok_0;
    let end = w.len() - 1;
    reveal_strlit("not (");
    reveal_strlit(")");
    assert(w[0] == 'n' && w[1] == 'o' && w[2] == 't' && w[3] == ' ' && w[4] == '(');
    assert(w[end] == ')');
    assert(lexer::stands_apart(")"@));
    lexer::lemma_tokens_among("not ("@, src, ")"@, 0);
    assert(lexer::tokens_from(w, end + 1) == Ok::<Seq<TokenView>, Seq<char>>(Seq::empty()));
    assert(lexer::tokens_from(w, end) == Ok::<Seq<TokenView>, Seq<char>>(
        grammar::one(Sign::RParen) + Seq::empty(),
    ));
    assert(grammar::one(Sign::RParen) + Seq::empty() =~= grammar::one(Sign::RParen));
    let inside = tokens + grammar::one(Sign::RParen);
    assert(lexer::tokens_from(w, 5) == Ok::<Seq<TokenView>, Seq<char>>(inside));
    assert(lexer::tokens_from(w, 4) == Ok::<Seq<TokenView>, Seq<char>>(
        grammar::one(Sign::LParen) + inside,
    ));
    assert(lexer::tokens_from(w, 3) == lexer::tokens_from(w, 4));
    reveal_with_fuel(lexer::word_end, 4);
    assert(lexer::word_end(w, 0) == 3);
    reveal_strlit("not");
    reveal_strlit("and");
    reveal_strlit("or");
    assert(w.subrange(0, 3) =~= "not"@);
    assert("and"@[0] == 'a' && "or"@.len() == 2 && "not"@[0] == 'n' && "not"@.len() == 3);
    assert(lexer::word_token("not"@) == TokenView::Sign(Sign::Not));
    assert(lexer::token_at(w, 0) == Ok::<(Option<TokenView>, int), Seq<char>>(
        (Some(TokenView::Sign(Sign::Not)), 3),
    ));
    assert(grammar::one(Sign::Not) + (grammar::one(Sign::LParen) + inside) =~= grammar::enclosed(
        grammar::one(Sign::Not) + grammar::one(Sign::LParen),
        tokens,
    ));
}

/// `not (..)` around an expression reads as its negation. It can be evaluated
/// where the expression can, holds where the expression does not, and names
/// the same comparisons that do not hold.
pub proof fn law_negation(src: Seq<char>, envelope: JsonView)
    requires
        parsed(src) is Ok,
    ensures
        parsed("not ("@ + src + ")"@) == Ok::<NodeView, Seq<char>>(
            NodeView::Not(Box::new(parsed(src)->Ok_0)),
        ),
        match (
            evaluated(parsed(src)->Ok_0, envelope),
            evaluated(parsed("not ("@ + src + ")"@)->Ok_0, envelope),
        ) {
            (Ok(told), Ok(negated)) => negated.passed == !told.passed && negated.failed
                == told.failed,
            (Err(e), Err(same)) => e == same,
            _ => false,
        },
{
    lemma_negated_tokens(src);
    grammar::law_not_takes_parentheses(lexer::tokens_from(src, 0)->Ok_0);
}

/// A comparison that cannot be made is never silent: wherever it stands in an
/// expression, and whatever else the expression says, evaluation fails.
pub proof fn law_unevaluable_never_passes(node: NodeView, envelope: JsonView, i: int)
    requires
        0 <= i < leaves_of(node).len(),
        leaf_result(leaves_of(node)[i], envelope) is Err,
    ensures
        evaluated(node, envelope) is Err,
{
    lemma_results_error(leaves_of(node), envelope, i);
}

proof fn lemma_results_error(leaves: Seq<NodeView>, envelope: JsonView, i: int)
    requires
        0 <= i < leaves.len(),
        leaf_result(leaves[i], envelope) is Err,
    ensures
        leaf_results(leaves, envelope) is Err,
    decreases leaves.len(),
{
    if i < leaves.len() - 1 {
        assert(leaves.drop_last()[i] == leaves[i]);
        lemma_results_error(leaves.drop_last(), envelope, i);
    }
}

/// Where each comparison of an expression can be made, evaluation succeeds.
pub proof fn law_evaluable_is_decided(node: NodeView, envelope: JsonView)
    requires
        forall|i: int|
            0 <= i < leaves_of(node).len() ==> leaf_result(
                #[trigger] leaves_of(node)[i],
                envelope,
            ) is Ok,
    ensures
        evaluated(node, envelope) is Ok,
        evaluated(node, envelope)->Ok_0.passed == holds(node, envelope),
{
    lemma_results_ok(leaves_of(node), envelope);
}

proof fn lemma_results_ok(leaves: Seq<NodeView>, envelope: JsonView)
    requires
        forall|i: int|
            0 <= i < leaves.len() ==> leaf_result(#[trigger] leaves[i], envelope) is Ok,
    ensures
        leaf_results(leaves, envelope) is Ok,
    decreases leaves.len(),
{
    if leaves.len() > 0 {
        let before = leaves.drop_last();
        assert forall|i: int| 0 <= i < before.len() implies leaf_result(
            #[trigger] before[i],
            envelope,
        ) is Ok by {
            assert(before[i] == leaves[i]);
        }
        lemma_results_ok(before, envelope);
        assert(leaves.last() == leaves[leaves.len() - 1]);
    }
}

/// A path into something other than an object, or to a key that is not there,
/// cannot be compared.
pub proof fn law_unknown_path_is_an_error(
    node: NodeView,
    envelope: JsonView,
    steps: Seq<SegView>,
    op: CmpOp,
    right: OperandView,
)
    requires
        follow(steps, 0, envelope) is Err,
        leaves_of(node).contains(NodeView::Cmp { left: OperandView::Path(steps), op, right }),
    ensures
        evaluated(node, envelope) is Err,
{
    let leaf = NodeView::Cmp { left: OperandView::Path(steps), op, right };
    let i = choose|i: int| 0 <= i < leaves_of(node).len() && leaves_of(node)[i] == leaf;
    law_unevaluable_never_passes(node, envelope, i);
}

/// Values of different kinds cannot be compared: there is no comparison
/// between them that is merely false.
pub proof fn law_mixed_kinds_are_an_error(
    node: NodeView,
    envelope: JsonView,
    left: OperandView,
    op: CmpOp,
    right: OperandView,
    a: Scalar,
    b: Scalar,
)
    requires
        leaves_of(node).contains(NodeView::Cmp { left, op, right }),
        operand_value(left, envelope) matches Ok(l) && scalar_of(l, operand_text(left)) == Ok::<
            Scalar,
            Seq<char>,
        >(a),
        operand_value(right, envelope) matches Ok(r) && scalar_of(r, operand_text(right)) == Ok::<
            Scalar,
            Seq<char>,
        >(b),
        !same_kind(a, b),
    ensures
        evaluated(node, envelope) is Err,
{
    let leaf = NodeView::Cmp { left, op, right };
    let i = choose|i: int| 0 <= i < leaves_of(node).len() && leaves_of(node)[i] == leaf;
    law_unevaluable_never_passes(node, envelope, i);
}

/// Whether two comparisons come to the same, or neither can be made.
pub open spec fn agree(a: Result<bool, Seq<char>>, b: Result<bool, Seq<char>>) -> bool {
    match (a, b) {
        (Ok(x), Ok(y)) => x == y,
        (Err(_), Err(_)) => true,
        _ => false,
    }
}

/// Whether two comparisons come to opposites, or neither can be made.
pub open spec fn oppose(a: Result<bool, Seq<char>>, b: Result<bool, Seq<char>>) -> bool {
    match (a, b) {
        (Ok(x), Ok(y)) => x == !y,
        (Err(_), Err(_)) => true,
        _ => false,
    }
}

/// How the operators relate, whatever the two sides are called: `!=` is the
/// opposite of `==`, and `<` and `>` are those of `>=` and `<=`; `==` does not
/// mind which side is which, and the others mirror each other. Numbers can be
/// put in order; numbers, strings and truth values can be equal to their like.
pub proof fn law_operators(l: JsonView, r: JsonView, left: Seq<char>, right: Seq<char>)
    ensures
        oppose(
            compared(l, r, CmpOp::Ne, left, right),
            compared(l, r, CmpOp::Eq, left, right),
        ),
        oppose(
            compared(l, r, CmpOp::Lt, left, right),
            compared(l, r, CmpOp::Ge, left, right),
        ),
        oppose(
            compared(l, r, CmpOp::Gt, left, right),
            compared(l, r, CmpOp::Le, left, right),
        ),
        agree(
            compared(l, r, CmpOp::Eq, left, right),
            compared(r, l, CmpOp::Eq, right, left),
        ),
        agree(
            compared(l, r, CmpOp::Ne, left, right),
            compared(r, l, CmpOp::Ne, right, left),
        ),
        agree(
            compared(l, r, CmpOp::Le, left, right),
            compared(r, l, CmpOp::Ge, right, left),
        ),
        agree(
            compared(l, r, CmpOp::Lt, left, right),
            compared(r, l, CmpOp::Gt, right, left),
        ),
        compared(l, r, CmpOp::Le, left, right) is Ok <==> l is Number && r is Number,
        compared(l, r, CmpOp::Ge, left, right) is Ok <==> l is Number && r is Number,
        compared(l, r, CmpOp::Lt, left, right) is Ok <==> l is Number && r is Number,
        compared(l, r, CmpOp::Gt, left, right) is Ok <==> l is Number && r is Number,
        compared(l, r, CmpOp::Eq, left, right) is Ok <==> (l is Number && r is Number) || (l is Str
            && r is Str) || (l is Bool && r is Bool),
{
}

/// What is escaped between quotes reads back as it was.
pub proof fn law_escaped_reads_back(s: Seq<char>, rest: Seq<char>)
    ensures
        lexer::string_at(escaped(s) + seq!['"'] + rest, 0) == Ok::<(Seq<char>, int), Seq<char>>(
            (s, escaped(s).len() as int + 1),
        ),
{
    lemma_escaped_at(Seq::empty(), s, seq!['"'] + rest);
    assert(Seq::<char>::empty() + escaped(s) + (seq!['"'] + rest) =~= escaped(s) + seq!['"'] + rest);
}

/// One character, escaped, before what is escaped behind it.
proof fn lemma_escaped_front(s: Seq<char>)
    requires
        s.len() > 0,
    ensures
        escaped(s) == escaped(seq![s[0]]) + escaped(s.skip(1)),
    decreases s.len(),
{
    assert(seq![s[0]].drop_last() =~= Seq::empty());
    reveal_with_fuel(escaped, 2);
    if s.len() == 1 {
        assert(s =~= seq![s[0]]);
        assert(s.skip(1) =~= Seq::empty());
        assert(escaped(s.skip(1)) =~= Seq::empty());
        assert(escaped(s) + Seq::<char>::empty() =~= escaped(s));
    } else {
        lemma_escaped_front(s.drop_last());
        assert(s.drop_last().skip(1) =~= s.skip(1).drop_last());
        assert(escaped(s) =~= escaped(seq![s[0]]) + escaped(s.skip(1)));
    }
}

/// An escaped text before a quote reads as the text, wherever it stands.
pub proof fn lemma_escaped_at(before: Seq<char>, s: Seq<char>, tail: Seq<char>)
    requires
        tail.len() > 0,
        tail[0] == '"',
    ensures
        lexer::string_at(before + escaped(s) + tail, before.len() as int) == Ok::<
            (Seq<char>, int),
            Seq<char>,
        >((s, before.len() as int + escaped(s).len() as int + 1)),
    decreases s.len(),
{
    let text = before + escaped(s) + tail;
    if s.len() == 0 {
        assert(text[before.len() as int] == '"');
        assert(s =~= Seq::empty());
    } else {
        let head = escaped(seq![s[0]]);
        let rest = s.skip(1);
        lemma_escaped_front(s);
        assert(seq![s[0]].drop_last() =~= Seq::empty());
        reveal_with_fuel(escaped, 2);
        lemma_escaped_at(before + head, rest, tail);
        assert(before + head + escaped(rest) + tail =~= text);
        assert(text[before.len() as int] == head[0]);
        if head.len() == 2 {
            assert(text[before.len() as int + 1] == head[1]);
        }
        assert(seq![s[0]] + rest =~= s);
    }
}

/// Two strings are equal where they are the same text, and two truth values
/// where they are the same; numbers compare as the values of their doubles.
pub proof fn law_values_compare(
    x: Seq<char>,
    y: Seq<char>,
    p: bool,
    q: bool,
    m: number::Num,
    n: number::Num,
    left: Seq<char>,
    right: Seq<char>,
)
    ensures
        compared(JsonView::Str(x), JsonView::Str(y), CmpOp::Eq, left, right) == Ok::<
            bool,
            Seq<char>,
        >(x == y),
        compared(JsonView::Bool(p), JsonView::Bool(q), CmpOp::Eq, left, right) == Ok::<
            bool,
            Seq<char>,
        >(p == q),
        compared(JsonView::Number(m), JsonView::Number(n), CmpOp::Eq, left, right) == Ok::<
            bool,
            Seq<char>,
        >(number::double_units(number::double_of(m)) == number::double_units(number::double_of(n))),
        compared(JsonView::Number(m), JsonView::Number(n), CmpOp::Lt, left, right) == Ok::<
            bool,
            Seq<char>,
        >(number::double_units(number::double_of(m)) < number::double_units(number::double_of(n))),
        compared(JsonView::Number(m), JsonView::Number(n), CmpOp::Le, left, right) == Ok::<
            bool,
            Seq<char>,
        >(number::double_units(number::double_of(m)) <= number::double_units(number::double_of(n))),
{
}

/// Looks for an operand among others, one by one.
pub open spec fn one_by_one(item: OperandView, list: Seq<OperandView>) -> Seq<NodeView> {
    Seq::new(
        list.len(),
        |i: int| NodeView::Cmp { left: item, op: CmpOp::Eq, right: list[i] },
    )
}

/// What an operand is compared as, if it can be.
pub open spec fn scalar_at(operand: OperandView, envelope: JsonView) -> Option<Scalar> {
    match operand_value(operand, envelope) {
        Ok(view) => match scalar_of(view, operand_text(operand)) {
            Ok(scalar) => Some(scalar),
            Err(_) => None,
        },
        Err(_) => None,
    }
}

/// A scalar is found among operands where it is equal to one of them, if it can
/// be compared with all of them.
proof fn lemma_found_in(
    item: Scalar,
    list: Seq<OperandView>,
    n: int,
    envelope: JsonView,
    clause: Seq<char>,
)
    requires
        0 <= n <= list.len(),
    ensures
        found_in(item, list, n, envelope, clause) is Ok <==> forall|i: int|
            0 <= i < n ==> scalar_at(#[trigger] list[i], envelope) is Some && same_kind(
                item,
                scalar_at(list[i], envelope)->0,
            ),
        found_in(item, list, n, envelope, clause) matches Ok(found) ==> (found <==> exists|i: int|
            0 <= i < n && scalars_equal(item, scalar_at(#[trigger] list[i], envelope)->0)),
    decreases n,
{
    if n > 0 {
        lemma_found_in(item, list, n - 1, envelope, clause);
        let last = list[n - 1];
        if let Ok(found) = found_in(item, list, n, envelope, clause) {
            assert(scalar_at(last, envelope) is Some);
            if found {
                if exists|i: int|
                    0 <= i < n - 1 && scalars_equal(
                        item,
                        scalar_at(#[trigger] list[i], envelope)->0,
                    ) {
                    let i = choose|i: int|
                        0 <= i < n - 1 && scalars_equal(
                            item,
                            scalar_at(#[trigger] list[i], envelope)->0,
                        );
                    assert(scalars_equal(item, scalar_at(list[i], envelope)->0));
                } else {
                    assert(scalars_equal(item, scalar_at(list[n - 1], envelope)->0));
                }
            }
        } else if found_in(item, list, n - 1, envelope, clause) is Ok {
            assert(!(scalar_at(list[n - 1], envelope) is Some && same_kind(
                item,
                scalar_at(list[n - 1], envelope)->0,
            )));
        }
    }
}

/// An equality of two operands, seen through what they are compared as.
proof fn lemma_equality(left: OperandView, right: OperandView, envelope: JsonView)
    ensures
        comparison_leaf(left, CmpOp::Eq, right, envelope) is Ok <==> scalar_at(left, envelope)
            is Some && scalar_at(right, envelope) is Some && same_kind(
            scalar_at(left, envelope)->0,
            scalar_at(right, envelope)->0,
        ),
        comparison_leaf(left, CmpOp::Eq, right, envelope) matches Ok(leaf) ==> leaf.passed
            == scalars_equal(scalar_at(left, envelope)->0, scalar_at(right, envelope)->0),
{
}

/// A membership test is an equality with one operand of its list or another:
/// `x in [a, b]` can be evaluated exactly where `x == a or x == b` can, and
/// holds exactly where that does. So it holds where the item is equal to an
/// operand of the list, wherever in the list that stands.
pub proof fn law_membership(item: OperandView, list: Seq<OperandView>, envelope: JsonView)
    requires
        list.len() > 0,
    ensures
        membership_leaf(item, list, envelope) is Ok <==> forall|i: int|
            0 <= i < list.len() ==> comparison_leaf(
                item,
                CmpOp::Eq,
                #[trigger] list[i],
                envelope,
            ) is Ok,
        membership_leaf(item, list, envelope) matches Ok(leaf) ==> (leaf.passed <==> exists|i: int|
            0 <= i < list.len() && (comparison_leaf(item, CmpOp::Eq, #[trigger] list[i], envelope)
                matches Ok(equal) && equal.passed)),
        membership_leaf(item, list, envelope) is Ok <==> evaluated(
            NodeView::Or(one_by_one(item, list)),
            envelope,
        ) is Ok,
        evaluated((NodeView::In { item, list }), envelope) is Ok <==> evaluated(
            NodeView::Or(one_by_one(item, list)),
            envelope,
        ) is Ok,
        evaluated((NodeView::In { item, list }), envelope) matches Ok(told) ==> told.passed
            == evaluated(NodeView::Or(one_by_one(item, list)), envelope)->Ok_0.passed,
{
    let clause = membership_text(item, list);
    let node = NodeView::In { item, list };
    let parts = one_by_one(item, list);
    let n = list.len() as int;
    assert forall|i: int| 0 <= i < n implies (comparison_leaf(
        item,
        CmpOp::Eq,
        #[trigger] list[i],
        envelope,
    ) is Ok <==> scalar_at(item, envelope) is Some && scalar_at(list[i], envelope) is Some
        && same_kind(scalar_at(item, envelope)->0, scalar_at(list[i], envelope)->0)) && (
    comparison_leaf(item, CmpOp::Eq, list[i], envelope) matches Ok(leaf) ==> leaf.passed
        == scalars_equal(scalar_at(item, envelope)->0, scalar_at(list[i], envelope)->0)) by {
        lemma_equality(item, list[i], envelope);
    }
    if let Some(scalar) = scalar_at(item, envelope) {
        lemma_found_in(scalar, list, n, envelope, clause);
    } else {
        assert(comparison_leaf(item, CmpOp::Eq, list[0], envelope) is Err);
    }
    lemma_single_leaf(node, envelope);
    lemma_leaves_of_leaves(parts);
    if forall|i: int| 0 <= i < n ==> comparison_leaf(item, CmpOp::Eq, #[trigger] list[i], envelope) is Ok {
        assert forall|i: int| 0 <= i < parts.len() implies leaf_result(
            #[trigger] parts[i],
            envelope,
        ) is Ok by {
            assert(comparison_leaf(item, CmpOp::Eq, list[i], envelope) is Ok);
        }
        lemma_results_ok(parts, envelope);
        law_or(parts, envelope);
        let told = membership_leaf(item, list, envelope)->Ok_0;
        if told.passed {
            let i = choose|i: int|
                0 <= i < n && (comparison_leaf(item, CmpOp::Eq, #[trigger] list[i], envelope)
                    matches Ok(equal) && equal.passed);
            assert(holds(parts[i], envelope));
        }
        if holds(NodeView::Or(parts), envelope) {
            let i = choose|i: int| 0 <= i < parts.len() && holds(#[trigger] parts[i], envelope);
            assert(comparison_leaf(item, CmpOp::Eq, list[i], envelope) is Ok);
        }
    } else {
        let i = choose|i: int|
            0 <= i < n && !(comparison_leaf(item, CmpOp::Eq, #[trigger] list[i], envelope) is Ok);
        assert(leaf_result(parts[i], envelope) is Err);
        lemma_results_error(parts, envelope, i);
    }
}

/// Comparisons are their own leaves.
proof fn lemma_leaves_of_leaves(parts: Seq<NodeView>)
    requires
        forall|i: int| 0 <= i < parts.len() ==> (#[trigger] parts[i]) is Cmp,
    ensures
        leaves_of_all(parts) == parts,
    decreases parts.len(),
{
    if parts.len() > 0 {
        let before = parts.drop_last();
        assert forall|i: int| 0 <= i < before.len() implies (#[trigger] before[i]) is Cmp by {
            assert(before[i] == parts[i]);
        }
        lemma_leaves_of_leaves(before);
        assert(parts[parts.len() - 1] is Cmp);
        assert(leaves_of(parts.last()) == seq![parts.last()]);
        assert(before + seq![parts.last()] =~= parts);
    } else {
        assert(parts =~= Seq::empty());
    }
}

/// The comparisons of an expression are those of its parts, one part after
/// another, and a comparison is its own.
pub proof fn law_leaves(
    a: Seq<NodeView>,
    b: Seq<NodeView>,
    node: NodeView,
)
    ensures
        leaves_of(NodeView::Or(a + b)) == leaves_of(NodeView::Or(a)) + leaves_of(NodeView::Or(b)),
        leaves_of(NodeView::And(a + b)) == leaves_of(NodeView::And(a)) + leaves_of(
            NodeView::And(b),
        ),
        leaves_of(NodeView::Or(seq![node])) == leaves_of(node),
        leaves_of(NodeView::And(seq![node])) == leaves_of(node),
        leaves_of(NodeView::Not(Box::new(node))) == leaves_of(node),
        node is Cmp || node is In ==> leaves_of(node) == seq![node],
{
    lemma_leaves_concat(a, b);
    lemma_leaves_one(node);
    assert(leaves_of(NodeView::Or(a + b)) == leaves_of_all(a + b));
    assert(leaves_of(NodeView::And(a + b)) == leaves_of_all(a + b));
}

proof fn lemma_leaves_one(node: NodeView)
    ensures
        leaves_of_all(seq![node]) == leaves_of(node),
{
    let one = seq![node];
    assert(one.drop_last() =~= Seq::empty());
    assert(leaves_of_all(one.drop_last()) =~= Seq::empty());
    assert(one.last() == node);
    assert(leaves_of_all(one) == leaves_of_all(one.drop_last()) + leaves_of(one.last()));
    assert(Seq::<NodeView>::empty() + leaves_of(node) =~= leaves_of(node));
}

proof fn lemma_leaves_concat(a: Seq<NodeView>, b: Seq<NodeView>)
    ensures
        leaves_of_all(a + b) == leaves_of_all(a) + leaves_of_all(b),
    decreases b.len(),
{
    if b.len() == 0 {
        assert(a + b =~= a);
        assert(leaves_of_all(b) =~= Seq::empty());
        assert(leaves_of_all(a) + Seq::<NodeView>::empty() =~= leaves_of_all(a));
    } else {
        let c = a + b;
        lemma_leaves_concat(a, b.drop_last());
        assert(c.drop_last() =~= a + b.drop_last());
        assert(c.last() == b.last());
        let (x, y, z) = (leaves_of_all(a), leaves_of_all(b.drop_last()), leaves_of(b.last()));
        assert(leaves_of_all(c) == leaves_of_all(c.drop_last()) + leaves_of(c.last()));
        assert(leaves_of_all(b) == y + z);
        assert((x + y) + z =~= x + (y + z));
    }
}

/// What comes of a comparison tells the values of both of its sides, the right
/// one as what is expected, and whether it holds.
pub proof fn law_leaf_says(
    left: OperandView,
    op: CmpOp,
    right: OperandView,
    list: Seq<OperandView>,
    envelope: JsonView,
)
    ensures
        comparison_leaf(left, op, right, envelope) matches Ok(leaf) ==> {
            &&& operand_value(left, envelope) matches Ok(value) && leaf.actual
                == document::compact_text(value)
            &&& operand_value(right, envelope) matches Ok(value) && leaf.expected
                == document::compact_text(value)
            &&& leaf.clause == comparison_text(left, op, right)
            &&& Ok::<bool, Seq<char>>(leaf.passed) == compared(
                operand_value(left, envelope)->Ok_0,
                operand_value(right, envelope)->Ok_0,
                op,
                operand_text(left),
                operand_text(right),
            )
        },
        membership_leaf(left, list, envelope) matches Ok(leaf) ==> {
            &&& operand_value(left, envelope) matches Ok(value) && leaf.actual
                == document::compact_text(value)
            &&& leaf.expected == list_text(list)
            &&& leaf.clause == membership_text(left, list)
        },
{
}

/// The clauses that are told as failed are those of the comparisons that do
/// not hold: all of them, no others, and in their order.
pub proof fn law_failed_clauses(a: Seq<LeafView>, b: Seq<LeafView>, leaf: LeafView)
    ensures
        failures(a + b) == failures(a) + failures(b),
        failures(seq![leaf]) == (if leaf.passed {
            Seq::<FailedView>::empty()
        } else {
            seq![
                FailedView { clause: leaf.clause, expected: leaf.expected, actual: leaf.actual },
            ]
        }),
        failures(Seq::<LeafView>::empty()) == Seq::<FailedView>::empty(),
    decreases b.len(),
{
    reveal_with_fuel(failures, 2);
    assert(seq![leaf].drop_last() =~= Seq::empty());
    let none = Seq::<FailedView>::empty();
    if b.len() == 0 {
        assert(a + b =~= a);
        assert(failures(b) =~= none);
        assert(failures(a) + none =~= failures(a));
    } else {
        law_failed_clauses(a, b.drop_last(), leaf);
        assert((a + b).drop_last() =~= a + b.drop_last());
        assert((a + b).last() == b.last());
        assert(failures(a + b) =~= failures(a) + failures(b));
    }
}

/// An expression that can be evaluated tells of each of its comparisons that
/// does not hold, and of none that does.
pub proof fn law_outcome(node: NodeView, envelope: JsonView)
    requires
        evaluated(node, envelope) is Ok,
    ensures
        evaluated(node, envelope)->Ok_0.passed == holds(node, envelope),
        forall|i: int|
            0 <= i < leaves_of(node).len() ==> (leaf_result(#[trigger] leaves_of(node)[i], envelope)
                matches Ok(leaf) && (!leaf.passed ==> evaluated(node, envelope)->Ok_0.failed.contains(
                FailedView { clause: leaf.clause, expected: leaf.expected, actual: leaf.actual },
            ))),
        (forall|i: int|
            0 <= i < leaves_of(node).len() ==> (leaf_result(#[trigger] leaves_of(node)[i], envelope)
                matches Ok(leaf) && leaf.passed)) ==> evaluated(node, envelope)->Ok_0.failed
            == Seq::<FailedView>::empty(),
        evaluated(node, envelope)->Ok_0.failed.len() <= leaves_of(node).len(),
{
    lemma_outcome(leaves_of(node), envelope);
}

proof fn lemma_outcome(leaves: Seq<NodeView>, envelope: JsonView)
    requires
        leaf_results(leaves, envelope) is Ok,
    ensures
        leaf_results(leaves, envelope)->Ok_0.len() == leaves.len(),
        forall|i: int|
            0 <= i < leaves.len() ==> leaf_result(#[trigger] leaves[i], envelope) == Ok::<
                LeafView,
                Seq<char>,
            >(leaf_results(leaves, envelope)->Ok_0[i]),
        forall|i: int|
            0 <= i < leaves.len() && !leaf_result(#[trigger] leaves[i], envelope)->Ok_0.passed
                ==> failures(leaf_results(leaves, envelope)->Ok_0).contains(
                FailedView {
                    clause: leaf_result(leaves[i], envelope)->Ok_0.clause,
                    expected: leaf_result(leaves[i], envelope)->Ok_0.expected,
                    actual: leaf_result(leaves[i], envelope)->Ok_0.actual,
                },
            ),
        failures(leaf_results(leaves, envelope)->Ok_0).len() <= leaves.len(),
        (forall|i: int|
            0 <= i < leaves.len() ==> leaf_result(#[trigger] leaves[i], envelope)->Ok_0.passed)
            ==> failures(leaf_results(leaves, envelope)->Ok_0) == Seq::<FailedView>::empty(),
    decreases leaves.len(),
{
    let results = leaf_results(leaves, envelope)->Ok_0;
    if leaves.len() > 0 {
        let before = leaves.drop_last();
        lemma_outcome(before, envelope);
        let earlier = leaf_results(before, envelope)->Ok_0;
        assert(results.drop_last() =~= earlier);
        assert forall|i: int| 0 <= i < leaves.len() implies leaf_result(
            #[trigger] leaves[i],
            envelope,
        ) == Ok::<LeafView, Seq<char>>(results[i]) by {
            if i < before.len() {
                assert(before[i] == leaves[i]);
            }
        }
        assert forall|i: int|
            0 <= i < leaves.len() && !leaf_result(
                #[trigger] leaves[i],
                envelope,
            )->Ok_0.passed implies failures(results).contains(
            FailedView {
                clause: leaf_result(leaves[i], envelope)->Ok_0.clause,
                expected: leaf_result(leaves[i], envelope)->Ok_0.expected,
                actual: leaf_result(leaves[i], envelope)->Ok_0.actual,
            },
        ) by {
            let leaf = leaf_result(leaves[i], envelope)->Ok_0;
            let told = FailedView {
                clause: leaf.clause,
                expected: leaf.expected,
                actual: leaf.actual,
            };
            if i < before.len() {
                assert(before[i] == leaves[i]);
                assert(failures(earlier).contains(told));
                let k = choose|k: int|
                    0 <= k < failures(earlier).len() && failures(earlier)[k] == told;
                assert(failures(results)[k] == told);
            } else {
                assert(failures(results)[failures(results).len() - 1] == told);
            }
        }
        if forall|i: int|
            0 <= i < leaves.len() ==> leaf_result(#[trigger] leaves[i], envelope)->Ok_0.passed {
            assert forall|i: int| 0 <= i < before.len() implies leaf_result(
                #[trigger] before[i],
                envelope,
            )->Ok_0.passed by {
                assert(before[i] == leaves[i]);
            }
            assert(leaf_result(leaves[leaves.len() - 1], envelope)->Ok_0.passed);
        }
    }
}

/// A path leads to the value under its last key in the object that the steps
/// before lead to, and nowhere where there is none. Without steps it leads to
/// where it starts.
pub proof fn law_path_leads_step_by_step(steps: Seq<SegView>, step: SegView, root: JsonView)
    ensures
        follow(Seq::<SegView>::empty(), 0, root) == Ok::<JsonView, Seq<char>>(root),
        match follow(steps, 0, root) {
            Ok(view) => match view.get(step_key(step)) {
                Some(value) => follow(steps.push(step), 0, root) == Ok::<JsonView, Seq<char>>(value),
                None => follow(steps.push(step), 0, root) is Err,
            },
            Err(_) => follow(steps.push(step), 0, root) is Err,
        },
        step matches SegView::Key(key) ==> step_key(step) == key,
        step matches SegView::Index(key) ==> step_key(step) == key,
{
    lemma_follow_push(steps, step, 0, root);
}

proof fn lemma_follow_push(steps: Seq<SegView>, step: SegView, i: int, view: JsonView)
    requires
        0 <= i <= steps.len(),
    ensures
        match follow(steps, i, view) {
            Ok(reached) => match reached.get(step_key(step)) {
                Some(value) => follow(steps.push(step), i, view) == Ok::<JsonView, Seq<char>>(
                    value,
                ),
                None => follow(steps.push(step), i, view) is Err,
            },
            Err(_) => follow(steps.push(step), i, view) is Err,
        },
    decreases steps.len() - i,
{
    let more = steps.push(step);
    reveal_with_fuel(follow, 2);
    if i < steps.len() {
        assert(more[i] == steps[i]);
        if view is Object {
            if let Some(next) = view.get(step_key(steps[i])) {
                lemma_follow_push(steps, step, i + 1, next);
            }
        }
    } else {
        assert(more[i] == step);
    }
}

/// A literal is compared as what it says, and a path as what it leads to.
pub proof fn law_operands_say(
    n: number::Num,
    s: Seq<char>,
    b: bool,
    steps: Seq<SegView>,
    envelope: JsonView,
)
    ensures
        operand_value(OperandView::Lit(LitView::Num(Some(n))), envelope) == Ok::<
            JsonView,
            Seq<char>,
        >(JsonView::Number(n)),
        operand_value(OperandView::Lit(LitView::Str(s)), envelope) == Ok::<JsonView, Seq<char>>(
            JsonView::Str(s),
        ),
        operand_value(OperandView::Lit(LitView::Bool(b)), envelope) == Ok::<JsonView, Seq<char>>(
            JsonView::Bool(b),
        ),
        match follow(steps, 0, envelope) {
            Ok(view) => operand_value(OperandView::Path(steps), envelope) == Ok::<
                JsonView,
                Seq<char>,
            >(view),
            Err(_) => operand_value(OperandView::Path(steps), envelope) is Err,
        },
{
}

proof fn lemma_result_of_one(leaf: NodeView, envelope: JsonView)
    ensures
        leaf_results(seq![leaf], envelope) == (match leaf_result(leaf, envelope) {
            Ok(result) => Ok::<Seq<LeafView>, Seq<char>>(seq![result]),
            Err(e) => Err(e),
        }),
{
    let none = Seq::<NodeView>::empty();
    assert(seq![leaf].drop_last() =~= none);
    assert(leaf_results(none, envelope) == Ok::<Seq<LeafView>, Seq<char>>(Seq::empty()));
    if let Ok(result) = leaf_result(leaf, envelope) {
        assert(Seq::<LeafView>::empty().push(result) =~= seq![result]);
    }
}

/// The clauses that an expression tells as failed are those of its parts, one
/// part after another. The error of an expression is that of the first of its
/// parts that has one. A negation tells what its part does, and a comparison
/// tells itself where it does not hold.
pub proof fn law_parts_tell_their_failures(
    a: Seq<NodeView>,
    b: Seq<NodeView>,
    node: NodeView,
    envelope: JsonView,
)
    ensures
        match (evaluated(NodeView::And(a), envelope), evaluated(NodeView::And(b), envelope)) {
            (Err(e), _) => evaluated(NodeView::And(a + b), envelope) == Err::<
                OutcomeView,
                Seq<char>,
            >(e),
            (Ok(_), Err(e)) => evaluated(NodeView::And(a + b), envelope) == Err::<
                OutcomeView,
                Seq<char>,
            >(e),
            (Ok(p), Ok(q)) => evaluated(NodeView::And(a + b), envelope) matches Ok(told)
                && told.failed == p.failed + q.failed && told.passed == (p.passed && q.passed),
        },
        match (evaluated(NodeView::Or(a), envelope), evaluated(NodeView::Or(b), envelope)) {
            (Err(e), _) => evaluated(NodeView::Or(a + b), envelope) == Err::<
                OutcomeView,
                Seq<char>,
            >(e),
            (Ok(_), Err(e)) => evaluated(NodeView::Or(a + b), envelope) == Err::<
                OutcomeView,
                Seq<char>,
            >(e),
            (Ok(p), Ok(q)) => evaluated(NodeView::Or(a + b), envelope) matches Ok(told)
                && told.failed == p.failed + q.failed && told.passed == (p.passed || q.passed),
        },
        evaluated(NodeView::And(seq![node]), envelope) == evaluated(node, envelope),
        evaluated(NodeView::Or(seq![node]), envelope) == evaluated(node, envelope),
        match evaluated(node, envelope) {
            Err(e) => evaluated(NodeView::Not(Box::new(node)), envelope) == Err::<
                OutcomeView,
                Seq<char>,
            >(e),
            Ok(told) => evaluated(NodeView::Not(Box::new(node)), envelope) matches Ok(negated)
                && negated.failed == told.failed && negated.passed == !told.passed,
        },
        node is Cmp || node is In ==> match leaf_result(node, envelope) {
            Err(e) => evaluated(node, envelope) == Err::<OutcomeView, Seq<char>>(e),
            Ok(leaf) => evaluated(node, envelope) == Ok::<OutcomeView, Seq<char>>(
                OutcomeView {
                    passed: leaf.passed,
                    failed: if leaf.passed {
                        Seq::empty()
                    } else {
                        seq![
                            FailedView {
                                clause: leaf.clause,
                                expected: leaf.expected,
                                actual: leaf.actual,
                            },
                        ]
                    },
                },
            ),
        },
{
    law_leaves(a, b, node);
    lemma_results_concat(leaves_of(NodeView::And(a)), leaves_of(NodeView::And(b)), envelope);
    lemma_results_concat(leaves_of(NodeView::Or(a)), leaves_of(NodeView::Or(b)), envelope);
    if let (Ok(p), Ok(q)) = (
        leaf_results(leaves_of(NodeView::And(a)), envelope),
        leaf_results(leaves_of(NodeView::And(b)), envelope),
    ) {
        if p.len() > 0 {
            law_failed_clauses(p, q, p[0]);
        } else {
            assert(p + q =~= q);
            assert(failures(p) + failures(q) =~= failures(q));
        }
    }
    lemma_holds_concat(a, b, envelope);
    let alone = seq![node];
    assert(alone.drop_last() =~= Seq::<NodeView>::empty());
    assert(alone.last() == node);
    assert(!any_holds(Seq::empty(), envelope) && all_hold(Seq::empty(), envelope));
    assert(any_holds(alone, envelope) == holds(node, envelope));
    assert(all_hold(alone, envelope) == holds(node, envelope));
    if node is Cmp || node is In {
        lemma_result_of_one(node, envelope);
        if let Ok(leaf) = leaf_result(node, envelope) {
            law_failed_clauses(seq![leaf], Seq::empty(), leaf);
        }
    }
}

proof fn lemma_holds_concat(a: Seq<NodeView>, b: Seq<NodeView>, envelope: JsonView)
    ensures
        any_holds(a + b, envelope) == (any_holds(a, envelope) || any_holds(b, envelope)),
        all_hold(a + b, envelope) == (all_hold(a, envelope) && all_hold(b, envelope)),
    decreases b.len(),
{
    if b.len() == 0 {
        assert(a + b =~= a);
    } else {
        assert((a + b).drop_last() =~= a + b.drop_last());
        assert((a + b).last() == b.last());
        lemma_holds_concat(a, b.drop_last(), envelope);
    }
}

/// A path that leads nowhere says at which of its steps, counted from nought:
/// the first whose key is not there, or that does not stand behind an object.
pub proof fn law_path_says_where_it_ends(steps: Seq<SegView>, root: JsonView)
    ensures
        follow(steps, 0, root) matches Err(e) ==> exists|k: int|
            0 <= k < steps.len() && (follow(#[trigger] steps.take(k), 0, root) matches Ok(view)
                && (if view is Object {
                view.get(step_key(steps[k])) is None && e == "path '"@ + path_text(steps)
                    + "' cannot be resolved: no key '"@ + step_key(steps[k]) + "' at segment "@
                    + text::decimal(k as nat)
            } else {
                e == "path '"@ + path_text(steps)
                    + "' cannot be resolved: the value before segment "@ + text::decimal(k as nat)
                    + " is a "@ + kind_of(view) + ", not an object"@
            })),
        kind_of(JsonView::Null) == "null"@,
        forall|b: bool| #[trigger] kind_of(JsonView::Bool(b)) == "boolean"@,
        forall|n: number::Num| #[trigger] kind_of(JsonView::Number(n)) == "number"@,
        forall|s: Seq<char>| #[trigger] kind_of(JsonView::Str(s)) == "string"@,
        forall|items: Seq<JsonView>| #[trigger] kind_of(JsonView::Array(items)) == "array"@,
        operand_value(OperandView::Path(steps), root) matches Err(told) ==> (follow(steps, 0, root)
            matches Err(e) && told == "while resolving path '"@ + path_text(steps) + "'"@ + ": "@
            + e),
{
    if follow(steps, 0, root) is Err {
        lemma_follow_fails(steps, 0, root, root);
    }
}

proof fn lemma_follow_fails(steps: Seq<SegView>, i: int, view: JsonView, root: JsonView)
    requires
        0 <= i <= steps.len(),
        follow(steps, i, view) is Err,
        follow(steps.take(i), 0, root) == Ok::<JsonView, Seq<char>>(view),
    ensures
        follow(steps, i, view) matches Err(e) && exists|k: int|
            0 <= k < steps.len() && (follow(#[trigger] steps.take(k), 0, root) matches Ok(reached)
                && (if reached is Object {
                reached.get(step_key(steps[k])) is None && e == "path '"@ + path_text(steps)
                    + "' cannot be resolved: no key '"@ + step_key(steps[k]) + "' at segment "@
                    + text::decimal(k as nat)
            } else {
                e == "path '"@ + path_text(steps)
                    + "' cannot be resolved: the value before segment "@ + text::decimal(k as nat)
                    + " is a "@ + kind_of(reached) + ", not an object"@
            })),
    decreases steps.len() - i,
{
    if view is Object && view.get(step_key(steps[i])) is Some {
        let next = view.get(step_key(steps[i]))->0;
        law_path_leads_step_by_step(steps.take(i), steps[i], root);
        assert(steps.take(i).push(steps[i]) =~= steps.take(i + 1));
        lemma_follow_fails(steps, i + 1, next, root);
    } else {
        assert(follow(steps.take(i), 0, root) is Ok);
    }
}

/// Values that cannot be compared say so, with the clause and what the two
/// sides are. The left side is told first.
pub proof fn law_comparisons_say_why(
    l: JsonView,
    r: JsonView,
    op: CmpOp,
    left: Seq<char>,
    right: Seq<char>,
)
    ensures
        l is Null ==> compared(l, r, op, left, right) == Err::<bool, Seq<char>>(
            left + " is null; nulls cannot be compared"@,
        ),
        l is Object || l is Array ==> compared(l, r, op, left, right) == Err::<bool, Seq<char>>(
            left + " is an object or array; assertions compare scalars"@,
        ),
        (l is Number || l is Str || l is Bool) && r is Null ==> compared(l, r, op, left, right)
            == Err::<bool, Seq<char>>(right + " is null; nulls cannot be compared"@),
        (l is Number || l is Str || l is Bool) && (r is Object || r is Array) ==> compared(
            l,
            r,
            op,
            left,
            right,
        ) == Err::<bool, Seq<char>>(
            right + " is an object or array; assertions compare scalars"@,
        ),
        (op == CmpOp::Eq || op == CmpOp::Ne) && (l is Number || l is Str || l is Bool) && (
        r is Number || r is Str || r is Bool) && kind_of(l) != kind_of(r) ==> compared(
            l,
            r,
            op,
            left,
            right,
        ) == Err::<bool, Seq<char>>(
            "cannot compare "@ + kind_of(l) + " with "@ + kind_of(r) + " in '"@ + (left + " "@
                + operator_text(op) + " "@ + right) + "'"@,
        ),
        op != CmpOp::Eq && op != CmpOp::Ne && (l is Number || l is Str || l is Bool) && (
        r is Number || r is Str || r is Bool) && !(l is Number && r is Number) ==> compared(
            l,
            r,
            op,
            left,
            right,
        ) == Err::<bool, Seq<char>>(
            "ordering comparison needs numbers in '"@ + (left + " "@ + operator_text(op) + " "@
                + right) + "'"@,
        ),
{
}

/// A membership test that cannot be made says why, with its clause: its item is
/// told first, and then the first operand of its list that the item cannot be
/// compared with.
pub proof fn law_memberships_say_why(
    item: OperandView,
    list: Seq<OperandView>,
    envelope: JsonView,
    k: int,
)
    ensures
        operand_value(item, envelope) matches Err(e) ==> membership_leaf(item, list, envelope)
            == Err::<LeafView, Seq<char>>(e),
        operand_value(item, envelope) matches Ok(view) ==> (scalar_of(view, operand_text(item))
            matches Err(e) ==> membership_leaf(item, list, envelope) == Err::<LeafView, Seq<char>>(
            "in clause '"@ + membership_text(item, list) + "'"@ + ": "@ + e,
        )),
        operand_value(item, envelope) matches Ok(view) ==> (scalar_of(view, operand_text(item))
            matches Ok(scalar) ==> (0 <= k < list.len() && (forall|j: int|
            0 <= j < k ==> (scalar_at(#[trigger] list[j], envelope) matches Some(element)
                && same_kind(scalar, element))) ==> match operand_value(list[k], envelope) {
            Err(e) => membership_leaf(item, list, envelope) == Err::<LeafView, Seq<char>>(e),
            Ok(other) => match scalar_of(other, operand_text(list[k])) {
                Err(e) => membership_leaf(item, list, envelope) == Err::<LeafView, Seq<char>>(
                    "in clause '"@ + membership_text(item, list) + "'"@ + ": "@ + e,
                ),
                Ok(element) => !same_kind(scalar, element) ==> membership_leaf(
                    item,
                    list,
                    envelope,
                ) == Err::<LeafView, Seq<char>>(
                    "in clause '"@ + membership_text(item, list) + "': cannot compare "@ + kind_of(
                        view,
                    ) + " with "@ + kind_of(other),
                ),
            },
        })),
{
    let clause = membership_text(item, list);
    if let Ok(view) = operand_value(item, envelope) {
        if let Ok(scalar) = scalar_of(view, operand_text(item)) {
            if 0 <= k < list.len() && (forall|j: int|
                0 <= j < k ==> (scalar_at(#[trigger] list[j], envelope) matches Some(element)
                    && same_kind(scalar, element))) {
                lemma_found_so_far(scalar, list, k, envelope, clause);
                if found_in(scalar, list, k + 1, envelope, clause) is Err {
                    lemma_error_stays(scalar, list, k + 1, list.len() as int, envelope, clause);
                }
            }
        }
    }
}

proof fn lemma_found_so_far(
    item: Scalar,
    list: Seq<OperandView>,
    n: int,
    envelope: JsonView,
    clause: Seq<char>,
)
    requires
        0 <= n <= list.len(),
        forall|j: int|
            0 <= j < n ==> (scalar_at(#[trigger] list[j], envelope) matches Some(element)
                && same_kind(item, element)),
    ensures
        found_in(item, list, n, envelope, clause) is Ok,
    decreases n,
{
    if n > 0 {
        lemma_found_so_far(item, list, n - 1, envelope, clause);
        assert(scalar_at(list[n - 1], envelope) is Some);
    }
}

proof fn lemma_error_stays(
    item: Scalar,
    list: Seq<OperandView>,
    n: int,
    m: int,
    envelope: JsonView,
    clause: Seq<char>,
)
    requires
        0 <= n <= m <= list.len(),
        found_in(item, list, n, envelope, clause) is Err,
    ensures
        found_in(item, list, m, envelope, clause) == found_in(item, list, n, envelope, clause),
    decreases m,
{
    if n < m {
        lemma_error_stays(item, list, n, m - 1, envelope, clause);
    }
}

/// Quotes and backslashes are escaped by a backslash, and nothing else is.
pub proof fn law_escaped(a: Seq<char>, b: Seq<char>, c: char)
    ensures
        escaped(a + b) == escaped(a) + escaped(b),
        escaped(seq!['"']) == seq!['\\', '"'],
        escaped(seq!['\\']) == seq!['\\', '\\'],
        c != '"' && c != '\\' ==> escaped(seq![c]) == seq![c],
    decreases b.len(),
{
    let none = Seq::<char>::empty();
    assert(seq![c].drop_last() =~= none);
    assert(seq!['"'].drop_last() =~= none);
    assert(seq!['\\'].drop_last() =~= none);
    assert(escaped(none) == none);
    assert(none.push('\\').push('"') =~= seq!['\\', '"']);
    assert(none.push('\\').push('\\') =~= seq!['\\', '\\']);
    assert(none.push(c) =~= seq![c]);
    if b.len() == 0 {
        assert(a + b =~= a);
        assert(escaped(a) + escaped(b) =~= escaped(a));
    } else {
        law_escaped(a, b.drop_last(), c);
        assert((a + b).drop_last() =~= a + b.drop_last());
        assert((a + b).last() == b.last());
        assert(escaped(a + b) =~= escaped(a) + escaped(b));
    }
}

/// A string literal says what its text is the escape of: from its opening quote
/// up to its closing one there is nothing else.
pub proof fn law_strings_say_what_is_escaped(s: Seq<char>, i: int)
    requires
        0 <= i <= s.len(),
        lexer::string_at(s, i) is Ok,
    ensures
        lexer::string_at(s, i) matches Ok((said, end)) && i < end <= s.len() && s.subrange(i, end)
            == escaped(said) + seq!['"'],
    decreases s.len() - i,
{
    let (said, end) = lexer::string_at(s, i)->Ok_0;
    if s[i] == '"' {
        assert(s.subrange(i, end) =~= seq!['"']);
        assert(escaped(said) + seq!['"'] =~= seq!['"']);
    } else {
        let step: int = if s[i] == '\\' {
            2
        } else {
            1
        };
        let c = s[i + step - 1];
        law_strings_say_what_is_escaped(s, i + step);
        let rest = lexer::string_at(s, i + step)->Ok_0.0;
        assert(said == seq![c] + rest);
        law_escaped(seq![c], rest, c);
        assert(s.subrange(i, end) =~= s.subrange(i, i + step) + s.subrange(i + step, end));
        assert(s.subrange(i, i + step) =~= escaped(seq![c]));
        assert(escaped(seq![c]) + (escaped(rest) + seq!['"']) =~= escaped(said) + seq!['"']);
    }
}

/// A text that is no expression is told with what is wrong with it.
pub proof fn law_parsed(src: Seq<char>)
    ensures
        match lexer::tokens_from(src, 0) {
            Err(e) => parsed(src) == Err::<NodeView, Seq<char>>(
                "invalid assertion expression: "@ + src + ": "@ + e,
            ),
            Ok(tokens) => match syntax::expression(tokens) {
                Err(e) => parsed(src) == Err::<NodeView, Seq<char>>(
                    "invalid assertion expression: "@ + src + ": "@ + e,
                ),
                Ok(node) => parsed(src) == Ok::<NodeView, Seq<char>>(node),
            },
        },
{
}

/// Whatever evaluating a membership test gives, it passes exactly where the item
/// is equal to some operand of the list, at whatever place.
pub proof fn law_membership_passes(
    expr: Expr,
    envelope: Json,
    outcome: Outcome,
    item: OperandView,
    list: Seq<OperandView>,
)
    requires
        list.len() > 0,
        expr@ == (NodeView::In { item, list }),
        call_ensures(Expr::evaluate, (&expr, &envelope), Ok::<Outcome, UsageError>(outcome)),
    ensures
        outcome.passed <==> exists|i: int|
            0 <= i < list.len() && (comparison_leaf(
                item,
                CmpOp::Eq,
                #[trigger] list[i],
                envelope@,
            ) matches Ok(equal) && equal.passed),
{
    law_membership(item, list, envelope@);
    law_parts_tell_their_failures(Seq::empty(), Seq::empty(), expr@, envelope@);
    assert(outcome@.passed == outcome.passed);
}

/// Clauses are told as they are written: the two sides with the operator and a
/// space on each side of it, or the item, and the list in brackets with commas
/// between its operands. Strings stand in quotes.
pub proof fn law_clauses_are_written(
    left: OperandView,
    right: OperandView,
    list: Seq<OperandView>,
    s: Seq<char>,
    n: number::Num,
    steps: Seq<SegView>,
    key: Seq<char>,
)
    ensures
        comparison_text(left, CmpOp::Le, right) == operand_text(left) + " "@ + "<="@ + " "@
            + operand_text(right),
        comparison_text(left, CmpOp::Ge, right) == operand_text(left) + " "@ + ">="@ + " "@
            + operand_text(right),
        comparison_text(left, CmpOp::Eq, right) == operand_text(left) + " "@ + "=="@ + " "@
            + operand_text(right),
        comparison_text(left, CmpOp::Ne, right) == operand_text(left) + " "@ + "!="@ + " "@
            + operand_text(right),
        comparison_text(left, CmpOp::Lt, right) == operand_text(left) + " "@ + "<"@ + " "@
            + operand_text(right),
        comparison_text(left, CmpOp::Gt, right) == operand_text(left) + " "@ + ">"@ + " "@
            + operand_text(right),
        membership_text(left, list) == operand_text(left) + " in ["@ + list_text(list) + "]"@,
        list_text(list) == text::joined(
            Seq::new(list.len(), |i: int| operand_text(list[i])),
            ", "@,
        ),
        operand_text(OperandView::Lit(LitView::Str(s))) == "\""@ + escaped(s) + "\""@,
        operand_text(OperandView::Lit(LitView::Bool(true))) == "true"@,
        operand_text(OperandView::Lit(LitView::Bool(false))) == "false"@,
        operand_text(OperandView::Lit(LitView::Num(Some(n)))) == document::compact_text(
            JsonView::Number(n),
        ),
        path_text(seq![SegView::Key(key)]) == key,
        path_text(steps).len() > 0 ==> path_text(steps.push(SegView::Key(key))) == path_text(steps)
            + "."@ + key,
        path_text(steps.push(SegView::Index(key))) == path_text(steps) + "[\""@ + escaped(key)
            + "\"]"@,
{
    assert(list.map_values(|o: OperandView| operand_text(o)) =~= Seq::new(
        list.len(),
        |i: int| operand_text(list[i]),
    ));
    assert(seq![SegView::Key(key)].drop_last() =~= Seq::<SegView>::empty());
    assert(path_text(Seq::<SegView>::empty()).len() == 0);
    assert(steps.push(SegView::Key(key)).drop_last() =~= steps);
    assert(steps.push(SegView::Index(key)).drop_last() =~= steps);
}

}
