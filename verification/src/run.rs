//! Outcomes: one request comes to one line, and a batch of requests to a line
//! for each row, whatever the order in which they complete.

use crate::api;
use crate::api::{ApiError, ApiErrorView, Evaluation, EvaluationView};
use crate::assertion;
use crate::assertion::{Expr, FailedClause, FailedView, Outcome, OutcomeView};
use crate::document;
use crate::error;
use crate::error::UsageError;
use crate::json;
use crate::json::{Json, JsonView, Object};
use crate::number;
use crate::syntax;
use crate::text;
use std::collections::HashSet;
use vstd::prelude::*;

verus! {

/// The outcome of one request.
#[derive(Debug)]
pub struct SingleOutcome {
    pub exit_code: u8,
    pub line: String,
}

/// A natural number as a value.
pub open spec fn natural_value(n: u64) -> JsonView {
    JsonView::Number(number::Num::PosInt(n))
}

fn natural_json(n: u64) -> (r: Json)
    ensures
        r@ == natural_value(n),
{
    Json::Number(number::number_of_u64(n))
}

/// The tokens that an evaluation took.
pub open spec fn usage_value(usage: api::Usage) -> JsonView {
    JsonView::Object(
        json::put(
            json::put(Seq::empty(), "input_tokens"@, natural_value(usage.input_tokens)),
            "output_tokens"@,
            natural_value(usage.output_tokens),
        ),
    )
}

/// What is told of an evaluation.
pub open spec fn envelope_entries(evaluation: EvaluationView, latency_ms: u64) -> Seq<
    (Seq<char>, JsonView),
> {
    let ok = json::put(Seq::empty(), "ok"@, JsonView::Bool(true));
    let model = json::put(ok, "model"@, JsonView::Str(evaluation.model));
    let answers = json::put(model, "answers"@, evaluation.answers);
    let usage = json::put(answers, "usage"@, usage_value(evaluation.usage));
    json::put(usage, "latency_ms"@, natural_value(latency_ms))
}

fn envelope(evaluation: Evaluation, latency_ms: u64) -> (r: Object)
    ensures
        r@ == envelope_entries(evaluation@, latency_ms),
{
    let mut usage = Object::new();
    usage.insert("input_tokens".to_owned(), natural_json(evaluation.usage.input_tokens));
    usage.insert("output_tokens".to_owned(), natural_json(evaluation.usage.output_tokens));
    let mut entries = Object::new();
    entries.insert("ok".to_owned(), Json::Bool(true));
    entries.insert("model".to_owned(), Json::Str(evaluation.model));
    entries.insert("answers".to_owned(), evaluation.answers);
    entries.insert("usage".to_owned(), Json::Object(usage));
    entries.insert("latency_ms".to_owned(), natural_json(latency_ms));
    entries
}

/// A printed value, read back, or the text itself where it does not read.
pub open spec fn scalar_from(read: Result<JsonView, Seq<char>>, text: Seq<char>) -> JsonView {
    match read {
        Ok(view) => view,
        Err(_) => JsonView::Str(text),
    }
}

/// A printed value, read back, or the text itself where it does not read.
pub fn scalar_or_text(read: Result<Json, String>, text: &str) -> (r: Json)
    ensures
        r@ == scalar_from(
            match read {
                Ok(json) => Ok(json@),
                Err(e) => Err(e@),
            },
            text@,
        ),
{
    match read {
        Ok(json) => json,
        Err(_) => Json::Str(text.to_owned()),
    }
}

/// A printed value as a report tells it: numbers stay numbers.
pub open spec fn raw_value(text: Seq<char>) -> JsonView {
    scalar_from(document::read_text(text), text)
}

fn raw_scalar(text: &str) -> (r: Json)
    ensures
        r@ == raw_value(text@),
        document::starts_plainly(text@) ==> !document::is_nested(r@),
{
    scalar_or_text(document::read_json(text), text)
}

/// What is told of a clause that did not hold.
pub open spec fn clause_value(failed: FailedView) -> JsonView {
    let clause = json::put(Seq::empty(), "clause"@, JsonView::Str(failed.clause));
    let expected = json::put(clause, "expected"@, raw_value(failed.expected));
    JsonView::Object(json::put(expected, "actual"@, raw_value(failed.actual)))
}

/// Whether neither side of a clause is told as an array or an object.
pub open spec fn is_flat(failed: FailedView) -> bool {
    !document::is_nested(raw_value(failed.expected)) && !document::is_nested(
        raw_value(failed.actual),
    )
}

/// Whether no side of any clause is told as an array or an object.
pub open spec fn all_flat(outcome: OutcomeView) -> bool {
    forall|k: int| 0 <= k < outcome.failed.len() ==> is_flat(#[trigger] outcome.failed[k])
}

/// What is told of an assertion.
pub open spec fn assert_value(outcome: OutcomeView) -> JsonView {
    JsonView::Object(
        json::put(
            json::put(Seq::empty(), "passed"@, JsonView::Bool(outcome.passed)),
            "failed"@,
            JsonView::Array(outcome.failed.map_values(|f: FailedView| clause_value(f))),
        ),
    )
}

fn clause_json(failed: &FailedClause) -> (r: Json)
    ensures
        r@ == clause_value(failed@),
        assertion::clause_is_plain(failed@) ==> is_flat(failed@),
{
    let mut entries = Object::new();
    entries.insert("clause".to_owned(), Json::Str(failed.clause.clone()));
    entries.insert("expected".to_owned(), raw_scalar(failed.expected.as_str()));
    entries.insert("actual".to_owned(), raw_scalar(failed.actual.as_str()));
    Json::Object(entries)
}

fn insert_assert(entries: &mut Object, outcome: &Outcome)
    ensures
        final(entries)@ == json::put(old(entries)@, "assert"@, assert_value(outcome@)),
        (forall|k: int|
            0 <= k < outcome@.failed.len() ==> assertion::clause_is_plain(
                #[trigger] outcome@.failed[k],
            )) ==> all_flat(outcome@),
{
    broadcast use json::lemma_item_models;

    let mut clauses: Vec<Json> = Vec::new();
    let mut i: usize = 0;
    while i < outcome.failed.len()
        invariant
            i <= outcome.failed@.len(),
            clauses@.len() == i,
            forall|k: int|
                0 <= k < i ==> (#[trigger] clauses@[k])@ == clause_value(outcome.failed@[k]@),
            forall|k: int|
                0 <= k < i && assertion::clause_is_plain(#[trigger] outcome@.failed[k])
                    ==> is_flat(outcome@.failed[k]),
        decreases outcome.failed@.len() - i,
    {
        assert(outcome@.failed[i as int] == outcome.failed@[i as int]@);
        clauses.push(clause_json(&outcome.failed[i]));
        i += 1;
    }
    assert(json::item_models(clauses@) =~= outcome@.failed.map_values(
        |f: FailedView| clause_value(f),
    ));
    let mut report = Object::new();
    report.insert("passed".to_owned(), Json::Bool(outcome.passed));
    report.insert("failed".to_owned(), Json::Array(clauses));
    entries.insert("assert".to_owned(), Json::Object(report));
}

/// What an optional assertion says.
pub open spec fn expr_view(expr: Option<&Expr>) -> Option<syntax::NodeView> {
    match expr {
        Some(expr) => Some(expr@),
        None => None,
    }
}

/// The exit code and the line of an evaluation: 3 where its assertion is
/// false, an error where its assertion cannot be evaluated, and 0 otherwise.
pub open spec fn single_result(
    evaluation: EvaluationView,
    latency_ms: u64,
    expr: Option<syntax::NodeView>,
) -> Result<(u8, JsonView), Seq<char>> {
    let entries = envelope_entries(evaluation, latency_ms);
    match expr {
        None => Ok((0u8, JsonView::Object(entries))),
        Some(node) => match assertion::evaluated(node, JsonView::Object(entries)) {
            Err(e) => Err(e),
            Ok(outcome) => Ok(
                (
                    if outcome.passed {
                        0u8
                    } else {
                        3u8
                    },
                    JsonView::Object(json::put(entries, "assert"@, assert_value(outcome))),
                ),
            ),
        },
    }
}

/// What one evaluation comes to.
pub fn single(evaluation: Evaluation, latency_ms: u64, assert_expr: Option<&Expr>) -> (r: Result<
    SingleOutcome,
    UsageError,
>)
    ensures
        match r {
            Ok(outcome) => {
                let told = single_result(evaluation@, latency_ms, expr_view(assert_expr));
                &&& told is Ok
                &&& outcome.exit_code == told->Ok_0.0
                &&& outcome.line@ == document::compact_text(told->Ok_0.1)
                &&& document::prints(outcome.line@, told->Ok_0.1)
            },
            Err(e) => single_result(evaluation@, latency_ms, expr_view(assert_expr)) == Err::<
                (u8, JsonView),
                Seq<char>,
            >(e@),
        },
{
    let mut entries = envelope(evaluation, latency_ms);
    let mut exit_code: u8 = 0;
    if let Some(expr) = assert_expr {
        let outcome = expr.evaluate(&Json::Object(entries.clone()))?;
        insert_assert(&mut entries, &outcome);
        if !outcome.passed {
            exit_code = 3;
        }
    }
    Ok(SingleOutcome { exit_code, line: document::write_json(&Json::Object(entries)) })
}

/// What a batch has come to.
#[derive(Debug)]
pub struct BatchOutcome {
    pub exit_code: u8,
    pub done: usize,
    pub ok: usize,
    pub failed: usize,
    pub assert_blocked: usize,
    pub input_tokens: u64,
    pub output_tokens: u64,
}

impl BatchOutcome {
    /// Every row is ok or failed, and only an ok row is blocked by its
    /// assertion.
    pub open spec fn wf(self) -> bool {
        &&& self.done == self.ok + self.failed
        &&& self.assert_blocked <= self.ok
    }
}

/// A batch without rows.
pub open spec fn no_rows() -> BatchOutcome {
    BatchOutcome {
        exit_code: 0,
        done: 0,
        ok: 0,
        failed: 0,
        assert_blocked: 0,
        input_tokens: 0,
        output_tokens: 0,
    }
}

/// What came of the request of a row.
#[derive(Debug)]
pub enum Row {
    /// It was evaluated, and took so many milliseconds.
    Done(Evaluation, u64),
    Failed(ApiError),
    /// It was never sent.
    Unsent(String),
}

/// What a row says.
#[verifier::ext_equal]
pub enum RowView {
    Done(EvaluationView, u64),
    Failed(ApiErrorView),
    Unsent(Seq<char>),
}

impl View for Row {
    type V = RowView;

    open spec fn view(&self) -> RowView {
        match self {
            Row::Done(evaluation, latency_ms) => RowView::Done(evaluation@, *latency_ms),
            Row::Failed(e) => RowView::Failed(e@),
            Row::Unsent(message) => RowView::Unsent(message@),
        }
    }
}

/// What is told of an error.
pub open spec fn error_value(kind: Seq<char>, message: Seq<char>) -> JsonView {
    JsonView::Object(
        json::put(
            json::put(Seq::empty(), "kind"@, JsonView::Str(kind)),
            "message"@,
            JsonView::Str(message),
        ),
    )
}

fn error_json(kind: &str, message: String) -> (r: Json)
    ensures
        r@ == error_value(kind@, message@),
{
    let mut entries = Object::new();
    entries.insert("kind".to_owned(), Json::Str(kind.to_owned()));
    entries.insert("message".to_owned(), Json::Str(message));
    Json::Object(entries)
}

/// The kind of an error of the service.
pub open spec fn error_kind(error: ApiErrorView) -> Seq<char> {
    match error {
        ApiErrorView::Transport(_) => "network"@,
        _ => "api"@,
    }
}

/// Tells errors of the network from those of the service.
pub fn classify(error: &ApiError) -> (r: (&'static str, String))
    ensures
        r.0@ == error_kind(error@),
        r.1@ == api::api_message(error@),
{
    let kind = match error {
        ApiError::Transport(_) => "network",
        _ => "api",
    };
    (kind, error.message())
}

/// The line of a row that failed.
pub open spec fn failed_line(index: nat, kind: Seq<char>, message: Seq<char>) -> JsonView {
    JsonView::Object(
        json::put(
            json::put(
                json::put(Seq::empty(), "index"@, natural_value(index as u64)),
                "ok"@,
                JsonView::Bool(false),
            ),
            "error"@,
            error_value(kind, message),
        ),
    )
}

fn failed_json(index: usize, kind: &str, message: String) -> (r: Json)
    ensures
        r@ == failed_line(index as nat, kind@, message@),
{
    let mut entries = Object::new();
    entries.insert("index".to_owned(), natural_json(index as u64));
    entries.insert("ok".to_owned(), Json::Bool(false));
    entries.insert("error".to_owned(), error_json(kind, message));
    Json::Object(entries)
}

/// What is told of a row that was evaluated, before its assertion.
pub open spec fn row_entries(index: nat, evaluation: EvaluationView, latency_ms: u64) -> Seq<
    (Seq<char>, JsonView),
> {
    json::put(envelope_entries(evaluation, latency_ms), "index"@, natural_value(index as u64))
}

/// The line of a row.
pub open spec fn row_line(index: nat, row: RowView, expr: Option<syntax::NodeView>) -> JsonView {
    match row {
        RowView::Unsent(message) => failed_line(index, "usage"@, message),
        RowView::Failed(e) => failed_line(index, error_kind(e), api::api_message(e)),
        RowView::Done(evaluation, latency_ms) => {
            let entries = row_entries(index, evaluation, latency_ms);
            match expr {
                None => JsonView::Object(entries),
                Some(node) => match assertion::evaluated(node, JsonView::Object(entries)) {
                    Ok(outcome) => JsonView::Object(
                        json::put(entries, "assert"@, assert_value(outcome)),
                    ),
                    Err(e) => JsonView::Object(
                        json::put(
                            json::put(entries, "ok"@, JsonView::Bool(false)),
                            "error"@,
                            error_value("usage"@, "assertion cannot be evaluated: "@ + e),
                        ),
                    ),
                },
            }
        },
    }
}

/// Whether the answers of a row, if it has any, leave room to be told within
/// what can be read again. Answers that the service gave do.
pub open spec fn is_shallow(row: RowView) -> bool {
    row matches RowView::Done(evaluation, _) ==> api::is_shallow(evaluation)
}

/// What is told of an assertion is nested three deep.
proof fn lemma_assert_fits(outcome: OutcomeView, room: int)
    requires
        all_flat(outcome),
        room >= 3,
    ensures
        document::fits(assert_value(outcome), room),
{
    let clauses = outcome.failed.map_values(|f: FailedView| clause_value(f));
    assert forall|k: int| 0 <= k < clauses.len() implies document::fits(
        #[trigger] clauses[k],
        room - 2,
    ) by {
        let failed = outcome.failed[k];
        assert(is_flat(failed));
        let none = Seq::<(Seq<char>, JsonView)>::empty();
        let clause = JsonView::Str(failed.clause);
        let first = json::put(none, "clause"@, clause);
        let expected = raw_value(failed.expected);
        let second = json::put(first, "expected"@, expected);
        document::lemma_put_fits(none, "clause"@, clause, room - 3);
        document::lemma_put_fits(first, "expected"@, expected, room - 3);
        document::lemma_put_fits(second, "actual"@, raw_value(failed.actual), room - 3);
    }
    document::lemma_items_fit(clauses, room - 2);
    let none = Seq::<(Seq<char>, JsonView)>::empty();
    let passed = JsonView::Bool(outcome.passed);
    document::lemma_put_fits(none, "passed"@, passed, room - 1);
    document::lemma_put_fits(
        json::put(none, "passed"@, passed),
        "failed"@,
        JsonView::Array(clauses),
        room - 1,
    );
}

/// What is told of an error is nested one deep.
proof fn lemma_error_fits(kind: Seq<char>, message: Seq<char>, room: int)
    requires
        room >= 1,
    ensures
        document::fits(error_value(kind, message), room),
{
    let none = Seq::<(Seq<char>, JsonView)>::empty();
    let what = JsonView::Str(kind);
    document::lemma_put_fits(none, "kind"@, what, room - 1);
    document::lemma_put_fits(
        json::put(none, "kind"@, what),
        "message"@,
        JsonView::Str(message),
        room - 1,
    );
}

/// The line of a row that failed is nested two deep.
proof fn lemma_failed_line_fits(index: nat, kind: Seq<char>, message: Seq<char>, room: int)
    requires
        room >= 2,
    ensures
        document::fits(failed_line(index, kind, message), room),
{
    let none = Seq::<(Seq<char>, JsonView)>::empty();
    let at = natural_value(index as u64);
    let first = json::put(none, "index"@, at);
    let second = json::put(first, "ok"@, JsonView::Bool(false));
    lemma_error_fits(kind, message, room - 1);
    document::lemma_put_fits(none, "index"@, at, room - 1);
    document::lemma_put_fits(first, "ok"@, JsonView::Bool(false), room - 1);
    document::lemma_put_fits(second, "error"@, error_value(kind, message), room - 1);
}

/// What is told of a row that was evaluated, before its assertion, is nested
/// as deep as its answers.
proof fn lemma_row_entries_fit(
    index: nat,
    evaluation: EvaluationView,
    latency_ms: u64,
    room: int,
)
    requires
        document::fits(evaluation.answers, room),
        room >= 1,
    ensures
        document::entries_fit(row_entries(index, evaluation, latency_ms), room),
{
    let none = Seq::<(Seq<char>, JsonView)>::empty();
    let used = evaluation.usage;
    let input = json::put(none, "input_tokens"@, natural_value(used.input_tokens));
    document::lemma_put_fits(none, "input_tokens"@, natural_value(used.input_tokens), room - 1);
    document::lemma_put_fits(input, "output_tokens"@, natural_value(used.output_tokens), room - 1);
    assert(document::fits(usage_value(used), room));
    let ok = json::put(none, "ok"@, JsonView::Bool(true));
    let model = json::put(ok, "model"@, JsonView::Str(evaluation.model));
    let answers = json::put(model, "answers"@, evaluation.answers);
    let usage = json::put(answers, "usage"@, usage_value(used));
    let whole = json::put(usage, "latency_ms"@, natural_value(latency_ms));
    document::lemma_put_fits(none, "ok"@, JsonView::Bool(true), room);
    document::lemma_put_fits(ok, "model"@, JsonView::Str(evaluation.model), room);
    document::lemma_put_fits(model, "answers"@, evaluation.answers, room);
    document::lemma_put_fits(answers, "usage"@, usage_value(used), room);
    document::lemma_put_fits(usage, "latency_ms"@, natural_value(latency_ms), room);
    document::lemma_put_fits(whole, "index"@, natural_value(index as u64), room);
}

/// The line of a row whose answers can be read can be read: it is nested no
/// deeper than the reply that the answers came in.
pub proof fn law_line_fits(index: nat, row: RowView, expr: Option<syntax::NodeView>)
    requires
        is_shallow(row),
        (row, expr) matches (RowView::Done(evaluation, latency_ms), Some(node)) ==> (
        assertion::evaluated(
            node,
            JsonView::Object(row_entries(index, evaluation, latency_ms)),
        ) matches Ok(outcome) ==> all_flat(outcome)),
    ensures
        document::fits(row_line(index, row, expr), document::DEPTH as int),
{
    let room = document::DEPTH as int;
    match row {
        RowView::Unsent(message) => lemma_failed_line_fits(index, "usage"@, message, room),
        RowView::Failed(e) => lemma_failed_line_fits(
            index,
            error_kind(e),
            api::api_message(e),
            room,
        ),
        RowView::Done(evaluation, latency_ms) => {
            let entries = row_entries(index, evaluation, latency_ms);
            lemma_row_entries_fit(index, evaluation, latency_ms, room - 1);
            if let Some(node) = expr {
                match assertion::evaluated(node, JsonView::Object(entries)) {
                    Ok(outcome) => {
                        lemma_assert_fits(outcome, room - 1);
                        document::lemma_put_fits(
                            entries,
                            "assert"@,
                            assert_value(outcome),
                            room - 1,
                        );
                    },
                    Err(e) => {
                        let told = "assertion cannot be evaluated: "@ + e;
                        let no = JsonView::Bool(false);
                        lemma_error_fits("usage"@, told, room - 1);
                        document::lemma_put_fits(entries, "ok"@, no, room - 1);
                        document::lemma_put_fits(
                            json::put(entries, "ok"@, no),
                            "error"@,
                            error_value("usage"@, told),
                            room - 1,
                        );
                    },
                }
            }
        },
    }
}

/// Whether a row is ok: it was evaluated, and its assertion, if any, could be.
pub open spec fn row_ok(index: nat, row: RowView, expr: Option<syntax::NodeView>) -> bool {
    match (row, expr) {
        (RowView::Done(_, _), None) => true,
        (RowView::Done(evaluation, latency_ms), Some(node)) => assertion::evaluated(
            node,
            JsonView::Object(row_entries(index, evaluation, latency_ms)),
        ) is Ok,
        _ => false,
    }
}

/// Whether the assertion of a row is false.
pub open spec fn row_blocked(index: nat, row: RowView, expr: Option<syntax::NodeView>) -> bool {
    match (row, expr) {
        (RowView::Done(evaluation, latency_ms), Some(node)) => {
            let told = assertion::evaluated(
                node,
                JsonView::Object(row_entries(index, evaluation, latency_ms)),
            );
            told matches Ok(outcome) && !outcome.passed
        },
        _ => false,
    }
}

/// The sum of two counts, or the largest count.
pub open spec fn capped_sum(a: u64, b: u64) -> u64 {
    if a + b > u64::MAX {
        u64::MAX
    } else {
        (a + b) as u64
    }
}

/// 2 where a row failed, 3 where none did and an assertion is false, and 0
/// otherwise.
pub open spec fn batch_exit(failed: int, assert_blocked: int) -> u8 {
    if failed > 0 {
        2
    } else if assert_blocked > 0 {
        3
    } else {
        0
    }
}

/// A batch with one more row.
pub open spec fn with_row(
    outcome: BatchOutcome,
    index: nat,
    row: RowView,
    expr: Option<syntax::NodeView>,
) -> BatchOutcome {
    let ok = outcome.ok + if row_ok(index, row, expr) {
        1int
    } else {
        0
    };
    let failed = outcome.failed + if row_ok(index, row, expr) {
        0int
    } else {
        1
    };
    let assert_blocked = outcome.assert_blocked + if row_blocked(index, row, expr) {
        1int
    } else {
        0
    };
    BatchOutcome {
        exit_code: batch_exit(failed, assert_blocked),
        done: (outcome.done + 1) as usize,
        ok: ok as usize,
        failed: failed as usize,
        assert_blocked: assert_blocked as usize,
        input_tokens: match row {
            RowView::Done(evaluation, _) => capped_sum(
                outcome.input_tokens,
                evaluation.usage.input_tokens,
            ),
            _ => outcome.input_tokens,
        },
        output_tokens: match row {
            RowView::Done(evaluation, _) => capped_sum(
                outcome.output_tokens,
                evaluation.usage.output_tokens,
            ),
            _ => outcome.output_tokens,
        },
    }
}

impl BatchOutcome {
    /// A batch without rows.
    pub fn start() -> (r: BatchOutcome)
        ensures
            r == no_rows(),
            r.wf(),
    {
        BatchOutcome {
            exit_code: 0,
            done: 0,
            ok: 0,
            failed: 0,
            assert_blocked: 0,
            input_tokens: 0,
            output_tokens: 0,
        }
    }

    fn settle(&mut self)
        ensures
            *final(self) == (BatchOutcome {
                exit_code: batch_exit(old(self).failed as int, old(self).assert_blocked as int),
                ..*old(self)
            }),
    {
        self.exit_code = if self.failed > 0 {
            2
        } else if self.assert_blocked > 0 {
            3
        } else {
            0
        };
    }

    /// Adds a row, and gives its line.
    pub fn add_row(&mut self, index: usize, row: Row, assert_expr: Option<&Expr>) -> (line: Json)
        requires
            old(self).wf(),
            old(self).done < usize::MAX,
        ensures
            final(self).wf(),
            *final(self) == with_row(*old(self), index as nat, row@, expr_view(assert_expr)),
            line@ == row_line(index as nat, row@, expr_view(assert_expr)),
            is_shallow(row@) ==> document::fits(line@, document::DEPTH as int),
    {
        let ghost before = *self;
        let ghost told = row@;
        let ghost node = expr_view(assert_expr);
        self.done += 1;
        let line = match row {
            Row::Unsent(message) => {
                self.failed += 1;
                failed_json(index, "usage", message)
            },
            Row::Failed(e) => {
                self.failed += 1;
                let (kind, message) = classify(&e);
                failed_json(index, kind, message)
            },
            Row::Done(evaluation, latency_ms) => {
                self.input_tokens =
                self.input_tokens.saturating_add(evaluation.usage.input_tokens);
                self.output_tokens =
                self.output_tokens.saturating_add(evaluation.usage.output_tokens);
                let mut entries = envelope(evaluation, latency_ms);
                entries.insert("index".to_owned(), natural_json(index as u64));
                match assert_expr {
                    None => {
                        self.ok += 1;
                    },
                    Some(expr) => match expr.evaluate(&Json::Object(entries.clone())) {
                        Ok(outcome) => {
                            insert_assert(&mut entries, &outcome);
                            self.ok += 1;
                            if !outcome.passed {
                                self.assert_blocked += 1;
                            }
                        },
                        Err(e) => {
                            let mut message = "assertion cannot be evaluated: ".to_owned();
                            message.append(e.message.as_str());
                            entries.insert("ok".to_owned(), Json::Bool(false));
                            entries.insert("error".to_owned(), error_json("usage", message));
                            self.failed += 1;
                        },
                    },
                }
                Json::Object(entries)
            },
        };
        self.settle();
        proof {
            if is_shallow(told) {
                law_line_fits(index as nat, told, node);
            }
        }
        line
    }
}

/// Where a batch resumes, it needs the file that it was writing.
pub fn check_resume(resume: bool, has_out: bool) -> (r: Result<(), UsageError>)
    ensures
        match r {
            Ok(()) => !resume || has_out,
            Err(e) => resume && !has_out && e@ == "--resume requires --out"@,
        },
{
    if resume && !has_out {
        Err(UsageError::fixed("--resume requires --out"))
    } else {
        Ok(())
    }
}

/// The rows among the first `n` that are not to be skipped.
pub open spec fn kept(items: Seq<(usize, Json)>, skip: Set<u64>, n: int) -> Seq<(usize, JsonView)>
    decreases n,
{
    if n <= 0 {
        Seq::empty()
    } else if skip.contains(items[n - 1].0 as u64) {
        kept(items, skip, n - 1)
    } else {
        kept(items, skip, n - 1).push((items[n - 1].0, items[n - 1].1@))
    }
}

/// What rows say.
pub open spec fn item_views(items: Seq<(usize, Json)>) -> Seq<(usize, JsonView)> {
    items.map_values(|item: (usize, Json)| (item.0, item.1@))
}

/// The rows that are left when those that completed before are skipped.
pub fn pending(items: Vec<(usize, Json)>, skip: &HashSet<u64>) -> (r: Vec<(usize, Json)>)
    ensures
        item_views(r@) == kept(items@, skip@, items@.len() as int),
{
    broadcast use vstd::std_specs::hash::group_hash_axioms;

    let ghost all = items@;
    let mut left: Vec<(usize, Json)> = Vec::new();
    assert(item_views(left@) =~= kept(all, skip@, 0));
    for item in it: items
        invariant
            it.seq() == all,
            item_views(left@) == kept(all, skip@, it.index() as int),
    {
        let ghost k = it.index() as int;
        assert(all[k] == item);
        let ghost before = left@;
        if !skip.contains(&(item.0 as u64)) {
            let ghost said = (item.0, item.1@);
            left.push(item);
            assert(item_views(left@) =~= item_views(before).push(said));
        }
    }
    left
}

/// The index that a line of results completes, if it tells of an ok row.
pub open spec fn completed_index(view: JsonView) -> Option<u64> {
    if view.get("ok"@) == Some(JsonView::Bool(true)) {
        api::natural_under(view, "index"@)
    } else {
        None
    }
}

/// The index that a line of results completes, if it tells of an ok row.
pub fn read_completed(json: &Json) -> (r: Option<u64>)
    ensures
        r == completed_index(json@),
{
    match json.get("ok") {
        Some(Json::Bool(true)) => api::get_natural(json, "index"),
        _ => None,
    }
}

/// The rows that the first `n` lines of results complete, or the first of
/// these lines that is not JSON.
pub open spec fn completed(lines: Seq<Seq<char>>, n: int, path: Seq<char>) -> Result<
    Set<u64>,
    Seq<char>,
>
    decreases n,
{
    if n <= 0 {
        Ok(Set::empty())
    } else {
        match completed(lines, n - 1, path) {
            Err(e) => Err(e),
            Ok(before) => if text::trimmed(lines[n - 1]).len() == 0 {
                Ok(before)
            } else {
                match document::read_text(lines[n - 1]) {
                    Err(e) => Err(
                        error::in_context(
                            path + " line "@ + text::decimal(n as nat) + " is not JSON"@,
                            e,
                        ),
                    ),
                    Ok(view) => match completed_index(view) {
                        Some(index) => Ok(before.insert(index)),
                        None => Ok(before),
                    },
                }
            },
        }
    }
}

/// Once a line is not JSON, it is the error, whatever follows.
proof fn lemma_completed_error(lines: Seq<Seq<char>>, n: int, m: int, path: Seq<char>)
    requires
        0 <= n <= m,
        completed(lines, n, path) is Err,
    ensures
        completed(lines, m, path) == completed(lines, n, path),
    decreases m,
{
    if n < m {
        lemma_completed_error(lines, n, m - 1, path);
    }
}

/// The rows that the results of an earlier run complete.
pub fn read_ok_indices(results: &str, path: &str) -> (r: Result<HashSet<u64>, UsageError>)
    ensures
        match r {
            Ok(set) => completed(
                text::lines_from(results@, 0),
                text::lines_from(results@, 0).len() as int,
                path@,
            ) == Ok::<Set<u64>, Seq<char>>(set@),
            Err(e) => completed(
                text::lines_from(results@, 0),
                text::lines_from(results@, 0).len() as int,
                path@,
            ) == Err::<Set<u64>, Seq<char>>(e@),
        },
{
    broadcast use vstd::std_specs::hash::group_hash_axioms;

    let list = text::lines(results);
    let ghost lines = text::texts(list@);
    let mut set: HashSet<u64> = HashSet::new();
    let mut n: usize = 0;
    while n < list.len()
        invariant
            n <= list@.len(),
            lines == text::texts(list@),
            lines == text::lines_from(results@, 0),
            completed(lines, n as int, path@) == Ok::<Set<u64>, Seq<char>>(set@),
        decreases list@.len() - n,
    {
        let line = list[n].as_str();
        assert(line@ == lines[n as int]);
        n += 1;
        if text::trim(line).as_str().is_empty() {
            continue;
        }
        proof {
            if completed(lines, n as int, path@) is Err {
                lemma_completed_error(lines, n as int, lines.len() as int, path@);
            }
        }
        match document::read_json(line) {
            Err(e) => {
                let mut context = path.to_owned();
                context.append(" line ");
                context.append(text::decimal_text(n as u64).as_str());
                context.append(" is not JSON");
                return Err(UsageError::caused(context, e.as_str()));
            },
            Ok(json) => if let Some(index) = read_completed(&json) {
                set.insert(index);
            },
        }
    }
    Ok(set)
}

/// The keys of a line differ.
proof fn lemma_keys_differ()
    ensures
        "ok"@ != "model"@,
        "ok"@ != "answers"@,
        "ok"@ != "usage"@,
        "ok"@ != "latency_ms"@,
        "ok"@ != "index"@,
        "ok"@ != "assert"@,
        "ok"@ != "error"@,
        "index"@ != "assert"@,
        "index"@ != "error"@,
        "model"@ != "answers"@,
        "model"@ != "usage"@,
        "model"@ != "latency_ms"@,
        "answers"@ != "usage"@,
        "answers"@ != "latency_ms"@,
        "usage"@ != "latency_ms"@,
{
    reveal_strlit("ok");
    reveal_strlit("model");
    reveal_strlit("answers");
    reveal_strlit("usage");
    reveal_strlit("latency_ms");
    reveal_strlit("index");
    reveal_strlit("assert");
    reveal_strlit("error");
    assert("ok"@[0] == 'o' && "model"@[0] == 'm' && "usage"@[0] == 'u');
    assert("latency_ms"@[0] == 'l' && "index"@[0] == 'i' && "error"@[0] == 'e');
    assert("answers"@[0] == 'a' && "assert"@[0] == 'a');
}

/// An envelope tells that its request succeeded, the model, the answers and
/// the tokens of its evaluation, and how long it took.
pub proof fn law_envelope(evaluation: EvaluationView, latency_ms: u64)
    ensures
        JsonView::Object(envelope_entries(evaluation, latency_ms)).get("ok"@) == Some(
            JsonView::Bool(true),
        ),
        JsonView::Object(envelope_entries(evaluation, latency_ms)).get("model"@) == Some(
            JsonView::Str(evaluation.model),
        ),
        JsonView::Object(envelope_entries(evaluation, latency_ms)).get("answers"@) == Some(
            evaluation.answers,
        ),
        JsonView::Object(envelope_entries(evaluation, latency_ms)).get("usage"@) == Some(
            usage_value(evaluation.usage),
        ),
        JsonView::Object(envelope_entries(evaluation, latency_ms)).get("latency_ms"@) == Some(
            natural_value(latency_ms),
        ),
{
    lemma_keys_differ();
    let none = Seq::<(Seq<char>, JsonView)>::empty();
    let yes = JsonView::Bool(true);
    let named = JsonView::Str(evaluation.model);
    let used = usage_value(evaluation.usage);
    let took = natural_value(latency_ms);
    let ok = json::put(none, "ok"@, yes);
    let model = json::put(ok, "model"@, named);
    let answers = json::put(model, "answers"@, evaluation.answers);
    let usage = json::put(answers, "usage"@, used);
    json::lemma_put_found(none, "ok"@, yes);
    json::lemma_put_keeps(ok, "model"@, named, "ok"@);
    json::lemma_put_keeps(model, "answers"@, evaluation.answers, "ok"@);
    json::lemma_put_keeps(answers, "usage"@, used, "ok"@);
    json::lemma_put_keeps(usage, "latency_ms"@, took, "ok"@);
    json::lemma_put_found(ok, "model"@, named);
    json::lemma_put_keeps(model, "answers"@, evaluation.answers, "model"@);
    json::lemma_put_keeps(answers, "usage"@, used, "model"@);
    json::lemma_put_keeps(usage, "latency_ms"@, took, "model"@);
    json::lemma_put_found(model, "answers"@, evaluation.answers);
    json::lemma_put_keeps(answers, "usage"@, used, "answers"@);
    json::lemma_put_keeps(usage, "latency_ms"@, took, "answers"@);
    json::lemma_put_found(answers, "usage"@, used);
    json::lemma_put_keeps(usage, "latency_ms"@, took, "usage"@);
    json::lemma_put_found(usage, "latency_ms"@, took);
}

/// The line of a failed row tells its index and its error.
proof fn lemma_failed_line(index: nat, kind: Seq<char>, message: Seq<char>)
    ensures
        failed_line(index, kind, message).get("index"@) == Some(natural_value(index as u64)),
        failed_line(index, kind, message).get("ok"@) == Some(JsonView::Bool(false)),
        failed_line(index, kind, message).get("error"@) == Some(error_value(kind, message)),
{
    lemma_keys_differ();
    let none = Seq::<(Seq<char>, JsonView)>::empty();
    let at = natural_value(index as u64);
    let no = JsonView::Bool(false);
    let one = json::put(none, "index"@, at);
    let two = json::put(one, "ok"@, no);
    json::lemma_put_found(none, "index"@, at);
    json::lemma_put_keeps(one, "ok"@, no, "index"@);
    json::lemma_put_keeps(two, "error"@, error_value(kind, message), "index"@);
    json::lemma_put_found(one, "ok"@, no);
    json::lemma_put_keeps(two, "error"@, error_value(kind, message), "ok"@);
    json::lemma_put_found(two, "error"@, error_value(kind, message));
}

/// Every line of a batch tells the index of its row, and whether the row is
/// ok. A row that is not ok tells its error.
pub proof fn law_line_tells_its_row(index: nat, row: RowView, expr: Option<syntax::NodeView>)
    ensures
        row_line(index, row, expr).get("index"@) == Some(natural_value(index as u64)),
        row_line(index, row, expr).get("ok"@) == Some(JsonView::Bool(row_ok(index, row, expr))),
        !row_ok(index, row, expr) ==> row_line(index, row, expr).get("error"@) is Some,
{
    match row {
        RowView::Unsent(message) => {
            lemma_failed_line(index, "usage"@, message);
        },
        RowView::Failed(e) => {
            lemma_failed_line(index, error_kind(e), api::api_message(e));
        },
        RowView::Done(evaluation, latency_ms) => {
            lemma_keys_differ();
            law_envelope(evaluation, latency_ms);
            let told = envelope_entries(evaluation, latency_ms);
            let entries = row_entries(index, evaluation, latency_ms);
            let at = natural_value(index as u64);
            json::lemma_put_found(told, "index"@, at);
            json::lemma_put_keeps(told, "index"@, at, "ok"@);
            if let Some(node) = expr {
                match assertion::evaluated(node, JsonView::Object(entries)) {
                    Ok(outcome) => {
                        let report = assert_value(outcome);
                        json::lemma_put_keeps(entries, "assert"@, report, "index"@);
                        json::lemma_put_keeps(entries, "assert"@, report, "ok"@);
                    },
                    Err(e) => {
                        let no = JsonView::Bool(false);
                        let blamed = error_value(
                            "usage"@,
                            "assertion cannot be evaluated: "@ + e,
                        );
                        let denied = json::put(entries, "ok"@, no);
                        json::lemma_put_keeps(entries, "ok"@, no, "index"@);
                        json::lemma_put_found(entries, "ok"@, no);
                        json::lemma_put_keeps(denied, "error"@, blamed, "index"@);
                        json::lemma_put_keeps(denied, "error"@, blamed, "ok"@);
                        json::lemma_put_found(denied, "error"@, blamed);
                    },
                }
            }
        },
    }
}

/// A line completes its row where the row is ok, and not where it failed.
pub proof fn law_ok_line_completes_its_row(
    index: nat,
    row: RowView,
    expr: Option<syntax::NodeView>,
)
    ensures
        completed_index(row_line(index, row, expr)) == (if row_ok(index, row, expr) {
            Some(index as u64)
        } else {
            None
        }),
{
    law_line_tells_its_row(index, row, expr);
}

/// The indices of the ok rows among the first `n`.
pub open spec fn ok_rows(
    rows: Seq<(nat, RowView)>,
    expr: Option<syntax::NodeView>,
    n: int,
) -> Set<u64>
    decreases n,
{
    if n <= 0 {
        Set::empty()
    } else if row_ok(rows[n - 1].0, rows[n - 1].1, expr) {
        ok_rows(rows, expr, n - 1).insert(rows[n - 1].0 as u64)
    } else {
        ok_rows(rows, expr, n - 1)
    }
}

/// Results that a run has written, line by line, complete exactly the rows
/// that were ok: a run that resumes skips these, and no others. The lines are
/// those that `BatchOutcome::add_row` gives, printed; it gives none that is
/// nested too deep to be read where the answers are those of the service.
pub proof fn law_resume_skips_ok_rows(
    rows: Seq<(nat, RowView)>,
    expr: Option<syntax::NodeView>,
    lines: Seq<Seq<char>>,
    path: Seq<char>,
)
    requires
        lines.len() == rows.len(),
        forall|k: int|
            0 <= k < rows.len() ==> document::prints(
                #[trigger] lines[k],
                row_line(rows[k].0, rows[k].1, expr),
            ) && document::fits(row_line(rows[k].0, rows[k].1, expr), document::DEPTH as int),
    ensures
        completed(
            text::lines_from(text::on_lines(lines), 0),
            text::lines_from(text::on_lines(lines), 0).len() as int,
            path,
        ) == Ok::<Set<u64>, Seq<char>>(ok_rows(rows, expr, rows.len() as int)),
{
    assert forall|k: int| 0 <= k < lines.len() implies text::is_one_line(#[trigger] lines[k]) by {
        assert(document::prints(lines[k], row_line(rows[k].0, rows[k].1, expr)));
    }
    text::law_lines_read_back(lines);
    lemma_completed(rows, expr, lines, path, lines.len() as int);
}

proof fn lemma_completed(
    rows: Seq<(nat, RowView)>,
    expr: Option<syntax::NodeView>,
    lines: Seq<Seq<char>>,
    path: Seq<char>,
    n: int,
)
    requires
        lines.len() == rows.len(),
        0 <= n <= lines.len(),
        forall|k: int|
            0 <= k < rows.len() ==> document::prints(
                #[trigger] lines[k],
                row_line(rows[k].0, rows[k].1, expr),
            ) && document::fits(row_line(rows[k].0, rows[k].1, expr), document::DEPTH as int),
    ensures
        completed(lines, n, path) == Ok::<Set<u64>, Seq<char>>(ok_rows(rows, expr, n)),
    decreases n,
{
    if n > 0 {
        lemma_completed(rows, expr, lines, path, n - 1);
        let line = lines[n - 1];
        let (index, row) = rows[n - 1];
        let view = row_line(index, row, expr);
        assert(document::prints(line, view));
        text::lemma_not_blank(line);
        let back = document::read_text(line)->Ok_0;
        law_ok_line_completes_its_row(index, row, expr);
        law_line_tells_its_row(index, row, expr);
        document::law_printed_keys_read_back(line, view, back, "ok"@, true, 0);
        document::law_printed_keys_read_back(line, view, back, "index"@, true, index as u64);
        assert(completed_index(back) == completed_index(view));
    }
}

/// What a batch has come to after rows that completed in this order.
pub open spec fn after_rows(
    rows: Seq<(nat, RowView)>,
    expr: Option<syntax::NodeView>,
) -> BatchOutcome
    decreases rows.len(),
{
    if rows.len() == 0 {
        no_rows()
    } else {
        with_row(after_rows(rows.drop_last(), expr), rows.last().0, rows.last().1, expr)
    }
}

/// Whether a row among several is not ok.
pub open spec fn any_failed(rows: Seq<(nat, RowView)>, expr: Option<syntax::NodeView>) -> bool {
    exists|k: int| 0 <= k < rows.len() && !row_ok((#[trigger] rows[k]).0, rows[k].1, expr)
}

/// Whether the assertion of a row among several is false.
pub open spec fn any_blocked(rows: Seq<(nat, RowView)>, expr: Option<syntax::NodeView>) -> bool {
    exists|k: int| 0 <= k < rows.len() && row_blocked((#[trigger] rows[k]).0, rows[k].1, expr)
}

/// A batch counts every row once, as ok or as failed. It exits with 2 where
/// any row failed, with 3 where none did and an assertion is false, and with 0
/// otherwise.
pub proof fn law_batch_exit_code(rows: Seq<(nat, RowView)>, expr: Option<syntax::NodeView>)
    requires
        rows.len() <= usize::MAX,
    ensures
        after_rows(rows, expr).wf(),
        after_rows(rows, expr).done == rows.len(),
        after_rows(rows, expr).exit_code == (if any_failed(rows, expr) {
            2u8
        } else if any_blocked(rows, expr) {
            3u8
        } else {
            0u8
        }),
{
    lemma_batch(rows, expr);
}

proof fn lemma_batch(rows: Seq<(nat, RowView)>, expr: Option<syntax::NodeView>)
    requires
        rows.len() <= usize::MAX,
    ensures
        after_rows(rows, expr).wf(),
        after_rows(rows, expr).done == rows.len(),
        after_rows(rows, expr).failed > 0 <==> any_failed(rows, expr),
        after_rows(rows, expr).assert_blocked > 0 <==> any_blocked(rows, expr),
        after_rows(rows, expr).exit_code == batch_exit(
            after_rows(rows, expr).failed as int,
            after_rows(rows, expr).assert_blocked as int,
        ),
    decreases rows.len(),
{
    if rows.len() > 0 {
        lemma_batch(rows.drop_last(), expr);
        lemma_any_failed(rows, expr);
        lemma_any_blocked(rows, expr);
        lemma_row_counts_once(
            after_rows(rows.drop_last(), expr),
            rows.last().0,
            rows.last().1,
            expr,
        );
    }
}

/// A row counts as ok or as failed, and is blocked only where it is ok.
proof fn lemma_row_counts_once(
    outcome: BatchOutcome,
    index: nat,
    row: RowView,
    expr: Option<syntax::NodeView>,
)
    requires
        outcome.wf(),
        outcome.done < usize::MAX,
    ensures
        with_row(outcome, index, row, expr).wf(),
        with_row(outcome, index, row, expr).done == outcome.done + 1,
        with_row(outcome, index, row, expr).failed == outcome.failed + if row_ok(
            index,
            row,
            expr,
        ) {
            0int
        } else {
            1int
        },
        with_row(outcome, index, row, expr).assert_blocked == outcome.assert_blocked
            + if row_blocked(index, row, expr) {
            1int
        } else {
            0int
        },
{
    assert(row_blocked(index, row, expr) ==> row_ok(index, row, expr));
}

proof fn lemma_any_failed(rows: Seq<(nat, RowView)>, expr: Option<syntax::NodeView>)
    requires
        rows.len() > 0,
    ensures
        any_failed(rows, expr) == (any_failed(rows.drop_last(), expr) || !row_ok(
            rows.last().0,
            rows.last().1,
            expr,
        )),
{
    let before = rows.drop_last();
    assert forall|k: int| 0 <= k < before.len() implies #[trigger] before[k] == rows[k] by {}
    assert(rows.last() == rows[rows.len() - 1]);
    if any_failed(before, expr) {
        let k = choose|k: int|
            0 <= k < before.len() && !row_ok((#[trigger] before[k]).0, before[k].1, expr);
        assert(rows[k] == before[k]);
    }
    if any_failed(rows, expr) {
        let k = choose|k: int|
            0 <= k < rows.len() && !row_ok((#[trigger] rows[k]).0, rows[k].1, expr);
        if k < before.len() {
            assert(rows[k] == before[k]);
        }
    }
}

proof fn lemma_any_blocked(rows: Seq<(nat, RowView)>, expr: Option<syntax::NodeView>)
    requires
        rows.len() > 0,
    ensures
        any_blocked(rows, expr) == (any_blocked(rows.drop_last(), expr) || row_blocked(
            rows.last().0,
            rows.last().1,
            expr,
        )),
{
    let before = rows.drop_last();
    assert forall|k: int| 0 <= k < before.len() implies #[trigger] before[k] == rows[k] by {}
    assert(rows.last() == rows[rows.len() - 1]);
    if any_blocked(before, expr) {
        let k = choose|k: int|
            0 <= k < before.len() && row_blocked((#[trigger] before[k]).0, before[k].1, expr);
        assert(rows[k] == before[k]);
    }
    if any_blocked(rows, expr) {
        let k = choose|k: int|
            0 <= k < rows.len() && row_blocked((#[trigger] rows[k]).0, rows[k].1, expr);
        if k < before.len() {
            assert(rows[k] == before[k]);
        }
    }
}

/// The order in which two rows complete does not matter to the batch.
pub proof fn law_completion_order(
    outcome: BatchOutcome,
    first: (nat, RowView),
    second: (nat, RowView),
    expr: Option<syntax::NodeView>,
)
    requires
        outcome.wf(),
        outcome.done + 2 <= usize::MAX,
    ensures
        with_row(with_row(outcome, first.0, first.1, expr), second.0, second.1, expr) == with_row(
            with_row(outcome, second.0, second.1, expr),
            first.0,
            first.1,
            expr,
        ),
{
}

/// An assertion that cannot be evaluated is an error, and one that is false
/// exits with 3; nothing else does.
pub proof fn law_single_exit_code(
    evaluation: EvaluationView,
    latency_ms: u64,
    node: syntax::NodeView,
)
    ensures
        ({
            let told = single_result(evaluation, latency_ms, Some(node));
            let judged = assertion::evaluated(
                node,
                JsonView::Object(envelope_entries(evaluation, latency_ms)),
            );
            &&& told is Err <==> judged is Err
            &&& judged matches Ok(outcome) ==> told->Ok_0.0 == (if outcome.passed {
                0u8
            } else {
                3u8
            })
        }),
        single_result(evaluation, latency_ms, None) matches Ok((code, _)) && code == 0,
{
}

/// A row that is skipped is one whose index is to be skipped, and the others
/// stay in their order.
pub proof fn law_pending_rows(items: Seq<(usize, Json)>, skip: Set<u64>, n: int)
    requires
        0 <= n <= items.len(),
    ensures
        kept(items, skip, n).len() <= n,
        forall|k: int|
            0 <= k < kept(items, skip, n).len() ==> !skip.contains(
                (#[trigger] kept(items, skip, n)[k]).0 as u64,
            ),
        forall|k: int|
            0 <= k < n && !skip.contains((#[trigger] items[k]).0 as u64) ==> kept(
                items,
                skip,
                n,
            ).contains((items[k].0, items[k].1@)),
    decreases n,
{
    if n > 0 {
        law_pending_rows(items, skip, n - 1);
        let before = kept(items, skip, n - 1);
        let after = kept(items, skip, n);
        assert forall|k: int| 0 <= k < n && !skip.contains((#[trigger] items[k]).0 as u64) implies
            after.contains((items[k].0, items[k].1@)) by {
            if k < n - 1 {
                let at = choose|at: int|
                    0 <= at < before.len() && before[at] == (items[k].0, items[k].1@);
                assert(after[at] == before[at]);
            } else {
                assert(after[after.len() - 1] == (items[k].0, items[k].1@));
            }
        }
    }
}

/// A row that is ok is one of the ok rows.
proof fn lemma_ok_row(
    rows: Seq<(nat, RowView)>,
    expr: Option<syntax::NodeView>,
    n: int,
    k: int,
)
    requires
        0 <= k < n <= rows.len(),
        row_ok(rows[k].0, rows[k].1, expr),
    ensures
        ok_rows(rows, expr, n).contains(rows[k].0 as u64),
    decreases n,
{
    if k < n - 1 {
        lemma_ok_row(rows, expr, n - 1, k);
    }
}

/// Where every index is to be skipped, nothing is left.
proof fn lemma_nothing_kept(items: Seq<(usize, Json)>, skip: Set<u64>, n: int)
    requires
        0 <= n <= items.len(),
        forall|k: int| 0 <= k < items.len() ==> skip.contains((#[trigger] items[k]).0 as u64),
    ensures
        kept(items, skip, n) == Seq::<(usize, JsonView)>::empty(),
    decreases n,
{
    if n > 0 {
        lemma_nothing_kept(items, skip, n - 1);
    }
}

/// A run in which no row failed leaves nothing to a run that resumes: it reads
/// the results, sends no request, counts no row and exits with 0.
pub proof fn law_whole_run_leaves_nothing(
    rows: Seq<(nat, RowView)>,
    expr: Option<syntax::NodeView>,
    lines: Seq<Seq<char>>,
    path: Seq<char>,
    items: Seq<(usize, Json)>,
)
    requires
        rows.len() <= usize::MAX,
        after_rows(rows, expr).failed == 0,
        lines.len() == rows.len(),
        forall|k: int|
            0 <= k < rows.len() ==> document::prints(
                #[trigger] lines[k],
                row_line(rows[k].0, rows[k].1, expr),
            ) && document::fits(row_line(rows[k].0, rows[k].1, expr), document::DEPTH as int),
        forall|j: int|
            0 <= j < items.len() ==> exists|k: int|
                0 <= k < rows.len() && (#[trigger] rows[k]).0 == (#[trigger] items[j]).0,
    ensures
        completed(
            text::lines_from(text::on_lines(lines), 0),
            text::lines_from(text::on_lines(lines), 0).len() as int,
            path,
        ) matches Ok(skip) && kept(items, skip, items.len() as int) == Seq::<
            (usize, JsonView),
        >::empty(),
        after_rows(Seq::empty(), expr) == no_rows(),
        no_rows().exit_code == 0,
{
    lemma_batch(rows, expr);
    law_resume_skips_ok_rows(rows, expr, lines, path);
    let skip = ok_rows(rows, expr, rows.len() as int);
    assert forall|j: int| 0 <= j < items.len() implies skip.contains(
        (#[trigger] items[j]).0 as u64,
    ) by {
        let k = choose|k: int|
            0 <= k < rows.len() && (#[trigger] rows[k]).0 == (#[trigger] items[j]).0;
        assert(row_ok(rows[k].0, rows[k].1, expr));
        lemma_ok_row(rows, expr, rows.len() as int, k);
    }
    lemma_nothing_kept(items, skip, items.len() as int);
}

/// The tokens of an evaluation are told under their names.
pub proof fn law_usage_says(usage: api::Usage)
    ensures
        usage_value(usage).get("input_tokens"@) == Some(
            JsonView::Number(number::Num::PosInt(usage.input_tokens)),
        ),
        usage_value(usage).get("output_tokens"@) == Some(
            JsonView::Number(number::Num::PosInt(usage.output_tokens)),
        ),
{
    let none = Seq::<(Seq<char>, JsonView)>::empty();
    let input = natural_value(usage.input_tokens);
    let output = natural_value(usage.output_tokens);
    let one = json::put(none, "input_tokens"@, input);
    reveal_strlit("input_tokens");
    reveal_strlit("output_tokens");
    assert("input_tokens"@[0] == 'i' && "output_tokens"@[0] == 'o');
    json::lemma_put_found(none, "input_tokens"@, input);
    json::lemma_put_keeps(one, "output_tokens"@, output, "input_tokens"@);
    json::lemma_put_found(one, "output_tokens"@, output);
}

/// An error is told by its kind and its message.
pub proof fn law_error_says(kind: Seq<char>, message: Seq<char>)
    ensures
        error_value(kind, message).get("kind"@) == Some(JsonView::Str(kind)),
        error_value(kind, message).get("message"@) == Some(JsonView::Str(message)),
{
    let none = Seq::<(Seq<char>, JsonView)>::empty();
    let one = json::put(none, "kind"@, JsonView::Str(kind));
    reveal_strlit("kind");
    reveal_strlit("message");
    assert("kind"@.len() == 4 && "message"@.len() == 7);
    json::lemma_put_found(none, "kind"@, JsonView::Str(kind));
    json::lemma_put_keeps(one, "message"@, JsonView::Str(message), "kind"@);
    json::lemma_put_found(one, "message"@, JsonView::Str(message));
}

/// A clause is told with its two sides, each as the value that it prints, or as
/// text where it prints none.
pub proof fn law_clause_says(failed: FailedView)
    ensures
        clause_value(failed).get("clause"@) == Some(JsonView::Str(failed.clause)),
        clause_value(failed).get("expected"@) == Some(
            match document::read_text(failed.expected) {
                Ok(view) => view,
                Err(_) => JsonView::Str(failed.expected),
            },
        ),
        clause_value(failed).get("actual"@) == Some(
            match document::read_text(failed.actual) {
                Ok(view) => view,
                Err(_) => JsonView::Str(failed.actual),
            },
        ),
{
    let none = Seq::<(Seq<char>, JsonView)>::empty();
    let clause = JsonView::Str(failed.clause);
    let expected = raw_value(failed.expected);
    let actual = raw_value(failed.actual);
    let one = json::put(none, "clause"@, clause);
    let two = json::put(one, "expected"@, expected);
    reveal_strlit("clause");
    reveal_strlit("expected");
    reveal_strlit("actual");
    assert("clause"@[0] == 'c' && "expected"@[0] == 'e' && "actual"@[0] == 'a');
    json::lemma_put_found(none, "clause"@, clause);
    json::lemma_put_keeps(one, "expected"@, expected, "clause"@);
    json::lemma_put_keeps(two, "actual"@, actual, "clause"@);
    json::lemma_put_found(one, "expected"@, expected);
    json::lemma_put_keeps(two, "actual"@, actual, "expected"@);
    json::lemma_put_found(two, "actual"@, actual);
}

/// A report tells whether its assertion holds, and each clause that does not,
/// in their order.
pub proof fn law_report_says(outcome: OutcomeView)
    ensures
        assert_value(outcome).get("passed"@) == Some(JsonView::Bool(outcome.passed)),
        assert_value(outcome).get("failed"@) matches Some(JsonView::Array(told)) && told.len()
            == outcome.failed.len() && forall|k: int|
            0 <= k < told.len() ==> #[trigger] told[k] == clause_value(outcome.failed[k]),
{
    let none = Seq::<(Seq<char>, JsonView)>::empty();
    let passed = JsonView::Bool(outcome.passed);
    let failed = JsonView::Array(outcome.failed.map_values(|f: FailedView| clause_value(f)));
    let one = json::put(none, "passed"@, passed);
    reveal_strlit("passed");
    reveal_strlit("failed");
    assert("passed"@[0] == 'p' && "failed"@[0] == 'f');
    json::lemma_put_found(none, "passed"@, passed);
    json::lemma_put_keeps(one, "failed"@, failed, "passed"@);
    json::lemma_put_found(one, "failed"@, failed);
}

/// The line of one request tells what its envelope does. Where there is an
/// assertion, it reports whether that holds in the envelope, and the exit code
/// says the same.
pub proof fn law_single_says(
    evaluation: EvaluationView,
    latency_ms: u64,
    expr: Option<syntax::NodeView>,
    key: Seq<char>,
)
    requires
        key != "assert"@,
    ensures
        single_result(evaluation, latency_ms, expr) matches Ok((code, line)) ==> {
            let envelope = JsonView::Object(envelope_entries(evaluation, latency_ms));
            &&& line.get(key) == envelope.get(key)
            &&& match expr {
                None => code == 0 && line == envelope,
                Some(node) => {
                    &&& line.get("assert"@) matches Some(report) && report.get("passed"@) == Some(
                        JsonView::Bool(assertion::holds(node, envelope)),
                    )
                    &&& code == (if assertion::holds(node, envelope) {
                        0u8
                    } else {
                        3u8
                    })
                },
            }
        },
{
    let entries = envelope_entries(evaluation, latency_ms);
    if let Some(node) = expr {
        if let Ok(outcome) = assertion::evaluated(node, JsonView::Object(entries)) {
            let report = assert_value(outcome);
            law_report_says(outcome);
            json::lemma_put_found(entries, "assert"@, report);
            json::lemma_put_keeps(entries, "assert"@, report, key);
        }
    }
}

/// A row is ok exactly where it was evaluated and its assertion, if it has one,
/// could be. It is blocked exactly where it is ok and its assertion does not
/// hold, whatever its comparisons come to one by one.
pub proof fn law_rows_are_judged(index: nat, row: RowView, expr: Option<syntax::NodeView>)
    ensures
        row_ok(index, row, expr) <==> (row matches RowView::Done(evaluation, latency_ms) && (
        expr matches Some(node) ==> assertion::evaluated(
            node,
            JsonView::Object(row_entries(index, evaluation, latency_ms)),
        ) is Ok)),
        row_blocked(index, row, expr) <==> row_ok(index, row, expr) && (row
            matches RowView::Done(evaluation, latency_ms) && (expr matches Some(node)
            && !assertion::holds(
            node,
            JsonView::Object(row_entries(index, evaluation, latency_ms)),
        ))),
{
}

/// What a row tells beside its index is what its evaluation tells, and what
/// comes of its assertion: whether it holds, or why it cannot be evaluated. A
/// row without an evaluation tells why.
pub proof fn law_row_line_says(index: nat, row: RowView, expr: Option<syntax::NodeView>)
    ensures
        match row {
            RowView::Unsent(message) => row_line(index, row, expr).get("error"@) == Some(
                error_value("usage"@, message),
            ),
            RowView::Failed(e) => row_line(index, row, expr).get("error"@) == Some(
                error_value(
                    if e is Transport {
                        "network"@
                    } else {
                        "api"@
                    },
                    api::api_message(e),
                ),
            ),
            RowView::Done(evaluation, latency_ms) => {
                let line = row_line(index, row, expr);
                let envelope = JsonView::Object(row_entries(index, evaluation, latency_ms));
                &&& line.get("model"@) == Some(JsonView::Str(evaluation.model))
                &&& line.get("answers"@) == Some(evaluation.answers)
                &&& line.get("usage"@) == Some(usage_value(evaluation.usage))
                &&& line.get("latency_ms"@) == Some(
                    JsonView::Number(number::Num::PosInt(latency_ms)),
                )
                &&& match expr {
                    None => line == envelope,
                    Some(node) => match assertion::evaluated(node, envelope) {
                        Ok(outcome) => line.get("assert"@) == Some(assert_value(outcome))
                            && assert_value(outcome).get("passed"@) == Some(
                            JsonView::Bool(assertion::holds(node, envelope)),
                        ),
                        Err(e) => line.get("error"@) == Some(
                            error_value("usage"@, "assertion cannot be evaluated: "@ + e),
                        ),
                    },
                }
            },
        },
{
    match row {
        RowView::Unsent(message) => lemma_failed_line(index, "usage"@, message),
        RowView::Failed(e) => lemma_failed_line(index, error_kind(e), api::api_message(e)),
        RowView::Done(evaluation, latency_ms) => {
            lemma_row_entries_say(index, evaluation, latency_ms);
            let entries = row_entries(index, evaluation, latency_ms);
            if let Some(node) = expr {
                match assertion::evaluated(node, JsonView::Object(entries)) {
                    Ok(outcome) => {
                        let report = assert_value(outcome);
                        law_report_says(outcome);
                        lemma_put_keeps_told(entries, "assert"@, report);
                        json::lemma_put_found(entries, "assert"@, report);
                    },
                    Err(e) => {
                        let no = JsonView::Bool(false);
                        let blamed = error_value(
                            "usage"@,
                            "assertion cannot be evaluated: "@ + e,
                        );
                        let denied = json::put(entries, "ok"@, no);
                        lemma_put_keeps_told(entries, "ok"@, no);
                        lemma_put_keeps_told(denied, "error"@, blamed);
                        json::lemma_put_found(denied, "error"@, blamed);
                    },
                }
            }
        },
    }
}

/// What is told of an evaluation stays beside other keys.
proof fn lemma_put_keeps_told(
    entries: Seq<(Seq<char>, JsonView)>,
    key: Seq<char>,
    value: JsonView,
)
    requires
        key == "assert"@ || key == "ok"@ || key == "error"@ || key == "index"@,
    ensures
        json::lookup(json::put(entries, key, value), "model"@) == json::lookup(entries, "model"@),
        json::lookup(json::put(entries, key, value), "answers"@) == json::lookup(
            entries,
            "answers"@,
        ),
        json::lookup(json::put(entries, key, value), "usage"@) == json::lookup(entries, "usage"@),
        json::lookup(json::put(entries, key, value), "latency_ms"@) == json::lookup(
            entries,
            "latency_ms"@,
        ),
{
    reveal_strlit("ok");
    reveal_strlit("index");
    reveal_strlit("assert");
    reveal_strlit("error");
    reveal_strlit("model");
    reveal_strlit("answers");
    reveal_strlit("usage");
    reveal_strlit("latency_ms");
    assert("model"@[0] == 'm' && "usage"@[0] == 'u' && "latency_ms"@[0] == 'l');
    assert("answers"@.len() == 7 && "assert"@.len() == 6 && "assert"@[0] == 'a');
    assert("ok"@[0] == 'o' && "index"@[0] == 'i' && "error"@[0] == 'e' && "answers"@[0] == 'a');
    json::lemma_put_keeps(entries, key, value, "model"@);
    json::lemma_put_keeps(entries, key, value, "answers"@);
    json::lemma_put_keeps(entries, key, value, "usage"@);
    json::lemma_put_keeps(entries, key, value, "latency_ms"@);
}

proof fn lemma_row_entries_say(index: nat, evaluation: EvaluationView, latency_ms: u64)
    ensures
        json::lookup(row_entries(index, evaluation, latency_ms), "model"@) == Some(
            JsonView::Str(evaluation.model),
        ),
        json::lookup(row_entries(index, evaluation, latency_ms), "answers"@) == Some(
            evaluation.answers,
        ),
        json::lookup(row_entries(index, evaluation, latency_ms), "usage"@) == Some(
            usage_value(evaluation.usage),
        ),
        json::lookup(row_entries(index, evaluation, latency_ms), "latency_ms"@) == Some(
            natural_value(latency_ms),
        ),
{
    law_envelope(evaluation, latency_ms);
    lemma_put_keeps_told(
        envelope_entries(evaluation, latency_ms),
        "index"@,
        natural_value(index as u64),
    );
}

/// Every row counts once: as ok or as failed, and as blocked where its
/// assertion does not hold in its envelope. A batch of one row exits with 2
/// where the row failed, with 3 where its line tells that its assertion does
/// not hold, and with 0 otherwise.
pub proof fn law_row_counts(
    outcome: BatchOutcome,
    index: nat,
    row: RowView,
    expr: Option<syntax::NodeView>,
)
    requires
        outcome.wf(),
        outcome.done < usize::MAX,
    ensures
        ({
            let line = row_line(index, row, expr);
            let after = with_row(outcome, index, row, expr);
            let alone = after_rows(seq![(index, row)], expr);
            let ok = line.get("ok"@) == Some(JsonView::Bool(true));
            let blocked = ok && expr is Some && (line.get("assert"@) matches Some(report)
                && report.get("passed"@) == Some(JsonView::Bool(false)));
            &&& after.done == outcome.done + 1
            &&& after.ok == outcome.ok + if ok {
                1int
            } else {
                0int
            }
            &&& after.failed == outcome.failed + if ok {
                0int
            } else {
                1int
            }
            &&& after.assert_blocked == outcome.assert_blocked + if blocked {
                1int
            } else {
                0int
            }
            &&& after.exit_code == (if after.failed > 0 {
                2u8
            } else if after.assert_blocked > 0 {
                3u8
            } else {
                0u8
            })
            &&& alone.exit_code == (if !ok {
                2u8
            } else if blocked {
                3u8
            } else {
                0u8
            })
        }),
{
    law_line_tells_its_row(index, row, expr);
    law_row_line_says(index, row, expr);
    law_rows_are_judged(index, row, expr);
    lemma_row_counts_once(outcome, index, row, expr);
    let rows = seq![(index, row)];
    assert(rows.drop_last() =~= Seq::empty());
    assert(after_rows(rows.drop_last(), expr) == no_rows());
    assert(rows.last() == (index, row));
    assert(after_rows(rows, expr) == with_row(no_rows(), index, row, expr));
    lemma_row_counts_once(no_rows(), index, row, expr);
}

/// The sum of the tokens of rows that were evaluated.
pub open spec fn tokens_of(rows: Seq<(nat, RowView)>, input: bool) -> int
    decreases rows.len(),
{
    if rows.len() == 0 {
        0
    } else {
        tokens_of(rows.drop_last(), input) + match rows.last().1 {
            RowView::Done(evaluation, _) => if input {
                evaluation.usage.input_tokens as int
            } else {
                evaluation.usage.output_tokens as int
            },
            _ => 0,
        }
    }
}

/// A batch counts the tokens of all its rows, up to the largest count.
pub proof fn law_tokens_add_up(rows: Seq<(nat, RowView)>, expr: Option<syntax::NodeView>)
    ensures
        after_rows(rows, expr).input_tokens == (if tokens_of(rows, true) <= u64::MAX {
            tokens_of(rows, true)
        } else {
            u64::MAX as int
        }),
        after_rows(rows, expr).output_tokens == (if tokens_of(rows, false) <= u64::MAX {
            tokens_of(rows, false)
        } else {
            u64::MAX as int
        }),
    decreases rows.len(),
{
    if rows.len() > 0 {
        law_tokens_add_up(rows.drop_last(), expr);
    }
}

/// A line of results completes a row exactly where it says that it is ok and
/// which row it is of.
pub proof fn law_completed_index(view: JsonView, index: u64)
    ensures
        completed_index(view) == Some(index) <==> view.get("ok"@) == Some(JsonView::Bool(true))
            && view.get("index"@) == Some(JsonView::Number(number::Num::PosInt(index))),
{
}

/// Results read exactly where each of their lines that is not blank does. They
/// complete the rows that one of these lines completes, wherever it stands, and
/// no others. The error is that of the first line that does not read.
pub proof fn law_results_complete(lines: Seq<Seq<char>>, n: int, path: Seq<char>)
    requires
        0 <= n <= lines.len(),
    ensures
        completed(lines, n, path) is Ok <==> forall|k: int|
            0 <= k < n && text::trimmed(#[trigger] lines[k]).len() > 0 ==> document::read_text(
                lines[k],
            ) is Ok,
        completed(lines, n, path) matches Ok(set) ==> forall|index: u64|
            #[trigger] set.contains(index) <==> exists|k: int|
                0 <= k < n && text::trimmed(#[trigger] lines[k]).len() > 0 && (document::read_text(
                    lines[k],
                ) matches Ok(view) && completed_index(view) == Some(index)),
        completed(lines, n, path) matches Err(e) ==> exists|k: int|
            0 <= k < n && text::trimmed(#[trigger] lines[k]).len() > 0 && (document::read_text(
                lines[k],
            ) matches Err(cause) && e == path + " line "@ + text::decimal((k + 1) as nat)
                + " is not JSON"@ + ": "@ + cause) && forall|j: int|
                0 <= j < k && text::trimmed(#[trigger] lines[j]).len() > 0 ==> document::read_text(
                    lines[j],
                ) is Ok,
    decreases n,
{
    if n > 0 {
        law_results_complete(lines, n - 1, path);
        let line = lines[n - 1];
        match completed(lines, n - 1, path) {
            Err(e) => {
                let k = choose|k: int|
                    0 <= k < n - 1 && text::trimmed(#[trigger] lines[k]).len() > 0 && (
                    document::read_text(lines[k]) matches Err(cause) && e == path + " line "@
                        + text::decimal((k + 1) as nat) + " is not JSON"@ + ": "@ + cause)
                        && forall|j: int|
                        0 <= j < k && text::trimmed(#[trigger] lines[j]).len() > 0
                            ==> document::read_text(lines[j]) is Ok;
                assert(text::trimmed(lines[k]).len() > 0);
            },
            Ok(before) => {
                if let Ok(set) = completed(lines, n, path) {
                    assert forall|index: u64| #[trigger] set.contains(index) <==> exists|k: int|
                        0 <= k < n && text::trimmed(#[trigger] lines[k]).len() > 0 && (
                        document::read_text(lines[k]) matches Ok(view) && completed_index(view)
                            == Some(index)) by {
                        if before.contains(index) {
                            let k = choose|k: int|
                                0 <= k < n - 1 && text::trimmed(#[trigger] lines[k]).len() > 0 && (
                                document::read_text(lines[k]) matches Ok(view)
                                    && completed_index(view) == Some(index));
                            assert(text::trimmed(lines[k]).len() > 0);
                        }
                        if set.contains(index) && !before.contains(index) {
                            assert(text::trimmed(lines[n - 1]).len() > 0);
                        }
                    }
                } else {
                    assert(text::trimmed(lines[n - 1]).len() > 0);
                }
            },
        }
    }
}

/// The rows that are left are those that are not to be skipped, all of them and
/// in their order.
pub proof fn law_rows_left(
    a: Seq<(usize, Json)>,
    b: Seq<(usize, Json)>,
    item: (usize, Json),
    skip: Set<u64>,
)
    ensures
        kept(a + b, skip, (a + b).len() as int) == kept(a, skip, a.len() as int) + kept(
            b,
            skip,
            b.len() as int,
        ),
        kept(seq![item], skip, 1) == (if skip.contains(item.0 as u64) {
            Seq::<(usize, JsonView)>::empty()
        } else {
            seq![(item.0, item.1@)]
        }),
{
    reveal_with_fuel(kept, 2);
    lemma_kept_start(a, b, skip, a.len() as int);
    lemma_kept_rest(a, b, skip, b.len() as int);
}

proof fn lemma_kept_start(
    a: Seq<(usize, Json)>,
    b: Seq<(usize, Json)>,
    skip: Set<u64>,
    n: int,
)
    requires
        0 <= n <= a.len(),
    ensures
        kept(a + b, skip, n) == kept(a, skip, n),
    decreases n,
{
    if n > 0 {
        lemma_kept_start(a, b, skip, n - 1);
        assert((a + b)[n - 1] == a[n - 1]);
    }
}

proof fn lemma_kept_rest(
    a: Seq<(usize, Json)>,
    b: Seq<(usize, Json)>,
    skip: Set<u64>,
    n: int,
)
    requires
        0 <= n <= b.len(),
    ensures
        kept(a + b, skip, a.len() + n) == kept(a, skip, a.len() as int) + kept(b, skip, n),
    decreases n,
{
    let start = kept(a, skip, a.len() as int);
    if n == 0 {
        lemma_kept_start(a, b, skip, a.len() as int);
        assert(start + Seq::<(usize, JsonView)>::empty() =~= start);
    } else {
        lemma_kept_rest(a, b, skip, n - 1);
        assert((a + b)[a.len() + n - 1] == b[n - 1]);
        let more = kept(b, skip, n - 1);
        let said = (b[n - 1].0, b[n - 1].1@);
        assert((start + more).push(said) =~= start + more.push(said));
    }
}

/// A batch that resumes needs the file of its results.
pub proof fn law_resume_needs_results(resume: bool, has_out: bool, r: Result<(), UsageError>)
    requires
        call_ensures(check_resume, (resume, has_out), r),
    ensures
        r is Err <==> resume && !has_out,
        r matches Err(e) ==> e@ == "--resume requires --out"@,
{
}

/// An error of the network is told as one, and every other error of a request
/// as one of the service.
pub proof fn law_kinds_of_errors(error: ApiError, kind: &'static str, message: String)
    requires
        call_ensures(classify, (&error,), (kind, message)),
    ensures
        error is Transport ==> kind@ == "network"@,
        !(error is Transport) ==> kind@ == "api"@,
        message@ == api::api_message(error@),
{
}

/// What is told has no more keys than those that it should: an envelope those of
/// its evaluation, a row also its index, a row that failed its error, and a
/// report and its clauses what they report.
pub proof fn law_nothing_else_is_told(
    evaluation: EvaluationView,
    latency_ms: u64,
    index: nat,
    kind: Seq<char>,
    message: Seq<char>,
    outcome: OutcomeView,
    failed: FailedView,
    key: Seq<char>,
)
    ensures
        key != "ok"@ && key != "model"@ && key != "answers"@ && key != "usage"@ && key
            != "latency_ms"@ ==> {
            &&& JsonView::Object(envelope_entries(evaluation, latency_ms)).get(key) is None
            &&& key != "index"@ ==> JsonView::Object(
                row_entries(index, evaluation, latency_ms),
            ).get(key) is None
        },
        key != "index"@ && key != "ok"@ && key != "error"@ ==> failed_line(
            index,
            kind,
            message,
        ).get(key) is None,
        key != "input_tokens"@ && key != "output_tokens"@ ==> usage_value(evaluation.usage).get(
            key,
        ) is None,
        key != "kind"@ && key != "message"@ ==> error_value(kind, message).get(key) is None,
        key != "passed"@ && key != "failed"@ ==> assert_value(outcome).get(key) is None,
        key != "clause"@ && key != "expected"@ && key != "actual"@ ==> clause_value(failed).get(
            key,
        ) is None,
{
    let none = Seq::<(Seq<char>, JsonView)>::empty();
    assert(json::lookup(none, key) is None);
    if key != "ok"@ && key != "model"@ && key != "answers"@ && key != "usage"@ && key
        != "latency_ms"@ {
        let ok = json::put(none, "ok"@, JsonView::Bool(true));
        let model = json::put(ok, "model"@, JsonView::Str(evaluation.model));
        let answers = json::put(model, "answers"@, evaluation.answers);
        let usage = json::put(answers, "usage"@, usage_value(evaluation.usage));
        json::lemma_put_keeps(none, "ok"@, JsonView::Bool(true), key);
        json::lemma_put_keeps(ok, "model"@, JsonView::Str(evaluation.model), key);
        json::lemma_put_keeps(model, "answers"@, evaluation.answers, key);
        json::lemma_put_keeps(answers, "usage"@, usage_value(evaluation.usage), key);
        json::lemma_put_keeps(usage, "latency_ms"@, natural_value(latency_ms), key);
        if key != "index"@ {
            json::lemma_put_keeps(
                envelope_entries(evaluation, latency_ms),
                "index"@,
                natural_value(index as u64),
                key,
            );
        }
    }
    if key != "index"@ && key != "ok"@ && key != "error"@ {
        let first = json::put(none, "index"@, natural_value(index as u64));
        let second = json::put(first, "ok"@, JsonView::Bool(false));
        json::lemma_put_keeps(none, "index"@, natural_value(index as u64), key);
        json::lemma_put_keeps(first, "ok"@, JsonView::Bool(false), key);
        json::lemma_put_keeps(second, "error"@, error_value(kind, message), key);
    }
    if key != "input_tokens"@ && key != "output_tokens"@ {
        let usage = evaluation.usage;
        let first = json::put(none, "input_tokens"@, natural_value(usage.input_tokens));
        json::lemma_put_keeps(none, "input_tokens"@, natural_value(usage.input_tokens), key);
        json::lemma_put_keeps(first, "output_tokens"@, natural_value(usage.output_tokens), key);
    }
    if key != "kind"@ && key != "message"@ {
        let first = json::put(none, "kind"@, JsonView::Str(kind));
        json::lemma_put_keeps(none, "kind"@, JsonView::Str(kind), key);
        json::lemma_put_keeps(first, "message"@, JsonView::Str(message), key);
    }
    if key != "passed"@ && key != "failed"@ {
        let first = json::put(none, "passed"@, JsonView::Bool(outcome.passed));
        let told = JsonView::Array(outcome.failed.map_values(|f: FailedView| clause_value(f)));
        json::lemma_put_keeps(none, "passed"@, JsonView::Bool(outcome.passed), key);
        json::lemma_put_keeps(first, "failed"@, told, key);
    }
    if key != "clause"@ && key != "expected"@ && key != "actual"@ {
        let clause = json::put(none, "clause"@, JsonView::Str(failed.clause));
        let expected = json::put(clause, "expected"@, raw_value(failed.expected));
        json::lemma_put_keeps(none, "clause"@, JsonView::Str(failed.clause), key);
        json::lemma_put_keeps(clause, "expected"@, raw_value(failed.expected), key);
        json::lemma_put_keeps(expected, "actual"@, raw_value(failed.actual), key);
    }
}

/// One request whose assertion cannot be evaluated tells why.
pub proof fn law_single_errors(
    evaluation: EvaluationView,
    latency_ms: u64,
    node: syntax::NodeView,
)
    ensures
        assertion::evaluated(
            node,
            JsonView::Object(envelope_entries(evaluation, latency_ms)),
        ) matches Err(e) ==> single_result(evaluation, latency_ms, Some(node)) == Err::<
            (u8, JsonView),
            Seq<char>,
        >(e),
{
}

} // verus!
