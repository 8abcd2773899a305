//! What commands decide before requests are sent and after they have come
//! back.

use crate::api;
use crate::assertion;
use crate::assertion::Expr;
use crate::cli::Each;
use crate::document;
use crate::error::UsageError;
use crate::input;
use crate::json;
use crate::json::{Json, JsonView, Object};
use crate::params;
use crate::request;
use crate::run;
use crate::run::BatchOutcome;
use crate::syntax;
use crate::text;
use vstd::prelude::*;

verus! {

/// Whether arguments ask to capture diagnostics: behind the name of the
/// program, and not behind `--`.
pub open spec fn capture_requested(args: Seq<Seq<char>>) -> bool {
    exists|k: int|
        1 <= k < args.len() && #[trigger] args[k] == "--capture-diagnostics"@ && forall|j: int|
            1 <= j < k ==> #[trigger] args[j] != "--"@
}

/// Whether arguments ask to capture diagnostics.
pub fn capture_diagnostics_requested_from(args: &Vec<String>) -> (r: bool)
    ensures
        r == capture_requested(text::texts(args@)),
{
    let ghost views = text::texts(args@);
    let mut k: usize = 1;
    while k < args.len()
        invariant
            1 <= k,
            views == text::texts(args@),
            forall|j: int| 1 <= j < k && j < views.len() ==> #[trigger] views[j] != "--"@,
            forall|j: int|
                1 <= j < k && j < views.len() ==> #[trigger] views[j]
                    != "--capture-diagnostics"@,
        decreases args@.len() - k,
    {
        assert(views[k as int] == args@[k as int]@);
        let arg = args[k].as_str();
        if text::same(arg, "--") {
            assert(!capture_requested(views)) by {
                reveal_strlit("--");
                reveal_strlit("--capture-diagnostics");
                assert("--"@.len() != "--capture-diagnostics"@.len());
            }
            return false;
        }
        if text::same(arg, "--capture-diagnostics") {
            return true;
        }
        k += 1;
    }
    false
}

/// The assertion that an optional text writes.
pub open spec fn parsed_assert(src: Option<Seq<char>>) -> Result<
    Option<syntax::NodeView>,
    Seq<char>,
> {
    match src {
        None => Ok(None),
        Some(src) => match assertion::parsed(src) {
            Ok(node) => Ok(Some(node)),
            Err(e) => Err(e),
        },
    }
}

/// What an optional assertion says.
pub open spec fn owned_expr_view(expr: Option<Expr>) -> Option<syntax::NodeView> {
    match expr {
        Some(expr) => Some(expr@),
        None => None,
    }
}

/// Reads an assertion, where there is one.
pub fn parse_assert(src: Option<&str>) -> (r: Result<Option<Expr>, UsageError>)
    ensures
        match r {
            Ok(expr) => parsed_assert(input::str_view(src)) == Ok::<
                Option<syntax::NodeView>,
                Seq<char>,
            >(owned_expr_view(expr)),
            Err(e) => parsed_assert(input::str_view(src)) == Err::<
                Option<syntax::NodeView>,
                Seq<char>,
            >(e@),
        },
{
    match src {
        None => Ok(None),
        Some(src) => match assertion::parse(src) {
            Ok(expr) => Ok(Some(expr)),
            Err(e) => Err(e),
        },
    }
}

/// The assertion that is given goes before that of the template.
pub fn choose_assert<'a>(given: Option<&'a str>, default: Option<&'a str>) -> (r: Option<&'a str>)
    ensures
        r == (if given is Some {
            given
        } else {
            default
        }),
{
    match given {
        Some(src) => Some(src),
        None => default,
    }
}

/// What keeps one request from being sent: its assertion, or the request.
pub open spec fn single_plan(body: JsonView, src: Option<Seq<char>>) -> Result<
    Option<syntax::NodeView>,
    Seq<char>,
> {
    match parsed_assert(src) {
        Err(e) => Err(e),
        Ok(expr) => match request::readiness_problem(body) {
            Some(problem) => Err(problem),
            None => Ok(expr),
        },
    }
}

/// Checks one request and its assertion before anything is sent.
pub fn prepare_single(body: &Json, src: Option<&str>) -> (r: Result<Option<Expr>, UsageError>)
    ensures
        match r {
            Ok(expr) => single_plan(body@, input::str_view(src)) == Ok::<
                Option<syntax::NodeView>,
                Seq<char>,
            >(owned_expr_view(expr)),
            Err(e) => single_plan(body@, input::str_view(src)) == Err::<
                Option<syntax::NodeView>,
                Seq<char>,
            >(e@),
        },
{
    let expr = parse_assert(src)?;
    request::validate_ready(body)?;
    Ok(expr)
}

/// Where a template comes from.
#[derive(Debug)]
pub enum TemplateSource {
    Preset(String),
    Stdin,
    File(String),
}

/// Tells where a template comes from: a preset, a file, or standard input
/// where there is neither.
pub fn template_source(request: Option<&str>, preset: Option<&str>) -> (r: TemplateSource)
    ensures
        match r {
            TemplateSource::Preset(name) => preset is Some && name@ == preset->Some_0@,
            TemplateSource::Stdin => preset is None && (request matches Some(path) ==> path@
                == "-"@),
            TemplateSource::File(path) => preset is None && request is Some && path@
                == request->Some_0@ && path@ != "-"@,
        },
{
    match preset {
        Some(name) => TemplateSource::Preset(name.to_owned()),
        None => match request {
            None => TemplateSource::Stdin,
            Some(path) => if text::same(path, "-") {
                TemplateSource::Stdin
            } else {
                TemplateSource::File(path.to_owned())
            },
        },
    }
}

/// Checks that a rating has levels to choose from.
pub fn check_levels(levels: usize) -> (r: Result<(), UsageError>)
    ensures
        match r {
            Ok(()) => levels >= 2,
            Err(e) => levels < 2 && e@
                == "score needs at least two --level descriptions, lowest first"@,
        },
{
    if levels < 2 {
        Err(UsageError::fixed("score needs at least two --level descriptions, lowest first"))
    } else {
        Ok(())
    }
}

/// Checks that a batch that resumes can read its input again.
pub fn check_input(resume: bool, path: &str) -> (r: Result<(), UsageError>)
    ensures
        match r {
            Ok(()) => !(resume && path@ == "-"@),
            Err(e) => resume && path@ == "-"@ && e@
                == "--resume needs a real --in file, not stdin (the input is re-read)"@,
        },
{
    if resume && text::same(path, "-") {
        Err(
            UsageError::fixed(
                "--resume needs a real --in file, not stdin (the input is re-read)",
            ),
        )
    } else {
        Ok(())
    }
}

/// Whether a batch has a template: where one is named, or where its lines are
/// no requests by themselves.
pub fn has_template(each: Each, request: bool, preset: bool) -> (r: bool)
    ensures
        r == (request || preset || each != Each::Request),
{
    request || preset || each != Each::Request
}

/// Checks that parameters have a template to go into.
pub fn check_params(template: bool, params: usize) -> (r: Result<(), UsageError>)
    ensures
        match r {
            Ok(()) => template || params == 0,
            Err(e) => !template && params > 0 && e@
                == "--param needs a template; with --each request each line is a full body"@,
        },
{
    if !template && params > 0 {
        Err(
            UsageError::fixed(
                "--param needs a template; with --each request each line is a full body",
            ),
        )
    } else {
        Ok(())
    }
}

/// Whether a state can be set in a document: in an object, or in a null, which
/// then becomes one.
pub open spec fn takes_state(body: JsonView) -> bool {
    body is Object || body is Null
}

/// A request about a state.
pub open spec fn about(body: JsonView, state: JsonView) -> JsonView {
    match body {
        JsonView::Object(entries) => JsonView::Object(json::put(entries, "state"@, state)),
        JsonView::Null => JsonView::Object(json::put(Seq::empty(), "state"@, state)),
        _ => body,
    }
}

/// Sets the state of a request.
pub fn set_state(body: Json, state: Json) -> (r: Json)
    requires
        takes_state(body@),
    ensures
        r@ == about(body@, state@),
{
    match body {
        Json::Null => {
            let mut entries = Object::new();
            entries.insert("state".to_owned(), state);
            Json::Object(entries)
        },
        Json::Object(entries) => {
            let mut entries = entries;
            entries.insert("state".to_owned(), state);
            Json::Object(entries)
        },
        other => other,
    }
}

/// A request that is ready, or why it is not.
pub open spec fn if_ready(body: JsonView) -> Result<JsonView, Seq<char>> {
    match request::readiness_problem(body) {
        None => Ok(body),
        Some(problem) => Err(problem),
    }
}

/// What a row's body says, or its error.
pub open spec fn row_view(r: Result<Json, UsageError>) -> Result<JsonView, Seq<char>> {
    match r {
        Ok(json) => Ok(json@),
        Err(e) => Err(e@),
    }
}

/// What a reading says, or its error.
pub open spec fn reading_view(read: Result<Json, String>) -> Result<JsonView, Seq<char>> {
    match read {
        Ok(json) => Ok(json@),
        Err(e) => Err(e@),
    }
}

/// The request of a line that is a whole request.
pub open spec fn request_row_of(read: Result<JsonView, Seq<char>>) -> Result<JsonView, Seq<char>> {
    match read {
        Err(e) => Err("not valid JSON: "@ + e),
        Ok(view) => if view is Object {
            if_ready(view)
        } else {
            Err("expected a JSON object request body"@)
        },
    }
}

/// The request of a line that is a whole request, once it is read.
pub fn request_row(read: Result<Json, String>) -> (r: Result<Json, UsageError>)
    ensures
        row_view(r) == request_row_of(reading_view(read)),
{
    match read {
        Err(e) => {
            let mut message = "not valid JSON: ".to_owned();
            message.append(e.as_str());
            Err(UsageError::new(message))
        },
        Ok(json) => {
            if !matches!(json, Json::Object(_)) {
                return Err(UsageError::fixed("expected a JSON object request body"));
            }
            match request::validate_ready(&json) {
                Ok(()) => Ok(json),
                Err(e) => Err(e),
            }
        },
    }
}

/// The request of a line that is a state.
pub open spec fn state_row_of(
    base: Option<JsonView>,
    read: Result<JsonView, Seq<char>>,
) -> Result<JsonView, Seq<char>> {
    match base {
        None => Err("--each state needs a template (PATH, -, or --preset)"@),
        Some(body) => match read {
            Err(e) => Err("not valid JSON (use --each text for plain lines): "@ + e),
            Ok(state) => if_ready(about(body, state)),
        },
    }
}

/// The request of a line that is a state, once it is read.
pub fn state_row(base: Option<&Json>, read: Result<Json, String>) -> (r: Result<Json, UsageError>)
    requires
        base matches Some(body) ==> takes_state(body@),
    ensures
        row_view(r) == state_row_of(request::view_of(base), reading_view(read)),
{
    let body = match base {
        Some(body) => body.clone(),
        None => {
            return Err(UsageError::fixed("--each state needs a template (PATH, -, or --preset)"));
        },
    };
    match read {
        Err(e) => {
            let mut message = "not valid JSON (use --each text for plain lines): ".to_owned();
            message.append(e.as_str());
            Err(UsageError::new(message))
        },
        Ok(state) => {
            let body = set_state(body, state);
            match request::validate_ready(&body) {
                Ok(()) => Ok(body),
                Err(e) => Err(e),
            }
        },
    }
}

/// The request of a line that is a text.
pub open spec fn text_row_of(base: Option<JsonView>, line: Seq<char>) -> Result<
    JsonView,
    Seq<char>,
> {
    match base {
        None => Err("--each text needs a template (PATH, -, or --preset)"@),
        Some(body) => if_ready(about(body, JsonView::Str(line))),
    }
}

/// The request of a line that is a text.
pub fn text_row(base: Option<&Json>, line: &str) -> (r: Result<Json, UsageError>)
    requires
        base matches Some(body) ==> takes_state(body@),
    ensures
        row_view(r) == text_row_of(request::view_of(base), line@),
{
    let body = match base {
        Some(body) => body.clone(),
        None => {
            return Err(UsageError::fixed("--each text needs a template (PATH, -, or --preset)"));
        },
    };
    let body = set_state(body, Json::Str(line.to_owned()));
    match request::validate_ready(&body) {
        Ok(()) => Ok(body),
        Err(e) => Err(e),
    }
}

/// The request of an input line.
pub open spec fn row_of(base: Option<JsonView>, each: Each, line: Seq<char>) -> Result<
    JsonView,
    Seq<char>,
> {
    match each {
        Each::Request => request_row_of(document::read_text(line)),
        Each::State => state_row_of(base, document::read_text(line)),
        Each::Text => text_row_of(base, line),
    }
}

/// Builds the request of an input line.
pub fn build_row(base: Option<&Json>, each: Each, line: &str) -> (r: Result<Json, UsageError>)
    requires
        base matches Some(body) ==> takes_state(body@),
    ensures
        row_view(r) == row_of(request::view_of(base), each, line@),
{
    match each {
        Each::Request => request_row(document::read_json(line)),
        Each::State => state_row(base, document::read_json(line)),
        Each::Text => text_row(base, line),
    }
}

/// The lines among the first `n` that are not blank, without the white space
/// around them.
pub open spec fn visible_lines(lines: Seq<Seq<char>>, n: int) -> Seq<Seq<char>>
    decreases n,
{
    if n <= 0 {
        Seq::empty()
    } else if text::trimmed(lines[n - 1]).len() == 0 {
        visible_lines(lines, n - 1)
    } else {
        visible_lines(lines, n - 1).push(text::trimmed(lines[n - 1]))
    }
}

/// The input lines of a text: those that are not blank, without the white
/// space around them.
pub fn input_lines(raw: &str) -> (r: Vec<String>)
    ensures
        text::texts(r@) == visible_lines(
            text::lines_from(raw@, 0),
            text::lines_from(raw@, 0).len() as int,
        ),
{
    let all = text::lines(raw);
    let ghost lines = text::texts(all@);
    let mut r: Vec<String> = Vec::new();
    let mut n: usize = 0;
    assert(text::texts(r@) =~= visible_lines(lines, 0));
    while n < all.len()
        invariant
            n <= all@.len(),
            lines == text::texts(all@),
            text::texts(r@) == visible_lines(lines, n as int),
        decreases all@.len() - n,
    {
        assert(lines[n as int] == all@[n as int]@);
        let line = text::trim(all[n].as_str());
        if !line.as_str().is_empty() {
            assert(line@.len() > 0);
            let ghost before = r@;
            let ghost said = line@;
            r.push(line);
            assert(text::texts(r@) =~= text::texts(before).push(said));
        } else {
            assert(line@.len() == 0);
        }
        n += 1;
    }
    r
}

/// The requests of the first `n` lines, with the places of their lines.
pub open spec fn planned(
    base: Option<JsonView>,
    each: Each,
    lines: Seq<Seq<char>>,
    n: int,
) -> Seq<(usize, JsonView)>
    decreases n,
{
    if n <= 0 {
        Seq::empty()
    } else {
        match row_of(base, each, lines[n - 1]) {
            Ok(body) => planned(base, each, lines, n - 1).push(((n - 1) as usize, body)),
            Err(_) => planned(base, each, lines, n - 1),
        }
    }
}

/// The errors of the first `n` lines, with the places of their lines.
pub open spec fn refused(
    base: Option<JsonView>,
    each: Each,
    lines: Seq<Seq<char>>,
    n: int,
) -> Seq<(usize, Seq<char>)>
    decreases n,
{
    if n <= 0 {
        Seq::empty()
    } else {
        match row_of(base, each, lines[n - 1]) {
            Ok(_) => refused(base, each, lines, n - 1),
            Err(e) => refused(base, each, lines, n - 1).push(
                ((n - 1) as usize, "input line "@ + text::decimal(n as nat) + ": "@ + e),
            ),
        }
    }
}

/// What errors with their places say.
pub open spec fn error_views(errors: Seq<(usize, String)>) -> Seq<(usize, Seq<char>)> {
    errors.map_values(|e: (usize, String)| (e.0, e.1@))
}

/// Builds the requests of all input lines. A line that gives none gives an
/// error, and does not keep the others from being asked.
pub fn plan_rows(base: Option<&Json>, each: Each, lines: &Vec<String>) -> (r: (
    Vec<(usize, Json)>,
    Vec<(usize, String)>,
))
    requires
        base matches Some(body) ==> takes_state(body@),
    ensures
        run::item_views(r.0@) == planned(
            request::view_of(base),
            each,
            text::texts(lines@),
            lines@.len() as int,
        ),
        error_views(r.1@) == refused(
            request::view_of(base),
            each,
            text::texts(lines@),
            lines@.len() as int,
        ),
{
    let ghost views = text::texts(lines@);
    let ghost body = request::view_of(base);
    let mut items: Vec<(usize, Json)> = Vec::new();
    let mut errors: Vec<(usize, String)> = Vec::new();
    let mut n: usize = 0;
    assert(run::item_views(items@) =~= planned(body, each, views, 0));
    assert(error_views(errors@) =~= refused(body, each, views, 0));
    while n < lines.len()
        invariant
            n <= lines@.len(),
            base matches Some(b) ==> takes_state(b@),
            body == request::view_of(base),
            views == text::texts(lines@),
            run::item_views(items@) == planned(body, each, views, n as int),
            error_views(errors@) == refused(body, each, views, n as int),
        decreases lines@.len() - n,
    {
        assert(views[n as int] == lines@[n as int]@);
        match build_row(base, each, lines[n].as_str()) {
            Ok(row) => {
                let ghost before = items@;
                let ghost said = (n, row@);
                items.push((n, row));
                assert(run::item_views(items@) =~= run::item_views(before).push(said));
            },
            Err(e) => {
                let mut message = "input line ".to_owned();
                message.append(text::decimal_text(n as u64 + 1).as_str());
                message.append(": ");
                message.append(e.message.as_str());
                let ghost before = errors@;
                let ghost said = (n, message@);
                errors.push((n, message));
                assert(error_views(errors@) =~= error_views(before).push(said));
            },
        }
        n += 1;
    }
    (items, errors)
}

/// What a batch is summed up as.
pub open spec fn summary_of(outcome: BatchOutcome, elapsed_secs: u64) -> Seq<char> {
    text::decimal(outcome.done as nat) + ": "@ + text::decimal(outcome.ok as nat) + " ok, "@
        + text::decimal(outcome.failed as nat) + " failed, "@ + text::decimal(
        outcome.assert_blocked as nat,
    ) + " blocked by assert | Tokens: in "@ + text::decimal(outcome.input_tokens as nat)
        + ", out "@ + text::decimal(outcome.output_tokens as nat) + " | Elapsed: "@
        + text::decimal(elapsed_secs as nat) + "s"@
}

/// Sums up a batch.
pub fn summary(outcome: &BatchOutcome, elapsed_secs: u64) -> (r: String)
    ensures
        r@ == summary_of(*outcome, elapsed_secs),
{
    let mut line = text::decimal_text(outcome.done as u64);
    line.append(": ");
    line.append(text::decimal_text(outcome.ok as u64).as_str());
    line.append(" ok, ");
    line.append(text::decimal_text(outcome.failed as u64).as_str());
    line.append(" failed, ");
    line.append(text::decimal_text(outcome.assert_blocked as u64).as_str());
    line.append(" blocked by assert | Tokens: in ");
    line.append(text::decimal_text(outcome.input_tokens).as_str());
    line.append(", out ");
    line.append(text::decimal_text(outcome.output_tokens).as_str());
    line.append(" | Elapsed: ");
    line.append(text::decimal_text(elapsed_secs).as_str());
    line.append("s");
    line
}

/// What to tell where no preset is found.
pub fn no_presets(user_dir: Option<&str>) -> (r: UsageError)
    ensures
        r@ == "no presets found; create .jev/presets/NAME.json or "@ + (match user_dir {
            Some(path) => path@,
            None => "the user presets directory"@,
        }),
{
    let mut message = "no presets found; create .jev/presets/NAME.json or ".to_owned();
    match user_dir {
        Some(path) => message.append(path),
        None => message.append("the user presets directory"),
    }
    UsageError::new(message)
}

/// Setting the state sets the state, and nothing else.
pub proof fn law_only_the_state_is_set(body: JsonView, state: JsonView, key: Seq<char>)
    requires
        takes_state(body),
    ensures
        about(body, state).get("state"@) == Some(state),
        key != "state"@ ==> about(body, state).get(key) == body.get(key),
{
    let entries = match body {
        JsonView::Object(entries) => entries,
        _ => Seq::empty(),
    };
    json::lemma_put_found(entries, "state"@, state);
    if key != "state"@ {
        json::lemma_put_keeps(entries, "state"@, state, key);
    }
}

/// The request of a row is ready to be sent. Where its line is a state or a
/// text, the request is about that, and asks what the template asks.
pub proof fn law_rows_are_ready(base: Option<JsonView>, each: Each, line: Seq<char>)
    requires
        base matches Some(body) ==> takes_state(body),
        row_of(base, each, line) is Ok,
    ensures
        request::readiness_problem(row_of(base, each, line)->Ok_0) is None,
        each == Each::Text ==> row_of(base, each, line)->Ok_0.get("state"@) == Some(
            JsonView::Str(line),
        ),
        each == Each::State ==> (document::read_text(line) matches Ok(state) ==> row_of(
            base,
            each,
            line,
        )->Ok_0.get("state"@) == Some(state)),
        each != Each::Request ==> base is Some && row_of(base, each, line)->Ok_0.get(
            "questions"@,
        ) == base->Some_0.get("questions"@),
        each == Each::Request ==> document::read_text(line) == Ok::<JsonView, Seq<char>>(
            row_of(base, each, line)->Ok_0,
        ),
{
    reveal_strlit("state");
    reveal_strlit("questions");
    assert("state"@.len() != "questions"@.len());
    if let Some(body) = base {
        law_only_the_state_is_set(body, JsonView::Str(line), "questions"@);
        if let Ok(state) = document::read_text(line) {
            law_only_the_state_is_set(body, state, "questions"@);
        }
    }
}

/// Every line gives a request or an error, and never both: a bad line fails
/// alone.
pub proof fn law_every_line_counts_once(
    base: Option<JsonView>,
    each: Each,
    lines: Seq<Seq<char>>,
    n: int,
)
    requires
        0 <= n <= lines.len() <= usize::MAX,
    ensures
        planned(base, each, lines, n).len() + refused(base, each, lines, n).len() == n,
        forall|k: int|
            0 <= k < planned(base, each, lines, n).len() ==> {
                let item = #[trigger] planned(base, each, lines, n)[k];
                item.0 < n && row_of(base, each, lines[item.0 as int]) == Ok::<
                    JsonView,
                    Seq<char>,
                >(item.1)
            },
        forall|k: int|
            0 <= k < refused(base, each, lines, n).len() ==> {
                let item = #[trigger] refused(base, each, lines, n)[k];
                item.0 < n && row_of(base, each, lines[item.0 as int]) is Err
            },
    decreases n,
{
    if n > 0 {
        law_every_line_counts_once(base, each, lines, n - 1);
    }
}

/// A request with its parameters in place, about its own state or about another
/// one.
pub open spec fn prepared(
    body: JsonView,
    values: Seq<(Seq<char>, JsonView)>,
    state: Option<JsonView>,
) -> JsonView {
    let whole = params::filled(body, values);
    match state {
        Some(state) => about(whole, state),
        None => whole,
    }
}

/// A request as it is sent: its parameters in place, about its own state or
/// about another one, and with a model.
pub open spec fn sent(
    body: JsonView,
    values: Seq<(Seq<char>, JsonView)>,
    state: Option<JsonView>,
) -> JsonView {
    api::pinned(prepared(body, values, state))
}

/// What an optional state says.
pub open spec fn state_view(state: Option<Json>) -> Option<JsonView> {
    match state {
        Some(state) => Some(state@),
        None => None,
    }
}

/// Puts together the one request of a template: its parameters, and its state
/// where another one is given. Gives the names of the parameters that no
/// placeholder takes.
pub fn prepare_ask(body: Json, values: &Vec<(String, Json)>, state: Option<Json>) -> (r: Result<
    (Json, Vec<String>),
    UsageError,
>)
    requires
        state is Some && params::report(body@, params::param_views(values@)) is Ok ==> takes_state(
            params::filled(body@, params::param_views(values@)),
        ),
    ensures
        match r {
            Ok((whole, unused)) => {
                &&& params::report(body@, params::param_views(values@)) == Ok::<
                    Seq<Seq<char>>,
                    Seq<char>,
                >(text::texts(unused@))
                &&& whole@ == prepared(body@, params::param_views(values@), state_view(state))
                &&& api::pinned(whole@) == sent(
                    body@,
                    params::param_views(values@),
                    state_view(state),
                )
            },
            Err(e) => params::report(body@, params::param_views(values@)) == Err::<
                Seq<Seq<char>>,
                Seq<char>,
            >(e@),
        },
{
    let mut whole = body;
    let unused = params::apply_params(&mut whole, values)?;
    match state {
        Some(state) => Ok((set_state(whole, state), unused)),
        None => Ok((whole, unused)),
    }
}

/// Puts together what the requests of a batch have in common: a template with
/// its parameters, if its questions are in order. Gives the names of the
/// parameters that no placeholder takes, whether they are or not.
pub fn prepare_base(body: &Json, values: &Vec<(String, Json)>) -> (r: Result<
    (Result<Json, UsageError>, Vec<String>),
    UsageError,
>)
    ensures
        match r {
            Ok((base, unused)) => {
                let whole = params::filled(body@, params::param_views(values@));
                &&& params::report(body@, params::param_views(values@)) == Ok::<
                    Seq<Seq<char>>,
                    Seq<char>,
                >(text::texts(unused@))
                &&& match base {
                    Ok(base) => base@ == whole && base@ is Object && request::questions_problem(
                        whole,
                        "template"@,
                    ) is None,
                    Err(e) => request::questions_problem(whole, "template"@) == Some(e@),
                }
            },
            Err(e) => params::report(body@, params::param_views(values@)) == Err::<
                Seq<Seq<char>>,
                Seq<char>,
            >(e@),
        },
{
    let mut whole = body.clone();
    let unused = params::apply_params(&mut whole, values)?;
    match request::validate_questions(&whole, "template") {
        Ok(()) => Ok((Ok(whole), unused)),
        Err(e) => Ok((Err(e), unused)),
    }
}

/// What a batch sends of a line that is a state or a text is what its template
/// sends about that state or that text.
pub proof fn law_rows_are_sent_as_asked(
    body: JsonView,
    values: Seq<(Seq<char>, JsonView)>,
    each: Each,
    line: Seq<char>,
)
    requires
        row_of(Some(params::filled(body, values)), each, line) is Ok,
    ensures
        each == Each::Text ==> api::pinned(
            row_of(Some(params::filled(body, values)), each, line)->Ok_0,
        ) == sent(body, values, Some(JsonView::Str(line))),
        each == Each::State ==> document::read_text(line) is Ok && api::pinned(
            row_of(Some(params::filled(body, values)), each, line)->Ok_0,
        ) == sent(body, values, Some(document::read_text(line)->Ok_0)),
{
}

/// The reserved keys of a template never reach the service, and every request
/// that does names a model.
pub proof fn law_reserved_keys_are_never_sent(
    view: JsonView,
    label: Seq<char>,
    values: Seq<(Seq<char>, JsonView)>,
    state: Option<JsonView>,
    key: Seq<char>,
)
    requires
        view matches JsonView::Object(map) ==> json::keys_ascend(map),
        request::template_from(view, label) is Ok,
        key == "description"@ || key == "params"@ || key == "assert"@,
    ensures
        sent(request::template_from(view, label)->Ok_0.body, values, state).get(key) is None,
        sent(request::template_from(view, label)->Ok_0.body, values, state).get(
            "model"@,
        ) is Some,
{
    let body = request::template_from(view, label)->Ok_0.body;
    let whole = params::filled(body, values);
    request::law_reserved_keys_stay_behind(view, label, key);
    params::law_filled_lookup(body, values, key);
    reveal_strlit("state");
    reveal_strlit("model");
    reveal_strlit("description");
    reveal_strlit("params");
    reveal_strlit("assert");
    assert("state"@.len() == 5 && "model"@.len() == 5);
    assert("description"@.len() == 11 && "params"@.len() == 6 && "assert"@.len() == 6);
    if let Some(state) = state {
        law_only_the_state_is_set(whole, state, key);
        api::law_model_is_pinned(about(whole, state), key);
    } else {
        api::law_model_is_pinned(whole, key);
    }
}

/// Diagnostics are captured where the flag stands anywhere behind the name of
/// the program, but not where it stands behind two dashes, and not where it is
/// that name.
pub proof fn law_capture_flag(
    program: Seq<char>,
    before: Seq<Seq<char>>,
    after: Seq<Seq<char>>,
)
    ensures
        !before.contains("--"@) ==> capture_requested(
            seq![program] + before + seq!["--capture-diagnostics"@] + after,
        ),
        !before.contains("--capture-diagnostics"@) ==> !capture_requested(seq![program] + before),
        !before.contains("--capture-diagnostics"@) ==> !capture_requested(
            seq![program] + before + seq!["--"@] + after,
        ),
{
    reveal_strlit("--");
    reveal_strlit("--capture-diagnostics");
    assert("--"@.len() != "--capture-diagnostics"@.len());
    let flagged = seq![program] + before + seq!["--capture-diagnostics"@] + after;
    let at = before.len() + 1;
    if !before.contains("--"@) {
        assert(flagged[at as int] == "--capture-diagnostics"@);
        assert forall|j: int| 1 <= j < at implies #[trigger] flagged[j] != "--"@ by {
            assert(flagged[j] == before[j - 1]);
        }
    }
    if !before.contains("--capture-diagnostics"@) {
        let plain = seq![program] + before;
        assert forall|k: int| 1 <= k < plain.len() implies #[trigger] plain[k]
            != "--capture-diagnostics"@ by {
            assert(plain[k] == before[k - 1]);
        }
        let ended = seq![program] + before + seq!["--"@] + after;
        assert(ended[at as int] == "--"@);
        assert forall|k: int| 1 <= k <= at implies #[trigger] ended[k]
            != "--capture-diagnostics"@ by {
            if k < at {
                assert(ended[k] == before[k - 1]);
            }
        }
    }
}

/// The input lines are all the lines that are more than white space, in order,
/// each without the white space around it.
pub proof fn law_visible_lines(lines: Seq<Seq<char>>)
    ensures
        visible_lines(lines, lines.len() as int) == lines.map_values(
            |line: Seq<char>| text::trimmed(line),
        ).filter(|line: Seq<char>| line.len() > 0),
    decreases lines.len(),
{
    reveal(Seq::filter);
    let trim = |line: Seq<char>| text::trimmed(line);
    if lines.len() > 0 {
        let before = lines.drop_last();
        law_visible_lines(before);
        lemma_visible_before(lines, before, before.len() as int);
        assert(lines.map_values(trim).drop_last() =~= before.map_values(trim));
    }
}

proof fn lemma_visible_before(lines: Seq<Seq<char>>, before: Seq<Seq<char>>, n: int)
    requires
        0 <= n <= before.len(),
        before == lines.drop_last(),
        lines.len() == before.len() + 1,
    ensures
        visible_lines(lines, n) == visible_lines(before, n),
    decreases n,
{
    if n > 0 {
        lemma_visible_before(lines, before, n - 1);
    }
}

/// The request of every line that gives one is asked, and the error of every
/// other is told with the number of its line, counted from one; both in the
/// order of the lines.
pub proof fn law_lines_are_planned_in_order(
    base: Option<JsonView>,
    each: Each,
    lines: Seq<Seq<char>>,
    n: int,
)
    requires
        0 <= n <= lines.len() <= usize::MAX,
    ensures
        forall|k: int|
            #![trigger lines[k]]
            0 <= k < n ==> match row_of(base, each, lines[k]) {
                Ok(body) => planned(base, each, lines, n).contains((k as usize, body)),
                Err(e) => refused(base, each, lines, n).contains(
                    (k as usize, "input line "@ + text::decimal((k + 1) as nat) + ": "@ + e),
                ),
            },
        forall|i: int, j: int|
            0 <= i < j < planned(base, each, lines, n).len() ==> (#[trigger] planned(
                base,
                each,
                lines,
                n,
            )[i]).0 < (#[trigger] planned(base, each, lines, n)[j]).0,
        forall|i: int, j: int|
            0 <= i < j < refused(base, each, lines, n).len() ==> (#[trigger] refused(
                base,
                each,
                lines,
                n,
            )[i]).0 < (#[trigger] refused(base, each, lines, n)[j]).0,
    decreases n,
{
    if n > 0 {
        law_lines_are_planned_in_order(base, each, lines, n - 1);
        law_every_line_counts_once(base, each, lines, n - 1);
        let asked = planned(base, each, lines, n - 1);
        let told = refused(base, each, lines, n - 1);
        let all_asked = planned(base, each, lines, n);
        let all_told = refused(base, each, lines, n);
        assert forall|k: int|
            #![trigger lines[k]]
            0 <= k < n implies match row_of(base, each, lines[k]) {
            Ok(body) => all_asked.contains((k as usize, body)),
            Err(e) => all_told.contains(
                (k as usize, "input line "@ + text::decimal((k + 1) as nat) + ": "@ + e),
            ),
        } by {
            match row_of(base, each, lines[k]) {
                Ok(body) => {
                    let item = (k as usize, body);
                    if k < n - 1 {
                        let at = choose|at: int| 0 <= at < asked.len() && asked[at] == item;
                        assert(all_asked[at] == item);
                    } else {
                        assert(all_asked[all_asked.len() - 1] == item);
                    }
                },
                Err(e) => {
                    let item = (
                        k as usize,
                        "input line "@ + text::decimal((k + 1) as nat) + ": "@ + e,
                    );
                    if k < n - 1 {
                        let at = choose|at: int| 0 <= at < told.len() && told[at] == item;
                        assert(all_told[at] == item);
                    } else {
                        assert(all_told[all_told.len() - 1] == item);
                    }
                },
            }
        }
        assert forall|i: int, j: int| 0 <= i < j < all_asked.len() implies (
        #[trigger] all_asked[i]).0 < (#[trigger] all_asked[j]).0 by {
            assert(all_asked[i] == asked[i]);
            if j < asked.len() {
                assert(all_asked[j] == asked[j]);
            }
        }
        assert forall|i: int, j: int| 0 <= i < j < all_told.len() implies (
        #[trigger] all_told[i]).0 < (#[trigger] all_told[j]).0 by {
            assert(all_told[i] == told[i]);
            if j < told.len() {
                assert(all_told[j] == told[j]);
            }
        }
    }
}

/// Setting the state of a request does not change whether its questions are
/// accepted.
proof fn lemma_questions_stay(body: JsonView, state: JsonView, label: Seq<char>)
    requires
        takes_state(body),
    ensures
        request::questions_problem(about(body, state), label) == request::questions_problem(
            body,
            label,
        ),
{
    reveal_strlit("state");
    reveal_strlit("model");
    reveal_strlit("questions");
    assert("state"@[0] == 's' && "model"@[0] == 'm' && "questions"@[0] == 'q');
    law_only_the_state_is_set(body, state, "questions"@);
    law_only_the_state_is_set(body, state, "model"@);
}

/// A line gives a request exactly where it should. A text does wherever there
/// is a template whose questions are accepted, a state does where it also
/// reads, and a request where it reads as an object whose questions are
/// accepted and that has a state.
pub proof fn law_lines_give_requests(base: Option<JsonView>, line: Seq<char>)
    requires
        base matches Some(body) ==> takes_state(body),
    ensures
        row_of(base, Each::Text, line) is Ok <==> (base matches Some(body)
            && request::questions_problem(body, "request"@) is None),
        row_of(base, Each::State, line) is Ok <==> document::read_text(line) is Ok && (
        base matches Some(body) && request::questions_problem(body, "request"@) is None),
        row_of(base, Each::Request, line) is Ok <==> (document::read_text(line) matches Ok(view)
            && view is Object && request::questions_problem(view, "request"@) is None && view.get(
            "state"@,
        ) is Some),
        base is None ==> row_of(base, Each::Text, line) == Err::<JsonView, Seq<char>>(
            "--each text needs a template (PATH, -, or --preset)"@,
        ),
        base is None ==> row_of(base, Each::State, line) == Err::<JsonView, Seq<char>>(
            "--each state needs a template (PATH, -, or --preset)"@,
        ),
        document::read_text(line) matches Err(e) ==> {
            &&& base is Some ==> row_of(base, Each::State, line) == Err::<JsonView, Seq<char>>(
                "not valid JSON (use --each text for plain lines): "@ + e,
            )
            &&& row_of(base, Each::Request, line) == Err::<JsonView, Seq<char>>(
                "not valid JSON: "@ + e,
            )
        },
        document::read_text(line) matches Ok(view) ==> !(view is Object) ==> row_of(
            base,
            Each::Request,
            line,
        ) == Err::<JsonView, Seq<char>>("expected a JSON object request body"@),
{
    if let Some(body) = base {
        law_only_the_state_is_set(body, JsonView::Str(line), "state"@);
        lemma_questions_stay(body, JsonView::Str(line), "request"@);
        if let Ok(state) = document::read_text(line) {
            law_only_the_state_is_set(body, state, "state"@);
            lemma_questions_stay(body, state, "request"@);
        }
    }
}

/// What is put together of a template says under each key what the template
/// does, filled; its state is the one that is given, where one is.
pub proof fn law_prepared_key_by_key(
    body: JsonView,
    values: Seq<(Seq<char>, JsonView)>,
    state: Option<JsonView>,
    key: Seq<char>,
)
    requires
        body is Object,
    ensures
        state matches Some(given) ==> prepared(body, values, state).get("state"@) == Some(given),
        key != "state"@ || state is None ==> prepared(body, values, state).get(key) == (
        match body.get(key) {
            Some(value) => Some(params::filled(value, values)),
            None => None::<JsonView>,
        }),
        key != "model"@ ==> sent(body, values, state).get(key) == prepared(
            body,
            values,
            state,
        ).get(key),
        prepared(body, values, state).get("model"@) matches Some(model) ==> sent(
            body,
            values,
            state,
        ).get("model"@) == Some(model),
        prepared(body, values, state).get("model"@) is None ==> sent(body, values, state).get(
            "model"@,
        ) == Some(JsonView::Str("jev-latest"@)),
{
    let whole = params::filled(body, values);
    params::law_filled_lookup(body, values, key);
    if let Some(given) = state {
        law_only_the_state_is_set(whole, given, key);
        api::law_model_is_pinned(about(whole, given), key);
    } else {
        api::law_model_is_pinned(whole, key);
    }
}

/// One request is sent exactly where its assertion, if it has one, parses, and
/// the request is ready; the assertion is then the one that was given. An
/// assertion that does not parse is told before a request that is not ready.
pub proof fn law_single_plan(body: JsonView, src: Seq<char>)
    ensures
        single_plan(body, Some(src)) is Ok <==> assertion::parsed(src) is Ok
            && request::readiness_problem(body) is None,
        single_plan(body, Some(src)) matches Ok(expr) ==> (assertion::parsed(src) matches Ok(node)
            && expr == Some(node)),
        single_plan(body, None) is Ok <==> request::readiness_problem(body) is None,
        single_plan(body, None) matches Ok(expr) ==> expr is None,
        assertion::parsed(src) matches Err(e) ==> single_plan(body, Some(src)) == Err::<
            Option<syntax::NodeView>,
            Seq<char>,
        >(e),
        request::readiness_problem(body) matches Some(problem) ==> single_plan(body, None) == Err::<
            Option<syntax::NodeView>,
            Seq<char>,
        >(problem),
{
}

/// A batch is summed up by how many rows were done, how many of them came out
/// well, failed, and were blocked, by the tokens it took, and by its time.
pub proof fn law_summary_says(outcome: BatchOutcome, elapsed_secs: u64)
    ensures
        summary_of(outcome, elapsed_secs) == text::decimal(outcome.done as nat) + ": "@
            + text::decimal(outcome.ok as nat) + " ok, "@ + text::decimal(outcome.failed as nat)
            + " failed, "@ + text::decimal(outcome.assert_blocked as nat)
            + " blocked by assert | Tokens: in "@ + text::decimal(outcome.input_tokens as nat)
            + ", out "@ + text::decimal(outcome.output_tokens as nat) + " | Elapsed: "@
            + text::decimal(elapsed_secs as nat) + "s"@,
{
}

/// The assertion that is given goes before that of the template, which is taken
/// where none is given.
pub proof fn law_given_assertion_goes_first<'a>(
    given: Option<&'a str>,
    default: Option<&'a str>,
    chosen: Option<&'a str>,
)
    requires
        call_ensures(choose_assert, (given, default), chosen),
    ensures
        given matches Some(src) ==> chosen == Some(src),
        given is None ==> chosen == default,
{
}

/// A template is the preset where one is named, then the file that is, and
/// otherwise what stands on standard input; a dash is that too.
pub proof fn law_template_comes_from(
    request: Option<&str>,
    preset: Option<&str>,
    source: TemplateSource,
)
    requires
        call_ensures(template_source, (request, preset), source),
    ensures
        preset matches Some(name) ==> (source matches TemplateSource::Preset(told) && told@
            == name@),
        preset is None ==> (request matches Some(path) ==> path@ != "-"@ ==> (source
            matches TemplateSource::File(told) && told@ == path@)),
        preset is None && (request matches Some(path) ==> path@ == "-"@) ==> source is Stdin,
{
}

/// What keeps a command from starting: too few levels, a batch that resumes
/// from standard input, and parameters without a template.
pub proof fn law_commands_start(
    levels: usize,
    resume: bool,
    path: &str,
    each: Each,
    request: bool,
    preset: bool,
    template: bool,
    given: usize,
    rated: Result<(), UsageError>,
    read: Result<(), UsageError>,
    filled: Result<(), UsageError>,
)
    requires
        call_ensures(check_levels, (levels,), rated),
        call_ensures(check_input, (resume, path), read),
        call_ensures(has_template, (each, request, preset), template),
        call_ensures(check_params, (template, given), filled),
    ensures
        rated is Err <==> levels == 0 || levels == 1,
        rated matches Err(e) ==> e@
            == "score needs at least two --level descriptions, lowest first"@,
        read is Err <==> resume && path@ == "-"@,
        read matches Err(e) ==> e@
            == "--resume needs a real --in file, not stdin (the input is re-read)"@,
        filled is Err <==> given > 0 && each is Request && !request && !preset,
        filled matches Err(e) ==> e@
            == "--param needs a template; with --each request each line is a full body"@,
{
}

/// The input lines of a text are all of its lines that are more than white
/// space, in order, without the white space around them.
pub proof fn law_input_lines(raw: &str, lines: Vec<String>)
    requires
        call_ensures(input_lines, (raw,), lines),
    ensures
        text::texts(lines@) == text::lines_from(raw@, 0).map_values(
            |line: Seq<char>| text::trimmed(line),
        ).filter(|line: Seq<char>| line.len() > 0),
{
    law_visible_lines(text::lines_from(raw@, 0));
}

/// Where there are no presets, it is told where they would be.
pub proof fn law_no_presets_says(user_dir: Option<&str>, told: UsageError)
    requires
        call_ensures(no_presets, (user_dir,), told),
    ensures
        user_dir matches Some(path) ==> told@
            == "no presets found; create .jev/presets/NAME.json or "@ + path@,
        user_dir is None ==> told@ == "no presets found; create .jev/presets/NAME.json or "@
            + "the user presets directory"@,
{
}

} // verus!
