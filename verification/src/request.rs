//! Templates of requests, and the checks of questions and of whole requests.

use crate::assertion;
use crate::document;
use crate::error;
use crate::error::UsageError;
use crate::json;
use crate::json::{Json, JsonView, Object};
use crate::text;
use vstd::prelude::*;

verus! {


/// Where a question stands, in messages.
pub open spec fn question_place(label: Seq<char>, id: Seq<char>) -> Seq<char> {
    label + ": questions."@ + id
}

/// Whether entries describe the answers of a noul and nothing else.
pub open spec fn noul_entries_hold(entries: Seq<(Seq<char>, JsonView)>) -> bool {
    forall|i: int|
        0 <= i < entries.len() ==> {
            let entry = #[trigger] entries[i];
            (entry.0 == "true"@ || entry.0 == "false"@) && entry.1 is Str
        }
}

/// What is wrong with the criteria of a noul.
pub open spec fn noul_problem(criteria: Option<JsonView>, place: Seq<char>) -> Option<Seq<char>> {
    match criteria {
        None => None,
        Some(JsonView::Object(entries)) => if noul_entries_hold(entries) {
            None
        } else {
            Some(place + ".criteria keys must be \"true\" or \"false\" mapped to strings"@)
        },
        Some(_) => Some(
            place
                + ".criteria for a noul must be an object with optional \"true\"/\"false\" strings"@,
        ),
    }
}

/// The first option from `i` on that is not described by a string or null.
pub open spec fn undescribed_option(entries: Seq<(Seq<char>, JsonView)>, i: int) -> Option<
    Seq<char>,
>
    decreases entries.len() - i,
{
    if i < 0 || i >= entries.len() {
        None
    } else if entries[i].1 is Str || entries[i].1 is Null {
        undescribed_option(entries, i + 1)
    } else {
        Some(entries[i].0)
    }
}

/// What is wrong with the criteria of a choice.
pub open spec fn choice_problem(criteria: Option<JsonView>, place: Seq<char>) -> Option<Seq<char>> {
    match criteria {
        Some(JsonView::Object(entries)) => if entries.len() == 0 {
            Some(place + ".criteria needs at least one option"@)
        } else {
            match undescribed_option(entries, 0) {
                None => None,
                Some(option) => Some(
                    place + ".criteria."@ + option + " must be a description string or null"@,
                ),
            }
        },
        _ => Some(
            place
                + " is a choice and requires criteria as an object of option to description (or null)"@,
        ),
    }
}

/// The first level from `i` on that is not a string.
pub open spec fn undescribed_level(levels: Seq<JsonView>, i: int) -> Option<int>
    decreases levels.len() - i,
{
    if i < 0 || i >= levels.len() {
        None
    } else if levels[i] is Str {
        undescribed_level(levels, i + 1)
    } else {
        Some(i)
    }
}

/// What is wrong with the criteria of a score.
pub open spec fn score_problem(criteria: Option<JsonView>, place: Seq<char>) -> Option<Seq<char>> {
    match criteria {
        Some(JsonView::Array(levels)) => if levels.len() < 2 {
            Some(place + ".criteria needs at least two ordered levels"@)
        } else {
            match undescribed_level(levels, 0) {
                None => None,
                Some(i) => Some(
                    place + ".criteria["@ + text::decimal(i as nat)
                        + "] must be a level description string"@,
                ),
            }
        },
        _ => Some(
            place
                + " is a score and requires criteria as an ordered array of level descriptions"@,
        ),
    }
}

/// What is wrong with a question, if anything is.
pub open spec fn question_problem(id: Seq<char>, question: JsonView, label: Seq<char>) -> Option<
    Seq<char>,
> {
    let place = question_place(label, id);
    match question {
        JsonView::Object(fields) => match json::lookup(fields, "type"@) {
            Some(JsonView::Str(kind)) => match json::lookup(fields, "instructions"@) {
                None => Some(place + " is missing 'instructions'"@),
                Some(instructions) => if !(instructions is Str || instructions is Object
                    || instructions is Array) {
                    Some(place + ".instructions must be a string, object, or array"@)
                } else if kind == "noul"@ {
                    noul_problem(json::lookup(fields, "criteria"@), place)
                } else if kind == "choice"@ {
                    choice_problem(json::lookup(fields, "criteria"@), place)
                } else if kind == "score"@ {
                    score_problem(json::lookup(fields, "criteria"@), place)
                } else {
                    Some(
                        place + ".type is \""@ + kind
                            + "\"; it must be \"noul\", \"choice\", or \"score\""@,
                    )
                },
            },
            _ => Some(place + ".type must be \"noul\", \"choice\", or \"score\""@),
        },
        _ => Some(place + " must be an object"@),
    }
}

/// What is wrong with the first faulty question from `i` on.
pub open spec fn first_problem(
    questions: Seq<(Seq<char>, JsonView)>,
    i: int,
    label: Seq<char>,
) -> Option<Seq<char>>
    decreases questions.len() - i,
{
    if i < 0 || i >= questions.len() {
        None
    } else {
        match question_problem(questions[i].0, questions[i].1, label) {
            Some(problem) => Some(problem),
            None => first_problem(questions, i + 1, label),
        }
    }
}

/// What is wrong with the questions of a request, or with its model.
pub open spec fn questions_problem(body: JsonView, label: Seq<char>) -> Option<Seq<char>> {
    match body.get("questions"@) {
        Some(JsonView::Object(questions)) => if questions.len() == 0 {
            Some(label + ": 'questions' must contain at least one question"@)
        } else {
            match first_problem(questions, 0, label) {
                Some(problem) => Some(problem),
                None => match body.get("model"@) {
                    None => None,
                    Some(JsonView::Str(_)) => None,
                    Some(_) => Some(label + ": 'model' must be a string"@),
                },
            }
        },
        _ => Some(
            label + ": 'questions' must be a non-empty JSON object of question id to question"@,
        ),
    }
}

/// Nothing where there is no problem, and else the problem as an error.
pub open spec fn tells(r: Result<(), UsageError>, problem: Option<Seq<char>>) -> bool {
    match r {
        Ok(()) => problem is None,
        Err(e) => problem == Some(e@),
    }
}

fn complaint(place: &str, what: &str) -> (r: Result<(), UsageError>)
    ensures
        r matches Err(e) && e@ == place@ + what@,
{
    let mut message = place.to_owned();
    message.append(what);
    Err(UsageError::new(message))
}

/// What an optional document says.
pub open spec fn view_of(json: Option<&Json>) -> Option<JsonView> {
    match json {
        Some(json) => Some(json@),
        None => None,
    }
}

fn describes_noul(entries: &Object) -> (r: bool)
    ensures
        r == noul_entries_hold(entries@),
{
    let mut i: usize = 0;
    while i < entries.len()
        invariant
            i <= entries@.len(),
            forall|k: int|
                0 <= k < i ==> {
                    let entry = #[trigger] entries@[k];
                    (entry.0 == "true"@ || entry.0 == "false"@) && entry.1 is Str
                },
        decreases entries@.len() - i,
    {
        let key = entries.key_at(i);
        let named = text::same(key, "true") || text::same(key, "false");
        if !named || !matches!(entries.value_at(i), Json::Str(_)) {
            assert(!((entries@[i as int].0 == "true"@ || entries@[i as int].0 == "false"@)
                && entries@[i as int].1 is Str));
            return false;
        }
        i += 1;
    }
    true
}

fn check_noul(criteria: Option<&Json>, place: &str) -> (r: Result<(), UsageError>)
    ensures
        tells(r, noul_problem(view_of(criteria), place@)),
{
    match criteria {
        None => Ok(()),
        Some(Json::Object(entries)) => if describes_noul(entries) {
            Ok(())
        } else {
            complaint(place, ".criteria keys must be \"true\" or \"false\" mapped to strings")
        },
        Some(_) => complaint(
            place,
            ".criteria for a noul must be an object with optional \"true\"/\"false\" strings",
        ),
    }
}

fn find_undescribed_option(entries: &Object) -> (r: Option<&str>)
    ensures
        match r {
            Some(option) => undescribed_option(entries@, 0) == Some(option@),
            None => undescribed_option(entries@, 0) is None,
        },
{
    let mut i: usize = 0;
    while i < entries.len()
        invariant
            i <= entries@.len(),
            undescribed_option(entries@, 0) == undescribed_option(entries@, i as int),
        decreases entries@.len() - i,
    {
        if !matches!(entries.value_at(i), Json::Str(_) | Json::Null) {
            return Some(entries.key_at(i));
        }
        i += 1;
    }
    None
}

fn check_choice(criteria: Option<&Json>, place: &str) -> (r: Result<(), UsageError>)
    ensures
        tells(r, choice_problem(view_of(criteria), place@)),
{
    match criteria {
        Some(Json::Object(entries)) => if entries.len() == 0 {
            complaint(place, ".criteria needs at least one option")
        } else {
            match find_undescribed_option(entries) {
                None => Ok(()),
                Some(option) => {
                    let mut at = place.to_owned();
                    at.append(".criteria.");
                    at.append(option);
                    complaint(at.as_str(), " must be a description string or null")
                },
            }
        },
        _ => complaint(
            place,
            " is a choice and requires criteria as an object of option to description (or null)",
        ),
    }
}

fn find_undescribed_level(levels: &Vec<Json>) -> (r: Option<usize>)
    ensures
        match r {
            Some(i) => undescribed_level(json::item_models(levels@), 0) == Some(i as int),
            None => undescribed_level(json::item_models(levels@), 0) is None,
        },
{
    broadcast use json::lemma_item_models;

    let ghost views = json::item_models(levels@);
    let mut i: usize = 0;
    while i < levels.len()
        invariant
            i <= levels@.len(),
            views == json::item_models(levels@),
            undescribed_level(views, 0) == undescribed_level(views, i as int),
        decreases levels@.len() - i,
    {
        assert(views[i as int] == levels@[i as int]@);
        if !matches!(&levels[i], Json::Str(_)) {
            return Some(i);
        }
        i += 1;
    }
    None
}

fn check_score(criteria: Option<&Json>, place: &str) -> (r: Result<(), UsageError>)
    ensures
        tells(r, score_problem(view_of(criteria), place@)),
{
    broadcast use json::lemma_item_models;

    match criteria {
        Some(Json::Array(levels)) => if levels.len() < 2 {
            complaint(place, ".criteria needs at least two ordered levels")
        } else {
            match find_undescribed_level(levels) {
                None => Ok(()),
                Some(i) => {
                    let mut at = place.to_owned();
                    at.append(".criteria[");
                    at.append(text::decimal_text(i as u64).as_str());
                    complaint(at.as_str(), "] must be a level description string")
                },
            }
        },
        _ => complaint(
            place,
            " is a score and requires criteria as an ordered array of level descriptions",
        ),
    }
}

fn check_question(id: &str, question: &Json, label: &str) -> (r: Result<(), UsageError>)
    ensures
        tells(r, question_problem(id@, question@, label@)),
{
    let mut at = label.to_owned();
    at.append(": questions.");
    at.append(id);
    let place = at.as_str();
    let fields = match question {
        Json::Object(fields) => fields,
        _ => {
            return complaint(place, " must be an object");
        },
    };
    let kind = match fields.get("type") {
        Some(Json::Str(kind)) => kind.as_str(),
        _ => {
            return complaint(place, ".type must be \"noul\", \"choice\", or \"score\"");
        },
    };
    match fields.get("instructions") {
        None => {
            return complaint(place, " is missing 'instructions'");
        },
        Some(Json::Str(_) | Json::Object(_) | Json::Array(_)) => {},
        Some(_) => {
            return complaint(place, ".instructions must be a string, object, or array");
        },
    }
    let criteria = fields.get("criteria");
    if text::same(kind, "noul") {
        check_noul(criteria, place)
    } else if text::same(kind, "choice") {
        check_choice(criteria, place)
    } else if text::same(kind, "score") {
        check_score(criteria, place)
    } else {
        at.append(".type is \"");
        at.append(kind);
        complaint(
            at.as_str(),
            "\"; it must be \"noul\", \"choice\", or \"score\"",
        )
    }
}

/// Checks the shape of every question, and of the model where there is one.
pub fn validate_questions(body: &Json, label: &str) -> (r: Result<(), UsageError>)
    ensures
        tells(r, questions_problem(body@, label@)),
{
    let questions = match body.get("questions") {
        Some(Json::Object(questions)) => questions,
        _ => {
            return complaint(
                label,
                ": 'questions' must be a non-empty JSON object of question id to question",
            );
        },
    };
    if questions.len() == 0 {
        return complaint(label, ": 'questions' must contain at least one question");
    }
    let mut i: usize = 0;
    while i < questions.len()
        invariant
            i <= questions@.len(),
            questions@.len() > 0,
            body@.get("questions"@) == Some(JsonView::Object(questions@)),
            first_problem(questions@, 0, label@) == first_problem(questions@, i as int, label@),
        decreases questions@.len() - i,
    {
        check_question(questions.key_at(i), questions.value_at(i), label)?;
        i += 1;
    }
    match body.get("model") {
        None => Ok(()),
        Some(Json::Str(_)) => Ok(()),
        Some(_) => complaint(label, ": 'model' must be a string"),
    }
}

/// What keeps a request from being sent.
pub open spec fn readiness_problem(body: JsonView) -> Option<Seq<char>> {
    match questions_problem(body, "request"@) {
        Some(problem) => Some(problem),
        None => match body.get("state"@) {
            Some(_) => None,
            None => Some(
                "request has no 'state'; add it to the request or pass --state"@,
            ),
        },
    }
}

/// Checks a request before it is sent: its questions, and that it has a state.
pub fn validate_ready(body: &Json) -> (r: Result<(), UsageError>)
    ensures
        tells(r, readiness_problem(body@)),
{
    validate_questions(body, "request")?;
    match body.get("state") {
        Some(_) => Ok(()),
        None => Err(
            UsageError::fixed("request has no 'state'; add it to the request or pass --state"),
        ),
    }
}

/// A request template.
#[derive(Debug)]
pub struct Template {
    /// The request body without the reserved keys.
    pub body: Json,
    pub description: Option<String>,
    /// Names of parameters and what they stand for.
    pub params: Object,
    /// The assertion that applies where none is given.
    pub default_assert: Option<String>,
}

/// What a template says.
#[verifier::ext_equal]
pub struct TemplateView {
    pub body: JsonView,
    pub description: Option<Seq<char>>,
    pub params: Seq<(Seq<char>, JsonView)>,
    pub default_assert: Option<Seq<char>>,
}

/// What an optional text says.
pub open spec fn text_view(text: Option<String>) -> Option<Seq<char>> {
    match text {
        Some(text) => Some(text@),
        None => None,
    }
}

impl View for Template {
    type V = TemplateView;

    open spec fn view(&self) -> TemplateView {
        TemplateView {
            body: self.body@,
            description: text_view(self.description),
            params: self.params@,
            default_assert: text_view(self.default_assert),
        }
    }
}

fn clone_text(text: &Option<String>) -> (r: Option<String>)
    ensures
        text_view(r) == text_view(*text),
{
    match text {
        Some(text) => Some(text.clone()),
        None => None,
    }
}

impl Clone for Template {
    fn clone(&self) -> (r: Template)
        ensures
            r@ == self@,
    {
        Template {
            body: self.body.clone(),
            description: clone_text(&self.description),
            params: self.params.clone(),
            default_assert: clone_text(&self.default_assert),
        }
    }
}

/// The text under a reserved key, or what is wrong with what is there.
pub open spec fn reserved_text(
    map: Seq<(Seq<char>, JsonView)>,
    key: Seq<char>,
    label: Seq<char>,
) -> Result<Option<Seq<char>>, Seq<char>> {
    match json::lookup(map, key) {
        None => Ok(None),
        Some(JsonView::Str(s)) => Ok(Some(s)),
        Some(other) => Err(
            label + ": reserved key '"@ + key + "' must be a string, got "@
                + document::compact_text(other),
        ),
    }
}

/// What each parameter stands for, or what is wrong with what is there.
pub open spec fn documented_params(map: Seq<(Seq<char>, JsonView)>, label: Seq<char>) -> Result<
    Seq<(Seq<char>, JsonView)>,
    Seq<char>,
> {
    match json::lookup(map, "params"@) {
        None => Ok(Seq::empty()),
        Some(JsonView::Object(params)) => Ok(params),
        Some(other) => Err(
            label + ": 'params' must be an object of name to description, got "@
                + document::compact_text(other),
        ),
    }
}

/// The first parameter from `i` on that no string describes.
pub open spec fn undescribed_param(params: Seq<(Seq<char>, JsonView)>, i: int) -> Option<Seq<char>>
    decreases params.len() - i,
{
    if i < 0 || i >= params.len() {
        None
    } else if params[i].1 is Str {
        undescribed_param(params, i + 1)
    } else {
        Some(params[i].0)
    }
}

/// The keys of a request body.
pub open spec fn request_key(key: Seq<char>) -> bool {
    key == "state"@ || key == "model"@ || key == "questions"@
}

/// The keys among the first `n` that a request does not have.
pub open spec fn unknown_keys(map: Seq<(Seq<char>, JsonView)>, n: int) -> Seq<Seq<char>>
    decreases n,
{
    if n <= 0 {
        Seq::empty()
    } else if request_key(map[n - 1].0) {
        unknown_keys(map, n - 1)
    } else {
        unknown_keys(map, n - 1).push(map[n - 1].0)
    }
}

/// What is left of a template when its reserved keys are taken out.
pub open spec fn body_entries(map: Seq<(Seq<char>, JsonView)>) -> Seq<(Seq<char>, JsonView)> {
    json::without(json::without(json::without(map, "description"@), "params"@), "assert"@)
}

/// What is wrong with the parameters, the keys, the questions or the assertion
/// of a template, in this order.
pub open spec fn template_problem(
    params: Seq<(Seq<char>, JsonView)>,
    entries: Seq<(Seq<char>, JsonView)>,
    default_assert: Option<Seq<char>>,
    label: Seq<char>,
) -> Option<Seq<char>> {
    if let Some(name) = undescribed_param(params, 0) {
        Some(label + ": params."@ + name + " must be a description string"@)
    } else if unknown_keys(entries, entries.len() as int).len() > 0 {
        Some(
            label + ": unknown request key(s) "@ + text::joined(
                unknown_keys(entries, entries.len() as int),
                ", "@,
            )
                + "; allowed: state, model, questions, plus reserved description/params/assert"@,
        )
    } else if let Some(problem) = questions_problem(JsonView::Object(entries), label) {
        Some(problem)
    } else {
        match default_assert {
            None => None,
            Some(src) => match assertion::parsed(src) {
                Ok(_) => None,
                Err(e) => Some(error::in_context(label + ": invalid 'assert'"@, e)),
            },
        }
    }
}

/// The template that a document is.
pub open spec fn template_from(view: JsonView, label: Seq<char>) -> Result<
    TemplateView,
    Seq<char>,
> {
    match view {
        JsonView::Object(map) => match reserved_text(map, "description"@, label) {
            Err(e) => Err(e),
            Ok(description) => match documented_params(map, label) {
                Err(e) => Err(e),
                Ok(params) => match reserved_text(map, "assert"@, label) {
                    Err(e) => Err(e),
                    Ok(default_assert) => match template_problem(
                        params,
                        body_entries(map),
                        default_assert,
                        label,
                    ) {
                        Some(problem) => Err(problem),
                        None => Ok(
                            TemplateView {
                                body: JsonView::Object(body_entries(map)),
                                description,
                                params,
                                default_assert,
                            },
                        ),
                    },
                },
            },
        },
        _ => Err(
            label
                + " must be a JSON object describing a request (state, model, questions)"@,
        ),
    }
}

/// What a reading says, with the document that it is of in the error.
pub open spec fn labelled(read: Result<JsonView, Seq<char>>, label: Seq<char>) -> Result<
    JsonView,
    Seq<char>,
> {
    match read {
        Ok(view) => Ok(view),
        Err(e) => Err(error::in_context("invalid JSON in "@ + label, e)),
    }
}

/// Names the document in the error of a reading.
pub fn label_reading(read: Result<Json, String>, label: &str) -> (r: Result<Json, UsageError>)
    ensures
        match (read, r) {
            (Ok(json), Ok(same)) => same@ == json@,
            (Err(e), Err(told)) => told@ == error::in_context("invalid JSON in "@ + label@, e@),
            _ => false,
        },
{
    match read {
        Ok(json) => Ok(json),
        Err(e) => {
            let mut context = "invalid JSON in ".to_owned();
            context.append(label);
            Err(UsageError::caused(context, e.as_str()))
        },
    }
}

fn take_string(map: &mut Object, key: &str, label: &str) -> (r: Result<
    Option<String>,
    UsageError,
>)
    ensures
        final(map)@ == json::without(old(map)@, key@),
        match r {
            Ok(s) => reserved_text(old(map)@, key@, label@) == Ok::<Option<Seq<char>>, Seq<char>>(
                text_view(s),
            ),
            Err(e) => reserved_text(old(map)@, key@, label@) == Err::<
                Option<Seq<char>>,
                Seq<char>,
            >(e@),
        },
{
    match map.remove(key) {
        None => Ok(None),
        Some(Json::Str(s)) => Ok(Some(s)),
        Some(other) => {
            let mut message = label.to_owned();
            message.append(": reserved key '");
            message.append(key);
            message.append("' must be a string, got ");
            message.append(document::write_json(&other).as_str());
            Err(UsageError::new(message))
        },
    }
}

fn take_params(map: &mut Object, label: &str) -> (r: Result<Object, UsageError>)
    ensures
        final(map)@ == json::without(old(map)@, "params"@),
        match r {
            Ok(params) => documented_params(old(map)@, label@) == Ok::<
                Seq<(Seq<char>, JsonView)>,
                Seq<char>,
            >(params@),
            Err(e) => documented_params(old(map)@, label@) == Err::<
                Seq<(Seq<char>, JsonView)>,
                Seq<char>,
            >(e@),
        },
{
    match map.remove("params") {
        None => Ok(Object::new()),
        Some(Json::Object(params)) => Ok(params),
        Some(other) => {
            let mut message = label.to_owned();
            message.append(": 'params' must be an object of name to description, got ");
            message.append(document::write_json(&other).as_str());
            Err(UsageError::new(message))
        },
    }
}

fn find_undescribed_param(params: &Object) -> (r: Option<&str>)
    ensures
        match r {
            Some(name) => undescribed_param(params@, 0) == Some(name@),
            None => undescribed_param(params@, 0) is None,
        },
{
    let mut i: usize = 0;
    while i < params.len()
        invariant
            i <= params@.len(),
            undescribed_param(params@, 0) == undescribed_param(params@, i as int),
        decreases params@.len() - i,
    {
        if !matches!(params.value_at(i), Json::Str(_)) {
            return Some(params.key_at(i));
        }
        i += 1;
    }
    None
}

fn find_unknown_keys(map: &Object) -> (r: Vec<String>)
    ensures
        text::texts(r@) == unknown_keys(map@, map@.len() as int),
{
    let mut unknown: Vec<String> = Vec::new();
    let mut i: usize = 0;
    assert(text::texts(unknown@) =~= unknown_keys(map@, 0));
    while i < map.len()
        invariant
            i <= map@.len(),
            text::texts(unknown@) == unknown_keys(map@, i as int),
        decreases map@.len() - i,
    {
        let key = map.key_at(i);
        if !(text::same(key, "state") || text::same(key, "model") || text::same(key, "questions")) {
            let ghost before = unknown@;
            unknown.push(key.to_owned());
            assert(text::texts(unknown@) =~= text::texts(before).push(map@[i as int].0));
        }
        i += 1;
    }
    unknown
}

/// The reserved keys differ.
proof fn lemma_reserved_keys()
    ensures
        "description"@ != "params"@,
        "description"@ != "assert"@,
        "params"@ != "assert"@,
{
    reveal_strlit("description");
    reveal_strlit("params");
    reveal_strlit("assert");
    assert("description"@.len() == 11 && "params"@.len() == 6);
    assert("params"@[0] == 'p' && "assert"@[0] == 'a');
}

/// The template that a document is.
pub fn template_from_json(json: Json, label: &str) -> (r: Result<Template, UsageError>)
    ensures
        match r {
            Ok(template) => template_from(json@, label@) == Ok::<TemplateView, Seq<char>>(
                template@,
            ),
            Err(e) => template_from(json@, label@) == Err::<TemplateView, Seq<char>>(e@),
        },
{
    let mut map = match json {
        Json::Object(map) => map,
        _ => {
            let mut message = label.to_owned();
            message.append(
                " must be a JSON object describing a request (state, model, questions)",
            );
            return Err(UsageError::new(message));
        },
    };
    let ghost whole = map@;
    proof {
        lemma_reserved_keys();
        json::lemma_without_keeps(whole, "description"@, "params"@);
        json::lemma_without_keeps(whole, "description"@, "assert"@);
        json::lemma_without_keeps(
            json::without(whole, "description"@),
            "params"@,
            "assert"@,
        );
    }
    let description = take_string(&mut map, "description", label)?;
    let params = take_params(&mut map, label)?;
    let default_assert = take_string(&mut map, "assert", label)?;
    if let Some(name) = find_undescribed_param(&params) {
        let mut message = label.to_owned();
        message.append(": params.");
        message.append(name);
        message.append(" must be a description string");
        return Err(UsageError::new(message));
    }
    let unknown = find_unknown_keys(&map);
    assert(text::texts(unknown@).len() == unknown@.len());
    if unknown.len() > 0 {
        let mut message = label.to_owned();
        message.append(": unknown request key(s) ");
        message.append(text::join(&unknown, ", ").as_str());
        message.append(
            "; allowed: state, model, questions, plus reserved description/params/assert",
        );
        return Err(UsageError::new(message));
    }
    let body = Json::Object(map);
    validate_questions(&body, label)?;
    if let Some(src) = &default_assert {
        match assertion::parse(src.as_str()) {
            Ok(_) => {},
            Err(e) => {
                let mut context = label.to_owned();
                context.append(": invalid 'assert'");
                return Err(UsageError::caused(context, e.message.as_str()));
            },
        }
    }
    Ok(Template { body, description, params, default_assert })
}

/// The template that a text writes.
pub open spec fn template_of(text: Seq<char>, label: Seq<char>) -> Result<
    TemplateView,
    Seq<char>,
> {
    match labelled(document::read_text(text), label) {
        Err(e) => Err(e),
        Ok(view) => template_from(view, label),
    }
}

/// Reads a template: takes its reserved keys out, and checks the rest.
pub fn parse_template(text: &str, label: &str) -> (r: Result<Template, UsageError>)
    ensures
        match r {
            Ok(template) => template_of(text@, label@) == Ok::<TemplateView, Seq<char>>(
                template@,
            ),
            Err(e) => template_of(text@, label@) == Err::<TemplateView, Seq<char>>(e@),
        },
{
    let json = label_reading(document::read_json(text), label)?;
    template_from_json(json, label)
}

/// The reserved keys of a template never reach a request. Everything else that
/// the document says under other keys does.
pub proof fn law_reserved_keys_stay_behind(view: JsonView, label: Seq<char>, key: Seq<char>)
    requires
        view matches JsonView::Object(map) ==> json::keys_ascend(map),
        template_from(view, label) is Ok,
    ensures
        key == "description"@ || key == "params"@ || key == "assert"@ ==> template_from(
            view,
            label,
        )->Ok_0.body.get(key) is None,
        key != "description"@ && key != "params"@ && key != "assert"@ ==> template_from(
            view,
            label,
        )->Ok_0.body.get(key) == view.get(key),
{
    if let JsonView::Object(map) = view {
        let one = json::without(map, "description"@);
        let two = json::without(one, "params"@);
        lemma_reserved_keys();
        json::lemma_without_ascends(map, "description"@);
        json::lemma_without_ascends(one, "params"@);
        json::lemma_without_absent(map, "description"@);
        json::lemma_without_absent(one, "params"@);
        json::lemma_without_absent(two, "assert"@);
        json::lemma_without_keeps(one, "params"@, "description"@);
        json::lemma_without_keeps(two, "assert"@, "description"@);
        json::lemma_without_keeps(two, "assert"@, "params"@);
        if key != "description"@ && key != "params"@ && key != "assert"@ {
            json::lemma_without_keeps(map, "description"@, key);
            json::lemma_without_keeps(one, "params"@, key);
            json::lemma_without_keeps(two, "assert"@, key);
        }
    }
}

/// A template that was read asks well formed questions.
pub proof fn law_template_is_valid(view: JsonView, label: Seq<char>)
    requires
        template_from(view, label) is Ok,
    ensures
        questions_problem(template_from(view, label)->Ok_0.body, label) is None,
        template_from(view, label)->Ok_0.default_assert matches Some(src) ==> assertion::parsed(
            src,
        ) is Ok,
{
}

/// Whether a question is well formed: it says what kind it is, what it asks,
/// and describes its answers as its kind asks for.
pub open spec fn is_well_formed(question: JsonView) -> bool {
    &&& question is Object
    &&& question.get("instructions"@) matches Some(instructions) && (instructions is Str
        || instructions is Object || instructions is Array)
    &&& {
        ||| question.get("type"@) == Some(JsonView::Str("noul"@)) && (question.get("criteria"@)
            is None || (question.get("criteria"@) matches Some(JsonView::Object(entries))
            && forall|i: int|
            0 <= i < entries.len() ==> ((#[trigger] entries[i]).0 == "true"@ || entries[i].0
                == "false"@) && entries[i].1 is Str))
        ||| question.get("type"@) == Some(JsonView::Str("choice"@)) && (question.get("criteria"@)
            matches Some(JsonView::Object(entries)) && entries.len() > 0 && forall|i: int|
            0 <= i < entries.len() ==> (#[trigger] entries[i]).1 is Str || entries[i].1 is Null)
        ||| question.get("type"@) == Some(JsonView::Str("score"@)) && (question.get("criteria"@)
            matches Some(JsonView::Array(levels)) && levels.len() >= 2 && forall|i: int|
            0 <= i < levels.len() ==> (#[trigger] levels[i]) is Str)
    }
}

proof fn lemma_undescribed_option(entries: Seq<(Seq<char>, JsonView)>, i: int)
    requires
        0 <= i <= entries.len(),
    ensures
        match undescribed_option(entries, i) {
            None => forall|k: int|
                i <= k < entries.len() ==> (#[trigger] entries[k]).1 is Str || entries[k].1 is Null,
            Some(key) => exists|k: int|
                i <= k < entries.len() && (#[trigger] entries[k]).0 == key && !(entries[k].1 is Str
                    || entries[k].1 is Null) && forall|j: int|
                    i <= j < k ==> (#[trigger] entries[j]).1 is Str || entries[j].1 is Null,
        },
    decreases entries.len() - i,
{
    if i < entries.len() {
        if entries[i].1 is Str || entries[i].1 is Null {
            lemma_undescribed_option(entries, i + 1);
        } else {
            assert(entries[i].0 == entries[i].0);
        }
    }
}

proof fn lemma_undescribed_level(levels: Seq<JsonView>, i: int)
    requires
        0 <= i <= levels.len(),
    ensures
        match undescribed_level(levels, i) {
            None => forall|k: int| i <= k < levels.len() ==> (#[trigger] levels[k]) is Str,
            Some(at) => i <= at < levels.len() && !(levels[at] is Str) && forall|k: int|
                i <= k < at ==> (#[trigger] levels[k]) is Str,
        },
    decreases levels.len() - i,
{
    if i < levels.len() && levels[i] is Str {
        lemma_undescribed_level(levels, i + 1);
    }
}

proof fn lemma_undescribed_param(params: Seq<(Seq<char>, JsonView)>, i: int)
    requires
        0 <= i <= params.len(),
    ensures
        match undescribed_param(params, i) {
            None => forall|k: int| i <= k < params.len() ==> (#[trigger] params[k]).1 is Str,
            Some(name) => exists|k: int|
                i <= k < params.len() && (#[trigger] params[k]).0 == name && !(params[k].1 is Str),
        },
    decreases params.len() - i,
{
    if i < params.len() {
        if params[i].1 is Str {
            lemma_undescribed_param(params, i + 1);
        } else {
            assert(params[i].0 == params[i].0);
        }
    }
}

/// The kinds of questions differ.
proof fn lemma_kinds()
    ensures
        "noul"@ != "choice"@,
        "noul"@ != "score"@,
        "choice"@ != "score"@,
{
    reveal_strlit("noul");
    reveal_strlit("choice");
    reveal_strlit("score");
    assert("noul"@[0] == 'n' && "choice"@[0] == 'c' && "score"@[0] == 's');
}

/// A question is accepted exactly where it is well formed.
pub proof fn law_well_formed_questions_pass(
    id: Seq<char>,
    question: JsonView,
    label: Seq<char>,
)
    ensures
        question_problem(id, question, label) is None <==> is_well_formed(question),
{
    lemma_kinds();
    if let JsonView::Object(fields) = question {
        match json::lookup(fields, "criteria"@) {
            Some(JsonView::Object(entries)) => {
                lemma_undescribed_option(entries, 0);
                if undescribed_option(entries, 0) is Some {
                    let key = undescribed_option(entries, 0)->0;
                    let k = choose|k: int|
                        0 <= k < entries.len() && (#[trigger] entries[k]).0 == key && !(
                        entries[k].1 is Str || entries[k].1 is Null) && forall|j: int|
                            0 <= j < k ==> (#[trigger] entries[j]).1 is Str || entries[j].1 is Null;
                    assert(!(entries[k].1 is Str || entries[k].1 is Null));
                }
                if !noul_entries_hold(entries) {
                    let k = choose|k: int|
                        0 <= k < entries.len() && !({
                            let entry = #[trigger] entries[k];
                            (entry.0 == "true"@ || entry.0 == "false"@) && entry.1 is Str
                        });
                    assert(!((entries[k].0 == "true"@ || entries[k].0 == "false"@)
                        && entries[k].1 is Str));
                }
            },
            Some(JsonView::Array(levels)) => {
                lemma_undescribed_level(levels, 0);
            },
            _ => {},
        }
    }
}

/// The first question that is not well formed is the one that is told, and
/// none is told where all are.
proof fn lemma_first_problem(questions: Seq<(Seq<char>, JsonView)>, i: int, label: Seq<char>)
    requires
        0 <= i <= questions.len(),
    ensures
        first_problem(questions, i, label) is None <==> forall|k: int|
            i <= k < questions.len() ==> is_well_formed((#[trigger] questions[k]).1),
        first_problem(questions, i, label) matches Some(problem) ==> exists|k: int|
            i <= k < questions.len() && question_problem(
                (#[trigger] questions[k]).0,
                questions[k].1,
                label,
            ) == Some(problem) && forall|j: int|
                i <= j < k ==> is_well_formed((#[trigger] questions[j]).1),
    decreases questions.len() - i,
{
    if i < questions.len() {
        law_well_formed_questions_pass(questions[i].0, questions[i].1, label);
        if question_problem(questions[i].0, questions[i].1, label) is None {
            lemma_first_problem(questions, i + 1, label);
            if first_problem(questions, i + 1, label) is Some {
                let problem = first_problem(questions, i + 1, label)->0;
                let k = choose|k: int|
                    i + 1 <= k < questions.len() && question_problem(
                        (#[trigger] questions[k]).0,
                        questions[k].1,
                        label,
                    ) == Some(problem) && forall|j: int|
                        i + 1 <= j < k ==> is_well_formed((#[trigger] questions[j]).1);
                assert(question_problem(questions[k].0, questions[k].1, label) == Some(problem));
                assert(!is_well_formed(questions[k].1)) by {
                    law_well_formed_questions_pass(questions[k].0, questions[k].1, label);
                }
            }
        } else {
            assert(!is_well_formed(questions[i].1));
            assert(questions[i].0 == questions[i].0);
        }
    }
}

/// Questions are accepted exactly where there are some, each of them is well
/// formed, and the model, where one is named, is a string. Of several questions
/// that are not, the first is told.
pub proof fn law_questions_pass(body: JsonView, label: Seq<char>)
    ensures
        questions_problem(body, label) is None <==> {
            &&& body.get("questions"@) matches Some(JsonView::Object(questions))
                && questions.len() > 0 && forall|k: int|
                0 <= k < questions.len() ==> is_well_formed((#[trigger] questions[k]).1)
            &&& body.get("model"@) matches Some(model) ==> model is Str
        },
        (body.get("questions"@) matches Some(JsonView::Object(questions)) && exists|k: int|
            0 <= k < questions.len() && !is_well_formed((#[trigger] questions[k]).1)) ==> (
        body.get("questions"@) matches Some(JsonView::Object(questions)) && exists|k: int|
            0 <= k < questions.len() && questions_problem(body, label) == question_problem(
                (#[trigger] questions[k]).0,
                questions[k].1,
                label,
            ) && forall|j: int| 0 <= j < k ==> is_well_formed((#[trigger] questions[j]).1)),
{
    if let Some(JsonView::Object(questions)) = body.get("questions"@) {
        lemma_first_problem(questions, 0, label);
    }
}

/// A request is ready exactly where its questions are accepted and it has a
/// state, whatever that is.
pub proof fn law_ready(body: JsonView)
    ensures
        readiness_problem(body) is None <==> questions_problem(body, "request"@) is None
            && body.get("state"@) is Some,
        questions_problem(body, "request"@) is Some ==> readiness_problem(body)
            == questions_problem(body, "request"@),
        questions_problem(body, "request"@) is None && body.get("state"@) is None
            ==> readiness_problem(body) == Some(
            "request has no 'state'; add it to the request or pass --state"@,
        ),
{
}

/// The keys that a request does not have, in their order.
proof fn lemma_unknown_keys(map: Seq<(Seq<char>, JsonView)>, n: int)
    requires
        0 <= n <= map.len(),
    ensures
        unknown_keys(map, n).len() == 0 <==> forall|k: int|
            0 <= k < n ==> (#[trigger] map[k]).0 == "state"@ || map[k].0 == "model"@ || map[k].0
                == "questions"@,
        forall|k: int|
            0 <= k < n && !((#[trigger] map[k]).0 == "state"@ || map[k].0 == "model"@ || map[k].0
                == "questions"@) ==> unknown_keys(map, n).contains(map[k].0),
    decreases n,
{
    if n > 0 {
        lemma_unknown_keys(map, n - 1);
        let before = unknown_keys(map, n - 1);
        let after = unknown_keys(map, n);
        assert forall|k: int|
            0 <= k < n && !((#[trigger] map[k]).0 == "state"@ || map[k].0 == "model"@ || map[k].0
                == "questions"@) implies after.contains(map[k].0) by {
            if k < n - 1 {
                let at = choose|at: int| 0 <= at < before.len() && before[at] == map[k].0;
                assert(after[at] == map[k].0);
            } else {
                assert(after[after.len() - 1] == map[k].0);
            }
        }
        if after.len() == 0 {
            assert(request_key(map[n - 1].0));
        }
    }
}

/// A document is a template exactly where it is an object whose description and
/// assertion, where it has them, are strings, whose assertion parses, whose
/// parameters, where it documents them, are each described by a string, that
/// has no other keys than those of a request beside these, and whose questions
/// are accepted. The template then says what the document does under each key.
pub proof fn law_templates(map: Seq<(Seq<char>, JsonView)>, label: Seq<char>)
    requires
        json::keys_ascend(map),
    ensures
        ({
            let view = JsonView::Object(map);
            let body = JsonView::Object(body_entries(map));
            &&& template_from(view, label) is Ok <==> {
                &&& view.get("description"@) matches Some(text) ==> text is Str
                &&& view.get("assert"@) matches Some(text) ==> (text matches JsonView::Str(src)
                    && assertion::parsed(src) is Ok)
                &&& view.get("params"@) matches Some(params) ==> (params matches JsonView::Object(
                    entries,
                ) && forall|k: int|
                    0 <= k < entries.len() ==> (#[trigger] entries[k]).1 is Str)
                &&& forall|k: int|
                    0 <= k < body_entries(map).len() ==> (#[trigger] body_entries(map)[k]).0
                        == "state"@ || body_entries(map)[k].0 == "model"@ || body_entries(map)[k].0
                        == "questions"@
                &&& questions_problem(body, label) is None
            }
            &&& template_from(view, label) matches Ok(template) ==> {
                &&& template.body == body
                &&& match view.get("description"@) {
                    Some(text) => template.description == Some(text->Str_0),
                    None => template.description is None,
                }
                &&& match view.get("assert"@) {
                    Some(text) => template.default_assert == Some(text->Str_0),
                    None => template.default_assert is None,
                }
                &&& match view.get("params"@) {
                    Some(params) => params == JsonView::Object(template.params),
                    None => template.params == Seq::<(Seq<char>, JsonView)>::empty(),
                }
            }
        }),
        forall|view: JsonView| !(view is Object) ==> #[trigger] template_from(view, label) is Err,
{
    let entries = body_entries(map);
    lemma_unknown_keys(entries, entries.len() as int);
    if let Some(JsonView::Object(params)) = json::lookup(map, "params"@) {
        lemma_undescribed_param(params, 0);
        if undescribed_param(params, 0) is Some {
            let name = undescribed_param(params, 0)->0;
            let k = choose|k: int|
                0 <= k < params.len() && (#[trigger] params[k]).0 == name && !(params[k].1 is Str);
            assert(!(params[k].1 is Str));
        }
    } else {
        assert(undescribed_param(Seq::empty(), 0) is None);
    }
}

/// Of several options that are not described, the first is told, by its name.
pub proof fn law_first_undescribed_option_is_told(
    id: Seq<char>,
    fields: Seq<(Seq<char>, JsonView)>,
    label: Seq<char>,
    k: int,
)
    requires
        JsonView::Object(fields).get("type"@) == Some(JsonView::Str("choice"@)),
        JsonView::Object(fields).get("instructions"@) matches Some(JsonView::Str(_)),
        JsonView::Object(fields).get("criteria"@) matches Some(JsonView::Object(entries)) && 0 <= k
            < entries.len() && !(entries[k].1 is Str || entries[k].1 is Null) && forall|j: int|
            0 <= j < k ==> (#[trigger] entries[j]).1 is Str || entries[j].1 is Null,
    ensures
        JsonView::Object(fields).get("criteria"@) matches Some(JsonView::Object(entries))
            && question_problem(id, JsonView::Object(fields), label) == Some(
            label + ": questions."@ + id + ".criteria."@ + entries[k].0
                + " must be a description string or null"@,
        ),
{
    lemma_kinds();
    if let Some(JsonView::Object(entries)) = JsonView::Object(fields).get("criteria"@) {
        lemma_undescribed_option_at(entries, 0, k);
    }
}

proof fn lemma_undescribed_option_at(entries: Seq<(Seq<char>, JsonView)>, i: int, k: int)
    requires
        0 <= i <= k < entries.len(),
        !(entries[k].1 is Str || entries[k].1 is Null),
        forall|j: int| i <= j < k ==> (#[trigger] entries[j]).1 is Str || entries[j].1 is Null,
    ensures
        undescribed_option(entries, i) == Some(entries[k].0),
    decreases k - i,
{
    if i < k {
        assert(entries[i].1 is Str || entries[i].1 is Null);
        lemma_undescribed_option_at(entries, i + 1, k);
    }
}

/// The first level that is no string is the one that is told, by its place.
pub proof fn law_first_undescribed_level_is_told(
    id: Seq<char>,
    fields: Seq<(Seq<char>, JsonView)>,
    label: Seq<char>,
    k: int,
)
    requires
        JsonView::Object(fields).get("type"@) == Some(JsonView::Str("score"@)),
        JsonView::Object(fields).get("instructions"@) matches Some(JsonView::Str(_)),
        JsonView::Object(fields).get("criteria"@) matches Some(JsonView::Array(levels)) && 0 <= k
            < levels.len() && levels.len() >= 2 && !(levels[k] is Str) && forall|j: int|
            0 <= j < k ==> (#[trigger] levels[j]) is Str,
    ensures
        question_problem(id, JsonView::Object(fields), label) == Some(
            label + ": questions."@ + id + ".criteria["@ + text::decimal(k as nat)
                + "] must be a level description string"@,
        ),
{
    lemma_kinds();
    if let Some(JsonView::Array(levels)) = JsonView::Object(fields).get("criteria"@) {
        lemma_undescribed_level(levels, 0);
    }
}

/// What is left of a template as its request has nothing under the reserved
/// keys, and what the template has under every other.
pub proof fn law_body_of_template(map: Seq<(Seq<char>, JsonView)>, key: Seq<char>)
    requires
        json::keys_ascend(map),
    ensures
        JsonView::Object(body_entries(map)).get(key) == (if key == "description"@ || key
            == "params"@ || key == "assert"@ {
            None
        } else {
            JsonView::Object(map).get(key)
        }),
{
    let first = json::without(map, "description"@);
    let second = json::without(first, "params"@);
    json::lemma_without_ascends(map, "description"@);
    json::lemma_without_ascends(first, "params"@);
    reveal_strlit("description");
    reveal_strlit("params");
    reveal_strlit("assert");
    assert("description"@[0] == 'd' && "params"@[0] == 'p' && "assert"@[0] == 'a');
    if key == "description"@ {
        json::lemma_without_absent(map, key);
        json::lemma_without_keeps(first, "params"@, key);
        json::lemma_without_keeps(second, "assert"@, key);
    } else if key == "params"@ {
        json::lemma_without_absent(first, key);
        json::lemma_without_keeps(second, "assert"@, key);
    } else if key == "assert"@ {
        json::lemma_without_absent(second, key);
    } else {
        json::lemma_without_keeps(map, "description"@, key);
        json::lemma_without_keeps(first, "params"@, key);
        json::lemma_without_keeps(second, "assert"@, key);
    }
}

/// The keys that are told as unknown are those that a request does not have, in
/// order.
pub proof fn law_unknown_keys(map: Seq<(Seq<char>, JsonView)>)
    ensures
        unknown_keys(map, map.len() as int) == map.map_values(
            |entry: (Seq<char>, JsonView)| entry.0,
        ).filter(|key: Seq<char>| key != "state"@ && key != "model"@ && key != "questions"@),
    decreases map.len(),
{
    reveal(Seq::filter);
    let named = |entry: (Seq<char>, JsonView)| entry.0;
    if map.len() > 0 {
        let before = map.drop_last();
        law_unknown_keys(before);
        lemma_unknown_keys_before(map, before, before.len() as int);
        assert(map.map_values(named).drop_last() =~= before.map_values(named));
    }
}

proof fn lemma_unknown_keys_before(
    map: Seq<(Seq<char>, JsonView)>,
    before: Seq<(Seq<char>, JsonView)>,
    n: int,
)
    requires
        0 <= n <= before.len(),
        map.len() == before.len() + 1,
        before == map.drop_last(),
    ensures
        unknown_keys(map, n) == unknown_keys(before, n),
    decreases n,
{
    if n > 0 {
        lemma_unknown_keys_before(map, before, n - 1);
    }
}

/// A text is a template where it reads as a document that is one. What does not
/// read is told with where it comes from.
pub proof fn law_template_of_text(text: Seq<char>, label: Seq<char>)
    ensures
        match document::read_text(text) {
            Ok(view) => template_of(text, label) == template_from(view, label),
            Err(e) => template_of(text, label) == Err::<TemplateView, Seq<char>>(
                "invalid JSON in "@ + label + ": "@ + e,
            ),
        },
{
}

/// What is wrong with a template is told: what is no object, a reserved key
/// that holds something else than it should, and keys that are not known.
pub proof fn law_bad_templates_are_told(view: JsonView, label: Seq<char>)
    ensures
        !(view is Object) ==> template_from(view, label) == Err::<TemplateView, Seq<char>>(
            label + " must be a JSON object describing a request (state, model, questions)"@,
        ),
        view.get("description"@) matches Some(other) ==> !(other is Str) ==> template_from(
            view,
            label,
        ) == Err::<TemplateView, Seq<char>>(
            label + ": reserved key '"@ + "description"@ + "' must be a string, got "@
                + document::compact_text(other),
        ),
        view.get("params"@) matches Some(other) ==> !(other is Object) && (view.get("description"@)
            matches Some(text) ==> text is Str) ==> template_from(view, label) == Err::<
            TemplateView,
            Seq<char>,
        >(
            label + ": 'params' must be an object of name to description, got "@
                + document::compact_text(other),
        ),
        view.get("assert"@) matches Some(other) ==> !(other is Str) && (view.get("description"@)
            matches Some(text) ==> text is Str) && (view.get("params"@) matches Some(params)
            ==> params is Object) ==> template_from(view, label) == Err::<TemplateView, Seq<char>>(
            label + ": reserved key '"@ + "assert"@ + "' must be a string, got "@
                + document::compact_text(other),
        ),
{
}

/// What is wrong with a request is told, with where it comes from: that it has
/// no questions, that they are none, that its model is no string, that it has
/// no state.
pub proof fn law_bad_requests_are_told(body: JsonView, label: Seq<char>)
    ensures
        !(body.get("questions"@) matches Some(JsonView::Object(_))) ==> questions_problem(
            body,
            label,
        ) == Some(
            label + ": 'questions' must be a non-empty JSON object of question id to question"@,
        ),
        body.get("questions"@) matches Some(JsonView::Object(questions)) ==> questions.len() == 0
            ==> questions_problem(body, label) == Some(
            label + ": 'questions' must contain at least one question"@,
        ),
        body.get("questions"@) matches Some(JsonView::Object(questions)) ==> questions.len() > 0
            && (forall|k: int|
            0 <= k < questions.len() ==> is_well_formed((#[trigger] questions[k]).1)) && (body.get(
            "model"@,
        ) matches Some(model) && !(model is Str)) ==> questions_problem(body, label) == Some(
            label + ": 'model' must be a string"@,
        ),
{
    if let Some(JsonView::Object(questions)) = body.get("questions"@) {
        lemma_first_problem(questions, 0, label);
    }
}

/// What is wrong with a question is told, with its place.
pub proof fn law_bad_questions_are_told(id: Seq<char>, question: JsonView, label: Seq<char>)
    ensures
        ({
            let place = label + ": questions."@ + id;
            let told = question_problem(id, question, label);
            &&& !(question is Object) ==> told == Some(place + " must be an object"@)
            &&& question is Object && !(question.get("type"@) matches Some(JsonView::Str(_)))
                ==> told == Some(place + ".type must be \"noul\", \"choice\", or \"score\""@)
            &&& question.get("type"@) matches Some(JsonView::Str(kind)) ==> {
                &&& question.get("instructions"@) is None ==> told == Some(
                    place + " is missing 'instructions'"@,
                )
                &&& question.get("instructions"@) matches Some(asked) ==> {
                    let fine = asked is Str || asked is Object || asked is Array;
                    &&& !fine ==> told == Some(
                        place + ".instructions must be a string, object, or array"@,
                    )
                    &&& fine && kind != "noul"@ && kind != "choice"@ && kind != "score"@ ==> told
                        == Some(
                        place + ".type is \""@ + kind
                            + "\"; it must be \"noul\", \"choice\", or \"score\""@,
                    )
                }
            }
        }),
{
}

/// A question without criteria that its kind can have is told, with its place
/// and what its kind asks for.
pub proof fn law_bad_criteria_are_told(
    id: Seq<char>,
    fields: Seq<(Seq<char>, JsonView)>,
    label: Seq<char>,
)
    requires
        JsonView::Object(fields).get("instructions"@) matches Some(JsonView::Str(_)),
    ensures
        ({
            let question = JsonView::Object(fields);
            let criteria = question.get("criteria"@);
            let place = label + ": questions."@ + id;
            let told = question_problem(id, question, label);
            &&& question.get("type"@) == Some(JsonView::Str("noul"@)) ==> {
                &&& criteria is None ==> told is None
                &&& criteria matches Some(other) ==> !(other is Object) ==> told == Some(
                    place
                        + ".criteria for a noul must be an object with optional \"true\"/\"false\" strings"@,
                )
                &&& criteria matches Some(JsonView::Object(entries)) ==> (exists|k: int|
                    0 <= k < entries.len() && !(((#[trigger] entries[k]).0 == "true"@
                        || entries[k].0 == "false"@) && entries[k].1 is Str)) ==> told == Some(
                    place + ".criteria keys must be \"true\" or \"false\" mapped to strings"@,
                )
            }
            &&& question.get("type"@) == Some(JsonView::Str("choice"@)) ==> {
                &&& !(criteria matches Some(JsonView::Object(_))) ==> told == Some(
                    place
                        + " is a choice and requires criteria as an object of option to description (or null)"@,
                )
                &&& criteria matches Some(JsonView::Object(entries)) ==> entries.len() == 0 ==> told
                    == Some(place + ".criteria needs at least one option"@)
            }
            &&& question.get("type"@) == Some(JsonView::Str("score"@)) ==> {
                &&& !(criteria matches Some(JsonView::Array(_))) ==> told == Some(
                    place
                        + " is a score and requires criteria as an ordered array of level descriptions"@,
                )
                &&& criteria matches Some(JsonView::Array(levels)) ==> levels.len() < 2 ==> told
                    == Some(place + ".criteria needs at least two ordered levels"@)
            }
        }),
{
    lemma_kinds();
}

/// Of a template whose parts are strings and objects where they should be, what
/// is told first is a parameter that no string describes, then the keys that a
/// request does not have, then what is wrong with its questions, and then its
/// assertion.
pub proof fn law_bad_parts_are_told_in_order(
    map: Seq<(Seq<char>, JsonView)>,
    label: Seq<char>,
    params: Seq<(Seq<char>, JsonView)>,
    k: int,
)
    requires
        JsonView::Object(map).get("description"@) matches Some(text) ==> text is Str,
        JsonView::Object(map).get("assert"@) matches Some(text) ==> text is Str,
        JsonView::Object(map).get("params"@) == Some(JsonView::Object(params)),
    ensures
        ({
            let view = JsonView::Object(map);
            let body = JsonView::Object(body_entries(map));
            let keys = body_entries(map).map_values(|entry: (Seq<char>, JsonView)| entry.0).filter(
                |key: Seq<char>| key != "state"@ && key != "model"@ && key != "questions"@,
            );
            let described = forall|j: int|
                0 <= j < params.len() ==> (#[trigger] params[j]).1 is Str;
            &&& 0 <= k < params.len() && !(params[k].1 is Str) && (forall|j: int|
                0 <= j < k ==> (#[trigger] params[j]).1 is Str) ==> template_from(view, label)
                == Err::<TemplateView, Seq<char>>(
                label + ": params."@ + params[k].0 + " must be a description string"@,
            )
            &&& described && keys.len() > 0 ==> template_from(view, label) == Err::<
                TemplateView,
                Seq<char>,
            >(
                label + ": unknown request key(s) "@ + text::joined(keys, ", "@)
                    + "; allowed: state, model, questions, plus reserved description/params/assert"@,
            )
            &&& described && keys.len() == 0 ==> (questions_problem(body, label) matches Some(
                problem,
            ) ==> template_from(view, label) == Err::<TemplateView, Seq<char>>(problem))
            &&& described && keys.len() == 0 && questions_problem(body, label) is None ==> (
            view.get("assert"@) matches Some(JsonView::Str(src)) ==> (assertion::parsed(
                src,
            ) matches Err(e) ==> template_from(view, label) == Err::<TemplateView, Seq<char>>(
                label + ": invalid 'assert'"@ + ": "@ + e,
            )))
        }),
{
    law_unknown_keys(body_entries(map));
    lemma_undescribed_param(params, 0);
    if 0 <= k < params.len() && !(params[k].1 is Str) && (forall|j: int|
        0 <= j < k ==> (#[trigger] params[j]).1 is Str) {
        lemma_undescribed_param_at(params, 0, k);
    }
}

proof fn lemma_undescribed_param_at(params: Seq<(Seq<char>, JsonView)>, i: int, k: int)
    requires
        0 <= i <= k < params.len(),
        !(params[k].1 is Str),
        forall|j: int| i <= j < k ==> (#[trigger] params[j]).1 is Str,
    ensures
        undescribed_param(params, i) == Some(params[k].0),
    decreases k - i,
{
    if i < k {
        assert(params[i].1 is Str);
        lemma_undescribed_param_at(params, i + 1, k);
    }
}

} // verus!
