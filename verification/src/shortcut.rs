//! Requests of one question, built from the command line.

use crate::api;
use crate::json;
use crate::json::{Json, JsonView, Object};
use crate::request;
use vstd::prelude::*;

verus! {

/// No entries.
pub open spec fn nothing() -> Seq<(Seq<char>, JsonView)> {
    Seq::empty()
}

/// A question of a kind, with what it asks.
pub open spec fn question_fields(kind: Seq<char>, question: Seq<char>) -> Seq<
    (Seq<char>, JsonView),
> {
    json::put(
        json::put(nothing(), "instructions"@, JsonView::Str(question)),
        "type"@,
        JsonView::Str(kind),
    )
}

/// A question of a kind, with what it asks and the criteria of its answers.
pub open spec fn question_with_criteria(
    kind: Seq<char>,
    question: Seq<char>,
    criteria: JsonView,
) -> JsonView {
    JsonView::Object(json::put(question_fields(kind, question), "criteria"@, criteria))
}

/// The request that asks one question, `q`, about a state.
pub open spec fn request_of(question: JsonView, state: JsonView) -> JsonView {
    JsonView::Object(
        json::put(
            json::put(
                json::put(nothing(), "state"@, state),
                "model"@,
                JsonView::Str(api::DEFAULT_MODEL@),
            ),
            "questions"@,
            JsonView::Object(json::put(nothing(), "q"@, question)),
        ),
    )
}

/// A description, or the usual one.
pub open spec fn described(text: Option<&str>, usual: Seq<char>) -> JsonView {
    match text {
        Some(text) => JsonView::Str(text@),
        None => JsonView::Str(usual),
    }
}

/// A yes or no question: it has criteria where one of the answers is described.
pub open spec fn noul_question(question: Seq<char>, yes: Option<&str>, no: Option<&str>) -> JsonView {
    if yes is Some || no is Some {
        question_with_criteria(
            "noul"@,
            question,
            JsonView::Object(
                json::put(
                    json::put(nothing(), "true"@, described(yes, "A yes (value near 1)"@)),
                    "false"@,
                    described(no, "A no (value near 0)"@),
                ),
            ),
        )
    } else {
        JsonView::Object(question_fields("noul"@, question))
    }
}

/// The first `n` options and their descriptions; of two options of the same
/// key, the later counts.
pub open spec fn options(opts: Seq<(String, String)>, n: int) -> Seq<(Seq<char>, JsonView)>
    decreases n,
{
    if n <= 0 {
        nothing()
    } else {
        json::put(options(opts, n - 1), opts[n - 1].0@, JsonView::Str(opts[n - 1].1@))
    }
}

/// Levels, from the lowest on.
pub open spec fn level_views(levels: Seq<String>) -> Seq<JsonView> {
    levels.map_values(|level: String| JsonView::Str(level@))
}

fn start_question(kind: &str, question: &str) -> (r: Object)
    ensures
        r@ == question_fields(kind@, question@),
{
    let mut fields = Object::new();
    fields.insert("instructions".to_owned(), Json::Str(question.to_owned()));
    fields.insert("type".to_owned(), Json::Str(kind.to_owned()));
    fields
}

fn finish_shortcut(question: Json, state: Json) -> (r: Json)
    ensures
        r@ == request_of(question@, state@),
{
    let mut questions = Object::new();
    questions.insert("q".to_owned(), question);
    let mut body = Object::new();
    body.insert("state".to_owned(), state);
    body.insert("model".to_owned(), Json::Str(api::DEFAULT_MODEL.to_owned()));
    body.insert("questions".to_owned(), Json::Object(questions));
    Json::Object(body)
}

/// The request that asks for the probability of a yes.
pub fn shortcut_noul(question: &str, yes: Option<&str>, no: Option<&str>, state: Json) -> (r: Json)
    ensures
        r@ == request_of(noul_question(question@, yes, no), state@),
{
    let mut fields = start_question("noul", question);
    if yes.is_some() || no.is_some() {
        let mut criteria = Object::new();
        criteria.insert(
            "true".to_owned(),
            Json::Str(
                match yes {
                    Some(text) => text.to_owned(),
                    None => "A yes (value near 1)".to_owned(),
                },
            ),
        );
        criteria.insert(
            "false".to_owned(),
            Json::Str(
                match no {
                    Some(text) => text.to_owned(),
                    None => "A no (value near 0)".to_owned(),
                },
            ),
        );
        fields.insert("criteria".to_owned(), Json::Object(criteria));
    }
    finish_shortcut(Json::Object(fields), state)
}

/// The request that asks for one of several options.
pub fn shortcut_choice(question: &str, opts: &Vec<(String, String)>, state: Json) -> (r: Json)
    ensures
        r@ == request_of(
            question_with_criteria(
                "choice"@,
                question@,
                JsonView::Object(options(opts@, opts@.len() as int)),
            ),
            state@,
        ),
{
    let mut criteria = Object::new();
    let mut i: usize = 0;
    while i < opts.len()
        invariant
            i <= opts@.len(),
            criteria@ == options(opts@, i as int),
        decreases opts@.len() - i,
    {
        criteria.insert(opts[i].0.clone(), Json::Str(opts[i].1.clone()));
        i += 1;
    }
    let mut fields = start_question("choice", question);
    fields.insert("criteria".to_owned(), Json::Object(criteria));
    finish_shortcut(Json::Object(fields), state)
}

/// The request that asks for a rating along ordered levels.
pub fn shortcut_score(question: &str, levels: &Vec<String>, state: Json) -> (r: Json)
    ensures
        r@ == request_of(
            question_with_criteria(
                "score"@,
                question@,
                JsonView::Array(level_views(levels@)),
            ),
            state@,
        ),
{
    broadcast use json::lemma_item_models;

    let mut items: Vec<Json> = Vec::new();
    let mut i: usize = 0;
    while i < levels.len()
        invariant
            i <= levels@.len(),
            items@.len() == i,
            forall|k: int|
                0 <= k < i ==> (#[trigger] items@[k])@ == JsonView::Str(levels@[k]@),
        decreases levels@.len() - i,
    {
        items.push(Json::Str(levels[i].clone()));
        i += 1;
    }
    assert(json::item_models(items@) =~= level_views(levels@));
    let mut fields = start_question("score", question);
    fields.insert("criteria".to_owned(), Json::Array(items));
    finish_shortcut(Json::Object(fields), state)
}

/// The keys of requests and questions differ.
proof fn lemma_keys_differ()
    ensures
        "state"@ != "model"@,
        "state"@ != "questions"@,
        "model"@ != "questions"@,
        "type"@ != "instructions"@,
        "type"@ != "criteria"@,
        "instructions"@ != "criteria"@,
        "noul"@ != "choice"@,
        "noul"@ != "score"@,
        "choice"@ != "score"@,
{
    reveal_strlit("state");
    reveal_strlit("model");
    reveal_strlit("questions");
    reveal_strlit("type");
    reveal_strlit("instructions");
    reveal_strlit("criteria");
    reveal_strlit("noul");
    reveal_strlit("choice");
    reveal_strlit("score");
    assert("state"@[0] == 's' && "model"@[0] == 'm' && "questions"@[0] == 'q');
    assert("type"@[0] == 't' && "instructions"@[0] == 'i' && "criteria"@[0] == 'c');
    assert("noul"@[0] == 'n' && "choice"@[0] == 'c' && "score"@[0] == 's');
}

/// A request of one well formed question is ready to be sent.
proof fn lemma_request_is_ready(question: JsonView, state: JsonView)
    requires
        request::question_problem("q"@, question, "request"@) is None,
    ensures
        request::readiness_problem(request_of(question, state)) is None,
{
    law_shortcut_shape(question, state);
    reveal_with_fuel(request::first_problem, 2);
}

/// What a question of the command line says of itself.
proof fn lemma_question_fields(kind: Seq<char>, question: Seq<char>, criteria: JsonView)
    ensures
        json::lookup(question_fields(kind, question), "type"@) == Some(JsonView::Str(kind)),
        json::lookup(question_fields(kind, question), "instructions"@) == Some(
            JsonView::Str(question),
        ),
        json::lookup(question_fields(kind, question), "criteria"@) is None,
        question_with_criteria(kind, question, criteria).get("type"@) == Some(
            JsonView::Str(kind),
        ),
        question_with_criteria(kind, question, criteria).get("instructions"@) == Some(
            JsonView::Str(question),
        ),
        question_with_criteria(kind, question, criteria).get("criteria"@) == Some(criteria),
{
    lemma_keys_differ();
    let asked = JsonView::Str(question);
    let one = json::put(nothing(), "instructions"@, asked);
    let two = json::put(one, "type"@, JsonView::Str(kind));
    json::lemma_put_found(nothing(), "instructions"@, asked);
    json::lemma_put_keeps(nothing(), "instructions"@, asked, "criteria"@);
    json::lemma_put_found(one, "type"@, JsonView::Str(kind));
    json::lemma_put_keeps(one, "type"@, JsonView::Str(kind), "instructions"@);
    json::lemma_put_keeps(one, "type"@, JsonView::Str(kind), "criteria"@);
    json::lemma_put_found(two, "criteria"@, criteria);
    json::lemma_put_keeps(two, "criteria"@, criteria, "type"@);
    json::lemma_put_keeps(two, "criteria"@, criteria, "instructions"@);
}

/// The request of a yes or no question is ready to be sent.
pub proof fn law_noul_is_ready(
    question: Seq<char>,
    yes: Option<&str>,
    no: Option<&str>,
    state: JsonView,
)
    ensures
        request::readiness_problem(request_of(noul_question(question, yes, no), state)) is None,
{
    lemma_keys_differ();
    let affirmed = described(yes, "A yes (value near 1)"@);
    let denied = described(no, "A no (value near 0)"@);
    let one = json::put(nothing(), "true"@, affirmed);
    let both = json::put(one, "false"@, denied);
    json::lemma_put_members(nothing(), "true"@, affirmed);
    json::lemma_put_members(one, "false"@, denied);
    assert(request::noul_entries_hold(both)) by {
        assert forall|i: int| 0 <= i < both.len() implies {
            let entry = #[trigger] both[i];
            (entry.0 == "true"@ || entry.0 == "false"@) && entry.1 is Str
        } by {
            if both[i] != ("false"@, denied) {
                let k = choose|k: int| 0 <= k < one.len() && one[k] == both[i];
                assert(one[k] == ("true"@, affirmed));
            }
        }
    }
    lemma_question_fields("noul"@, question, JsonView::Object(both));
    lemma_request_is_ready(noul_question(question, yes, no), state);
}

/// The request of a choice is ready to be sent where it has options.
pub proof fn law_choice_is_ready(
    question: Seq<char>,
    opts: Seq<(String, String)>,
    state: JsonView,
)
    requires
        opts.len() > 0,
    ensures
        request::readiness_problem(
            request_of(
                question_with_criteria(
                    "choice"@,
                    question,
                    JsonView::Object(options(opts, opts.len() as int)),
                ),
                state,
            ),
        ) is None,
{
    lemma_keys_differ();
    let entries = options(opts, opts.len() as int);
    lemma_options_are_described(opts, opts.len() as int);
    lemma_all_described(entries, 0);
    lemma_question_fields("choice"@, question, JsonView::Object(entries));
    lemma_request_is_ready(
        question_with_criteria("choice"@, question, JsonView::Object(entries)),
        state,
    );
}

proof fn lemma_options_are_described(opts: Seq<(String, String)>, n: int)
    requires
        0 <= n <= opts.len(),
    ensures
        n > 0 ==> options(opts, n).len() > 0,
        forall|i: int|
            0 <= i < options(opts, n).len() ==> (#[trigger] options(opts, n)[i]).1 is Str,
    decreases n,
{
    if n > 0 {
        let before = options(opts, n - 1);
        let value = JsonView::Str(opts[n - 1].1@);
        lemma_options_are_described(opts, n - 1);
        json::lemma_put_members(before, opts[n - 1].0@, value);
        let after = options(opts, n);
        assert forall|i: int| 0 <= i < after.len() implies (#[trigger] after[i]).1 is Str by {
            if after[i] != (opts[n - 1].0@, value) {
                let k = choose|k: int| 0 <= k < before.len() && before[k] == after[i];
                assert(before[k].1 is Str);
            }
        }
    }
}

proof fn lemma_all_described(entries: Seq<(Seq<char>, JsonView)>, i: int)
    requires
        0 <= i <= entries.len(),
        forall|k: int| 0 <= k < entries.len() ==> (#[trigger] entries[k]).1 is Str,
    ensures
        request::undescribed_option(entries, i) is None,
    decreases entries.len() - i,
{
    if i < entries.len() {
        assert(entries[i].1 is Str);
        lemma_all_described(entries, i + 1);
    }
}

/// The request of a score is ready to be sent where it has two levels.
pub proof fn law_score_is_ready(question: Seq<char>, levels: Seq<String>, state: JsonView)
    requires
        levels.len() >= 2,
    ensures
        request::readiness_problem(
            request_of(
                question_with_criteria("score"@, question, JsonView::Array(level_views(levels))),
                state,
            ),
        ) is None,
{
    lemma_keys_differ();
    let views = level_views(levels);
    lemma_all_levels(views, 0);
    lemma_question_fields("score"@, question, JsonView::Array(views));
    lemma_request_is_ready(
        question_with_criteria("score"@, question, JsonView::Array(views)),
        state,
    );
}

proof fn lemma_all_levels(levels: Seq<JsonView>, i: int)
    requires
        0 <= i <= levels.len(),
        forall|k: int| 0 <= k < levels.len() ==> #[trigger] levels[k] is Str,
    ensures
        request::undescribed_level(levels, i) is None,
    decreases levels.len() - i,
{
    if i < levels.len() {
        assert(levels[i] is Str);
        lemma_all_levels(levels, i + 1);
    }
}

/// The requests of the command line name the pinned model, ask about the state
/// that they are given, and have one question, `q`.
pub proof fn law_shortcut_shape(question: JsonView, state: JsonView)
    ensures
        request_of(question, state).get("model"@) == Some(JsonView::Str(api::DEFAULT_MODEL@)),
        request_of(question, state).get("state"@) == Some(state),
        request_of(question, state).get("questions"@) == Some(
            JsonView::Object(seq![("q"@, question)]),
        ),
{
    lemma_keys_differ();
    let model = JsonView::Str(api::DEFAULT_MODEL@);
    let one = json::put(nothing(), "state"@, state);
    let two = json::put(one, "model"@, model);
    let asked = json::put(nothing(), "q"@, question);
    let all = JsonView::Object(asked);
    json::lemma_put_found(nothing(), "state"@, state);
    json::lemma_put_keeps(one, "model"@, model, "state"@);
    json::lemma_put_keeps(two, "questions"@, all, "state"@);
    json::lemma_put_found(one, "model"@, model);
    json::lemma_put_keeps(two, "questions"@, all, "model"@);
    json::lemma_put_found(two, "questions"@, all);
    assert(asked =~= seq![("q"@, question)]);
}

/// The question of a request of the command line.
proof fn lemma_question_of(question: JsonView, state: JsonView)
    ensures
        request_of(question, state).get("questions"@) matches Some(questions) && questions.get(
            "q"@,
        ) == Some(question),
{
    law_shortcut_shape(question, state);
}

/// The request of a yes or no question asks the question as it is given. A
/// description of a yes or of a no is its criterion, whatever the other is;
/// where only one is given, the other has the usual one, and where none is,
/// there are no criteria.
pub proof fn law_noul_says(
    question: Seq<char>,
    yes: Option<&str>,
    no: Option<&str>,
    state: JsonView,
)
    ensures
        request_of(noul_question(question, yes, no), state).get("questions"@) matches Some(
            questions,
        ) && questions.get("q"@) matches Some(asked) && {
            &&& asked.get("type"@) == Some(JsonView::Str("noul"@))
            &&& asked.get("instructions"@) == Some(JsonView::Str(question))
            &&& asked.get("criteria"@) is None <==> yes is None && no is None
            &&& asked.get("criteria"@) matches Some(criteria) ==> {
                &&& yes matches Some(text) ==> criteria.get("true"@) == Some(
                    JsonView::Str(text@),
                )
                &&& yes is None ==> criteria.get("true"@) == Some(
                    JsonView::Str("A yes (value near 1)"@),
                )
                &&& no matches Some(text) ==> criteria.get("false"@) == Some(
                    JsonView::Str(text@),
                )
                &&& no is None ==> criteria.get("false"@) == Some(
                    JsonView::Str("A no (value near 0)"@),
                )
                &&& forall|key: Seq<char>|
                    key != "true"@ && key != "false"@ ==> #[trigger] criteria.get(key) is None
            }
        },
        request_of(noul_question(question, yes, no), state).get("state"@) == Some(state),
{
    let affirmed = described(yes, "A yes (value near 1)"@);
    let denied = described(no, "A no (value near 0)"@);
    let one = json::put(nothing(), "true"@, affirmed);
    let both = json::put(one, "false"@, denied);
    let criteria = JsonView::Object(both);
    reveal_strlit("true");
    reveal_strlit("false");
    assert("true"@.len() == 4 && "false"@.len() == 5);
    json::lemma_put_found(nothing(), "true"@, affirmed);
    json::lemma_put_keeps(one, "false"@, denied, "true"@);
    json::lemma_put_found(one, "false"@, denied);
    assert forall|key: Seq<char>| key != "true"@ && key != "false"@ implies #[trigger] criteria.get(
        key,
    ) is None by {
        json::lemma_put_keeps(nothing(), "true"@, affirmed, key);
        json::lemma_put_keeps(one, "false"@, denied, key);
    }
    lemma_question_fields("noul"@, question, criteria);
    lemma_question_of(noul_question(question, yes, no), state);
    law_shortcut_shape(noul_question(question, yes, no), state);
}

/// The options of a choice: each key has the description that it is given
/// last, and no other key has any.
proof fn lemma_options(opts: Seq<(String, String)>, n: int, key: Seq<char>)
    requires
        0 <= n <= opts.len(),
    ensures
        match json::lookup(options(opts, n), key) {
            Some(value) => exists|i: int|
                0 <= i < n && (#[trigger] opts[i]).0@ == key && value == JsonView::Str(opts[i].1@)
                    && forall|j: int| i < j < n ==> (#[trigger] opts[j]).0@ != key,
            None => forall|i: int| 0 <= i < n ==> (#[trigger] opts[i]).0@ != key,
        },
    decreases n,
{
    if n > 0 {
        let before = options(opts, n - 1);
        let last = opts[n - 1];
        let value = JsonView::Str(last.1@);
        lemma_options(opts, n - 1, key);
        if key == last.0@ {
            json::lemma_put_found(before, key, value);
            assert(opts[n - 1].0@ == key);
        } else {
            json::lemma_put_keeps(before, last.0@, value, key);
            if let Some(found) = json::lookup(before, key) {
                let i = choose|i: int|
                    0 <= i < n - 1 && (#[trigger] opts[i]).0@ == key && found == JsonView::Str(
                        opts[i].1@,
                    ) && forall|j: int| i < j < n - 1 ==> (#[trigger] opts[j]).0@ != key;
                assert(opts[i].0@ == key);
            }
        }
    }
}

/// The request of a choice asks the question as it is given. Its criteria are
/// the options: under each key the description that is given last for it, and
/// nothing under other keys.
pub proof fn law_choice_says(
    question: Seq<char>,
    opts: Seq<(String, String)>,
    state: JsonView,
    key: Seq<char>,
)
    ensures
        request_of(
            question_with_criteria(
                "choice"@,
                question,
                JsonView::Object(options(opts, opts.len() as int)),
            ),
            state,
        ).get("questions"@) matches Some(questions) && questions.get("q"@) matches Some(asked) && {
            &&& asked.get("type"@) == Some(JsonView::Str("choice"@))
            &&& asked.get("instructions"@) == Some(JsonView::Str(question))
            &&& asked.get("criteria"@) matches Some(criteria) && match criteria.get(key) {
                Some(value) => exists|i: int|
                    0 <= i < opts.len() && (#[trigger] opts[i]).0@ == key && value == JsonView::Str(
                        opts[i].1@,
                    ) && forall|j: int| i < j < opts.len() ==> (#[trigger] opts[j]).0@ != key,
                None => forall|i: int| 0 <= i < opts.len() ==> (#[trigger] opts[i]).0@ != key,
            }
        },
{
    let criteria = JsonView::Object(options(opts, opts.len() as int));
    lemma_options(opts, opts.len() as int, key);
    lemma_question_fields("choice"@, question, criteria);
    lemma_question_of(question_with_criteria("choice"@, question, criteria), state);
}

/// The request of a score asks the question as it is given. Its criteria are
/// the levels, all of them and in their order.
pub proof fn law_score_says(question: Seq<char>, levels: Seq<String>, state: JsonView)
    ensures
        request_of(
            question_with_criteria("score"@, question, JsonView::Array(level_views(levels))),
            state,
        ).get("questions"@) matches Some(questions) && questions.get("q"@) matches Some(asked) && {
            &&& asked.get("type"@) == Some(JsonView::Str("score"@))
            &&& asked.get("instructions"@) == Some(JsonView::Str(question))
            &&& asked.get("criteria"@) matches Some(JsonView::Array(told)) && told.len()
                == levels.len() && forall|i: int|
                0 <= i < levels.len() ==> #[trigger] told[i] == JsonView::Str(levels[i]@)
        },
{
    let criteria = JsonView::Array(level_views(levels));
    lemma_question_fields("score"@, question, criteria);
    lemma_question_of(question_with_criteria("score"@, question, criteria), state);
}

/// Whatever request a yes or no question gives has the description of a yes
/// that is given as its criterion for a yes, and that of a no as its criterion
/// for a no, each whether or not the other is given.
pub proof fn law_noul_keeps_descriptions(
    question: &str,
    yes: Option<&str>,
    no: Option<&str>,
    state: Json,
    body: Json,
)
    requires
        call_ensures(shortcut_noul, (question, yes, no, state), body),
    ensures
        body@.get("state"@) == Some(state@),
        body@.get("questions"@) matches Some(questions) && questions.get("q"@) matches Some(asked)
            && {
            &&& asked.get("instructions"@) == Some(JsonView::Str(question@))
            &&& yes matches Some(text) ==> (asked.get("criteria"@) matches Some(criteria)
                && criteria.get("true"@) == Some(JsonView::Str(text@)))
            &&& no matches Some(text) ==> (asked.get("criteria"@) matches Some(criteria)
                && criteria.get("false"@) == Some(JsonView::Str(text@)))
        },
{
    law_noul_says(question@, yes, no, state@);
}

/// Whatever request a choice gives has, under each option, the description that
/// is given last for it; whatever request a score gives has its levels in their
/// order.
pub proof fn law_options_and_levels_are_kept(
    question: &str,
    opts: &Vec<(String, String)>,
    levels: &Vec<String>,
    state: Json,
    choice: Json,
    score: Json,
    i: int,
)
    requires
        call_ensures(shortcut_choice, (question, opts, state), choice),
        call_ensures(shortcut_score, (question, levels, state), score),
    ensures
        0 <= i < opts@.len() && (forall|j: int|
            i < j < opts@.len() ==> (#[trigger] opts@[j]).0@ != opts@[i].0@) ==> (choice@.get(
            "questions"@,
        ) matches Some(questions) && questions.get("q"@) matches Some(asked) && asked.get(
            "criteria"@,
        ) matches Some(criteria) && criteria.get(opts@[i].0@) == Some(JsonView::Str(opts@[i].1@))),
        0 <= i < levels@.len() ==> (score@.get("questions"@) matches Some(questions)
            && questions.get("q"@) matches Some(asked) && asked.get("criteria"@) matches Some(
            JsonView::Array(told),
        ) && told.len() == levels@.len() && told[i] == JsonView::Str(levels@[i]@)),
        choice@.get("state"@) == Some(state@),
        score@.get("state"@) == Some(state@),
{
    law_score_says(question@, levels@, state@);
    let choice_asked = question_with_criteria(
        "choice"@,
        question@,
        JsonView::Object(options(opts@, opts@.len() as int)),
    );
    let score_asked = question_with_criteria(
        "score"@,
        question@,
        JsonView::Array(level_views(levels@)),
    );
    law_shortcut_shape(choice_asked, state@);
    law_shortcut_shape(score_asked, state@);
    if 0 <= i < opts@.len() {
        law_choice_says(question@, opts@, state@, opts@[i].0@);
    }
}

/// A request of the command line has no more than its model, its state and its
/// questions, and a question no more than its kind, its instructions and its
/// criteria.
pub proof fn law_nothing_else_is_asked(
    kind: Seq<char>,
    question: Seq<char>,
    criteria: JsonView,
    yes: Option<&str>,
    no: Option<&str>,
    asked: JsonView,
    state: JsonView,
    key: Seq<char>,
)
    ensures
        key != "state"@ && key != "model"@ && key != "questions"@ ==> request_of(asked, state).get(
            key,
        ) is None,
        key != "type"@ && key != "instructions"@ && key != "criteria"@ ==> question_with_criteria(
            kind,
            question,
            criteria,
        ).get(key) is None && noul_question(question, yes, no).get(key) is None,
{
    let none = nothing();
    assert(json::lookup(none, key) is None);
    if key != "state"@ && key != "model"@ && key != "questions"@ {
        let model = JsonView::Str(api::DEFAULT_MODEL@);
        let questions = JsonView::Object(json::put(none, "q"@, asked));
        let first = json::put(none, "state"@, state);
        let second = json::put(first, "model"@, model);
        json::lemma_put_keeps(none, "state"@, state, key);
        json::lemma_put_keeps(first, "model"@, model, key);
        json::lemma_put_keeps(second, "questions"@, questions, key);
    }
    if key != "type"@ && key != "instructions"@ && key != "criteria"@ {
        lemma_no_other_field(kind, question, criteria, key);
        let described = JsonView::Object(
            json::put(
                json::put(none, "true"@, described(yes, "A yes (value near 1)"@)),
                "false"@,
                described(no, "A no (value near 0)"@),
            ),
        );
        lemma_no_other_field("noul"@, question, described, key);
    }
}

proof fn lemma_no_other_field(
    kind: Seq<char>,
    question: Seq<char>,
    criteria: JsonView,
    key: Seq<char>,
)
    requires
        key != "type"@,
        key != "instructions"@,
        key != "criteria"@,
    ensures
        json::lookup(question_fields(kind, question), key) is None,
        question_with_criteria(kind, question, criteria).get(key) is None,
{
    let none = nothing();
    let first = json::put(none, "instructions"@, JsonView::Str(question));
    assert(json::lookup(none, key) is None);
    json::lemma_put_keeps(none, "instructions"@, JsonView::Str(question), key);
    json::lemma_put_keeps(first, "type"@, JsonView::Str(kind), key);
    json::lemma_put_keeps(question_fields(kind, question), "criteria"@, criteria, key);
}

} // verus!
