//! The judgment service: what is sent to it, and what its replies mean.

use crate::document;
use crate::json;
use crate::json::{Json, JsonView, Object};
use crate::number;
use crate::text;
use vstd::arithmetic::power2;
use vstd::prelude::*;
use vstd::utf8;

verus! {

/// The service that is asked where no other is named.
pub const DEFAULT_BASE: &'static str = "https://api.typesafe.ai";

/// The model that is asked where a request names none.
pub const DEFAULT_MODEL: &'static str = "jev-latest";

/// Where the service answers.
pub const ENDPOINT: &'static str = "/v1/systemone";

/// One attempt plus five retries.
pub const MAX_ATTEMPTS: usize = 6;

/// How long one attempt may take, in seconds.
pub const REQUEST_TIMEOUT_SECS: u64 = 30;

/// The phrase that goes with a status code, where there is one: what
/// `StatusCode::canonical_reason` gives.
pub uninterp spec fn status_phrase(code: u16) -> Option<Seq<char>>;

/// The time that an HTTP date names, in seconds since 1970: what
/// `httpdate::parse_http_date` reads.
pub uninterp spec fn http_date(value: Seq<char>) -> Option<u64>;

/// Calls `StatusCode::from_u16`, and `StatusCode::canonical_reason` of what it
/// gives. There is no phrase for a number that is no status code. The phrase
/// depends on the number alone.
#[verifier::external_body]
fn phrase_of_status(code: u16) -> (r: Option<String>)
    ensures
        match r {
            Some(phrase) => status_phrase(code) == Some(phrase@),
            None => status_phrase(code) is None,
        },
{
    match reqwest::StatusCode::from_u16(code) {
        Ok(status) => status.canonical_reason().map(str::to_owned),
        Err(_) => None,
    }
}

/// Calls `httpdate::parse_http_date`, and gives the time that it reads as
/// seconds since 1970. It reads whole seconds only, no earlier time, and none
/// after the year 9999. What it reads depends on the text alone.
#[verifier::external_body]
fn read_http_date(value: &str) -> (r: Option<u64>)
    ensures
        r == http_date(value@),
        r matches Some(time) ==> time < 253_402_300_800,
{
    match httpdate::parse_http_date(value) {
        Ok(time) => time.duration_since(std::time::UNIX_EPOCH).ok().map(|d| d.as_secs()),
        Err(_) => None,
    }
}

/// A status code with its phrase.
pub open spec fn status_text(code: u16, phrase: Option<Seq<char>>) -> Seq<char> {
    text::decimal(code as nat) + " "@ + (match phrase {
        Some(phrase) => phrase,
        None => "<unknown status code>"@,
    })
}

/// A status code with its phrase, or without one.
pub fn write_status(code: u16, phrase: Option<String>) -> (r: String)
    ensures
        r@ == status_text(
            code,
            match phrase {
                Some(phrase) => Some(phrase@),
                None => None,
            },
        ),
{
    let mut text = text::decimal_text(code as u64);
    text.append(" ");
    match phrase {
        Some(phrase) => text.append(phrase.as_str()),
        None => text.append("<unknown status code>"),
    }
    text
}

/// A status code as messages name it.
pub open spec fn status_name(code: u16) -> Seq<char> {
    status_text(code, status_phrase(code))
}

/// A status code as messages name it.
pub fn name_status(code: u16) -> (r: String)
    ensures
        r@ == status_name(code),
{
    write_status(code, phrase_of_status(code))
}

/// What goes wrong between the service and its caller.
#[derive(Debug)]
pub enum ApiError {
    Auth(String),
    Http(u16, String),
    Transport(String),
    InvalidResponse(String),
}

/// What an error of the service says.
#[verifier::ext_equal]
pub enum ApiErrorView {
    Auth(Seq<char>),
    Http(u16, Seq<char>),
    Transport(Seq<char>),
    InvalidResponse(Seq<char>),
}

impl View for ApiError {
    type V = ApiErrorView;

    open spec fn view(&self) -> ApiErrorView {
        match self {
            ApiError::Auth(body) => ApiErrorView::Auth(body@),
            ApiError::Http(status, body) => ApiErrorView::Http(*status, body@),
            ApiError::Transport(e) => ApiErrorView::Transport(e@),
            ApiError::InvalidResponse(e) => ApiErrorView::InvalidResponse(e@),
        }
    }
}

/// The message of an error of the service.
pub open spec fn api_message(error: ApiErrorView) -> Seq<char> {
    match error {
        ApiErrorView::Auth(body) => "API rejected the credentials: "@ + body
            + "; run jev login or set JEV_API_KEY"@,
        ApiErrorView::Http(status, body) => "API "@ + status_name(status) + ": "@ + body,
        ApiErrorView::Transport(e) => "API transport error: "@ + e,
        ApiErrorView::InvalidResponse(e) => "Invalid API response: "@ + e,
    }
}

impl ApiError {
    /// The message of the error.
    pub fn message(&self) -> (r: String)
        ensures
            r@ == api_message(self@),
    {
        match self {
            ApiError::Auth(body) => {
                let mut message = "API rejected the credentials: ".to_owned();
                message.append(body.as_str());
                message.append("; run jev login or set JEV_API_KEY");
                message
            },
            ApiError::Http(status, body) => {
                let mut message = "API ".to_owned();
                message.append(name_status(*status).as_str());
                message.append(": ");
                message.append(body.as_str());
                message
            },
            ApiError::Transport(e) => {
                let mut message = "API transport error: ".to_owned();
                message.append(e.as_str());
                message
            },
            ApiError::InvalidResponse(e) => {
                let mut message = "Invalid API response: ".to_owned();
                message.append(e.as_str());
                message
            },
        }
    }
}

/// Tokens that an evaluation took.
#[derive(Debug, Clone, Copy, Default)]
pub struct Usage {
    pub input_tokens: u64,
    pub output_tokens: u64,
}

/// What the service answers.
#[derive(Debug)]
pub struct Evaluation {
    pub model: String,
    /// The typed answer to each question, by its id.
    pub answers: Json,
    pub usage: Usage,
}

/// What an evaluation says.
#[verifier::ext_equal]
pub struct EvaluationView {
    pub model: Seq<char>,
    pub answers: JsonView,
    pub usage: Usage,
}

impl View for Evaluation {
    type V = EvaluationView;

    open spec fn view(&self) -> EvaluationView {
        EvaluationView { model: self.model@, answers: self.answers@, usage: self.usage }
    }
}

impl Clone for Evaluation {
    fn clone(&self) -> (r: Evaluation)
        ensures
            r@ == self@,
    {
        Evaluation {
            model: self.model.clone(),
            answers: self.answers.clone(),
            usage: self.usage,
        }
    }
}

/// The natural number under a key.
pub open spec fn natural_under(view: JsonView, key: Seq<char>) -> Option<u64> {
    match view.get(key) {
        Some(JsonView::Number(n)) => number::natural_of(n),
        _ => None,
    }
}

/// The natural number under a key.
pub fn get_natural(json: &Json, key: &str) -> (r: Option<u64>)
    ensures
        r == natural_under(json@, key@),
{
    match json.get(key) {
        Some(Json::Number(n)) => number::number_u64(n),
        _ => None,
    }
}

/// How many tokens a reply reports; none where it does not say.
pub open spec fn tokens(view: JsonView, key: Seq<char>) -> u64 {
    match view.get("usage"@) {
        Some(usage) => match natural_under(usage, key) {
            Some(n) => n,
            None => 0,
        },
        None => 0,
    }
}

fn count_tokens(json: &Json, key: &str) -> (r: u64)
    ensures
        r == tokens(json@, key@),
{
    match json.get("usage") {
        Some(usage) => match get_natural(usage, key) {
            Some(n) => n,
            None => 0,
        },
        None => 0,
    }
}

/// The evaluation that a reply holds, or what it lacks.
pub open spec fn evaluation_of(view: JsonView) -> Result<EvaluationView, Seq<char>> {
    match view.get("model"@) {
        Some(JsonView::Str(model)) => match view.get("answers"@) {
            None => Err("missing answers"@),
            Some(answers) => if answers is Object {
                Ok(
                    EvaluationView {
                        model,
                        answers,
                        usage: Usage {
                            input_tokens: tokens(view, "input_tokens"@),
                            output_tokens: tokens(view, "output_tokens"@),
                        },
                    },
                )
            } else {
                Err("answers is not an object"@)
            },
        },
        _ => Err("missing model"@),
    }
}

/// Reads the evaluation that a reply holds.
pub fn parse_evaluation(json: &Json) -> (r: Result<Evaluation, ApiError>)
    ensures
        match r {
            Ok(evaluation) => evaluation_of(json@) == Ok::<EvaluationView, Seq<char>>(
                evaluation@,
            ),
            Err(ApiError::InvalidResponse(e)) => evaluation_of(json@) == Err::<
                EvaluationView,
                Seq<char>,
            >(e@),
            Err(_) => false,
        },
{
    let model = match json.get("model") {
        Some(Json::Str(model)) => model.clone(),
        _ => {
            return Err(ApiError::InvalidResponse("missing model".to_owned()));
        },
    };
    let answers = match json.get("answers") {
        Some(answers) => answers,
        None => {
            return Err(ApiError::InvalidResponse("missing answers".to_owned()));
        },
    };
    if !matches!(answers, Json::Object(_)) {
        return Err(ApiError::InvalidResponse("answers is not an object".to_owned()));
    }
    let usage = Usage {
        input_tokens: count_tokens(json, "input_tokens"),
        output_tokens: count_tokens(json, "output_tokens"),
    };
    Ok(Evaluation { model, answers: answers.clone(), usage })
}

/// The answers of a reply are nested less deep than the reply.
pub proof fn lemma_answers_fit(view: JsonView, room: int)
    requires
        document::fits(view, room),
    ensures
        evaluation_of(view) matches Ok(evaluation) ==> document::fits(
            evaluation.answers,
            room - 1,
        ),
{
    document::lemma_value_fits(view, "answers"@, room);
}

/// A request with the pinned model, where it names none.
pub open spec fn pinned(body: JsonView) -> JsonView {
    match body {
        JsonView::Object(entries) => match json::lookup(entries, "model"@) {
            Some(_) => body,
            None => JsonView::Object(
                json::put(entries, "model"@, JsonView::Str(DEFAULT_MODEL@)),
            ),
        },
        _ => body,
    }
}

/// Pins the model of a request that names none.
pub fn pin_model(body: &Json) -> (r: Json)
    ensures
        r@ == pinned(body@),
{
    match body {
        Json::Object(entries) => {
            let mut entries = entries.clone();
            if entries.get("model").is_none() {
                entries.insert("model".to_owned(), Json::Str(DEFAULT_MODEL.to_owned()));
            }
            Json::Object(entries)
        },
        _ => body.clone(),
    }
}

/// The bytes of a request as it is sent.
pub fn payload(body: &Json) -> (r: Vec<u8>)
    ensures
        r@ == utf8::encode_utf8(document::compact_text(pinned(body@))),
{
    document::write_json_bytes(&pin_model(body))
}

/// A request that is sent always names a model: its own, or the pinned one.
/// All else stays as it is.
pub proof fn law_model_is_pinned(body: JsonView, key: Seq<char>)
    requires
        body is Object,
    ensures
        pinned(body).get("model"@) == (match body.get("model"@) {
            Some(model) => Some(model),
            None => Some(JsonView::Str(DEFAULT_MODEL@)),
        }),
        key != "model"@ ==> pinned(body).get(key) == body.get(key),
{
    let entries = body->Object_0;
    let model = JsonView::Str(DEFAULT_MODEL@);
    json::lemma_put_found(entries, "model"@, model);
    if key != "model"@ {
        json::lemma_put_keeps(entries, "model"@, model, key);
    }
}

/// Where requests are sent.
pub open spec fn service_url(base: Seq<char>) -> Seq<char> {
    text::without_trailing(base, seq!['/']) + ENDPOINT@
}

/// Where requests are sent, whether or not the base ends in slashes.
pub fn endpoint_url(base: &str) -> (r: String)
    ensures
        r@ == service_url(base@),
{
    let cut: Vec<char> = vec!['/'];
    assert(cut@ =~= seq!['/']);
    let mut url = text::strip_trailing(base, &cut);
    url.append(ENDPOINT);
    url
}

/// The base that is set, or the usual one.
pub fn base_or_default(set: Option<String>) -> (r: String)
    ensures
        r@ == (match set {
            Some(base) => base@,
            None => DEFAULT_BASE@,
        }),
{
    match set {
        Some(base) => base,
        None => DEFAULT_BASE.to_owned(),
    }
}

/// What is told of a reply that is an error: its text without the spaces
/// around it, and no more than 400 characters of it.
pub open spec fn error_excerpt(body: Seq<char>, status: Seq<char>) -> Seq<char> {
    let told = text::trimmed(body);
    if told.len() == 0 {
        "empty body (HTTP "@ + status + ")"@
    } else if told.len() <= 400 {
        told
    } else {
        told.take(400)
    }
}

/// What to tell of a reply that is an error.
pub fn trim_error_body(body: &str, status: u16) -> (r: String)
    ensures
        r@ == error_excerpt(body@, status_name(status)),
{
    let told = text::trim(body);
    let chars = text::chars_of(told.as_str());
    if chars.len() == 0 {
        let mut message = "empty body (HTTP ".to_owned();
        message.append(name_status(status).as_str());
        message.append(")");
        message
    } else if chars.len() <= 400 {
        told
    } else {
        let excerpt = text::text_of(&chars, 0, 400);
        assert(excerpt@ =~= chars@.take(400));
        excerpt
    }
}

/// How long to wait after an attempt: 500ms, doubled with every attempt, and
/// 8s at most. What the service asks for goes before.
pub open spec fn delay_after(attempt: nat, server_ms: Option<u64>) -> int {
    match server_ms {
        Some(ms) => ms as int,
        None => if 500 * power2::pow2(attempt) <= 8000 {
            500 * power2::pow2(attempt) as int
        } else {
            8000
        },
    }
}

/// How long to wait after an attempt, in milliseconds.
pub fn backoff_ms(attempt: usize, server_ms: Option<u64>) -> (r: u64)
    ensures
        r == delay_after(attempt as nat, server_ms),
{
    match server_ms {
        Some(ms) => ms,
        None => {
            proof {
                power2::lemma2_to64();
                if attempt > 4 {
                    power2::lemma_pow2_strictly_increases(4, attempt as nat);
                }
            }
            if attempt == 0 {
                500
            } else if attempt == 1 {
                1000
            } else if attempt == 2 {
                2000
            } else if attempt == 3 {
                4000
            } else {
                8000
            }
        },
    }
}

/// Without a word from the service, waiting never gets shorter from one
/// attempt to a later one, and never takes more than 8s.
pub proof fn law_backoff_grows(earlier: nat, later: nat)
    requires
        earlier <= later,
    ensures
        500 <= delay_after(earlier, None) <= delay_after(later, None) <= 8000,
{
    power2::lemma2_to64();
    if earlier < later {
        power2::lemma_pow2_strictly_increases(earlier, later);
    }
    power2::lemma_pow2_pos(earlier);
}

/// The wait that the body of a reply asks for, in milliseconds.
pub open spec fn wait_of(view: JsonView) -> Option<u64> {
    match natural_under(view, "retry_after_ms"@) {
        Some(ms) => Some(ms),
        None => match view.get("error"@) {
            Some(error) => natural_under(error, "retry_after_ms"@),
            None => None,
        },
    }
}

/// The wait that the body of a reply asks for, in milliseconds.
pub fn requested_wait(json: &Json) -> (r: Option<u64>)
    ensures
        r == wait_of(json@),
{
    match get_natural(json, "retry_after_ms") {
        Some(ms) => Some(ms),
        None => match json.get("error") {
            Some(error) => get_natural(error, "retry_after_ms"),
            None => None,
        },
    }
}

/// The wait that the text of a reply asks for, in milliseconds.
pub fn body_retry_ms(text: &str) -> (r: Option<u64>)
    ensures
        r == (match document::read_text(text@) {
            Ok(view) => wait_of(view),
            Err(_) => None,
        }),
{
    match document::read_json(text) {
        Ok(json) => requested_wait(&json),
        Err(_) => None,
    }
}

/// The whole seconds from a moment to a later time; none where it is past. The
/// moment is `now_secs` and `now_nanos` after 1970.
pub open spec fn seconds_until(time: u64, now_secs: i64, now_nanos: u32) -> int {
    let left = time * 1_000_000_000 - (now_secs * 1_000_000_000 + now_nanos);
    if left <= 0 {
        0
    } else {
        left / 1_000_000_000
    }
}

/// The whole seconds from a moment to a later time; none where it is past.
pub fn wait_until(time: u64, now_secs: i64, now_nanos: u32) -> (r: u64)
    requires
        now_nanos < 1_000_000_000,
        time - now_secs <= u64::MAX,
    ensures
        r == seconds_until(time, now_secs, now_nanos),
{
    let whole: i128 = time as i128 - now_secs as i128;
    let left: i128 = if now_nanos > 0 {
        whole - 1
    } else {
        whole
    };
    if left <= 0 {
        0
    } else {
        left as u64
    }
}

/// The seconds that a `Retry-After` header asks for: a number, or an HTTP date.
pub open spec fn header_wait(value: Seq<char>, now_secs: i64, now_nanos: u32) -> Option<int> {
    match text::natural(value) {
        Some(secs) => Some(secs as int),
        None => match http_date(value) {
            Some(time) => Some(seconds_until(time, now_secs, now_nanos)),
            None => None,
        },
    }
}

/// The seconds that a `Retry-After` header asks for: a number, or an HTTP date.
/// The time is `now_secs` and `now_nanos` after 1970.
pub fn parse_retry_after_seconds(value: &str, now_secs: i64, now_nanos: u32) -> (r: Option<u64>)
    requires
        now_nanos < 1_000_000_000,
    ensures
        match r {
            Some(secs) => header_wait(value@, now_secs, now_nanos) == Some(secs as int),
            None => header_wait(value@, now_secs, now_nanos) is None,
        },
{
    match text::parse_natural(value) {
        Some(secs) => Some(secs),
        None => match read_http_date(value) {
            Some(time) => Some(wait_until(time, now_secs, now_nanos)),
            None => None,
        },
    }
}

/// The wait that the service asks for, in milliseconds: what its body says
/// goes before its header.
pub fn server_wait(body_ms: Option<u64>, header_secs: Option<u64>) -> (r: Option<u64>)
    requires
        body_ms is None ==> (header_secs matches Some(secs) ==> secs * 1000 <= u64::MAX),
    ensures
        match (body_ms, header_secs) {
            (Some(ms), _) => r == Some(ms),
            (None, Some(secs)) => r matches Some(ms) && ms == secs * 1000,
            (None, None) => r is None,
        },
{
    match body_ms {
        Some(ms) => Some(ms),
        None => match header_secs {
            Some(secs) => Some(secs * 1000),
            None => None,
        },
    }
}

/// Whether a status says that the service answered.
pub fn is_success(status: u16) -> (r: bool)
    ensures
        r == (200 <= status < 300),
{
    200 <= status && status < 300
}

/// Statuses after which to try again.
pub open spec fn is_retryable(status: u16) -> bool {
    status == 429 || status == 500 || status == 502 || status == 503 || status == 504 || status
        == 529
}

/// Whether to try again after a status.
pub fn retryable_status(status: u16) -> (r: bool)
    ensures
        r == is_retryable(status),
{
    matches!(status, 429 | 500 | 502 | 503 | 504 | 529)
}

/// What comes of one attempt.
#[derive(Debug)]
pub enum Reply {
    /// The service answered, and this is its answer.
    Answered(Vec<u8>),
    /// The service answered, and its answer could not be read.
    Unreadable(String),
    /// The service refused, and perhaps asks to wait.
    Refused { status: u16, text: String, wait_ms: Option<u64> },
    /// The service was not reached.
    Lost(String),
}

/// What a reply says.
#[verifier::ext_equal]
pub enum ReplyView {
    Answered(Seq<u8>),
    Unreadable(Seq<char>),
    Refused { status: u16, text: Seq<char>, wait_ms: Option<u64> },
    Lost(Seq<char>),
}

impl View for Reply {
    type V = ReplyView;

    open spec fn view(&self) -> ReplyView {
        match self {
            Reply::Answered(bytes) => ReplyView::Answered(bytes@),
            Reply::Unreadable(e) => ReplyView::Unreadable(e@),
            Reply::Refused { status, text, wait_ms } => ReplyView::Refused {
                status: *status,
                text: text@,
                wait_ms: *wait_ms,
            },
            Reply::Lost(e) => ReplyView::Lost(e@),
        }
    }
}

/// What to do after an attempt.
#[derive(Debug)]
pub enum Step {
    Done(Evaluation),
    Failed(ApiError),
    /// Say why, wait, and try again.
    Retry { delay_ms: u64, notice: String },
}

/// What a step says.
#[verifier::ext_equal]
pub enum StepView {
    Done(EvaluationView),
    Failed(ApiErrorView),
    Retry { delay_ms: u64, notice: Seq<char> },
}

impl View for Step {
    type V = StepView;

    open spec fn view(&self) -> StepView {
        match self {
            Step::Done(evaluation) => StepView::Done(evaluation@),
            Step::Failed(e) => StepView::Failed(e@),
            Step::Retry { delay_ms, notice } => StepView::Retry {
                delay_ms: *delay_ms,
                notice: notice@,
            },
        }
    }
}

/// What to say before trying again.
pub open spec fn retry_notice(what: Seq<char>, attempt: nat, delay_ms: u64) -> Seq<char> {
    what + " retry "@ + text::decimal(attempt + 1) + "/"@ + text::decimal(
        (MAX_ATTEMPTS - 1) as nat,
    ) + " after "@ + text::decimal(delay_ms as nat) + "ms"@
}

/// Trying again after an attempt.
pub open spec fn retry_after(what: Seq<char>, attempt: nat, server_ms: Option<u64>) -> StepView {
    let delay_ms = delay_after(attempt, server_ms) as u64;
    StepView::Retry { delay_ms, notice: retry_notice(what, attempt, delay_ms) }
}

/// Whether answers leave room to be told within what can be read again.
pub open spec fn is_shallow(evaluation: EvaluationView) -> bool {
    document::fits(evaluation.answers, document::DEPTH - 1)
}

/// Whether the answers of a step, if it has any, leave room to be told within
/// what can be read again.
pub open spec fn has_shallow_answers(step: StepView) -> bool {
    step matches StepView::Done(evaluation) ==> is_shallow(evaluation)
}

/// What an answer of the service comes to, once it is read.
pub open spec fn outcome_of(read: Result<JsonView, Seq<char>>) -> StepView {
    match read {
        Err(e) => StepView::Failed(ApiErrorView::InvalidResponse(e)),
        Ok(view) => match evaluation_of(view) {
            Ok(evaluation) => StepView::Done(evaluation),
            Err(e) => StepView::Failed(ApiErrorView::InvalidResponse(e)),
        },
    }
}

/// What to do after an attempt. Refused credentials are final at once, and so
/// is every status that is not to be tried again; the last attempt is final in
/// any case.
pub open spec fn reaction(attempt: nat, reply: ReplyView) -> StepView {
    match reply {
        ReplyView::Answered(bytes) => outcome_of(document::read_bytes(bytes)),
        ReplyView::Unreadable(e) => StepView::Failed(ApiErrorView::Transport(e)),
        ReplyView::Refused { status, text, wait_ms } => {
            let told = error_excerpt(text, status_name(status));
            if status == 401 || status == 403 {
                StepView::Failed(ApiErrorView::Auth(told))
            } else if !is_retryable(status) || attempt + 1 == MAX_ATTEMPTS {
                StepView::Failed(ApiErrorView::Http(status, told))
            } else {
                retry_after("API"@, attempt, wait_ms)
            }
        },
        ReplyView::Lost(e) => if attempt + 1 == MAX_ATTEMPTS {
            StepView::Failed(ApiErrorView::Transport(e))
        } else {
            retry_after("Network"@, attempt, None)
        },
    }
}

fn try_again(what: &str, attempt: usize, server_ms: Option<u64>) -> (r: Step)
    requires
        attempt < MAX_ATTEMPTS,
    ensures
        r@ == retry_after(what@, attempt as nat, server_ms),
{
    let delay_ms = backoff_ms(attempt, server_ms);
    let mut notice = what.to_owned();
    notice.append(" retry ");
    notice.append(text::decimal_text(attempt as u64 + 1).as_str());
    notice.append("/");
    notice.append(text::decimal_text(MAX_ATTEMPTS as u64 - 1).as_str());
    notice.append(" after ");
    notice.append(text::decimal_text(delay_ms).as_str());
    notice.append("ms");
    Step::Retry { delay_ms, notice }
}

/// What an answer comes to, once it is read.
pub fn settle(read: Result<Json, String>) -> (r: Step)
    ensures
        r@ == outcome_of(
            match read {
                Ok(json) => Ok(json@),
                Err(e) => Err(e@),
            },
        ),
        (read matches Ok(json) ==> document::fits(json@, document::DEPTH as int))
            ==> has_shallow_answers(r@),
{
    match read {
        Err(e) => Step::Failed(ApiError::InvalidResponse(e)),
        Ok(json) => {
            proof {
                if document::fits(json@, document::DEPTH as int) {
                    lemma_answers_fit(json@, document::DEPTH as int);
                }
            }
            match parse_evaluation(&json) {
                Ok(evaluation) => Step::Done(evaluation),
                Err(e) => Step::Failed(e),
            }
        },
    }
}

/// Decides what to do after an attempt; attempts are counted from 0.
pub fn react(attempt: usize, reply: Reply) -> (r: Step)
    requires
        attempt < MAX_ATTEMPTS,
    ensures
        r@ == reaction(attempt as nat, reply@),
        has_shallow_answers(r@),
{
    match reply {
        Reply::Answered(bytes) => settle(document::read_json_bytes(bytes.as_slice())),
        Reply::Unreadable(e) => Step::Failed(ApiError::Transport(e)),
        Reply::Refused { status, text, wait_ms } => {
            if status == 401 || status == 403 {
                Step::Failed(ApiError::Auth(trim_error_body(text.as_str(), status)))
            } else if !retryable_status(status) || attempt + 1 == MAX_ATTEMPTS {
                Step::Failed(ApiError::Http(status, trim_error_body(text.as_str(), status)))
            } else {
                try_again("API", attempt, wait_ms)
            }
        },
        Reply::Lost(e) => if attempt + 1 == MAX_ATTEMPTS {
            Step::Failed(ApiError::Transport(e))
        } else {
            try_again("Network", attempt, None)
        },
    }
}

/// There are no more than five retries: after the last attempt there is an
/// evaluation or an error, whatever the reply.
pub proof fn law_retries_end(reply: ReplyView)
    ensures
        !(reaction((MAX_ATTEMPTS - 1) as nat, reply) is Retry),
{
}

/// What is tried again is a request that did not reach the service, or that it
/// refused for the moment, as long as attempts are left; nothing else is.
pub proof fn law_only_transient_failures_are_retried(attempt: nat, reply: ReplyView)
    requires
        attempt < MAX_ATTEMPTS,
    ensures
        reaction(attempt, reply) is Retry <==> {
            &&& attempt + 1 < MAX_ATTEMPTS
            &&& match reply {
                ReplyView::Lost(_) => true,
                ReplyView::Refused { status, .. } => is_retryable(status),
                _ => false,
            }
        },
{
}

/// Refused credentials are never tried again, and the error says how to log in.
pub proof fn law_auth_is_final(attempt: nat, status: u16, text: Seq<char>, wait_ms: Option<u64>)
    requires
        status == 401 || status == 403,
    ensures
        reaction(attempt, (ReplyView::Refused { status, text, wait_ms })) == StepView::Failed(
            ApiErrorView::Auth(error_excerpt(text, status_name(status))),
        ),
        api_message(ApiErrorView::Auth(error_excerpt(text, status_name(status))))
            == "API rejected the credentials: "@ + error_excerpt(text, status_name(status))
            + "; run jev login or set JEV_API_KEY"@,
{
}

/// A request that is tried again waits as long as the service asks, where it
/// asks.
pub proof fn law_server_wait_wins(attempt: nat, status: u16, text: Seq<char>, ms: u64)
    requires
        is_retryable(status),
        attempt + 1 < MAX_ATTEMPTS,
    ensures
        reaction(attempt, (ReplyView::Refused { status, text, wait_ms: Some(ms) })) matches StepView::Retry {
            delay_ms,
            ..
        } && delay_ms == ms,
{
}

/// What is told of a refusal never takes more than 400 characters, unless it
/// is the status.
pub proof fn law_excerpt_is_short(body: Seq<char>, status: Seq<char>)
    ensures
        text::trimmed(body).len() > 0 ==> 0 < error_excerpt(body, status).len() <= 400,
{
}

/// The request by which a login tries its key.
pub open spec fn login_request() -> JsonView {
    JsonView::Object(
        json::put(
            json::put(
                json::put(Seq::empty(), "state"@, JsonView::Str("login verification"@)),
                "model"@,
                JsonView::Str(DEFAULT_MODEL@),
            ),
            "questions"@,
            JsonView::Object(
                json::put(
                    Seq::empty(),
                    "ok"@,
                    JsonView::Object(
                        json::put(
                            json::put(Seq::empty(), "type"@, JsonView::Str("noul"@)),
                            "instructions"@,
                            JsonView::Str("Is this sentence in English?"@),
                        ),
                    ),
                ),
            ),
        ),
    )
}

/// The request by which a login tries its key.
pub fn verify_request() -> (r: Json)
    ensures
        r@ == login_request(),
{
    let mut question = Object::new();
    question.insert("type".to_owned(), Json::Str("noul".to_owned()));
    question.insert(
        "instructions".to_owned(),
        Json::Str("Is this sentence in English?".to_owned()),
    );
    let mut questions = Object::new();
    questions.insert("ok".to_owned(), Json::Object(question));
    let mut body = Object::new();
    body.insert("state".to_owned(), Json::Str("login verification".to_owned()));
    body.insert("model".to_owned(), Json::Str(DEFAULT_MODEL.to_owned()));
    body.insert("questions".to_owned(), Json::Object(questions));
    Json::Object(body)
}

/// A reply holds an evaluation exactly where it names its model by a string
/// and its answers are an object. The evaluation has both as they are, and the
/// tokens that the usage of the reply counts by natural numbers: those that it
/// does not count are none.
pub proof fn law_evaluation_says(view: JsonView)
    ensures
        evaluation_of(view) is Ok <==> (view.get("model"@) matches Some(JsonView::Str(_))) && (
        view.get("answers"@) matches Some(JsonView::Object(_))),
        evaluation_of(view) matches Ok(evaluation) ==> {
            &&& view.get("model"@) == Some(JsonView::Str(evaluation.model))
            &&& view.get("answers"@) == Some(evaluation.answers)
            &&& match view.get("usage"@) {
                Some(usage) => {
                    &&& match usage.get("input_tokens"@) {
                        Some(JsonView::Number(number::Num::PosInt(n))) =>
                            evaluation.usage.input_tokens == n,
                        _ => evaluation.usage.input_tokens == 0,
                    }
                    &&& match usage.get("output_tokens"@) {
                        Some(JsonView::Number(number::Num::PosInt(n))) =>
                            evaluation.usage.output_tokens == n,
                        _ => evaluation.usage.output_tokens == 0,
                    }
                },
                None => evaluation.usage.input_tokens == 0 && evaluation.usage.output_tokens == 0,
            }
        },
        evaluation_of(view) matches Err(e) ==> (if !(view.get("model"@) matches Some(
            JsonView::Str(_),
        )) {
            e == "missing model"@
        } else if view.get("answers"@) is None {
            e == "missing answers"@
        } else {
            e == "answers is not an object"@
        }),
{
}

/// A reply asks for the wait that it names itself, and otherwise for the one
/// that its error names; in either place by a natural number.
pub proof fn law_requested_wait(view: JsonView, ms: u64)
    ensures
        view.get("retry_after_ms"@) == Some(JsonView::Number(number::Num::PosInt(ms)))
            ==> wait_of(view) == Some(ms),
        (!(view.get("retry_after_ms"@) matches Some(JsonView::Number(number::Num::PosInt(_)))) && (
        view.get("error"@) matches Some(error) && error.get("retry_after_ms"@) == Some(
            JsonView::Number(number::Num::PosInt(ms)),
        ))) ==> wait_of(view) == Some(ms),
        wait_of(view) == Some(ms) ==> {
            ||| view.get("retry_after_ms"@) == Some(JsonView::Number(number::Num::PosInt(ms)))
            ||| view.get("error"@) matches Some(error) && error.get("retry_after_ms"@) == Some(
                JsonView::Number(number::Num::PosInt(ms)),
            )
        },
{
}

/// The wait doubles from one attempt to the next, from half a second on and up
/// to eight, unless the service asks for another.
pub proof fn law_backoff_doubles(attempt: nat, ms: u64)
    ensures
        delay_after(0, None) == 500,
        2 * delay_after(attempt, None) <= 8000 ==> delay_after(attempt + 1, None) == 2
            * delay_after(attempt, None),
        2 * delay_after(attempt, None) > 8000 ==> delay_after(attempt + 1, None) == 8000,
        delay_after(attempt, Some(ms)) == ms,
{
    power2::lemma2_to64();
    power2::lemma_pow2_unfold(attempt + 1);
}

/// What is told of a refusal are the first 400 characters of what it says
/// between the spaces around it, or all where it says no more. A refusal that
/// says nothing is told by its status.
pub proof fn law_excerpt_says(body: Seq<char>, status: Seq<char>)
    ensures
        ({
            let said = text::trimmed(body);
            let told = error_excerpt(body, status);
            &&& said.len() == 0 ==> told == "empty body (HTTP "@ + status + ")"@
            &&& 0 < said.len() <= 400 ==> told == said
            &&& said.len() > 400 ==> told == said.subrange(0, 400)
        }),
{
}

/// The seconds until a time are the most whole seconds that are not longer than
/// what is left, and none where nothing is left.
pub proof fn law_whole_seconds_are_left(time: u64, now_secs: i64, now_nanos: u32)
    requires
        now_nanos < 1_000_000_000,
    ensures
        ({
            let left = (time - now_secs) * 1_000_000_000 - now_nanos;
            let wait = seconds_until(time, now_secs, now_nanos);
            &&& wait >= 0
            &&& left >= 0 ==> wait * 1_000_000_000 <= left < (wait + 1) * 1_000_000_000
            &&& left < 0 ==> wait == 0
        }),
{
}

/// A header that is a natural number asks for that many seconds. One that is
/// not asks for those until the date that it is, and for nothing where it is
/// none.
pub proof fn law_header_wait(
    value: Seq<char>,
    now_secs: i64,
    now_nanos: u32,
    secs: u64,
)
    ensures
        header_wait(text::decimal(secs as nat), now_secs, now_nanos) == Some(secs as int),
        text::natural(value) == Some(secs) ==> header_wait(value, now_secs, now_nanos) == Some(
            secs as int,
        ),
        text::natural(value) is None ==> match http_date(value) {
            Some(time) => header_wait(value, now_secs, now_nanos) == Some(
                seconds_until(time, now_secs, now_nanos),
            ),
            None => header_wait(value, now_secs, now_nanos) is None,
        },
{
    text::law_naturals_read(value, value, secs);
}

/// Requests go to the endpoint below the base, whether or not slashes follow
/// the base.
pub proof fn law_requests_go_below_base(base: Seq<char>, slashes: nat)
    requires
        base.len() > 0 ==> base.last() != '/',
    ensures
        service_url(base + Seq::new(slashes, |i: int| '/')) == base + "/v1/systemone"@,
    decreases slashes,
{
    let tail = Seq::new(slashes, |i: int| '/');
    let cut = seq!['/'];
    assert(cut.contains('/')) by {
        assert(cut[0] == '/');
    }
    if slashes == 0 {
        assert(base + tail =~= base);
    } else {
        let before = Seq::new((slashes - 1) as nat, |i: int| '/');
        law_requests_go_below_base(base, (slashes - 1) as nat);
        assert((base + tail).drop_last() =~= base + before);
        assert((base + tail).last() == '/');
        assert(text::without_trailing(base + tail, cut) == text::without_trailing(
            base + before,
            cut,
        ));
    }
}

/// What comes of an attempt. An answer that reads as an evaluation is what is
/// given; an answer that does not, or that is no evaluation, is an invalid
/// response; one that is lost on its way is a transport error. A refusal is
/// final for credentials, and after the last attempt; it is tried again exactly
/// for the statuses that pass by themselves. A request that does not arrive is
/// tried again until the last attempt.
pub proof fn law_reaction(attempt: nat, bytes: Seq<u8>, e: Seq<char>, status: u16, text: Seq<char>, wait_ms: Option<u64>)
    requires
        attempt < 6,
    ensures
        match document::read_bytes(bytes) {
            Err(problem) => reaction(attempt, ReplyView::Answered(bytes)) == StepView::Failed(
                ApiErrorView::InvalidResponse(problem),
            ),
            Ok(view) => match evaluation_of(view) {
                Err(problem) => reaction(attempt, ReplyView::Answered(bytes)) == StepView::Failed(
                    ApiErrorView::InvalidResponse(problem),
                ),
                Ok(evaluation) => reaction(attempt, ReplyView::Answered(bytes)) == StepView::Done(
                    evaluation,
                ),
            },
        },
        reaction(attempt, ReplyView::Unreadable(e)) == StepView::Failed(ApiErrorView::Transport(e)),
        reaction(5, ReplyView::Lost(e)) == StepView::Failed(ApiErrorView::Transport(e)),
        attempt < 5 ==> (reaction(attempt, ReplyView::Lost(e)) matches StepView::Retry {
            delay_ms,
            notice,
        } && delay_ms == delay_after(attempt, None) && notice == "Network retry "@ + text::decimal(
            attempt + 1,
        ) + "/"@ + text::decimal(5) + " after "@ + text::decimal(delay_ms as nat) + "ms"@),
        ({
            let refused = ReplyView::Refused { status, text, wait_ms };
            let told = error_excerpt(text, status_name(status));
            let passing = seq![429u16, 500u16, 502u16, 503u16, 504u16, 529u16].contains(status);
            &&& status == 401 || status == 403 ==> reaction(attempt, refused) == StepView::Failed(
                ApiErrorView::Auth(told),
            )
            &&& status != 401 && status != 403 && (!passing || attempt == 5) ==> reaction(
                attempt,
                refused,
            ) == StepView::Failed(ApiErrorView::Http(status, told))
            &&& passing && attempt < 5 ==> (reaction(attempt, refused) matches StepView::Retry {
                delay_ms,
                notice,
            } && delay_ms == delay_after(attempt, wait_ms) && notice == "API retry "@
                + text::decimal(attempt + 1) + "/"@ + text::decimal(5) + " after "@
                + text::decimal(delay_ms as nat) + "ms"@)
        }),
{
    let passing = seq![429u16, 500u16, 502u16, 503u16, 504u16, 529u16];
    assert(passing[0] == 429 && passing[1] == 500 && passing[2] == 502 && passing[3] == 503
        && passing[4] == 504 && passing[5] == 529);
    lemma_delay_fits(attempt, None);
    lemma_delay_fits(attempt, wait_ms);
    reveal_strlit("API retry ");
    reveal_strlit("Network retry ");
    reveal_strlit("API");
    reveal_strlit("Network");
    reveal_strlit(" retry ");
    assert("API retry "@ =~= "API"@ + " retry "@);
    assert("Network retry "@ =~= "Network"@ + " retry "@);
}

proof fn lemma_delay_fits(attempt: nat, server_ms: Option<u64>)
    ensures
        0 <= delay_after(attempt, server_ms) <= u64::MAX,
{
    law_backoff_grows(attempt, attempt);
}

/// The message of an error tells what kind it is, and all that it holds.
pub proof fn law_errors_say(status: u16, body: Seq<char>)
    ensures
        api_message(ApiErrorView::Auth(body)) == "API rejected the credentials: "@ + body
            + "; run jev login or set JEV_API_KEY"@,
        api_message(ApiErrorView::Transport(body)) == "API transport error: "@ + body,
        api_message(ApiErrorView::InvalidResponse(body)) == "Invalid API response: "@ + body,
        status_phrase(status) matches Some(phrase) ==> api_message(
            ApiErrorView::Http(status, body),
        ) == "API "@ + (text::decimal(status as nat) + " "@ + phrase) + ": "@ + body,
        status_phrase(status) is None ==> api_message(ApiErrorView::Http(status, body)) == "API "@
            + (text::decimal(status as nat) + " "@ + "<unknown status code>"@) + ": "@ + body,
{
}

/// A request that names no model asks the latest one.
pub proof fn law_latest_model_is_asked(body: JsonView)
    requires
        body is Object,
        body.get("model"@) is None,
    ensures
        pinned(body).get("model"@) == Some(JsonView::Str("jev-latest"@)),
{
    law_model_is_pinned(body, "model"@);
}

/// A login tries its key on a whole request: a state, the model, and one
/// question that can be answered by yes or no.
pub proof fn law_login_request()
    ensures
        login_request().get("state"@) == Some(JsonView::Str("login verification"@)),
        login_request().get("model"@) == Some(JsonView::Str("jev-latest"@)),
        login_request().get("questions"@) matches Some(questions) && questions.get(
            "ok"@,
        ) matches Some(question) && question.get("type"@) == Some(JsonView::Str("noul"@))
            && question.get("instructions"@) == Some(
            JsonView::Str("Is this sentence in English?"@),
        ),
{
    let none = Seq::<(Seq<char>, JsonView)>::empty();
    reveal_strlit("state");
    reveal_strlit("model");
    reveal_strlit("questions");
    reveal_strlit("type");
    reveal_strlit("instructions");
    assert("state"@[0] == 's' && "model"@[0] == 'm' && "questions"@[0] == 'q' && "type"@[0] == 't'
        && "instructions"@[0] == 'i');
    let kind = JsonView::Str("noul"@);
    let asked = JsonView::Str("Is this sentence in English?"@);
    let typed = json::put(none, "type"@, kind);
    let question = json::put(typed, "instructions"@, asked);
    json::lemma_put_found(none, "type"@, kind);
    json::lemma_put_found(typed, "instructions"@, asked);
    json::lemma_put_keeps(typed, "instructions"@, asked, "type"@);
    let questions = json::put(none, "ok"@, JsonView::Object(question));
    json::lemma_put_found(none, "ok"@, JsonView::Object(question));
    let state = JsonView::Str("login verification"@);
    let model = JsonView::Str(DEFAULT_MODEL@);
    let first = json::put(none, "state"@, state);
    let second = json::put(first, "model"@, model);
    json::lemma_put_found(none, "state"@, state);
    json::lemma_put_found(first, "model"@, model);
    json::lemma_put_keeps(first, "model"@, model, "state"@);
    json::lemma_put_found(second, "questions"@, JsonView::Object(questions));
    json::lemma_put_keeps(second, "questions"@, JsonView::Object(questions), "state"@);
    json::lemma_put_keeps(second, "questions"@, JsonView::Object(questions), "model"@);
}

/// What the body of a refusal asks for goes before what its header does, and a
/// second has a thousand milliseconds.
pub proof fn law_body_goes_before_header(
    body_ms: Option<u64>,
    header_secs: Option<u64>,
    wait: Option<u64>,
)
    requires
        body_ms is None ==> (header_secs matches Some(secs) ==> secs * 1000 <= u64::MAX),
        call_ensures(server_wait, (body_ms, header_secs), wait),
    ensures
        body_ms is Some ==> wait == body_ms,
        body_ms is None ==> (header_secs matches Some(secs) ==> wait matches Some(ms) && ms == 1000
            * secs),
        body_ms is None && header_secs is None ==> wait is None,
{
}

/// The statuses from 200 on and below 300 say that the service answered; those
/// that pass by themselves are tried again, and none is both.
pub proof fn law_statuses(status: u16, success: bool, again: bool)
    requires
        call_ensures(is_success, (status,), success),
        call_ensures(retryable_status, (status,), again),
    ensures
        success <==> status as int / 100 == 2,
        again <==> seq![429u16, 500u16, 502u16, 503u16, 504u16, 529u16].contains(status),
        !(success && again),
{
    let passing = seq![429u16, 500u16, 502u16, 503u16, 504u16, 529u16];
    assert(passing[0] == 429 && passing[1] == 500 && passing[2] == 502 && passing[3] == 503
        && passing[4] == 504 && passing[5] == 529);
}

/// Requests go to the base that is set, and to the usual one where none is.
pub proof fn law_usual_base(set: Option<String>, base: String)
    requires
        call_ensures(base_or_default, (set,), base),
    ensures
        set matches Some(named) ==> base@ == named@,
        set is None ==> base@ == "https://api.typesafe.ai"@,
{
}

/// The status of a refusal is told by its number and its phrase.
pub proof fn law_status_is_written(code: u16, phrase: Option<String>, text: String)
    requires
        call_ensures(write_status, (code, phrase), text),
    ensures
        phrase matches Some(said) ==> text@ == text::decimal(code as nat) + " "@ + said@,
        phrase is None ==> text@ == text::decimal(code as nat) + " "@ + "<unknown status code>"@,
{
}

/// Six attempts are made, of half a minute each at most.
pub proof fn law_attempts()
    ensures
        MAX_ATTEMPTS == 6,
        REQUEST_TIMEOUT_SECS == 30,
{
}

} // verus!
