//! Values given on the command line, in files and on standard input.

use crate::document;
use crate::error::UsageError;
use crate::json::{Json, JsonView};
use crate::request;
use crate::text;
use vstd::prelude::*;
use vstd::utf8;

verus! {

/// What bytes say where sequences that are not UTF-8 read as replacement
/// characters: what `String::from_utf8_lossy` gives.
pub uninterp spec fn lossy_text(bytes: Seq<u8>) -> Seq<char>;

/// Calls `String::from_utf8_lossy`. The result depends on the bytes alone;
/// bytes that are UTF-8 read as the text that they encode.
#[verifier::external_body]
fn text_of_bytes(bytes: &[u8]) -> (r: String)
    ensures
        r@ == lossy_text(bytes@),
        utf8::valid_utf8(bytes@) ==> r@ == utf8::decode_utf8(bytes@),
{
    String::from_utf8_lossy(bytes).into_owned()
}

/// A value as it is given: itself, or where to read it.
#[derive(Debug)]
pub enum Given {
    Value(Json),
    File(String),
    Stdin,
}

/// What a given value says.
#[verifier::ext_equal]
pub enum GivenView {
    Value(JsonView),
    File(Seq<char>),
    Stdin,
}

impl View for Given {
    type V = GivenView;

    open spec fn view(&self) -> GivenView {
        match self {
            Given::Value(json) => GivenView::Value(json@),
            Given::File(path) => GivenView::File(path@),
            Given::Stdin => GivenView::Stdin,
        }
    }
}

/// `@-` is standard input, `@PATH` a file, and any other text itself.
pub open spec fn given(text: Seq<char>) -> GivenView {
    match text::after_prefix(text, '@') {
        None => GivenView::Value(JsonView::Str(text)),
        Some(path) => if path == "-"@ {
            GivenView::Stdin
        } else {
            GivenView::File(path)
        },
    }
}

/// Tells where a value is given.
pub fn read_given(text: &str) -> (r: Given)
    ensures
        r@ == given(text@),
{
    match text::strip_prefix(text, '@') {
        None => Given::Value(Json::Str(text.to_owned())),
        Some(path) => if text::same(path.as_str(), "-") {
            Given::Stdin
        } else {
            Given::File(path)
        },
    }
}

/// A parameter: its name, and its value as it is given.
pub open spec fn param_of(spec_text: Seq<char>) -> Result<(Seq<char>, GivenView), Seq<char>> {
    match text::halves(spec_text, '=') {
        None => Err(
            "invalid --param '"@ + spec_text + "'; expected NAME=VALUE or NAME=@PATH"@,
        ),
        Some((name, value)) => if name.len() == 0 {
            Err(
                "invalid --param '"@ + spec_text
                    + "'; the name before '=' must not be empty"@,
            )
        } else {
            Ok((name, given(value)))
        },
    }
}

fn invalid_param(spec_text: &str, why: &str) -> (r: UsageError)
    ensures
        r@ == "invalid --param '"@ + spec_text@ + why@,
{
    let mut message = "invalid --param '".to_owned();
    message.append(spec_text);
    message.append(why);
    UsageError::new(message)
}

/// Reads `NAME=VALUE`, `NAME=@PATH` or `NAME=@-`.
pub fn parse_param(spec_text: &str) -> (r: Result<(String, Given), UsageError>)
    ensures
        match r {
            Ok((name, value)) => param_of(spec_text@) == Ok::<(Seq<char>, GivenView), Seq<char>>(
                (name@, value@),
            ),
            Err(e) => param_of(spec_text@) == Err::<(Seq<char>, GivenView), Seq<char>>(e@),
        },
{
    match text::split_once(spec_text, '=') {
        None => Err(invalid_param(spec_text, "'; expected NAME=VALUE or NAME=@PATH")),
        Some((name, value)) => if name.as_str().is_empty() {
            assert(name@.len() == 0);
            Err(invalid_param(spec_text, "'; the name before '=' must not be empty"))
        } else {
            assert(name@.len() > 0);
            Ok((name, read_given(value.as_str())))
        },
    }
}

/// Where the state of a request comes from.
#[derive(Debug)]
pub enum StateInput {
    Given(Given),
    /// Piped on standard input.
    Piped,
}

/// What an optional text says.
pub open spec fn str_view(text: Option<&str>) -> Option<Seq<char>> {
    match text {
        Some(text) => Some(text@),
        None => None,
    }
}

/// Tells where the state comes from: from the argument, or from standard
/// input, which must not be a terminal then.
pub fn load_state_value(arg: Option<&str>, terminal: bool) -> (r: Result<StateInput, UsageError>)
    ensures
        match r {
            Ok(StateInput::Given(value)) => arg is Some && value@ == given(arg->Some_0@),
            Ok(StateInput::Piped) => arg is None && !terminal,
            Err(e) => arg is None && terminal && e@
                == "state is required: pass --state TEXT, --state @PATH, or pipe it on stdin"@,
        },
{
    match arg {
        Some(text) => Ok(StateInput::Given(read_given(text))),
        None => if terminal {
            Err(
                UsageError::fixed(
                    "state is required: pass --state TEXT, --state @PATH, or pipe it on stdin",
                ),
            )
        } else {
            Ok(StateInput::Piped)
        },
    }
}

/// Refuses to read from a terminal.
pub fn check_stdin(label: &str, terminal: bool) -> (r: Result<(), UsageError>)
    ensures
        match r {
            Ok(()) => !terminal,
            Err(e) => terminal && e@ == "expected input on stdin for "@ + label@
                + "; pipe a file or pass a PATH instead"@,
        },
{
    if terminal {
        let mut message = "expected input on stdin for ".to_owned();
        message.append(label);
        message.append("; pipe a file or pass a PATH instead");
        Err(UsageError::new(message))
    } else {
        Ok(())
    }
}

/// Spaces between bytes: space, tab, line feed, form feed, carriage return.
pub open spec fn is_blank_byte(b: u8) -> bool {
    b == 0x20 || b == 0x09 || b == 0x0A || b == 0x0C || b == 0x0D
}

/// The first byte that is not a space.
pub open spec fn first_visible(bytes: Seq<u8>) -> Option<u8>
    decreases bytes.len(),
{
    if bytes.len() == 0 {
        None
    } else if is_blank_byte(bytes[0]) {
        first_visible(bytes.drop_first())
    } else {
        Some(bytes[0])
    }
}

/// Whether bytes are to be read as a document: an object or an array.
pub open spec fn looks_structured(bytes: Seq<u8>) -> bool {
    first_visible(bytes) == Some(0x7Bu8) || first_visible(bytes) == Some(0x5Bu8)
}

fn is_structured(bytes: &[u8]) -> (r: bool)
    ensures
        r == looks_structured(bytes@),
{
    let mut i: usize = 0;
    assert(bytes@.skip(0) =~= bytes@);
    while i < bytes.len()
        invariant
            i <= bytes@.len(),
            first_visible(bytes@) == first_visible(bytes@.skip(i as int)),
        decreases bytes@.len() - i,
    {
        let b = bytes[i];
        assert(bytes@.skip(i as int)[0] == b);
        assert(bytes@.skip(i as int).drop_first() =~= bytes@.skip(i + 1));
        if !(b == 0x20 || b == 0x09 || b == 0x0A || b == 0x0C || b == 0x0D) {
            return b == 0x7B || b == 0x5B;
        }
        i += 1;
    }
    false
}

/// A text without the ends of its last lines.
pub open spec fn plain_value(text: Seq<char>) -> JsonView {
    JsonView::Str(text::without_trailing(text, seq!['\r', '\n']))
}

/// A text as a value, without the ends of its last lines.
pub fn plain_text(text: &str) -> (r: Json)
    ensures
        r@ == plain_value(text@),
{
    let cut: Vec<char> = vec!['\r', '\n'];
    assert(cut@ =~= seq!['\r', '\n']);
    Json::Str(text::strip_trailing(text, &cut))
}

/// What bytes say: an object or an array stays structured, anything else is a
/// string.
pub open spec fn interpreted(bytes: Seq<u8>, label: Seq<char>) -> Result<JsonView, Seq<char>> {
    if looks_structured(bytes) {
        request::labelled(document::read_bytes(bytes), label)
    } else {
        Ok(plain_value(lossy_text(bytes)))
    }
}

/// Reads a value: an object or an array stays structured, anything else
/// becomes a string.
pub fn interpret_bytes(bytes: &[u8], label: &str) -> (r: Result<Json, UsageError>)
    ensures
        match r {
            Ok(json) => interpreted(bytes@, label@) == Ok::<JsonView, Seq<char>>(json@),
            Err(e) => interpreted(bytes@, label@) == Err::<JsonView, Seq<char>>(e@),
        },
        !looks_structured(bytes@) && utf8::valid_utf8(bytes@) ==> (r matches Ok(
            json,
        ) && json@ == plain_value(utf8::decode_utf8(bytes@))),
{
    if is_structured(bytes) {
        request::label_reading(document::read_json_bytes(bytes), label)
    } else {
        Ok(plain_text(text_of_bytes(bytes).as_str()))
    }
}

/// Reads the value of a file that is given as `@PATH`.
pub fn interpret_file(bytes: &[u8], path: &str) -> (r: Result<Json, UsageError>)
    ensures
        match r {
            Ok(json) => interpreted(bytes@, "@"@ + path@) == Ok::<JsonView, Seq<char>>(json@),
            Err(e) => interpreted(bytes@, "@"@ + path@) == Err::<JsonView, Seq<char>>(e@),
        },
{
    let mut label = "@".to_owned();
    label.append(path);
    interpret_bytes(bytes, label.as_str())
}

/// A value is given as `@-`, as `@` and a path, or as itself: exactly one of
/// these.
pub proof fn law_given(text: Seq<char>, path: Seq<char>)
    ensures
        given(text) == GivenView::Stdin <==> text == "@-"@,
        given(text) == GivenView::File(path) <==> text == "@"@ + path && path != "-"@,
        text.len() == 0 || text[0] != '@' ==> given(text) == GivenView::Value(JsonView::Str(text)),
        given(text) is Value ==> text.len() == 0 || text[0] != '@',
{
    reveal_strlit("@-");
    reveal_strlit("@");
    reveal_strlit("-");
    assert("@-"@ =~= seq!['@'] + "-"@);
    assert("@"@ =~= seq!['@']);
    text::law_prefix(text, '@', "-"@);
    text::law_prefix(text, '@', path);
    if text.len() > 0 && text[0] == '@' {
        text::law_prefix(text, '@', text.drop_first());
    }
}

/// A parameter is a name, an equals sign and a value: the name is not empty and
/// holds no equals sign, the value is whatever follows. Nothing else is a
/// parameter.
pub proof fn law_params_split(spec_text: Seq<char>, name: Seq<char>, value: Seq<char>)
    ensures
        param_of(spec_text) is Ok <==> spec_text.contains('=') && spec_text[0] != '=',
        name.len() > 0 && !name.contains('=') ==> param_of(name + seq!['='] + value) == Ok::<
            (Seq<char>, GivenView),
            Seq<char>,
        >((name, given(value))),
{
    text::law_halves(spec_text, '=', name, value);
    match text::halves(spec_text, '=') {
        Some((before, after)) => {
            assert(spec_text[before.len() as int] == '=');
            if before.len() > 0 {
                assert(spec_text[0] == before[0]);
                assert(before.contains(before[0]));
            }
        },
        None => {},
    }
}

/// Bytes are read as a document exactly where the first of them that is no
/// space opens an object or an array.
pub proof fn law_structured(bytes: Seq<u8>)
    ensures
        looks_structured(bytes) <==> exists|k: int|
            0 <= k < bytes.len() && (#[trigger] bytes[k] == 0x7B || bytes[k] == 0x5B) && forall|
                j: int,
            |
                0 <= j < k ==> (#[trigger] bytes[j] == 0x20 || bytes[j] == 0x09 || bytes[j] == 0x0A
                    || bytes[j] == 0x0C || bytes[j] == 0x0D),
    decreases bytes.len(),
{
    if bytes.len() > 0 && is_blank_byte(bytes[0]) {
        let rest = bytes.drop_first();
        law_structured(rest);
        if looks_structured(rest) {
            let k = choose|k: int|
                0 <= k < rest.len() && (#[trigger] rest[k] == 0x7B || rest[k] == 0x5B) && forall|
                    j: int,
                |
                    0 <= j < k ==> (#[trigger] rest[j] == 0x20 || rest[j] == 0x09 || rest[j] == 0x0A
                        || rest[j] == 0x0C || rest[j] == 0x0D);
            assert(bytes[k + 1] == rest[k]);
            assert forall|j: int| 0 <= j < k + 1 implies (#[trigger] bytes[j] == 0x20 || bytes[j]
                == 0x09 || bytes[j] == 0x0A || bytes[j] == 0x0C || bytes[j] == 0x0D) by {
                if j > 0 {
                    assert(bytes[j] == rest[j - 1]);
                }
            }
        }
        if exists|k: int|
            0 <= k < bytes.len() && (#[trigger] bytes[k] == 0x7B || bytes[k] == 0x5B) && forall|
                j: int,
            |
                0 <= j < k ==> (#[trigger] bytes[j] == 0x20 || bytes[j] == 0x09 || bytes[j] == 0x0A
                    || bytes[j] == 0x0C || bytes[j] == 0x0D) {
            let k = choose|k: int|
                0 <= k < bytes.len() && (#[trigger] bytes[k] == 0x7B || bytes[k] == 0x5B) && forall|
                    j: int,
                |
                    0 <= j < k ==> (#[trigger] bytes[j] == 0x20 || bytes[j] == 0x09 || bytes[j]
                        == 0x0A || bytes[j] == 0x0C || bytes[j] == 0x0D);
            assert(rest[k - 1] == bytes[k]);
            assert forall|j: int| 0 <= j < k - 1 implies (#[trigger] rest[j] == 0x20 || rest[j]
                == 0x09 || rest[j] == 0x0A || rest[j] == 0x0C || rest[j] == 0x0D) by {
                assert(rest[j] == bytes[j + 1]);
            }
        }
    } else if bytes.len() > 0 {
        if exists|k: int|
            0 <= k < bytes.len() && (#[trigger] bytes[k] == 0x7B || bytes[k] == 0x5B) && forall|
                j: int,
            |
                0 <= j < k ==> (#[trigger] bytes[j] == 0x20 || bytes[j] == 0x09 || bytes[j] == 0x0A
                    || bytes[j] == 0x0C || bytes[j] == 0x0D) {
            let k = choose|k: int|
                0 <= k < bytes.len() && (#[trigger] bytes[k] == 0x7B || bytes[k] == 0x5B) && forall|
                    j: int,
                |
                    0 <= j < k ==> (#[trigger] bytes[j] == 0x20 || bytes[j] == 0x09 || bytes[j]
                        == 0x0A || bytes[j] == 0x0C || bytes[j] == 0x0D);
            if k > 0 {
                assert(is_blank_byte(bytes[0]));
            }
        }
    }
}

/// A text becomes a string that is the text but for line ends behind it: all of
/// these are cut, and nothing else is, whatever line ends it holds inside.
pub proof fn law_plain_text(text: Seq<char>)
    ensures
        plain_value(text) matches JsonView::Str(s) && {
            &&& s.len() <= text.len()
            &&& s == text.take(s.len() as int)
            &&& forall|k: int|
                s.len() <= k < text.len() ==> (#[trigger] text[k] == '\r' || text[k] == '\n')
            &&& s.len() > 0 ==> s.last() != '\r' && s.last() != '\n'
        },
        text.len() > 0 && text.last() != '\r' && text.last() != '\n' ==> plain_value(text)
            == JsonView::Str(text),
        plain_value(text.push('\n')) == plain_value(text),
        plain_value(text.push('\r')) == plain_value(text),
{
    let cut = seq!['\r', '\n'];
    text::law_trailing_is_cut(text, cut);
    let s = text::without_trailing(text, cut);
    assert(cut[0] == '\r' && cut[1] == '\n');
    assert(cut.contains('\r') && cut.contains('\n'));
    assert forall|k: int| s.len() <= k < text.len() implies (#[trigger] text[k] == '\r' || text[k]
        == '\n') by {
        assert(cut.contains(text[k]));
    }
    assert(text.push('\n').drop_last() =~= text);
    assert(text.push('\r').drop_last() =~= text);
}

/// What is read is structured, or the text of the bytes as a string: a value
/// that does not look structured never fails to read.
pub proof fn law_interpreted(bytes: Seq<u8>, label: Seq<char>)
    ensures
        !looks_structured(bytes) ==> interpreted(bytes, label) == Ok::<JsonView, Seq<char>>(
            plain_value(lossy_text(bytes)),
        ),
        looks_structured(bytes) ==> (match document::read_bytes(bytes) {
            Ok(view) => interpreted(bytes, label) == Ok::<JsonView, Seq<char>>(view),
            Err(e) => interpreted(bytes, label) == Err::<JsonView, Seq<char>>(
                "invalid JSON in "@ + label + ": "@ + e,
            ),
        }),
{
}

/// What is no parameter is told, and whether it lacks the equals sign or the
/// name before it.
pub proof fn law_bad_params_are_told(spec_text: Seq<char>)
    ensures
        !spec_text.contains('=') ==> param_of(spec_text) == Err::<
            (Seq<char>, GivenView),
            Seq<char>,
        >("invalid --param '"@ + spec_text + "'; expected NAME=VALUE or NAME=@PATH"@),
        spec_text.len() > 0 && spec_text[0] == '=' ==> param_of(spec_text) == Err::<
            (Seq<char>, GivenView),
            Seq<char>,
        >(
            "invalid --param '"@ + spec_text + "'; the name before '=' must not be empty"@,
        ),
{
    text::law_halves(spec_text, '=', Seq::empty(), spec_text.skip(1));
    if spec_text.len() > 0 && spec_text[0] == '=' {
        assert(Seq::<char>::empty() + seq!['='] + spec_text.skip(1) =~= spec_text);
    }
    if !spec_text.contains('=') {
        if let Some((before, after)) = text::halves(spec_text, '=') {
            assert(spec_text[before.len() as int] == '=');
        }
    }
}

/// Whatever a text becomes is a string with all of it but the line ends behind
/// it.
pub proof fn law_text_is_kept(text: &str, value: Json)
    requires
        call_ensures(plain_text, (text,), value),
    ensures
        value@ matches JsonView::Str(s) && {
            &&& s.len() <= text@.len()
            &&& s == text@.take(s.len() as int)
            &&& forall|k: int|
                s.len() <= k < text@.len() ==> (#[trigger] text@[k] == '\r' || text@[k] == '\n')
            &&& s.len() > 0 ==> s.last() != '\r' && s.last() != '\n'
        },
{
    law_plain_text(text@);
}

/// The state comes from the argument where there is one, and otherwise from
/// standard input, unless that is a terminal.
pub proof fn law_state_comes_from(arg: Option<&str>, terminal: bool, r: Result<StateInput, UsageError>)
    requires
        call_ensures(load_state_value, (arg, terminal), r),
    ensures
        r is Err <==> arg is None && terminal,
        arg matches Some(text) ==> (r matches Ok(StateInput::Given(value)) && value@ == given(
            text@,
        )),
        arg is None && !terminal ==> (r matches Ok(StateInput::Piped)),
{
}

/// Nothing is read from a terminal.
pub proof fn law_no_terminal_is_read(label: &str, terminal: bool, r: Result<(), UsageError>)
    requires
        call_ensures(check_stdin, (label, terminal), r),
    ensures
        r is Err <==> terminal,
        r matches Err(e) ==> e@ == "expected input on stdin for "@ + label@
            + "; pipe a file or pass a PATH instead"@,
{
}

} // verus!
