//! The key of the service: from the environment, or from stored credentials.

use crate::error;
use crate::error::UsageError;
use crate::request;
use crate::text;
use vstd::prelude::*;

verus! {

/// The version of stored credentials.
pub const CREDENTIALS_VERSION: u32 = 1;

/// What is stored of a key.
#[derive(Debug)]
pub enum Stored {
    /// There are no credentials, for this reason.
    Missing(String),
    /// The credentials do not read, for this reason.
    Unreadable(String),
    Credentials { version: u32, key: String },
}

/// Whether a text is nothing but white space.
pub open spec fn is_blank(s: Seq<char>) -> bool {
    text::trimmed(s).len() == 0
}

fn blank(s: &str) -> (r: bool)
    ensures
        r == is_blank(s@),
{
    let t = text::trim(s);
    t.as_str().is_empty()
}

/// The key that stored credentials hold, or why they hold none.
pub open spec fn stored_key(stored: Stored) -> Result<Seq<char>, Seq<char>> {
    match stored {
        Stored::Missing(why) => Err(error::in_context("Not logged in; run jev login"@, why@)),
        Stored::Unreadable(why) => Err(error::in_context("Invalid credentials file"@, why@)),
        Stored::Credentials { version, key } => if version != CREDENTIALS_VERSION || is_blank(
            key@,
        ) {
            Err("Invalid credentials file"@)
        } else {
            Ok(key@)
        },
    }
}

/// The key to use: that of the environment, unless it is blank, goes before
/// that which is stored.
pub open spec fn chosen_key(env_key: Option<Seq<char>>, stored: Stored) -> Result<
    Seq<char>,
    Seq<char>,
> {
    match env_key {
        Some(key) => if is_blank(key) {
            stored_key(stored)
        } else {
            Ok(key)
        },
        None => stored_key(stored),
    }
}

/// Whether the stored key is asked for: the environment gives none, or a blank
/// one.
pub fn needs_stored(env_key: Option<&str>) -> (r: bool)
    ensures
        r == (match env_key {
            Some(key) => is_blank(key@),
            None => true,
        }),
{
    match env_key {
        Some(key) => blank(key),
        None => true,
    }
}

/// Chooses the key to use.
pub fn load_key_at(env_key: Option<String>, stored: Stored) -> (r: Result<String, UsageError>)
    ensures
        match r {
            Ok(key) => chosen_key(request::text_view(env_key), stored) == Ok::<
                Seq<char>,
                Seq<char>,
            >(key@),
            Err(e) => chosen_key(request::text_view(env_key), stored) == Err::<
                Seq<char>,
                Seq<char>,
            >(e@),
        },
{
    if let Some(key) = env_key {
        if !blank(key.as_str()) {
            return Ok(key);
        }
    }
    match stored {
        Stored::Missing(why) => Err(
            UsageError::caused("Not logged in; run jev login".to_owned(), why.as_str()),
        ),
        Stored::Unreadable(why) => Err(
            UsageError::caused("Invalid credentials file".to_owned(), why.as_str()),
        ),
        Stored::Credentials { version, key } => if version != CREDENTIALS_VERSION || blank(
            key.as_str(),
        ) {
            Err(UsageError::fixed("Invalid credentials file"))
        } else {
            Ok(key)
        },
    }
}

/// Checks that a login has a terminal to ask for the key.
pub fn check_login(terminal: bool) -> (r: Result<(), UsageError>)
    ensures
        match r {
            Ok(()) => terminal,
            Err(e) => !terminal && e@ == "login requires an interactive terminal"@,
        },
{
    if terminal {
        Ok(())
    } else {
        Err(UsageError::fixed("login requires an interactive terminal"))
    }
}

/// Checks a key before it is tried.
pub fn check_key(key: &str) -> (r: Result<(), UsageError>)
    ensures
        match r {
            Ok(()) => !is_blank(key@),
            Err(e) => is_blank(key@) && e@ == "API key must not be empty"@,
        },
{
    if blank(key) {
        Err(UsageError::fixed("API key must not be empty"))
    } else {
        Ok(())
    }
}

/// Where the environment gives a key, what is stored does not matter.
pub proof fn law_environment_goes_first(key: Seq<char>, stored: Stored, other: Stored)
    requires
        !is_blank(key),
    ensures
        chosen_key(Some(key), stored) == Ok::<Seq<char>, Seq<char>>(key),
        chosen_key(Some(key), stored) == chosen_key(Some(key), other),
{
}

/// A key that is chosen is never blank.
pub proof fn law_key_is_never_blank(env_key: Option<Seq<char>>, stored: Stored)
    requires
        chosen_key(env_key, stored) is Ok,
    ensures
        !is_blank(chosen_key(env_key, stored)->Ok_0),
{
}

/// A text is blank exactly where each of its characters is white space.
pub proof fn law_blank(s: Seq<char>)
    ensures
        is_blank(s) <==> forall|k: int| 0 <= k < s.len() ==> text::is_space(#[trigger] s[k]),
{
    text::law_trimmed(s);
    let (from, to) = choose|from: int, to: int|
        0 <= from <= to <= s.len() && text::trimmed(s) == #[trigger] s.subrange(from, to) && (
        forall|k: int| 0 <= k < from || to <= k < s.len() ==> text::is_space(#[trigger] s[k]));
    if !is_blank(s) {
        assert(text::trimmed(s)[0] == s[from]);
    }
}

/// The stored key is used where the environment gives none or a blank one. It
/// is one only in credentials of the first version, and only where it is not
/// blank; anything else is an error that tells what is wrong.
pub proof fn law_stored_key(env_key: Option<Seq<char>>, version: u32, key: String, why: String)
    requires
        env_key matches Some(given) ==> is_blank(given),
    ensures
        version == 1 && !is_blank(key@) ==> chosen_key(
            env_key,
            (Stored::Credentials { version, key }),
        ) == Ok::<Seq<char>, Seq<char>>(key@),
        version != 1 || is_blank(key@) ==> chosen_key(
            env_key,
            (Stored::Credentials { version, key }),
        ) == Err::<Seq<char>, Seq<char>>("Invalid credentials file"@),
        chosen_key(env_key, Stored::Missing(why)) == Err::<Seq<char>, Seq<char>>(
            "Not logged in; run jev login"@ + ": "@ + why@,
        ),
        chosen_key(env_key, Stored::Unreadable(why)) == Err::<Seq<char>, Seq<char>>(
            "Invalid credentials file"@ + ": "@ + why@,
        ),
{
}

/// Whatever key is chosen is that of the environment where it is more than white
/// space, and otherwise the stored one.
pub proof fn law_key_that_is_used(
    env_key: Option<String>,
    stored: Stored,
    r: Result<String, UsageError>,
)
    requires
        call_ensures(load_key_at, (env_key, stored), r),
    ensures
        env_key matches Some(key) ==> !is_blank(key@) ==> (r matches Ok(used) && used@ == key@),
        (env_key matches Some(key) ==> is_blank(key@)) ==> match stored {
            Stored::Credentials { version, key } => if version == 1 && !is_blank(key@) {
                r matches Ok(used) && used@ == key@
            } else {
                r matches Err(e) && e@ == "Invalid credentials file"@
            },
            Stored::Missing(why) => r matches Err(e) && e@ == "Not logged in; run jev login: "@
                + why@,
            Stored::Unreadable(why) => r matches Err(e) && e@ == "Invalid credentials file: "@
                + why@,
        },
{
    reveal_strlit("Not logged in; run jev login");
    reveal_strlit("Not logged in; run jev login: ");
    reveal_strlit("Invalid credentials file");
    reveal_strlit("Invalid credentials file: ");
    reveal_strlit(": ");
    assert("Not logged in; run jev login: "@ =~= "Not logged in; run jev login"@ + ": "@);
    assert("Invalid credentials file: "@ =~= "Invalid credentials file"@ + ": "@);
}

/// What is stored is asked for exactly where the environment gives no key, or
/// one of white space alone.
pub proof fn law_stored_is_asked_for(env_key: Option<&str>, asked: bool)
    requires
        call_ensures(needs_stored, (env_key,), asked),
    ensures
        asked <==> (env_key matches Some(key) ==> forall|k: int|
            0 <= k < key@.len() ==> text::is_space(#[trigger] key@[k])),
{
    if let Some(key) = env_key {
        law_blank(key@);
    }
}

/// A login needs a terminal, and a key that is more than white space.
pub proof fn law_login_needs(
    terminal: bool,
    key: &str,
    may_ask: Result<(), UsageError>,
    may_try: Result<(), UsageError>,
)
    requires
        call_ensures(check_login, (terminal,), may_ask),
        call_ensures(check_key, (key,), may_try),
    ensures
        may_ask is Ok <==> terminal,
        may_ask matches Err(e) ==> e@ == "login requires an interactive terminal"@,
        may_try is Ok <==> exists|k: int|
            0 <= k < key@.len() && !text::is_space(#[trigger] key@[k]),
        may_try matches Err(e) ==> e@ == "API key must not be empty"@,
{
    law_blank(key@);
}

} // verus!
