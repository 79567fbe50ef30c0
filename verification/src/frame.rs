//! Decoding of inbound frames (JSON payloads carrying credentials or chat
//! messages) and formatting of outbound lines and control markers.

use vstd::prelude::*;
use vstd::string::StringExecFns;

verus! {

/// The string value at top-level key `key` of the JSON object that `text`
/// parses to; `None` when `text` is not valid JSON, when the parsed value
/// holds nothing under `key`, or when what it holds there is not a string.
/// A function of the two arguments alone.
pub uninterp spec fn json_str_field(text: Seq<char>, key: Seq<char>) -> Option<Seq<char>>;

/// Relies on serde_json::from_str::<serde_json::Value>, serde_json::Value::get
/// and serde_json::Value::as_str: parsing is deterministic, and the string
/// found (or not found) under a top-level key depends on `text` and `key`
/// alone.
#[verifier::external_body]
fn json_string_field(text: &str, key: &str) -> (field: Option<String>)
    ensures
        field is Some <==> json_str_field(text@, key@) is Some,
        field is Some ==> field->0@ == json_str_field(text@, key@)->0,
{
    let value: serde_json::Value = match serde_json::from_str(text) {
        Ok(v) => v,
        Err(_) => return None,
    };
    match value.get(key) {
        Some(inner) => match inner.as_str() {
            Some(s) => Some(s.to_string()),
            None => None,
        },
        None => None,
    }
}

/// A decoded credential payload: what the first frame of every connection
/// must carry.
pub struct AuthFrame {
    pub username: String,
    pub password: String,
}

/// A decoded chat payload: a display name and the message body.
pub struct ChatFrame {
    pub name: String,
    pub msg: String,
}

/// Decodes the first-frame credential payload: a JSON object with string
/// fields "username" and "password".
pub fn parse_auth_frame(text: &str) -> (frame: Option<AuthFrame>)
    ensures
        frame is Some <==> (json_str_field(text@, "username"@) is Some && json_str_field(
            text@,
            "password"@,
        ) is Some),
        frame is Some ==> frame->0.username@ == json_str_field(text@, "username"@)->0,
        frame is Some ==> frame->0.password@ == json_str_field(text@, "password"@)->0,
{
    let username = match json_string_field(text, "username") {
        Some(u) => u,
        None => {
            return None;
        },
    };
    let password = match json_string_field(text, "password") {
        Some(p) => p,
        None => {
            return None;
        },
    };
    Some(AuthFrame { username, password })
}

/// Decodes a chat payload: a JSON object with string fields "name" and
/// "msg".
pub fn parse_chat_frame(text: &str) -> (frame: Option<ChatFrame>)
    ensures
        frame is Some <==> (json_str_field(text@, "name"@) is Some && json_str_field(
            text@,
            "msg"@,
        ) is Some),
        frame is Some ==> frame->0.name@ == json_str_field(text@, "name"@)->0,
        frame is Some ==> frame->0.msg@ == json_str_field(text@, "msg"@)->0,
{
    let name = match json_string_field(text, "name") {
        Some(n) => n,
        None => {
            return None;
        },
    };
    let msg = match json_string_field(text, "msg") {
        Some(m) => m,
        None => {
            return None;
        },
    };
    Some(ChatFrame { name, msg })
}

/// The display form of a chat message: "author: body".
pub open spec fn line_of(author: Seq<char>, body: Seq<char>) -> Seq<char> {
    author + ": "@ + body
}

/// Formats a chat message with the identity of its sender.
pub fn format_line(author: &str, body: &str) -> (line: String)
    ensures
        line@ == line_of(author@, body@),
{
    let mut line: String = author.to_owned();
    line.append(": ");
    line.append(body);
    line
}

/// The reserved control frame acknowledging successful authentication.
pub open spec fn auth_ok_marker() -> Seq<char> {
    "#auth-ok"@
}

/// The reserved control frame signalling an explicit rejection.
pub open spec fn auth_rejected_marker() -> Seq<char> {
    "#auth-rejected"@
}

/// The control markers can never be mistaken for a chat line: every chat
/// line holds a colon right after its author, while neither marker holds a
/// colon anywhere.
pub proof fn lemma_markers_are_not_chat_lines(author: Seq<char>, body: Seq<char>)
    ensures
        line_of(author, body) != auth_ok_marker(),
        line_of(author, body) != auth_rejected_marker(),
{
    reveal_strlit(": ");
    reveal_strlit("#auth-ok");
    reveal_strlit("#auth-rejected");
    let line = line_of(author, body);
    let at = author.len() as int;
    assert(line.len() == author.len() + 2 + body.len());
    assert(auth_ok_marker().len() == 8);
    assert(auth_rejected_marker().len() == 14);
    assert(line[at] == ':');
    if line == auth_ok_marker() {
        assert(auth_ok_marker()[at] == ':');
        assert(0 <= at < 8);
        assert(auth_ok_marker()[0] != ':');
        assert(auth_ok_marker()[1] != ':');
        assert(auth_ok_marker()[2] != ':');
        assert(auth_ok_marker()[3] != ':');
        assert(auth_ok_marker()[4] != ':');
        assert(auth_ok_marker()[5] != ':');
        assert(auth_ok_marker()[6] != ':');
        assert(auth_ok_marker()[7] != ':');
        assert(false);
    }
    if line == auth_rejected_marker() {
        assert(auth_rejected_marker()[at] == ':');
        assert(0 <= at < 14);
        assert(auth_rejected_marker()[0] != ':');
        assert(auth_rejected_marker()[1] != ':');
        assert(auth_rejected_marker()[2] != ':');
        assert(auth_rejected_marker()[3] != ':');
        assert(auth_rejected_marker()[4] != ':');
        assert(auth_rejected_marker()[5] != ':');
        assert(auth_rejected_marker()[6] != ':');
        assert(auth_rejected_marker()[7] != ':');
        assert(auth_rejected_marker()[8] != ':');
        assert(auth_rejected_marker()[9] != ':');
        assert(auth_rejected_marker()[10] != ':');
        assert(auth_rejected_marker()[11] != ':');
        assert(auth_rejected_marker()[12] != ':');
        assert(auth_rejected_marker()[13] != ':');
        assert(false);
    }
}

/// The acknowledgement frame a client receives when admitted.
pub fn auth_ok_frame() -> (frame: String)
    ensures
        frame@ == auth_ok_marker(),
{
    "#auth-ok".to_owned()
}

/// The rejection frame a client receives when turned away.
pub fn auth_rejected_frame() -> (frame: String)
    ensures
        frame@ == auth_rejected_marker(),
{
    "#auth-rejected".to_owned()
}

} // verus!
