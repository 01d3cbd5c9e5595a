//! The error that parsing reports, and the messages it carries.
use vstd::prelude::*;
use vstd::string::StringExecFns;
use crate::json::{JsonValue, JsonView, kind_name, value_type_name};
use crate::json_text::{display_json, json_display};

verus! {

/// An error returned when one of the input parts cannot be parsed.
#[derive(Debug, Clone, PartialEq, Eq)]
pub struct ParseInputError {
    message: String,
}

impl View for ParseInputError {
    type V = Seq<char>;

    /// The error message.
    closed spec fn view(&self) -> Seq<char> {
        self.message@
    }
}

/// What `format!("{:?}", s)` writes for a string `s`: its text quoted and escaped
/// as Rust's `Debug` for `str` does.
pub uninterp spec fn str_debug(s: Seq<char>) -> Seq<char>;

/// The `Debug` text of a string, as `format!("{:?}", s)` writes it (std's `Debug`
/// for `str`). The contract claims no more than that the result depends on the
/// characters of `s` alone; `str_debug` names it.
#[verifier::external_body]
fn debug_text(s: &str) -> (r: String)
    ensures
        r@ == str_debug(s@),
{
    format!("{:?}", s)
}

/// The message for a part that none of the forms accepts.
pub open spec fn unexpected_message(input: Seq<char>) -> Seq<char> {
    "unexpected input: "@ + str_debug(input)
}

/// The message for a `path:=json` part whose JSON text `serde_json` refused with `error`.
pub open spec fn invalid_json_message(input: Seq<char>, error: Seq<char>) -> Seq<char> {
    "invalid JSON value in "@ + str_debug(input) + ": "@ + error
}

/// The ways a path step can meet a value that is not the container it needs.
pub enum MismatchKind {
    /// A key step met a value that is neither null nor an object.
    Key,
    /// An index step met a value that is neither null nor an array.
    Index,
    /// An append step met a value that is neither null nor an array.
    End,
}

pub open spec fn mismatch_prefix(kind: MismatchKind) -> Seq<char> {
    match kind {
        MismatchKind::Key => "attempted to access key of non-object ("@,
        MismatchKind::Index => "attempted to access index of non-array ("@,
        MismatchKind::End => "attempted to access end of non-array ("@,
    }
}

/// The message for a path step of `kind` that met `target`.
pub open spec fn mismatch_message(kind: MismatchKind, target: JsonView) -> Seq<char> {
    mismatch_prefix(kind) + kind_name(target) + "): "@ + json_display(target)
}

impl ParseInputError {
    /// An error with this message.
    fn new(message: String) -> (e: ParseInputError)
        ensures
            e@ == message@,
    {
        ParseInputError { message }
    }

    /// Returns the error message.
    pub fn message(&self) -> (r: &str)
        ensures
            r@ == self@,
    {
        self.message.as_str()
    }

    /// The error for a part that none of the forms accepts.
    pub fn unexpected(input: &str) -> (e: ParseInputError)
        ensures
            e@ == unexpected_message(input@),
    {
        let quoted = debug_text(input);
        let mut message = "unexpected input: ".to_owned();
        message.append(quoted.as_str());
        ParseInputError::new(message)
    }

    /// The error for a `path:=json` part whose JSON text `serde_json` refused,
    /// with `serde_json`'s own message `error`.
    pub fn invalid_json(input: &str, error: &str) -> (e: ParseInputError)
        ensures
            e@ == invalid_json_message(input@, error@),
    {
        let quoted = debug_text(input);
        let mut message = "invalid JSON value in ".to_owned();
        message.append(quoted.as_str());
        message.append(": ");
        message.append(error);
        ParseInputError::new(message)
    }

    /// The error for a path step of `kind` that met a value of kind `kind` whose
    /// JSON text is `shown`.
    pub fn mismatch_from(kind: MismatchKind, kind_text: &str, shown: &str) -> (e: ParseInputError)
        ensures
            e@ == mismatch_prefix(kind) + kind_text@ + "): "@ + shown@,
    {
        let mut message = match kind {
            MismatchKind::Key => "attempted to access key of non-object (".to_owned(),
            MismatchKind::Index => "attempted to access index of non-array (".to_owned(),
            MismatchKind::End => "attempted to access end of non-array (".to_owned(),
        };
        message.append(kind_text);
        message.append("): ");
        message.append(shown);
        ParseInputError::new(message)
    }

    /// The error for a path step of `kind` that met `target`.
    pub fn type_mismatch(kind: MismatchKind, target: &JsonValue) -> (e: ParseInputError)
        ensures
            e@ == mismatch_message(kind, target@),
    {
        let shown = display_json(target);
        ParseInputError::mismatch_from(kind, value_type_name(target), shown.as_str())
    }
}

} // verus!
