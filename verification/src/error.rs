//! The reasons for which a run is refused.

use vstd::prelude::*;

verus! {

/// Why a run is refused. `T` is the type of text: `String` in running code,
/// `Seq<char>` in contracts.
#[derive(Debug, PartialEq, Eq)]
pub enum RunError<T> {
    /// The environment variable `name` is not set.
    MissingVariable { name: T },
    /// An input binding without the `|` between table and location.
    InvalidBinding { raw: T },
    /// An input binding whose location does not begin with `s3://`.
    NotS3Location { location: T },
    /// A location or a store root that is not a URL, with the URL parser's message.
    InvalidUrl { url: T, message: T },
    /// A location that is a URL of another scheme than `s3`.
    NotS3Url { location: T },
    /// An `s3` URL without a host.
    MissingBucket { location: T },
}

pub type Error = RunError<String>;

impl View for RunError<String> {
    type V = RunError<Seq<char>>;

    open spec fn view(&self) -> RunError<Seq<char>> {
        match *self {
            RunError::MissingVariable { name } => RunError::MissingVariable { name: name@ },
            RunError::InvalidBinding { raw } => RunError::InvalidBinding { raw: raw@ },
            RunError::NotS3Location { location } => RunError::NotS3Location {
                location: location@,
            },
            RunError::InvalidUrl { url, message } => RunError::InvalidUrl {
                url: url@,
                message: message@,
            },
            RunError::NotS3Url { location } => RunError::NotS3Url { location: location@ },
            RunError::MissingBucket { location } => RunError::MissingBucket {
                location: location@,
            },
        }
    }
}

/// The view of the outcome of a function that gives a text.
pub open spec fn text_view(r: Result<String, Error>) -> Result<Seq<char>, RunError<Seq<char>>> {
    match r {
        Ok(text) => Ok(text@),
        Err(error) => Err(error@),
    }
}

impl RunError<Seq<char>> {
    /// The text shown to the operator.
    pub open spec fn text(self) -> Seq<char> {
        match self {
            RunError::MissingVariable { name } => "missing required environment variable: "@ + name,
            RunError::InvalidBinding { raw } => "invalid input binding: "@ + raw,
            RunError::NotS3Location { location } => "input location must be s3://..., got: "@
                + location,
            RunError::InvalidUrl { message, .. } => message,
            RunError::NotS3Url { location } => "expected s3:// URL, got "@ + location,
            RunError::MissingBucket { location } => "missing bucket in "@ + location,
        }
    }
}

impl RunError<String> {
    /// The text shown to the operator.
    pub fn message(&self) -> (r: String)
        ensures
            r@ == self@.text(),
            match *self {
                RunError::MissingVariable { name } => r@
                    == "missing required environment variable: "@ + name@,
                RunError::InvalidBinding { raw } => r@ == "invalid input binding: "@ + raw@,
                RunError::NotS3Location { location } => r@
                    == "input location must be s3://..., got: "@ + location@,
                RunError::InvalidUrl { message, .. } => r@ == message@,
                RunError::NotS3Url { location } => r@ == "expected s3:// URL, got "@ + location@,
                RunError::MissingBucket { location } => r@ == "missing bucket in "@ + location@,
            },
    {
        match self {
            RunError::MissingVariable { name } => {
                "missing required environment variable: ".to_owned().concat(name.as_str())
            },
            RunError::InvalidBinding { raw } => {
                "invalid input binding: ".to_owned().concat(raw.as_str())
            },
            RunError::NotS3Location { location } => {
                "input location must be s3://..., got: ".to_owned().concat(location.as_str())
            },
            RunError::InvalidUrl { message, .. } => message.clone(),
            RunError::NotS3Url { location } => {
                "expected s3:// URL, got ".to_owned().concat(location.as_str())
            },
            RunError::MissingBucket { location } => {
                "missing bucket in ".to_owned().concat(location.as_str())
            },
        }
    }
}

/// A text or an error is seen as it stands: the same kind of outcome, with the same
/// texts in it.
pub proof fn law_outcomes_seen_as_they_stand(r: Result<String, Error>)
    ensures
        r matches Ok(text) ==> text_view(r) == Ok::<Seq<char>, RunError<Seq<char>>>(text@),
        r matches Err(error) ==> {
            &&& text_view(r) == Err::<Seq<char>, RunError<Seq<char>>>(error@)
            &&& match error {
                RunError::MissingVariable { name } => error@ == (RunError::MissingVariable {
                    name: name@,
                }),
                RunError::InvalidBinding { raw } => error@ == (RunError::InvalidBinding {
                    raw: raw@,
                }),
                RunError::NotS3Location { location } => error@ == (RunError::NotS3Location {
                    location: location@,
                }),
                RunError::InvalidUrl { url, message } => error@ == (RunError::InvalidUrl {
                    url: url@,
                    message: message@,
                }),
                RunError::NotS3Url { location } => error@ == (RunError::NotS3Url {
                    location: location@,
                }),
                RunError::MissingBucket { location } => error@ == (RunError::MissingBucket {
                    location: location@,
                }),
            }
        },
{
}

/// Every message is a fixed beginning and, to the letter, the text that was refused.
pub proof fn law_messages_quote_what_was_refused(text: Seq<char>, url: Seq<char>)
    ensures
        (RunError::MissingVariable { name: text }).text()
            == "missing required environment variable: "@ + text,
        (RunError::InvalidBinding { raw: text }).text() == "invalid input binding: "@ + text,
        (RunError::NotS3Location { location: text }).text()
            == "input location must be s3://..., got: "@ + text,
        (RunError::InvalidUrl { url, message: text }).text() == text,
        (RunError::NotS3Url { location: text }).text() == "expected s3:// URL, got "@ + text,
        (RunError::MissingBucket { location: text }).text() == "missing bucket in "@ + text,
{
}

} // verus!
