//! Object store locations: the bucket that a location lies in, and the root URL
//! under which a bucket's store is registered.

use vstd::prelude::*;
use crate::error::{self, Error, RunError};

verus! {

/// What the URL parser reports of a URL. `T` is the type of text: `String` in running
/// code, `Seq<char>` in contracts.
#[derive(Debug, PartialEq, Eq)]
pub struct UrlParts<T> {
    pub scheme: T,
    pub host: Option<T>,
}

impl View for UrlParts<String> {
    type V = UrlParts<Seq<char>>;

    open spec fn view(&self) -> UrlParts<Seq<char>> {
        UrlParts {
            scheme: self.scheme@,
            host: match self.host {
                Some(h) => Some(h@),
                None => None,
            },
        }
    }
}

/// The view of a parse outcome.
pub open spec fn outcome_view(parsed: Result<UrlParts<String>, String>) -> Result<
    UrlParts<Seq<char>>,
    Seq<char>,
> {
    match parsed {
        Ok(parts) => Ok(parts@),
        Err(message) => Err(message@),
    }
}

/// The root URL of a bucket.
pub open spec fn root_of(bucket: Seq<char>) -> Seq<char> {
    "s3://"@ + bucket
}

/// A bucket name of `a`-`z`, digits, `-` and `.` only.
pub open spec fn is_plain_bucket(b: Seq<char>) -> bool {
    &&& b.len() > 0
    &&& forall|i: int|
        0 <= i < b.len() ==> {
            let c = #[trigger] b[i];
            'a' <= c <= 'z' || '0' <= c <= '9' || c == '-' || c == '.'
        }
}

/// A location that is the root URL of the plain bucket `b`, or that goes on with `/` and
/// any key after it.
pub open spec fn lies_plainly_in(location: Seq<char>, b: Seq<char>) -> bool {
    &&& is_plain_bucket(b)
    &&& location == root_of(b) || (root_of(b) + seq!['/']).is_prefix_of(location)
}

/// A text whose UTF-8 form, with each byte percent-encoded, stays within the length that
/// a URL can have.
pub open spec fn is_short(text: Seq<char>) -> bool {
    vstd::utf8::encode_utf8(text).len() < u32::MAX / 4
}

/// What the host of an `s3` URL is made of: visible ASCII characters, without the slash,
/// the question mark, the hash and the at sign that delimit parts of a URL, and without
/// the backslash, the angle brackets, the caret and the bar.
pub open spec fn is_host(h: Seq<char>) -> bool {
    &&& h.len() > 0
    &&& forall|i: int|
        0 <= i < h.len() ==> {
            let c = #[trigger] h[i];
            &&& '!' <= c <= '~'
            &&& c != '/' && c != '?' && c != '#' && c != '@'
            &&& c != '\\' && c != '<' && c != '>' && c != '^' && c != '|'
        }
}

/// What `url::Url::parse` makes of a text: scheme and host of the URL, or the message
/// of the error.
pub uninterp spec fn parsed_url(text: Seq<char>) -> Result<UrlParts<Seq<char>>, Seq<char>>;

/// Calls `url::Url::parse` and reads `scheme` and `host_str` of the URL, or the
/// message of the error. The outcome depends on `text` alone. These facts are claimed
/// of it:
///
/// * The scheme is what stands before the first colon, so a text that begins with
///   `s3://` has no other scheme than `s3`.
/// * The host of an `s3` URL, a name or an IPv6 address in brackets, is not empty and
///   holds visible ASCII characters only, the others being refused or percent-encoded,
///   and none of those that `is_host` leaves out. It is kept in its serialised form, so
///   it is read back from the URL made of `s3://` and that host.
/// * In `s3://` and a plain bucket name, with nothing or a `/` and any key after it, the
///   host is that name. Such a text is a URL unless its serialised form grows beyond
///   what a `u32` counts, where each byte takes up to three; a text of fewer than
///   `u32::MAX / 4` bytes cannot.
///
/// The rest of the URL grammar is left to the name.
#[verifier::external_body]
pub(crate) fn parse_url(text: &str) -> (r: Result<UrlParts<String>, String>)
    ensures
        outcome_view(r) == parsed_url(text@),
        r matches Ok(parts) ==> "s3://"@.is_prefix_of(text@) ==> parts.scheme@ == "s3"@,
        r matches Ok(parts) ==> parts.scheme@ == "s3"@ ==> (parts.host matches Some(host)
            ==> is_host(host@) && parsed_url(root_of(host@)) == Ok::<
            UrlParts<Seq<char>>,
            Seq<char>,
        >(parts@)),
        forall|b: Seq<char>| #[trigger]
            lies_plainly_in(text@, b) ==> {
                &&& r matches Ok(parts) ==> parts.host matches Some(host) && host@ == b
                &&& is_short(text@) ==> r is Ok
            },
{
    match url::Url::parse(text) {
        Ok(url) => Ok(
            UrlParts {
                scheme: url.scheme().to_string(),
                host: url.host_str().map(ToString::to_string),
            },
        ),
        Err(error) => Err(error.to_string()),
    }
}

/// The bucket of `location`, given what the URL parser made of it.
pub open spec fn bucket_in(
    location: Seq<char>,
    parsed: Result<UrlParts<Seq<char>>, Seq<char>>,
) -> Result<Seq<char>, RunError<Seq<char>>> {
    match parsed {
        Err(message) => Err(RunError::InvalidUrl { url: location, message }),
        Ok(parts) => if parts.scheme != "s3"@ {
            Err(RunError::NotS3Url { location })
        } else {
            match parts.host {
                Some(host) => Ok(host),
                None => Err(RunError::MissingBucket { location }),
            }
        },
    }
}

/// The bucket of `location`.
pub open spec fn bucket_of(location: Seq<char>) -> Result<Seq<char>, RunError<Seq<char>>> {
    bucket_in(location, parsed_url(location))
}

/// The bucket of `location`, given what the URL parser made of it: the host of an `s3`
/// URL.
pub fn bucket_from_url(location: &str, parsed: Result<UrlParts<String>, String>) -> (r: Result<
    String,
    Error,
>)
    ensures
        error::text_view(r) == bucket_in(location@, outcome_view(parsed)),
        match parsed {
            Err(message) => r matches Err(RunError::InvalidUrl { url, message: m }) && url@
                == location@ && m@ == message@,
            Ok(parts) => if parts.scheme@ != "s3"@ {
                r matches Err(RunError::NotS3Url { location: l }) && l@ == location@
            } else {
                match parts.host {
                    Some(host) => r matches Ok(bucket) && bucket@ == host@,
                    None => r matches Err(RunError::MissingBucket { location: l }) && l@
                        == location@,
                }
            },
        },
{
    match parsed {
        Err(message) => Err(RunError::InvalidUrl { url: location.to_owned(), message }),
        Ok(parts) => {
            if parts.scheme != "s3".to_owned() {
                return Err(RunError::NotS3Url { location: location.to_owned() });
            }
            match parts.host {
                Some(host) => Ok(host),
                None => Err(RunError::MissingBucket { location: location.to_owned() }),
            }
        },
    }
}

/// The bucket that `location` lies in.
///
/// A location that begins with `s3://` is never refused for its scheme. A bucket is
/// never empty and holds no character that delimits a part of a URL, and its root URL
/// lies in the bucket itself. The key has no influence: `s3://` and a plain bucket name,
/// with nothing or a `/` and any key after it, lies in the bucket of that name, as its
/// root URL does; only a text too long for a URL is refused.
pub fn s3_bucket(location: &str) -> (r: Result<String, Error>)
    ensures
        error::text_view(r) == bucket_of(location@),
        match parsed_url(location@) {
            Err(message) => r matches Err(RunError::InvalidUrl { url, message: m }) && url@
                == location@ && m@ == message,
            Ok(parts) => if parts.scheme != "s3"@ {
                r matches Err(RunError::NotS3Url { location: l }) && l@ == location@
            } else {
                match parts.host {
                    Some(host) => r matches Ok(bucket) && bucket@ == host,
                    None => r matches Err(RunError::MissingBucket { location: l }) && l@
                        == location@,
                }
            },
        },
        "s3://"@.is_prefix_of(location@) ==> !(r matches Err(RunError::NotS3Url { .. })),
        r matches Ok(bucket) ==> bucket@.len() > 0 && !bucket@.contains('/') && !bucket@.contains(
            '?',
        ) && !bucket@.contains('#') && !bucket@.contains('@'),
        r matches Ok(bucket) ==> is_host(bucket@) && bucket_of(root_of(bucket@)) == Ok::<
            Seq<char>,
            RunError<Seq<char>>,
        >(bucket@),
        forall|b: Seq<char>|
            #![trigger is_plain_bucket(b)]
            #![trigger lies_plainly_in(location@, b)]
            lies_plainly_in(location@, b) ==> {
                &&& r matches Ok(bucket) ==> bucket@ == b
                &&& r matches Err(error) ==> error is InvalidUrl
                &&& is_short(location@) ==> r is Ok && bucket_of(location@) == bucket_of(root_of(b))
            },
{
    let parsed = parse_url(location);
    bucket_from_url(location, parsed)
}

/// The root URL of `bucket`, given what the URL parser made of it.
pub fn root_from_url(bucket: &str, parsed: Result<UrlParts<String>, String>) -> (r: Result<
    String,
    Error,
>)
    ensures
        error::text_view(r) == (match outcome_view(parsed) {
            Ok(_) => Ok(root_of(bucket@)),
            Err(message) => Err(RunError::InvalidUrl { url: root_of(bucket@), message }),
        }),
        match parsed {
            Ok(_) => r matches Ok(root) && root@ == "s3://"@ + bucket@,
            Err(message) => r matches Err(RunError::InvalidUrl { url, message: m }) && url@
                == "s3://"@ + bucket@ && m@ == message@,
        },
{
    let root = "s3://".to_owned().concat(bucket);
    match parsed {
        Ok(_) => Ok(root),
        Err(message) => Err(RunError::InvalidUrl { url: root, message }),
    }
}

/// The root URL under which the store of `bucket` is registered.
pub fn store_root(bucket: &str) -> (r: Result<String, Error>)
    ensures
        error::text_view(r) == (match parsed_url(root_of(bucket@)) {
            Ok(_) => Ok(root_of(bucket@)),
            Err(message) => Err(RunError::InvalidUrl { url: root_of(bucket@), message }),
        }),
        match parsed_url("s3://"@ + bucket@) {
            Ok(_) => r matches Ok(root) && root@ == "s3://"@ + bucket@,
            Err(message) => r matches Err(RunError::InvalidUrl { url, message: m }) && url@
                == "s3://"@ + bucket@ && m@ == message,
        },
{
    let root = "s3://".to_owned().concat(bucket);
    let parsed = parse_url(root.as_str());
    root_from_url(bucket, parsed)
}

/// A text of fewer than `u32::MAX / 16` characters is short, and so is an ASCII text of
/// fewer than `u32::MAX / 4`.
pub proof fn law_short_texts(text: Seq<char>)
    ensures
        text.len() < u32::MAX / 16 ==> is_short(text),
        vstd::utf8::is_ascii_chars(text) && text.len() < u32::MAX / 4 ==> is_short(text),
{
    lemma_encoded_length(text);
    if vstd::utf8::is_ascii_chars(text) {
        vstd::utf8::is_ascii_chars_encode_utf8(text);
    }
}

proof fn lemma_encoded_length(text: Seq<char>)
    ensures
        vstd::utf8::encode_utf8(text).len() <= 4 * text.len(),
    decreases text.len(),
{
    if text.len() > 0 {
        lemma_encoded_length(text.drop_first());
    }
}

/// A parse outcome is seen as it stands: the parser's own scheme, host and message.
pub proof fn law_outcomes_seen_as_they_stand(parsed: Result<UrlParts<String>, String>)
    ensures
        match parsed {
            Err(message) => outcome_view(parsed) == Err::<UrlParts<Seq<char>>, Seq<char>>(message@),
            Ok(UrlParts { scheme, host: Some(host) }) => outcome_view(parsed) == Ok::<
                UrlParts<Seq<char>>,
                Seq<char>,
            >(UrlParts { scheme: scheme@, host: Some(host@) }),
            Ok(UrlParts { scheme, host: None }) => outcome_view(parsed) == Ok::<
                UrlParts<Seq<char>>,
                Seq<char>,
            >(UrlParts { scheme: scheme@, host: None }),
        },
{
}

/// The root URL of a bucket is `s3://` and the bucket, so different buckets have different
/// root URLs.
pub proof fn law_roots_name_their_buckets(a: Seq<char>, b: Seq<char>)
    ensures
        root_of(a) == "s3://"@ + a,
        root_of(a) == root_of(b) ==> a == b,
{
    if root_of(a) == root_of(b) {
        assert(a =~= root_of(a).skip("s3://"@.len() as int));
        assert(b =~= root_of(b).skip("s3://"@.len() as int));
    }
}

/// A location has a bucket exactly where the URL parser reads the location itself as an
/// `s3` URL with a host, and the bucket is that host.
pub proof fn law_buckets_are_hosts_of_s3_urls(location: Seq<char>, bucket: Seq<char>)
    ensures
        bucket_of(location) == Ok::<Seq<char>, RunError<Seq<char>>>(bucket) <==> parsed_url(
            location,
        ) == Ok::<UrlParts<Seq<char>>, Seq<char>>(
            UrlParts { scheme: "s3"@, host: Some(bucket) },
        ),
{
}

/// A location without a bucket is refused for the first of these that holds: it is no
/// URL, its scheme is not `s3`, it has no host. The refusal quotes the location.
pub proof fn law_refused_locations(location: Seq<char>, error: RunError<Seq<char>>)
    ensures
        bucket_of(location) == Err::<Seq<char>, RunError<Seq<char>>>(error) <==> {
            ||| parsed_url(location) matches Err(message) && error == (RunError::InvalidUrl {
                url: location,
                message,
            })
            ||| parsed_url(location) matches Ok(parts) && parts.scheme != "s3"@ && error == (
            RunError::NotS3Url { location })
            ||| parsed_url(location) matches Ok(parts) && parts.scheme == "s3"@
                && parts.host is None && error == (RunError::MissingBucket { location })
        },
{
}

} // verus!
