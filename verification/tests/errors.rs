use substrait_lambda::error::RunError;

#[test]
fn messages() {
    let x = || "x".to_string();
    assert_eq!(
        RunError::MissingVariable { name: x() }.message(),
        "missing required environment variable: x"
    );
    assert_eq!(RunError::InvalidBinding { raw: x() }.message(), "invalid input binding: x");
    assert_eq!(
        RunError::NotS3Location { location: x() }.message(),
        "input location must be s3://..., got: x"
    );
    assert_eq!(RunError::InvalidUrl { url: "u".to_string(), message: x() }.message(), "x");
    assert_eq!(RunError::NotS3Url { location: x() }.message(), "expected s3:// URL, got x");
    assert_eq!(RunError::MissingBucket { location: x() }.message(), "missing bucket in x");
}
