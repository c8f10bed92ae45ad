use substrait_lambda::error::{Error, RunError};
use substrait_lambda::location::{
    bucket_from_url, root_from_url, s3_bucket, store_root, UrlParts,
};

fn invalid_url(url: &str, message: &str) -> Error {
    RunError::InvalidUrl { url: url.to_string(), message: message.to_string() }
}

#[test]
fn buckets() {
    assert_eq!(s3_bucket("s3://bucket/orders/"), Ok("bucket".to_string()));
    assert_eq!(s3_bucket("s3://bucket"), Ok("bucket".to_string()));
    assert_eq!(s3_bucket("S3://bucket/x"), Ok("bucket".to_string()));
    assert_eq!(s3_bucket("s3://key:word@bucket:99/x?y#z"), Ok("bucket".to_string()));
    assert_eq!(s3_bucket(" s3://bucket/ "), Ok("bucket".to_string()));
    assert_eq!(s3_bucket("s3://Bucket.Name"), Ok("Bucket.Name".to_string()));
    assert_eq!(s3_bucket("s3://b\u{e9}"), Ok("b%C3%A9".to_string()));
}

#[test]
fn refused_locations() {
    assert_eq!(
        s3_bucket("http://bucket/orders/"),
        Err(RunError::NotS3Url { location: "http://bucket/orders/".to_string() })
    );
    assert_eq!(
        s3_bucket("s3:///orders/"),
        Err(RunError::MissingBucket { location: "s3:///orders/".to_string() })
    );
    assert_eq!(
        s3_bucket("s3:orders"),
        Err(RunError::MissingBucket { location: "s3:orders".to_string() })
    );
    assert_eq!(s3_bucket("/tmp/out"), Err(invalid_url("/tmp/out", "relative URL without a base")));
    assert_eq!(s3_bucket(""), Err(invalid_url("", "relative URL without a base")));
    assert_eq!(s3_bucket("s3://a b/"), Err(invalid_url("s3://a b/", "invalid domain character")));
    assert_eq!(s3_bucket("s3://b:port/"), Err(invalid_url("s3://b:port/", "invalid port number")));
    assert_eq!(s3_bucket("s3://[::1/"), Err(invalid_url("s3://[::1/", "invalid IPv6 address")));
    assert_eq!(s3_bucket("s3://user@/x"), Err(invalid_url("s3://user@/x", "empty host")));
}

#[test]
fn bucket_from_parser_outcome() {
    let parts = |scheme: &str, host: Option<&str>| {
        Ok(UrlParts { scheme: scheme.to_string(), host: host.map(ToString::to_string) })
    };
    assert_eq!(bucket_from_url("l", parts("s3", Some("b"))), Ok("b".to_string()));
    assert_eq!(
        bucket_from_url("l", parts("s3", None)),
        Err(RunError::MissingBucket { location: "l".to_string() })
    );
    assert_eq!(
        bucket_from_url("l", parts("s3a", Some("b"))),
        Err(RunError::NotS3Url { location: "l".to_string() })
    );
    assert_eq!(
        bucket_from_url("l", parts("http", None)),
        Err(RunError::NotS3Url { location: "l".to_string() })
    );
    assert_eq!(bucket_from_url("l", Err("m".to_string())), Err(invalid_url("l", "m")));
}

#[test]
fn roots() {
    assert_eq!(store_root("bucket"), Ok("s3://bucket".to_string()));
    assert_eq!(store_root("a b"), Err(invalid_url("s3://a b", "invalid domain character")));
    let parts = UrlParts { scheme: "s3".to_string(), host: Some("b".to_string()) };
    assert_eq!(root_from_url("b", Ok(parts)), Ok("s3://b".to_string()));
    assert_eq!(root_from_url("b", Err("m".to_string())), Err(invalid_url("s3://b", "m")));
}

/// A bucket is never empty, and its root URL lies in the bucket itself.
#[test]
fn roots_lie_in_their_buckets() {
    let mut locations = vec![
        "s3://user:pw@bucket:1/x".to_string(),
        "s3://[::1]/".to_string(),
        "s3://[0:0:1::ffff:1.2.3.4]:80/".to_string(),
        "s3://[1:0:0:2:0:0:0:3]".to_string(),
        "s3://%41%zz%".to_string(),
        "s3://127.0.0.1/".to_string(),
        "s3://b\u{1}\u{7f}\u{e9}\u{1f600}/".to_string(),
        "\u{1} S3://a\tb\nc/ \u{2}".to_string(),
        "s3:\t//tab".to_string(),
    ];
    for code in 0u32..0x180 {
        if let Some(c) = char::from_u32(code) {
            locations.push(format!("s3://x{c}y"));
            locations.push(format!("s3://{c}"));
        }
    }
    let mut accepted = 0;
    for location in locations {
        match s3_bucket(&location) {
            Ok(bucket) => {
                accepted += 1;
                assert!(!bucket.is_empty(), "{:?}", location);
                assert!(bucket.chars().all(|c| c.is_ascii_graphic()), "{:?}", location);
                assert!(!bucket.contains(['/', '?', '#', '@', '\\', '<', '>', '^', '|']));
                let root = store_root(&bucket).unwrap();
                assert_eq!(root, format!("s3://{bucket}"));
                assert_eq!(s3_bucket(&root), Ok(bucket), "{:?}", location);
            }
            Err(error) => {
                if location.starts_with("s3://") {
                    assert!(!matches!(error, RunError::NotS3Url { .. }), "{:?}", location);
                }
            }
        }
    }
    assert!(accepted > 500);
}

/// Whatever key follows a plain bucket name, the bucket is the same.
#[test]
fn keys_have_no_influence() {
    let keys = [
        "",
        "/",
        "orders/",
        "..",
        "../..",
        "./..//%2e%2E/",
        "a@b:c",
        "?q@r#f",
        "#",
        "?",
        "@",
        "[::1]",
        "\\\\host",
        "\t\r\n",
        " \u{1}",
        "\0",
        "\u{e9}\u{1f600}?\u{1f600}#\u{1f600}",
        "s3://other/",
    ];
    for bucket in ["b", "my-bucket.name", "0", "-", ".", "..", "127.0.0.1", "0x7f.1", "xn--a"] {
        assert_eq!(s3_bucket(&format!("s3://{bucket}")), Ok(bucket.to_string()));
        for key in keys {
            let location = format!("s3://{bucket}/{key}");
            assert_eq!(s3_bucket(&location), Ok(bucket.to_string()), "{:?}", location);
        }
    }
}
