use substrait_lambda::error::{Error, RunError};
use substrait_lambda::stores::{StoreRegistration, StoreStep};

fn registration(locations: &[&str]) -> StoreRegistration {
    StoreRegistration::new("us-east-1", locations.iter().map(ToString::to_string).collect())
}

fn build(bucket: &str) -> StoreStep<String> {
    StoreStep::Build { bucket: bucket.to_string(), region: "us-east-1".to_string() }
}

fn register(root: &str) -> StoreStep<String> {
    StoreStep::Register { root: root.to_string() }
}

/// Every step up to the last, and the error that ended it.
fn run(locations: &[&str]) -> (Vec<StoreStep<String>>, Option<Error>) {
    let mut registration = registration(locations);
    let mut steps = Vec::new();
    loop {
        match registration.step() {
            Ok(StoreStep::Done) => return (steps, None),
            Ok(step) => steps.push(step),
            Err(error) => return (steps, Some(error)),
        }
    }
}

#[test]
fn each_bucket_is_built_and_registered_once() {
    assert_eq!(
        run(&["s3://b/orders/", "s3://a/x", "s3://b/lineitem/", "s3://a", "s3://c/out/"]),
        (
            vec![
                build("b"),
                register("s3://b"),
                build("a"),
                register("s3://a"),
                build("c"),
                register("s3://c"),
            ],
            None
        )
    );
}

#[test]
fn no_locations_need_no_store() {
    assert_eq!(run(&[]), (vec![], None));
}

#[test]
fn stores_before_a_refused_location_are_registered() {
    assert_eq!(
        run(&["s3://a/", "s3://a/2", "http://b/", "s3:///"]),
        (
            vec![build("a"), register("s3://a")],
            Some(RunError::NotS3Url { location: "http://b/".to_string() })
        )
    );
    assert_eq!(
        run(&["s3:///x"]),
        (vec![], Some(RunError::MissingBucket { location: "s3:///x".to_string() }))
    );
    assert_eq!(
        run(&["out"]),
        (
            vec![],
            Some(RunError::InvalidUrl {
                url: "out".to_string(),
                message: "relative URL without a base".to_string(),
            })
        )
    );
}

#[test]
fn a_refusal_and_the_end_stay() {
    let mut refused = registration(&["http://b/"]);
    let error = Err(RunError::NotS3Url { location: "http://b/".to_string() });
    assert_eq!(refused.step(), error);
    assert_eq!(refused.step(), error);
    let mut done = registration(&[]);
    assert_eq!(done.step(), Ok(StoreStep::Done));
    assert_eq!(done.step(), Ok(StoreStep::Done));
}

#[test]
fn noted_buckets() {
    let mut registration = registration(&[]);
    assert_eq!(registration.note_bucket("a".to_string()), Some(build("a")));
    assert_eq!(registration.note_bucket("a".to_string()), None);
    assert_eq!(registration.note_bucket("A".to_string()), Some(build("A")));
    assert_eq!(registration.step(), Ok(register("s3://A")));
    assert_eq!(registration.step(), Ok(StoreStep::Done));
}

#[test]
fn a_pending_root_that_is_no_url_is_refused() {
    let mut registration = registration(&[]);
    assert_eq!(registration.note_bucket("a b".to_string()), Some(build("a b")));
    assert_eq!(
        registration.step(),
        Err(RunError::InvalidUrl {
            url: "s3://a b".to_string(),
            message: "invalid domain character".to_string(),
        })
    );
}
