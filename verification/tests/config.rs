use substrait_lambda::binding::InputBinding;
use substrait_lambda::config::{
    required_env, Config, INPUTS_VARIABLE, OUTPUT_LOCATION_VARIABLE, PLAN_PATH_VARIABLE,
    REGION_VARIABLE,
};
use substrait_lambda::error::{Error, RunError};
use substrait_lambda::table::TableReference;

fn some(text: &str) -> Option<String> {
    Some(text.to_string())
}

fn missing(name: &str) -> Result<Config, Error> {
    Err(RunError::MissingVariable { name: name.to_string() })
}

#[test]
fn documented_variable_names() {
    assert_eq!(PLAN_PATH_VARIABLE, "SUBSTRAIT_PLAN_PATH");
    assert_eq!(REGION_VARIABLE, "SUBSTRAIT_S3_REGION");
    assert_eq!(INPUTS_VARIABLE, "SUBSTRAIT_INPUTS");
    assert_eq!(OUTPUT_LOCATION_VARIABLE, "SUBSTRAIT_OUTPUT_LOCATION");
}

#[test]
fn documented_settings() {
    let config = Config::from_variables(
        some("/tmp/plan.substrait.json"),
        some("us-east-1"),
        some("s3://bucket/output/run-001/"),
        some("orders|s3://bucket/orders/;lineitem|s3://bucket/lineitem/"),
    )
    .unwrap();
    assert_eq!(config.plan_path, "/tmp/plan.substrait.json");
    assert_eq!(config.region, "us-east-1");
    assert_eq!(config.output_location, "s3://bucket/output/run-001/");
    assert_eq!(
        config.inputs,
        vec![
            InputBinding {
                table_ref: TableReference::Bare { table: "orders".to_string() },
                location: "s3://bucket/orders/".to_string(),
            },
            InputBinding {
                table_ref: TableReference::Bare { table: "lineitem".to_string() },
                location: "s3://bucket/lineitem/".to_string(),
            },
        ]
    );
    assert_eq!(
        config.locations(),
        vec![
            "s3://bucket/orders/".to_string(),
            "s3://bucket/lineitem/".to_string(),
            "s3://bucket/output/run-001/".to_string(),
        ]
    );
    assert_eq!(
        config.completion_message(),
        "Wrote Substrait results to s3://bucket/output/run-001/"
    );
}

#[test]
fn missing_variables_in_order() {
    let x = || some("x");
    assert_eq!(Config::from_variables(None, None, None, None), missing("SUBSTRAIT_PLAN_PATH"));
    assert_eq!(Config::from_variables(x(), None, None, None), missing("SUBSTRAIT_S3_REGION"));
    assert_eq!(
        Config::from_variables(x(), x(), None, None),
        missing("SUBSTRAIT_OUTPUT_LOCATION")
    );
    assert_eq!(Config::from_variables(x(), x(), x(), None), missing("SUBSTRAIT_INPUTS"));
    assert_eq!(
        Config::from_variables(x(), None, x(), some("broken")),
        missing("SUBSTRAIT_S3_REGION")
    );
    assert_eq!(
        Config::from_variables(x(), x(), x(), some("broken")),
        Err(RunError::InvalidBinding { raw: "broken".to_string() })
    );
}

#[test]
fn no_inputs_leave_the_output_location() {
    let config = Config::from_variables(some("p"), some("r"), some("out"), some("")).unwrap();
    assert!(config.inputs.is_empty());
    assert_eq!(config.locations(), vec!["out".to_string()]);
}

#[test]
fn required_values() {
    assert_eq!(required_env("NAME", some("")), Ok(String::new()));
    assert_eq!(required_env("NAME", some("v")), Ok("v".to_string()));
    assert_eq!(
        required_env("NAME", None),
        Err(RunError::MissingVariable { name: "NAME".to_string() })
    );
}
