[package]
name = "substrait_lambda"
version = "0.1.0"
edition = "2021"
publish = false

[dependencies]
datafusion = { version = "52", default-features = false, features = ["crypto_expressions", "datetime_expressions", "encoding_expressions", "nested_expressions", "parquet", "regex_expressions", "sql", "string_expressions", "unicode_expressions"] }
datafusion-substrait = "52"
object_store = { version = "0.12", features = ["aws"] }
serde_json = "1"
tokio = { version = "1", features = ["rt-multi-thread", "macros"] }
url = "2"
