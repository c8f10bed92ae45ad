# substrait_lambda

A minimal Substrait runner: it reads a Substrait JSON plan from disk, registers
S3-backed parquet tables, executes the plan and writes the results back to S3 as
parquet.

Required environment variables:

- `SUBSTRAIT_PLAN_PATH=/tmp/plan.substrait.json`
- `SUBSTRAIT_S3_REGION=us-east-1`
- `SUBSTRAIT_INPUTS=orders|s3://bucket/orders/;lineitem|s3://bucket/lineitem/`
- `SUBSTRAIT_OUTPUT_LOCATION=s3://bucket/output/run-001/`

`src/` is a library verified with Verus. It reads the settings and the input bindings,
finds the bucket of each location, and decides step by step which object stores are
built and registered. Two calls into other crates are trusted: the table reference
parser of `datafusion` and the URL parser of `url`.

`app/` is the program around it: the environment, the file system, the object stores
and the query engine. Building it needs `protoc`, for `datafusion-substrait`.
