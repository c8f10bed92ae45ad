//! What a run is told by its environment.

use vstd::prelude::*;
use crate::binding::{self, InputBinding};
use crate::error::{self, Error, RunError};
use crate::text;

verus! {

/// Where the Substrait JSON plan is read from.
pub const PLAN_PATH_VARIABLE: &'static str = "SUBSTRAIT_PLAN_PATH";

/// The region of the object stores.
pub const REGION_VARIABLE: &'static str = "SUBSTRAIT_S3_REGION";

/// The input bindings.
pub const INPUTS_VARIABLE: &'static str = "SUBSTRAIT_INPUTS";

/// Where the results are written to.
pub const OUTPUT_LOCATION_VARIABLE: &'static str = "SUBSTRAIT_OUTPUT_LOCATION";

/// The settings of a run.
#[derive(Debug, PartialEq, Eq)]
pub struct Config {
    pub plan_path: String,
    pub region: String,
    pub output_location: String,
    pub inputs: Vec<InputBinding<String>>,
}

/// The settings of a run, as contracts speak of them.
pub struct ConfigView {
    pub plan_path: Seq<char>,
    pub region: Seq<char>,
    pub output_location: Seq<char>,
    pub inputs: Seq<InputBinding<Seq<char>>>,
}

impl View for Config {
    type V = ConfigView;

    open spec fn view(&self) -> ConfigView {
        ConfigView {
            plan_path: self.plan_path@,
            region: self.region@,
            output_location: self.output_location@,
            inputs: binding::bindings_view(self.inputs@),
        }
    }
}

/// The view of a variable's value.
pub open spec fn value_view(value: Option<String>) -> Option<Seq<char>> {
    match value {
        Some(text) => Some(text@),
        None => None,
    }
}

/// The value of the variable `name`, which has to be set.
pub open spec fn required(name: Seq<char>, value: Option<Seq<char>>) -> Result<
    Seq<char>,
    RunError<Seq<char>>,
> {
    match value {
        Some(text) => Ok(text),
        None => Err(RunError::MissingVariable { name }),
    }
}

/// The settings that the four variables stand for. A missing variable is reported
/// before a binding that is refused, and of several missing ones the first in the order
/// plan path, region, output location, inputs.
pub open spec fn config_of(
    plan_path: Option<Seq<char>>,
    region: Option<Seq<char>>,
    output_location: Option<Seq<char>>,
    inputs: Option<Seq<char>>,
) -> Result<ConfigView, RunError<Seq<char>>> {
    match (
        required(PLAN_PATH_VARIABLE@, plan_path),
        required(REGION_VARIABLE@, region),
        required(OUTPUT_LOCATION_VARIABLE@, output_location),
        required(INPUTS_VARIABLE@, inputs),
    ) {
        (Err(error), _, _, _) => Err(error),
        (_, Err(error), _, _) => Err(error),
        (_, _, Err(error), _) => Err(error),
        (_, _, _, Err(error)) => Err(error),
        (Ok(plan_path), Ok(region), Ok(output_location), Ok(raw)) => match binding::bindings_of(
            raw,
        ) {
            Err(error) => Err(error),
            Ok(inputs) => Ok(ConfigView { plan_path, region, output_location, inputs }),
        },
    }
}

/// The value of the environment variable `name`, given what a lookup of it found.
pub fn required_env(name: &str, value: Option<String>) -> (r: Result<String, Error>)
    ensures
        error::text_view(r) == required(name@, value_view(value)),
        match value {
            Some(text) => r matches Ok(t) && t@ == text@,
            None => r matches Err(RunError::MissingVariable { name: n }) && n@ == name@,
        },
{
    match value {
        Some(text) => Ok(text),
        None => Err(RunError::MissingVariable { name: name.to_owned() }),
    }
}

impl Config {
    /// Reads the settings from what lookups of the four variables found.
    ///
    /// A table text that is a plain lower-case name is bound under that very name.
    pub fn from_variables(
        plan_path: Option<String>,
        region: Option<String>,
        output_location: Option<String>,
        inputs: Option<String>,
    ) -> (r: Result<Config, Error>)
        ensures
            match r {
                Ok(config) => config_of(
                    value_view(plan_path),
                    value_view(region),
                    value_view(output_location),
                    value_view(inputs),
                ) == Ok::<ConfigView, RunError<Seq<char>>>(config@),
                Err(error) => config_of(
                    value_view(plan_path),
                    value_view(region),
                    value_view(output_location),
                    value_view(inputs),
                ) == Err::<ConfigView, RunError<Seq<char>>>(error@),
            },
            r matches Ok(config) ==> {
                &&& plan_path matches Some(text) && config.plan_path@ == text@
                &&& region matches Some(text) && config.region@ == text@
                &&& output_location matches Some(text) && config.output_location@ == text@
                &&& inputs matches Some(raw) && (binding::bindings_of(raw@) matches Ok(read) && {
                    &&& config.inputs@.len() == read.len()
                    &&& forall|i: int|
                        0 <= i < read.len() ==> {
                            &&& (#[trigger] config.inputs@[i]).location@ == read[i].location
                            &&& config.inputs@[i].table_ref@ == read[i].table_ref
                        }
                })
            },
            r matches Err(error) ==> {
                ||| plan_path is None && (error matches RunError::MissingVariable { name } && name@
                    == "SUBSTRAIT_PLAN_PATH"@)
                ||| plan_path is Some && region is None && (
                error matches RunError::MissingVariable { name } && name@ == "SUBSTRAIT_S3_REGION"@)
                ||| plan_path is Some && region is Some && output_location is None && (
                error matches RunError::MissingVariable { name } && name@
                    == "SUBSTRAIT_OUTPUT_LOCATION"@)
                ||| plan_path is Some && region is Some && output_location is Some && inputs is None
                    && (error matches RunError::MissingVariable { name } && name@
                    == "SUBSTRAIT_INPUTS"@)
                ||| plan_path is Some && region is Some && output_location is Some && (
                inputs matches Some(raw) && binding::bindings_of(raw@) == Err::<
                    Seq<InputBinding<Seq<char>>>,
                    RunError<Seq<char>>,
                >(error@))
            },
            r matches Ok(config) ==> inputs matches Some(raw) ==> forall|i: int|
                0 <= i < config.inputs@.len() ==> binding::keeps_plain_name(
                    binding::binding_items_of(raw@)[i],
                    #[trigger] config.inputs@[i]@,
                ),
    {
        let plan_path = match required_env(PLAN_PATH_VARIABLE, plan_path) {
            Ok(text) => text,
            Err(error) => return Err(error),
        };
        let region = match required_env(REGION_VARIABLE, region) {
            Ok(text) => text,
            Err(error) => return Err(error),
        };
        let output_location = match required_env(OUTPUT_LOCATION_VARIABLE, output_location) {
            Ok(text) => text,
            Err(error) => return Err(error),
        };
        let raw = match required_env(INPUTS_VARIABLE, inputs) {
            Ok(text) => text,
            Err(error) => return Err(error),
        };
        match binding::parse_inputs(raw.as_str()) {
            Err(error) => Err(error),
            Ok(inputs) => Ok(Config { plan_path, region, output_location, inputs }),
        }
    }

    /// Every location that the run touches: those of the inputs, in order, and last the
    /// output location.
    pub fn locations(&self) -> (r: Vec<String>)
        ensures
            text::texts(r@) == self@.locations(),
            r@.len() == self.inputs@.len() + 1,
            forall|i: int|
                0 <= i < self.inputs@.len() ==> #[trigger] r@[i]@ == self.inputs@[i].location@,
            r@[self.inputs@.len() as int]@ == self.output_location@,
    {
        let mut all: Vec<String> = Vec::new();
        let mut i: usize = 0;
        while i < self.inputs.len()
            invariant
                i <= self.inputs.len(),
                text::texts(all@) == self@.locations().take(i as int),
            decreases self.inputs.len() - i,
        {
            let ghost before = text::texts(all@);
            all.push(self.inputs[i].location.clone());
            assert(text::texts(all@) =~= before.push(self.inputs@[i as int].location@));
            assert(self@.locations().take(i + 1) =~= before.push(
                self.inputs@[i as int].location@,
            ));
            i = i + 1;
        }
        let ghost before = text::texts(all@);
        all.push(self.output_location.clone());
        assert(text::texts(all@) =~= before.push(self.output_location@));
        assert(text::texts(all@) =~= self@.locations());
        proof {
            law_locations_of_every_input(self@);
            text::law_texts_seen_as_they_stand(all@);
            binding::law_bindings_seen_as_they_stand(self.inputs@);
            assert forall|i: int| 0 <= i < self.inputs@.len() implies #[trigger] all@[i]@
                == self.inputs@[i].location@ by {
                assert(text::texts(all@)[i] == self@.locations()[i]);
                assert(self@.inputs[i].location == self.inputs@[i].location@);
            }
            assert(text::texts(all@)[self.inputs@.len() as int] == self.output_location@);
        }
        all
    }

    /// What is reported once the results are written.
    pub fn completion_message(&self) -> (r: String)
        ensures
            r@ == "Wrote Substrait results to "@ + self.output_location@,
    {
        "Wrote Substrait results to ".to_owned().concat(self.output_location.as_str())
    }
}

impl ConfigView {
    /// Every location that the run touches: those of the inputs, in order, and last the
    /// output location.
    pub open spec fn locations(self) -> Seq<Seq<char>> {
        self.inputs.map_values(|b: InputBinding<Seq<char>>| b.location).push(self.output_location)
    }
}

/// Settings are read exactly where all four variables are set and every binding is
/// accepted, and all their locations but the last begin with `s3://`.
pub proof fn law_accepted_settings(
    plan_path: Option<Seq<char>>,
    region: Option<Seq<char>>,
    output_location: Option<Seq<char>>,
    inputs: Option<Seq<char>>,
)
    ensures
        config_of(plan_path, region, output_location, inputs) is Ok <==> plan_path is Some
            && region is Some && output_location is Some && (inputs matches Some(raw)
            && binding::bindings_of(raw) is Ok),
        config_of(plan_path, region, output_location, inputs) matches Ok(config) ==> forall|i: int|
            0 <= i < config.locations().len() - 1 ==> "s3://"@.is_prefix_of(
                #[trigger] config.locations()[i],
            ),
{
    if let Some(raw) = inputs {
        binding::law_bound_locations(raw);
    }
}

/// Settings and values are seen as they stand.
pub proof fn law_settings_seen_as_they_stand(config: Config, value: Option<String>)
    ensures
        config@.plan_path == config.plan_path@,
        config@.region == config.region@,
        config@.output_location == config.output_location@,
        config@.inputs == binding::bindings_view(config.inputs@),
        value matches Some(text) ==> value_view(value) == Some(text@),
        value is None ==> value_view(value) is None,
{
}

/// Every setting is the value of its own variable, and the inputs are the bindings that
/// their variable holds; no setting is changed by another.
pub proof fn law_settings_are_the_values_of_their_variables(
    plan_path: Option<Seq<char>>,
    region: Option<Seq<char>>,
    output_location: Option<Seq<char>>,
    inputs: Option<Seq<char>>,
)
    ensures
        config_of(plan_path, region, output_location, inputs) matches Ok(config) ==> {
            &&& plan_path == Some(config.plan_path)
            &&& region == Some(config.region)
            &&& output_location == Some(config.output_location)
            &&& inputs matches Some(raw) && binding::bindings_of(raw) == Ok::<
                Seq<InputBinding<Seq<char>>>,
                RunError<Seq<char>>,
            >(config.inputs)
        },
{
}

/// What is refused when settings are not read: the first variable that is missing, in
/// the order plan path, region, output location, inputs, and only where none is missing
/// what is refused of the inputs.
pub proof fn law_first_missing_variable_is_reported(
    plan_path: Option<Seq<char>>,
    region: Option<Seq<char>>,
    output_location: Option<Seq<char>>,
    inputs: Option<Seq<char>>,
)
    ensures
        config_of(plan_path, region, output_location, inputs) matches Err(error) ==> {
            ||| plan_path is None && error == (RunError::MissingVariable {
                name: "SUBSTRAIT_PLAN_PATH"@,
            })
            ||| plan_path is Some && region is None && error == (RunError::MissingVariable {
                name: "SUBSTRAIT_S3_REGION"@,
            })
            ||| plan_path is Some && region is Some && output_location is None && error == (
            RunError::MissingVariable { name: "SUBSTRAIT_OUTPUT_LOCATION"@ })
            ||| plan_path is Some && region is Some && output_location is Some && inputs is None
                && error == (RunError::MissingVariable { name: "SUBSTRAIT_INPUTS"@ })
            ||| plan_path is Some && region is Some && output_location is Some && (
            inputs matches Some(raw) && binding::bindings_of(raw) == Err::<
                Seq<InputBinding<Seq<char>>>,
                RunError<Seq<char>>,
            >(error))
        },
{
}

/// The locations of a run are those of all its inputs, each at its place, and then the
/// output location; none is left out and none is added.
pub proof fn law_locations_of_every_input(config: ConfigView)
    ensures
        config.locations().len() == config.inputs.len() + 1,
        forall|i: int|
            0 <= i < config.inputs.len() ==> #[trigger] config.locations()[i]
                == config.inputs[i].location,
        config.locations().last() == config.output_location,
{
}

} // verus!
