//! What the command line says.

use vstd::prelude::*;
use crate::config::{config_problem, Config, DatasetConfig, OutputConfig};
use crate::error::Error;

verus! {

/// The arguments of a run.
#[derive(Debug)]
pub struct CliArgs {
    pub input: Option<String>,
    pub output: Option<String>,
    pub config: String,
}

/// A configuration in which the arguments take the place of the paths.
pub open spec fn with_arguments(args: CliArgs, config: Config) -> Config {
    Config {
        dataset: DatasetConfig {
            input: match args.input {
                Some(input) => input,
                None => config.dataset.input,
            },
            ..config.dataset
        },
        output: OutputConfig {
            path: match args.output {
                Some(output) => output,
                None => config.output.path,
            },
            ..config.output
        },
        ..config
    }
}

impl CliArgs {
    /// Completes a configuration that was read: paths on the command line win, and
    /// the result is checked again.
    pub fn load_config(&self, config: Config) -> (result: Result<Config, Error>)
        ensures
            match result {
                Ok(loaded) => loaded == with_arguments(*self, config) && config_problem(loaded)
                    is None,
                Err(error) => match config_problem(with_arguments(*self, config)) {
                    Some(problem) => error == Error::InvalidConfig(problem),
                    None => false,
                },
            },
    {
        let mut config = config;
        if let Some(input) = &self.input {
            config.dataset.input = input.clone();
        }
        if let Some(output) = &self.output {
            config.output.path = output.clone();
        }
        match config.validate() {
            Ok(_) => Ok(config),
            Err(problem) => Err(Error::InvalidConfig(problem)),
        }
    }
}

} // verus!
