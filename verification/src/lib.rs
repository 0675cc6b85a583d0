//! Layered configuration: case-insensitive lookup of settings in an
//! environment, and a small line-oriented `key: value` file format that can be
//! merged into it.
//!
//! Priority, highest first: values given on the command line, variables of the
//! environment, entries of a configuration file, defaults.
//!
//! The executable functions are in `case`, `environment`, `store`, `loader`,
//! `config` and `error`. What is proved of them beyond their own contracts is
//! in `idempotence`, `conventions` and `store_laws`.

pub mod case;
pub mod case_lemmas;
pub mod chars;
pub mod config;
pub mod conventions;
pub mod environment;
pub mod error;
pub mod idempotence;
pub mod loader;
pub mod store;
pub mod store_laws;

pub use case::{to_camel_case, to_kebab_case, to_pascal_case, to_snake_case, to_upper_case};
pub use config::{Args, Config};
pub use environment::{
    can_be_set, getenv, getenv_bool, getenv_int, value_as_bool, value_as_int, Environment,
};
pub use error::ConfigError;
pub use loader::{fill_missing, load_non_destructive, load_override, overwrite_all, FileRead};
pub use store::Store;
