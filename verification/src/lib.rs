//! A layered configuration loader.
//!
//! A configuration is resolved from up to two sources: a structured file
//! (YAML, JSON, TOML or INI, chosen by file extension) and a set of
//! environment variables under a caller-chosen prefix. The two layers are
//! merged key by key, with environment values taking precedence over file
//! values, into a dynamically shaped value tree that a caller can then
//! decode into its own typed configuration.
//!
//! All decision logic — parameter validation, format inference, environment
//! key filtering and coercion, and the recursive merge — is verified.
//! Reading files, enumerating the process environment and typed
//! deserialization happen outside the library; callers hand in the file
//! contents and an environment snapshot as plain values.

pub mod models;
pub mod text;
pub mod value;
pub mod coerce;
pub mod envsource;
pub mod filesource;
pub mod loading;
