//! The user configuration.
//!
//! The configuration file supplies an API key, a base URL and a default
//! model, each optional. Reading the file is the application shell's work;
//! this type carries the values and their defaults.

use vstd::prelude::*;

use crate::model::Model;

verus! {

/// The configuration values, each optional.
pub struct Config {
    openai_api_key: Option<String>,
    openai_base_url: Option<String>,
    default_model: Option<Model>,
}

impl Config {
    /// The configured API key.
    pub closed spec fn spec_api_key(&self) -> Option<String> {
        self.openai_api_key
    }

    /// The configured base URL.
    pub closed spec fn spec_base_url(&self) -> Option<String> {
        self.openai_base_url
    }

    /// The configured default model.
    pub closed spec fn spec_default_model(&self) -> Option<Model> {
        self.default_model
    }

    /// A configuration from explicit values.
    pub fn from_parts(
        openai_api_key: Option<String>,
        openai_base_url: Option<String>,
        default_model: Option<Model>,
    ) -> (r: Config)
        ensures
            r.spec_api_key() == openai_api_key,
            r.spec_base_url() == openai_base_url,
            r.spec_default_model() == default_model,
    {
        Config { openai_api_key, openai_base_url, default_model }
    }

    /// The configured API key.
    pub fn get_openai_api_key(&self) -> (r: &Option<String>)
        ensures
            *r == self.spec_api_key(),
    {
        &self.openai_api_key
    }

    /// The configured base URL.
    pub fn get_openai_base_url(&self) -> (r: &Option<String>)
        ensures
            *r == self.spec_base_url(),
    {
        &self.openai_base_url
    }

    /// The configured default model.
    pub fn get_default_model(&self) -> (r: &Option<Model>)
        ensures
            *r == self.spec_default_model(),
    {
        &self.default_model
    }
}

impl Default for Config {
    /// The configuration used when no file exists: no key, no base URL, and
    /// the default model.
    fn default() -> (r: Config)
        ensures
            r.spec_api_key() is None,
            r.spec_base_url() is None,
            r.spec_default_model() == Some(crate::model::DEFAULT_MODEL),
    {
        Config {
            openai_api_key: None,
            openai_base_url: None,
            default_model: Some(crate::model::DEFAULT_MODEL),
        }
    }
}

} // verus!
