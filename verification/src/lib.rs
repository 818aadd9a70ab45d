//! A library for running `.http` request-definition documents: parsing the
//! document format, resolving variable placeholders, and driving the protocol
//! that turns an embedded response-handler script and a received response
//! into test results and a persistent variable store.  The transport and the
//! script interpreter live outside the library, behind plain-value
//! interfaces.

pub mod client;
pub mod error;
pub mod json;
pub mod models;
pub mod parser;
pub mod script;
pub mod strmap;
pub mod text;
pub mod variable;

pub use client::ResponseFormatter;
pub use error::HttpieError;
pub use models::{Environment, HttpRequest, Method};
pub use parser::HttpParser;
pub use script::{ResponseObject, ScriptEngine, TestResult};
pub use variable::VariableReplacer;

use vstd::prelude::*;

verus! {

/// Document read when no file is named.
pub const DEFAULT_HTTP_FILE: &'static str = "./test.http";

/// Environment file looked for beside the document.
pub const DEFAULT_ENV_FILE: &'static str = "httpie.env.json";

/// Active environment name selected from an environment file.
pub const DEFAULT_ENVIRONMENT: &'static str = "development";

} // verus!
