use vstd::prelude::*;
use vstd::string::StringExecFns;

verus! {

/// Credentials presented to the broker.
pub enum SaslConfig {
    Disabled,
    Plain { username: String, password: String },
}

/// Where a partition's consumption starts.
#[derive(Clone, Copy, Debug, PartialEq, Eq, Structural)]
pub enum StartOffset {
    /// The oldest record still held by the broker.
    Earliest,
    /// The partition's current high-water mark.
    Latest,
}

pub enum Source {
    Kafka {
        brokers: Vec<String>,
        group_id: String,
        topic: String,
        /// Upper bound, in bytes, of one fetch.
        batch_size: i32,
        offset: StartOffset,
        sasl: SaslConfig,
    },
}

pub enum Sink {
    Disabled,
    S3 { region: String, bucket: String, key_prefix: String, file_size: u16 },
}

pub struct Processor {
    /// Filesystem path of the compiled guest module.
    pub module_file: String,
}

pub struct FlowConfig {
    pub sources: Vec<Source>,
    pub sinks: Vec<Sink>,
    pub processors: Vec<Processor>,
}

/// A configuration that cannot be used as given.
#[derive(Clone, Copy, Debug, PartialEq, Eq, Structural)]
pub enum ConfigError {
    /// A sink is required but the configured one is disabled.
    SinkDisabled,
}

impl ConfigError {
    pub fn message(&self) -> (r: &'static str)
        ensures
            r@ == "Cannot create S3Writer when sink is None"@,
    {
        "Cannot create S3Writer when sink is None"
    }
}

/// What a secret field shows in every debug rendering.
pub fn fmt_redact(_s: &str) -> (r: &'static str)
    ensures
        r@ == "** Redacted **"@,
{
    "** Redacted **"
}

pub open spec fn sasl_debug_spec(c: SaslConfig) -> Seq<char> {
    match c {
        SaslConfig::Disabled => "Disabled"@,
        SaslConfig::Plain { .. } => "Plain { username: "@ + "** Redacted **"@ + ", password: "@
            + "** Redacted **"@ + " }"@,
    }
}

impl SaslConfig {
    /// The debug rendering, with the username and password redacted.
    pub fn debug_text(&self) -> (r: String)
        ensures
            r@ == sasl_debug_spec(*self),
    {
        match self {
            SaslConfig::Disabled => String::from_str("Disabled"),
            SaslConfig::Plain { username, password } => {
                let mut s = String::from_str("Plain { username: ");
                s.append(fmt_redact(username.as_str()));
                s.append(", password: ");
                s.append(fmt_redact(password.as_str()));
                s.append(" }");
                s
            },
        }
    }
}

} // verus!
