//! Errors shared by the connector helpers.

use vstd::prelude::*;
use vstd::string::StringExecFns;

verus! {

/// Failure modes of a connector.
#[derive(Debug)]
pub enum ConnectorError {
    /// The connector or its bus is down.
    Down { reason: String },
    /// A channel descriptor was refused; the text says why.
    InvalidDescriptor(String),
    /// A failure of the underlying stack; the text describes it.
    Stack(String),
}

/// The text that `ConnectorError::to_string` renders for each variant.
pub open spec fn connector_error_text(e: &ConnectorError) -> Seq<char> {
    match e {
        ConnectorError::Down { reason } => "connector down: "@ + reason@,
        ConnectorError::InvalidDescriptor(m) => "invalid descriptor: "@ + m@,
        ConnectorError::Stack(m) => "stack error: "@ + m@,
    }
}

impl ConnectorError {
    /// Human-readable rendering of the error.
    pub fn to_string(&self) -> (r: String)
        ensures
            r@ == connector_error_text(self),
    {
        let (prefix, text) = match self {
            ConnectorError::Down { reason } => ("connector down: ", reason),
            ConnectorError::InvalidDescriptor(m) => ("invalid descriptor: ", m),
            ConnectorError::Stack(m) => ("stack error: ", m),
        };
        let mut s = String::from_str(prefix);
        s.append(text.as_str());
        s
    }
}

} // verus!
