//! The one error type of the library.

use vstd::prelude::*;
use crate::text::{concat, decimal, spec_str_debug, str_debug, usize_to_decimal};

verus! {

/// Every way an operation of the library can fail.
#[derive(Clone, Debug)]
pub enum VenturiError {
    Parse { line: usize, msg: String },
    Cycle { node: String },
    Permission { required: String, got: Option<String> },
    Pit(String),
    Vm(String),
    VcBin(String),
    Validation(String),
    Gui(String),
    Codegen(String),
}

/// The value of an error: its kind and the text it carries.
pub enum ErrV {
    Parse { line: nat, msg: Seq<char> },
    Cycle { node: Seq<char> },
    Permission { required: Seq<char>, got: Option<Seq<char>> },
    Pit(Seq<char>),
    Vm(Seq<char>),
    VcBin(Seq<char>),
    Validation(Seq<char>),
    Gui(Seq<char>),
    Codegen(Seq<char>),
}

/// The value of an optional string.
pub open spec fn opt_v(o: Option<String>) -> Option<Seq<char>> {
    match o {
        Some(s) => Some(s@),
        None => None,
    }
}

impl View for VenturiError {
    type V = ErrV;

    open spec fn view(&self) -> ErrV {
        match self {
            VenturiError::Parse { line, msg } => ErrV::Parse { line: *line as nat, msg: msg@ },
            VenturiError::Cycle { node } => ErrV::Cycle { node: node@ },
            VenturiError::Permission { required, got } => ErrV::Permission { required: required@, got: opt_v(*got) },
            VenturiError::Pit(m) => ErrV::Pit(m@),
            VenturiError::Vm(m) => ErrV::Vm(m@),
            VenturiError::VcBin(m) => ErrV::VcBin(m@),
            VenturiError::Validation(m) => ErrV::Validation(m@),
            VenturiError::Gui(m) => ErrV::Gui(m@),
            VenturiError::Codegen(m) => ErrV::Codegen(m@),
        }
    }
}

/// `r` failed with an error of value `ev`.
pub open spec fn err_is<T>(r: Result<T, VenturiError>, ev: ErrV) -> bool {
    match r {
        Err(e) => e@ == ev,
        Ok(_) => false,
    }
}

/// The rendering of an optional string the way `Debug` shows it.
pub open spec fn option_debug(o: Option<Seq<char>>) -> Seq<char> {
    match o {
        None => "None"@,
        Some(s) => "Some("@ + spec_str_debug(s) + ")"@,
    }
}

impl VenturiError {
    /// The human-readable text of the error.
    pub open spec fn spec_message(&self) -> Seq<char> {
        match self {
            VenturiError::Parse { line, msg } =>
                "Parse error at line "@ + decimal(*line as nat) + ": "@ + msg@,
            VenturiError::Cycle { node } => "DAG cycle detected involving node: "@ + node@,
            VenturiError::Permission { required, got } =>
                "Permission denied: VAN "@ + required@ + " required, got "@
                    + option_debug(match got { Some(g) => Some(g@), None => None }),
            VenturiError::Pit(m) => "Pit error: "@ + m@,
            VenturiError::Vm(m) => "VM error: "@ + m@,
            VenturiError::VcBin(m) => "VCBIN error: "@ + m@,
            VenturiError::Validation(m) => "Validation error: "@ + m@,
            VenturiError::Gui(m) => "GUI error: "@ + m@,
            VenturiError::Codegen(m) => "Codegen error: "@ + m@,
        }
    }

    /// The human-readable text of the error.
    pub fn message(&self) -> (s: String)
        ensures
            s@ == self.spec_message(),
    {
        match self {
            VenturiError::Parse { line, msg } => {
                let a = concat("Parse error at line ", usize_to_decimal(*line).as_str());
                let b = concat(a.as_str(), ": ");
                concat(b.as_str(), msg.as_str())
            },
            VenturiError::Cycle { node } => concat("DAG cycle detected involving node: ", node.as_str()),
            VenturiError::Permission { required, got } => {
                let a = concat("Permission denied: VAN ", required.as_str());
                let b = concat(a.as_str(), " required, got ");
                match got {
                    None => concat(b.as_str(), "None"),
                    Some(g) => {
                        let c = concat(b.as_str(), "Some(");
                        let d = concat(c.as_str(), str_debug(g.as_str()).as_str());
                        concat(d.as_str(), ")")
                    },
                }
            },
            VenturiError::Pit(m) => concat("Pit error: ", m.as_str()),
            VenturiError::Vm(m) => concat("VM error: ", m.as_str()),
            VenturiError::VcBin(m) => concat("VCBIN error: ", m.as_str()),
            VenturiError::Validation(m) => concat("Validation error: ", m.as_str()),
            VenturiError::Gui(m) => concat("GUI error: ", m.as_str()),
            VenturiError::Codegen(m) => concat("Codegen error: ", m.as_str()),
        }
    }
}

} // verus!
