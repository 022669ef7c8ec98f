//! The error taxonomy shared by registration and encoding.

use vstd::prelude::*;

verus! {

/// Everything that can go wrong while registering, unregistering or encoding.
///
/// The registration family: `DuplicateDescriptor` (a descriptor with the same
/// fully-qualified name and const labels was accepted before, by any
/// collector), `InconsistentDescriptor` (same name, different label-name shape
/// or help text), `DuplicateInCollector` (one collector exposes the same
/// descriptor twice), `AlreadyRegistered` (a structurally identical collector
/// is registered), `NotRegistered` (unregistering something unknown).
///
/// The encoding family: `NoMetrics` (a family without a single metric) and
/// `MissingName` (a family with an empty name).
///
/// `Msg` carries free text for conditions not worth a dedicated variant.
#[derive(Debug, Clone)]
pub enum Error {
    DuplicateDescriptor,
    InconsistentDescriptor,
    DuplicateInCollector,
    AlreadyRegistered,
    NotRegistered,
    NoMetrics,
    MissingName,
    Msg(String),
}

impl Error {
    /// A human-readable description of the error.
    pub fn message(&self) -> (r: String)
        ensures
            r@ == self.spec_message(),
    {
        match self {
            Error::DuplicateDescriptor => "descriptor already exists with the same fully-qualified name and const label values".to_owned(),
            Error::InconsistentDescriptor => "a previously registered descriptor with the same fully-qualified name has different label names or a different help string".to_owned(),
            Error::DuplicateInCollector => "a duplicate descriptor within the same collector".to_owned(),
            Error::AlreadyRegistered => "collector is already registered".to_owned(),
            Error::NotRegistered => "collector is not registered".to_owned(),
            Error::NoMetrics => "metric family has no metrics".to_owned(),
            Error::MissingName => "metric family has no name".to_owned(),
            Error::Msg(s) => s.clone(),
        }
    }

    /// What [`Error::message`] returns, as a specification value.
    pub open spec fn spec_message(&self) -> Seq<char> {
        match self {
            Error::DuplicateDescriptor => "descriptor already exists with the same fully-qualified name and const label values"@,
            Error::InconsistentDescriptor => "a previously registered descriptor with the same fully-qualified name has different label names or a different help string"@,
            Error::DuplicateInCollector => "a duplicate descriptor within the same collector"@,
            Error::AlreadyRegistered => "collector is already registered"@,
            Error::NotRegistered => "collector is not registered"@,
            Error::NoMetrics => "metric family has no metrics"@,
            Error::MissingName => "metric family has no name"@,
            Error::Msg(s) => s@,
        }
    }
}

} // verus!
