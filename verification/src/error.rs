//! The failure taxonomy of the dependency manager, the binary linker and the
//! dynamic-loading ABI, together with its rendering into the guest-readable
//! error channel.

use vstd::prelude::*;
use vstd::string::StringExecFns;

verus! {

/// Everything that can go wrong while resolving, fetching or linking a
/// module.  Failures that arise in the outside collaborators (the network,
/// the file system, the execution engine) are carried here as the detail
/// string that the collaborator reported.
#[derive(Debug)]
pub enum Error {
    /// No metadata is known for the named module.
    ModuleNotFound(String),
    /// The named id is absent from the caller's declared dependency set.
    DependencyNotFound { module: String, dependency: String },
    /// A binary's linking-metadata section is missing or malformed.
    MalformedMetadataSection,
    /// A metadata document or a binary could not be obtained.
    FetchFailed(String),
    /// No export anywhere satisfies an import of the module being linked.
    UnresolvedSymbol(String),
    /// The execution engine refused to instantiate a module.
    InstantiationFailed(String),
    /// A symbol looked up through the loading ABI is missing or not callable.
    NotAFunction(String),
    /// A handle passed to the loading ABI denotes no registry entry.
    HandleOutOfRange(i32),
}

impl Error {
    /// The human-readable message for this error, as a sequence of
    /// characters.
    pub open spec fn message_view(&self) -> Seq<char> {
        match self {
            Error::ModuleNotFound(id) => "Cannot find the desired module: `"@ + id@
                + "` defined in the metadata"@,
            Error::DependencyNotFound { module, dependency } =>
                "Cannot find the desired module's dependency `"@ + dependency@
                + "` defined in the metadata of module "@ + module@,
            Error::MalformedMetadataSection =>
                "The linking-metadata section is missing or malformed"@,
            Error::FetchFailed(detail) => detail@,
            Error::UnresolvedSymbol(symbol) => "Couldn't find "@ + symbol@,
            Error::InstantiationFailed(detail) => detail@,
            Error::NotAFunction(symbol) =>
                "The item is either not a function or was not found (dlsym): "@ + symbol@,
            Error::HandleOutOfRange(_) => "Instance with the given handle not found (dlsym)"@,
        }
    }

    /// Render the message that the error channel reports to guest code.
    pub fn message(&self) -> (s: String)
        ensures
            s@ == self.message_view(),
    {
        match self {
            Error::ModuleNotFound(id) => {
                let mut s = String::from_str("Cannot find the desired module: `");
                s.append(id.as_str());
                s.append("` defined in the metadata");
                s
            },
            Error::DependencyNotFound { module, dependency } => {
                let mut s = String::from_str("Cannot find the desired module's dependency `");
                s.append(dependency.as_str());
                s.append("` defined in the metadata of module ");
                s.append(module.as_str());
                s
            },
            Error::MalformedMetadataSection => {
                String::from_str("The linking-metadata section is missing or malformed")
            },
            Error::FetchFailed(detail) => detail.clone(),
            Error::UnresolvedSymbol(symbol) => {
                let mut s = String::from_str("Couldn't find ");
                s.append(symbol.as_str());
                s
            },
            Error::InstantiationFailed(detail) => detail.clone(),
            Error::NotAFunction(symbol) => {
                let mut s = String::from_str(
                    "The item is either not a function or was not found (dlsym): ",
                );
                s.append(symbol.as_str());
                s
            },
            Error::HandleOutOfRange(_) => {
                String::from_str("Instance with the given handle not found (dlsym)")
            },
        }
    }
}

} // verus!
