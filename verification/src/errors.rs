//! What operations report when they refuse an input.
use vstd::prelude::*;
use vstd::string::*;

verus! {

/// The class of a fault, by which a caller picks the exception to raise.
#[derive(Clone, Copy, Debug, PartialEq, Eq, Structural)]
pub enum FaultKind {
    /// A partition definition or key cannot be built or used.
    Definition,
    /// A partition key or mapping does not fit.
    Validation,
    /// The operation has no meaning for this definition.
    NotImplemented,
    /// An execution cannot go on.
    Execution,
    /// A value has the wrong type.
    Type,
    /// A setting cannot be used.
    Configuration,
    /// A named node is unknown.
    NodeNotFound,
    /// A graph cannot be executed as selected.
    GraphValidation,
    /// A metadata value cannot be used.
    Metadata,
    /// An asset cannot be defined as asked.
    AssetDefinition,
    /// An asset returned something other than it declares.
    OutputValidation,
    /// A value is not one of those that are understood.
    Value,
    /// A name is not among those that are known.
    Key,
}

/// The name of a class of faults.
pub open spec fn kind_name(k: FaultKind) -> Seq<char> {
    match k {
        FaultKind::Definition => "PartitionDefinitionError"@,
        FaultKind::Validation => "PartitionValidationError"@,
        FaultKind::NotImplemented => "NotImplementedError"@,
        FaultKind::Execution => "ExecutionError"@,
        FaultKind::Type => "TypeError"@,
        FaultKind::Configuration => "ConfigurationError"@,
        FaultKind::NodeNotFound => "NodeNotFoundError"@,
        FaultKind::GraphValidation => "GraphValidationError"@,
        FaultKind::Metadata => "InvalidMetadataError"@,
        FaultKind::AssetDefinition => "AssetDefinitionError"@,
        FaultKind::OutputValidation => "AssetOutputValidationError"@,
        FaultKind::Value => "ValueError"@,
        FaultKind::Key => "KeyError"@,
    }
}

/// The text of a fault: the name of its class and its message.
pub open spec fn fault_text(f: FaultView) -> Seq<char> {
    kind_name(f.0) + ": "@ + f.1
}

impl FaultKind {
    /// The name of the class.
    pub fn name(self) -> (r: &'static str)
        ensures
            r@ == kind_name(self),
    {
        match self {
            FaultKind::Definition => "PartitionDefinitionError",
            FaultKind::Validation => "PartitionValidationError",
            FaultKind::NotImplemented => "NotImplementedError",
            FaultKind::Execution => "ExecutionError",
            FaultKind::Type => "TypeError",
            FaultKind::Configuration => "ConfigurationError",
            FaultKind::NodeNotFound => "NodeNotFoundError",
            FaultKind::GraphValidation => "GraphValidationError",
            FaultKind::Metadata => "InvalidMetadataError",
            FaultKind::AssetDefinition => "AssetDefinitionError",
            FaultKind::OutputValidation => "AssetOutputValidationError",
            FaultKind::Value => "ValueError",
            FaultKind::Key => "KeyError",
        }
    }
}

/// A fault: its class and its message.
#[derive(Debug)]
pub struct Fault {
    pub kind: FaultKind,
    pub message: String,
}

/// The class and the characters of the message of a fault.
pub type FaultView = (FaultKind, Seq<char>);

impl View for Fault {
    type V = FaultView;

    open spec fn view(&self) -> FaultView {
        (self.kind, self.message@)
    }
}

impl Fault {
    pub fn new(kind: FaultKind, message: String) -> (r: Self)
        ensures
            r@ == (kind, message@),
    {
        Fault { kind, message }
    }

    /// The text of the fault: the name of its class and its message.
    pub fn text(&self) -> (r: String)
        ensures
            r@ == fault_text(self@),
    {
        let mut out = self.kind.name().to_owned();
        out.append(": ");
        out.append(self.message.as_str());
        out
    }

    /// A fault of the definition class.
    pub fn definition(message: String) -> (r: Self)
        ensures
            r@ == (FaultKind::Definition, message@),
    {
        Fault { kind: FaultKind::Definition, message }
    }

    /// A fault of the execution class.
    pub fn execution(message: String) -> (r: Self)
        ensures
            r@ == (FaultKind::Execution, message@),
    {
        Fault { kind: FaultKind::Execution, message }
    }
}

} // verus!
