use vstd::prelude::*;

verus! {

#[derive(Clone, Copy, Debug, PartialEq, Eq, Structural)]
pub enum IntegerBits {
    Eight,
    Sixteen,
    ThirtyTwo,
    SixtyFour,
}

/// A type as written in the source, before resolution.
#[derive(Clone, Copy, Debug, PartialEq, Eq, Structural)]
pub enum TypeInfo {
    Unknown,
    Unit,
    Boolean,
    UnsignedInteger(IntegerBits),
    Byte,
    B256,
    Contract,
    SelfType,
    ErrorRecovery,
}

/// A type that resolution has fully determined.
#[derive(Clone, Copy, Debug, PartialEq, Eq, Structural)]
pub enum ResolvedType {
    Unit,
    Boolean,
    UnsignedInteger(IntegerBits),
    Byte,
    B256,
    /// The distinguished type of the contract being compiled.
    Contract,
    ErrorRecovery,
}

#[derive(Clone, Copy, Debug, PartialEq, Eq, Structural)]
pub enum MaybeResolvedType {
    Resolved(ResolvedType),
    Partial(TypeInfo),
}

impl MaybeResolvedType {
    pub open spec fn spec_is_resolved_boolean(self) -> bool {
        self == MaybeResolvedType::Resolved(ResolvedType::Boolean)
    }

    pub open spec fn spec_is_contract(self) -> bool {
        self == MaybeResolvedType::Resolved(ResolvedType::Contract)
    }

    pub fn is_resolved_boolean(self) -> (r: bool)
        ensures
            r == self.spec_is_resolved_boolean(),
    {
        match self {
            MaybeResolvedType::Resolved(ResolvedType::Boolean) => true,
            _ => false,
        }
    }

    pub fn is_contract(self) -> (r: bool)
        ensures
            r == self.spec_is_contract(),
    {
        match self {
            MaybeResolvedType::Resolved(ResolvedType::Contract) => true,
            _ => false,
        }
    }
}

} // verus!
