//! The clouds a device can be connected to, and the mapper service
//! each of them depends on.

use vstd::prelude::*;

verus! {

/// A supported cloud.
#[derive(Copy, Clone, Debug, PartialEq, Eq, Structural)]
pub enum Cloud {
    C8y,
    Azure,
}

/// A managed system service.
#[derive(Copy, Clone, Debug, PartialEq, Eq, Structural)]
pub enum SystemService {
    TEdgeMapperAz,
    TEdgeMapperC8y,
}

impl Cloud {
    /// The mapper service that a connection to this cloud depends on.
    pub fn dependent_mapper_service(&self) -> (r: SystemService)
        ensures
            r == (match *self {
                Cloud::Azure => SystemService::TEdgeMapperAz,
                Cloud::C8y => SystemService::TEdgeMapperC8y,
            }),
    {
        match self {
            Cloud::Azure => SystemService::TEdgeMapperAz,
            Cloud::C8y => SystemService::TEdgeMapperC8y,
        }
    }

    /// The cloud's display name.
    pub fn as_str(&self) -> (r: &'static str)
        ensures
            *self is Azure ==> r@ == "Azure"@,
            *self is C8y ==> r@ == "Cumulocity"@,
    {
        match self {
            Cloud::Azure => "Azure",
            Cloud::C8y => "Cumulocity",
        }
    }
}

} // verus!
