//! What a projection declares of the size of its state, and whether a state
//! keeps to it.

use crate::error::StoreError;
use vstd::prelude::*;

verus! {

/// What a projection declares of the size of its state.
#[derive(Clone, Copy, Debug, PartialEq, Eq)]
pub enum ProjectionStateContract {
    /// Nothing.
    Unspecified,
    /// That it has no bound.
    UnboundedDeclared {
        /// What the state is keyed by.
        key_space: &'static str,
    },
    /// A bound.
    Bounded {
        /// What the state is keyed by.
        key_space: &'static str,
        /// The largest number of entries.
        max_cardinality: u64,
    },
}

/// What it takes to learn the size of a state.
#[derive(Clone, Copy, Debug, PartialEq, Eq, Structural)]
pub enum StateExtentCost {
    /// A constant time.
    ConstantTime,
    /// A pass over the state.
    LinearTime,
    /// It cannot be learned.
    Unavailable,
}

/// The size of a state.
#[derive(Clone, Copy, Debug, PartialEq, Eq, Structural)]
pub struct StateExtent {
    /// Number of entries, where it is known.
    pub cardinality: Option<u64>,
    /// What it took to learn it.
    pub cost: StateExtentCost,
}

impl StateExtent {
    /// A state with some entries.
    pub fn of_cardinality(cardinality: u64, cost: StateExtentCost) -> (r: StateExtent)
        ensures
            r == (StateExtent { cardinality: Some(cardinality), cost }),
    {
        StateExtent { cardinality: Some(cardinality), cost }
    }
}

/// The size of a state that may be missing: no state has no entries.
pub open spec fn extent_of(state: Option<StateExtent>) -> StateExtent {
    match state {
        Some(extent) => extent,
        None => StateExtent { cardinality: Some(0), cost: StateExtentCost::ConstantTime },
    }
}

/// The state keeps to what was declared.
pub open spec fn keeps_contract(
    contract: ProjectionStateContract,
    state: Option<StateExtent>,
) -> bool {
    match contract {
        ProjectionStateContract::Unspecified => false,
        ProjectionStateContract::UnboundedDeclared { .. } => true,
        ProjectionStateContract::Bounded { max_cardinality, .. } => {
            &&& extent_of(state).cost != StateExtentCost::Unavailable
            &&& extent_of(state).cardinality matches Some(n) && n <= max_cardinality
        },
    }
}

/// Holds the state of a projection against what the projection declares.
pub fn validate_projection_state(
    projection: String,
    contract: ProjectionStateContract,
    state: Option<StateExtent>,
) -> (r: Result<(), StoreError>)
    ensures
        r is Ok <==> keeps_contract(contract, state),
        r matches Err(e) ==> match contract {
            ProjectionStateContract::Unspecified => e
                == (StoreError::ProjectionStateContractUnspecified { projection }),
            _ => if extent_of(state).cardinality is None || extent_of(state).cost
                == StateExtentCost::Unavailable {
                e == (StoreError::ProjectionStateExtentUnavailable {
                    projection,
                    declared: contract,
                    actual: extent_of(state),
                })
            } else {
                e == (StoreError::ProjectionStateBoundExceeded {
                    projection,
                    declared: contract,
                    actual: extent_of(state),
                })
            },
        },
{
    match contract {
        ProjectionStateContract::Unspecified => Err(
            StoreError::ProjectionStateContractUnspecified { projection },
        ),
        ProjectionStateContract::UnboundedDeclared { .. } => Ok(()),
        ProjectionStateContract::Bounded { max_cardinality, .. } => {
            let actual = match state {
                Some(extent) => extent,
                None => StateExtent::of_cardinality(0, StateExtentCost::ConstantTime),
            };
            let cardinality: u64 = match actual.cardinality {
                Some(cardinality) => cardinality,
                None => {
                    return Err(
                        StoreError::ProjectionStateExtentUnavailable {
                            projection,
                            declared: contract,
                            actual,
                        },
                    );
                },
            };
            if actual.cost == StateExtentCost::Unavailable {
                return Err(
                    StoreError::ProjectionStateExtentUnavailable {
                        projection,
                        declared: contract,
                        actual,
                    },
                );
            }
            if cardinality > max_cardinality {
                return Err(
                    StoreError::ProjectionStateBoundExceeded {
                        projection,
                        declared: contract,
                        actual,
                    },
                );
            }
            Ok(())
        },
    }
}

/// A state passes where no bound was declared but that there is none, or where its size
/// is known and no greater than the declared bound; a missing state has no entries. A
/// projection that declares nothing never passes.
pub proof fn law_states_keep_to_their_bound(
    projection: String,
    contract: ProjectionStateContract,
    state: Option<StateExtent>,
    r: Result<(), StoreError>,
)
    requires
        call_ensures(validate_projection_state, (projection, contract, state), r),
    ensures
        contract is Unspecified ==> r is Err && r->Err_0 is ProjectionStateContractUnspecified,
        contract is UnboundedDeclared ==> r is Ok,
        contract matches ProjectionStateContract::Bounded { max_cardinality, .. } ==> match state {
            None => r is Ok,
            Some(extent) => if extent.cost is Unavailable || extent.cardinality is None {
                r is Err && r->Err_0 is ProjectionStateExtentUnavailable
            } else if extent.cardinality->0 > max_cardinality {
                r is Err && r->Err_0 is ProjectionStateBoundExceeded
            } else {
                r is Ok
            },
        },
{
}

} // verus!
