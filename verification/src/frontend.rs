//! What a proxy hands a frontend client (`/api/proxy`, `/api/frontend`).
use vstd::prelude::*;

use crate::client_features::Payload;

verus! {

/// The toggles evaluated for one context.
#[derive(Clone, Debug)]
pub struct FrontendResult {
    pub toggles: Vec<EvaluatedToggle>,
}

/// A toggle evaluated for one context.
#[derive(Clone, Debug)]
pub struct EvaluatedToggle {
    pub name: String,
    pub enabled: bool,
    pub variant: EvaluatedVariant,
    pub impression_data: bool,
}

/// The variant chosen for one context.
#[derive(Clone, Debug)]
pub struct EvaluatedVariant {
    pub name: String,
    pub enabled: bool,
    pub payload: Option<Payload>,
}

} // verus!
