//! The paths under which the outer service layer serves each resource.
//! The layer itself (routing, authentication, response shaping) is the
//! caller of this library, not part of it.

pub mod api_doc;
pub mod branding;
pub mod search;
pub mod thing;
