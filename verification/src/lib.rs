pub mod text;
pub mod policy;
pub mod laws;
pub mod pwquality;
pub mod json;
