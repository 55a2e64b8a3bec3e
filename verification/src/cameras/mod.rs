//! Camera settings that carry no geometry of their own.

pub mod perspective;
