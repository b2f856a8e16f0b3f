//! Spectral identity records and mesh repair for triangle meshes.
pub mod accounting;
pub mod audit;
pub mod capping;
pub mod clean;
pub mod closing;
pub mod compact;
pub mod components;
pub mod cycles;
pub mod debris;
pub mod digits;
pub mod force;
pub mod holes;
pub mod hubs;
pub mod invariance;
pub mod json;
pub mod kept;
pub mod meaning;
pub mod mesh;
pub mod number;
pub mod numbering;
pub mod obj;
pub mod orient;
pub mod pipeline;
pub mod ranges;
pub mod reading;
pub mod record;
pub mod report;
pub mod rounds;
pub mod roundtrip;
pub mod sealing;
pub mod steps;
pub mod taking_back;
pub mod text;
pub mod trusted;
pub mod weld;
pub mod winding;
pub mod wording;
