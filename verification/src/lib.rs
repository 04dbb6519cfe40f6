pub mod text;
pub mod corpus;
pub mod hashing;
pub mod sampler;
pub mod data;
pub mod config;
pub mod experiment;
pub mod report;
pub mod model;
pub mod sample;
pub mod preflight;
