//! Verified core of a DMARC aggregate (RUA, RFC 7489 Appendix C) report
//! analyzer: conversion of the deserialized report tree into the report
//! model, aggregation into a delivery-health summary, and the human-readable
//! rendering of that summary.

pub mod archive;
pub mod clock;
pub mod decimal;
pub mod input;
pub mod ip;
pub mod laws;
pub mod model;
pub mod paths;
pub mod raw;
pub mod render;
pub mod summary;
pub mod text;
