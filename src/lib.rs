//! Conversion of a pay rate between an hourly wage and an annual salary.
pub mod rate;
pub mod convert;
pub mod text;
pub mod laws;
