//! Encoding and decoding of values for PostgreSQL `COPY` operations: the
//! scalar text codec, list literals, and the binary row format.

pub mod binary;
pub mod cast;
pub mod config;
pub mod datetime;
pub mod decimal;
pub mod destination;
pub mod error;
pub mod jsonb;
pub mod list;
pub mod strconv;
pub mod text;
