//! A typed model of the Redis serialization protocol (RESP2 and RESP3):
//! values, their canonical wire form, a streaming decoder, a frame codec
//! over a byte buffer, and an append-only command builder.

pub mod codec;
pub mod command;
pub mod config;
pub mod decimal;
pub mod dispatch;
pub mod equality;
pub mod error;
pub mod grammar;
pub mod laws;
pub mod model;
pub mod multibulk;
pub mod pair;
pub mod parse;
pub mod scalar;
pub mod text;
pub mod value;

pub use codec::RedisCodec;
pub use command::{write_array, write_simple, Argument, Command};
pub use config::{Config, RedisConfig};
pub use dispatch::{handle, Action};
pub use error::{DecodeError, IoFailure, IoKind, ParseError};
pub use model::RespVersion;
pub use multibulk::parse_array;
pub use pair::ValuePair;
pub use parse::{parse_redis_value, Parser};
pub use scalar::{BigInteger, Float64};
pub use value::{Value, ValueMap};
