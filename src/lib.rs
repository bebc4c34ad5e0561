//! Base64 encoding and decoding.
//!
//! A configuration (`STD`, `URL_SAFE`, `CRYPT`, their variants without
//! padding, `FAST`, or a `CustomConfig`) provides methods to encode and
//! decode; the `io` module offers the same work incrementally.
pub mod configs;
pub mod decode;
pub mod display;
pub mod encode;
pub mod io;
pub mod model;
mod sealed;
pub mod theorems;
pub mod u6;

pub use crate::configs::{
    Config, ConfigBuilder, Crypt, CustomConfig, CustomConfigBuilder, CustomConfigError, Fast,
    SealedConfig, Std, StdNoPad, UrlSafe, UrlSafeNoPad,
};
pub use crate::display::Display;
pub use crate::model::DecodeError;

use vstd::prelude::*;

verus! {

/// Encode and Decode using the standard character set with padding.
pub const STD: Std = Std;

/// Encode and Decode using the standard character set *without* padding.
pub const STD_NO_PAD: StdNoPad = StdNoPad;

/// Encode and Decode using the URL safe character set with padding.
pub const URL_SAFE: UrlSafe = UrlSafe;

/// Encode and Decode using the URL safe character set *without* padding.
pub const URL_SAFE_NO_PAD: UrlSafeNoPad = UrlSafeNoPad;

/// Encode and Decode using the `crypt(3)` character set.
pub const CRYPT: Crypt = Crypt;

/// Encode and Decode using a fast alphabet with no padding, not part of any
/// official specification.
pub const FAST: Fast = Fast;

} // verus!
