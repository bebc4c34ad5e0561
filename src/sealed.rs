//! The supertrait that keeps configurations to the types of this crate.
use vstd::prelude::*;

verus! {

/// Implemented only by the configuration types of this crate.
pub trait Sealed {}

impl Sealed for crate::configs::Std {}

impl Sealed for crate::configs::StdNoPad {}

impl Sealed for crate::configs::UrlSafe {}

impl Sealed for crate::configs::UrlSafeNoPad {}

impl Sealed for crate::configs::Crypt {}

impl Sealed for crate::configs::Fast {}

impl Sealed for crate::configs::CustomConfig {}

} // verus!
