//! Base64 text of borrowed data, produced on demand.
use crate::configs::Config;
use crate::model::{ascii_chars, encode_spec, encoded_len};
use vstd::prelude::*;

verus! {

/// Wraps data so that its base64 text, under a configuration, can be
/// produced when needed.
pub struct Display<'a, C> {
    config: C,
    data: &'a [u8],
}

impl<'a, C: Config> Display<'a, C> {
    pub closed spec fn config(&self) -> C {
        self.config
    }

    pub closed spec fn data(&self) -> Seq<u8> {
        self.data@
    }

    /// Wrap the data, to be encoded according to the configuration.
    pub fn new(config: C, data: &'a [u8]) -> (r: Self)
        ensures
            r.config() == config,
            r.data() == data@,
    {
        Display { config, data }
    }

    /// The base64 text of the wrapped data.
    pub fn to_string(&self) -> (r: String)
        requires
            encoded_len(self.data().len() as int, self.config().padding() is Some) <= usize::MAX,
        ensures
            r@ == ascii_chars(encode_spec(self.config().alphabet(), self.config().padding(), self.data())),
    {
        crate::encode::encode(self.config, self.data)
    }
}

} // verus!
