//! The settings of the process, made once at startup from what the
//! surroundings supply.

use crate::decimal::{decimal_of, lemma_decimal_grows, lemma_decimal_needs_digits};
use crate::error::ConfigError;
use vstd::prelude::*;
use vstd::string::StrSliceExecFns;

verus! {

/// Settings that are made from the port setting as it was found, if it was.
pub trait ConfigTrait: Sized {
    fn get_config(port: Option<&str>) -> Result<Self, ConfigError>;
}

/// The settings of the order book server.
#[derive(Debug, Clone, Copy, PartialEq, Eq, Structural)]
pub struct ClobConfig {
    port: u16,
}

/// The port that `text` names: a decimal number from 1 to 65535.
pub open spec fn port_of(text: Seq<char>) -> Result<u16, ConfigError> {
    match decimal_of(text) {
        Some(number) => if 1 <= number <= 65535 {
            Ok(number as u16)
        } else {
            Err(ConfigError::InvalidPort)
        },
        None => Err(ConfigError::InvalidPort),
    }
}

impl ClobConfig {
    /// The port to listen on.
    pub closed spec fn spec_port(&self) -> u16 {
        self.port
    }

    /// The port to listen on.
    #[verifier::when_used_as_spec(spec_port)]
    pub fn port(&self) -> (port: u16)
        ensures
            port == self.spec_port(),
            port >= 1,
    {
        proof {
            use_type_invariant(self);
        }
        self.port
    }

    #[verifier::type_invariant]
    spec fn listens(&self) -> bool {
        self.port >= 1
    }
}

impl ConfigTrait for ClobConfig {
    /// The settings for the port setting `port`. A missing setting, and one
    /// that is no decimal number from 1 to 65535, is refused as an invalid
    /// port.
    fn get_config(port: Option<&str>) -> (result: Result<Self, ConfigError>)
        ensures
            match port {
                Some(text) => match port_of(text@) {
                    Ok(number) => result.is_ok() && result.unwrap().port() == number,
                    Err(error) => result == Err::<Self, ConfigError>(error),
                },
                None => result == Err::<Self, ConfigError>(ConfigError::InvalidPort),
            },
    {
        let text = match port {
            Some(text) => text,
            None => {
                return Err(ConfigError::InvalidPort);
            },
        };
        let length = text.unicode_len();
        if length == 0 {
            return Err(ConfigError::InvalidPort);
        }
        let mut number: u32 = 0;
        let mut read: usize = 0;
        while read < length
            invariant
                port == Some(text),
                read <= length,
                length == text@.len(),
                number <= 65535,
                read > 0 ==> decimal_of(text@.take(read as int)) == Some(number as nat),
                read > 0 ==> text@.take(read as int).len() == read,
                read == 0 ==> number == 0,
            decreases length - read,
        {
            let c = text.get_char(read);
            proof {
                assert(text@.take(read + 1).drop_last() =~= text@.take(read as int));
            }
            if c < '0' || c > '9' {
                proof {
                    lemma_decimal_needs_digits(text@, read + 1);
                }
                return Err(ConfigError::InvalidPort);
            }
            let digit = c as u32 - '0' as u32;
            number = number * 10 + digit;
            if number > 65535 {
                proof {
                    if decimal_of(text@).is_some() {
                        lemma_decimal_grows(text@, read + 1);
                    }
                }
                return Err(ConfigError::InvalidPort);
            }
            read = read + 1;
        }
        proof {
            assert(text@.take(read as int) =~= text@);
        }
        if number == 0 {
            return Err(ConfigError::InvalidPort);
        }
        Ok(ClobConfig { port: number as u16 })
    }
}

} // verus!
