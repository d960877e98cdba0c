//! The decision part of TLS setup: which private key a PEM file yields.
use vstd::prelude::*;

verus! {

/// Why a PEM file gives no usable private key.
#[derive(Clone, Copy, Debug, PartialEq, Eq, Structural)]
pub enum KeyError {
    /// The file holds no PKCS#8 private key.
    NoKey,
    /// The file holds more than one PKCS#8 private key.
    SeveralKeys,
}

/// Picks the private key among the PKCS#8 keys read from a PEM file: there
/// must be exactly one.
pub fn select_private_key(keys: Vec<Vec<u8>>) -> (r: Result<Vec<u8>, KeyError>)
    ensures
        keys@.len() == 0 ==> r == Err::<Vec<u8>, KeyError>(KeyError::NoKey),
        keys@.len() > 1 ==> r == Err::<Vec<u8>, KeyError>(KeyError::SeveralKeys),
        keys@.len() == 1 ==> r == Ok::<Vec<u8>, KeyError>(keys@[0]),
{
    let mut keys = keys;
    if keys.len() == 0 {
        Err(KeyError::NoKey)
    } else if keys.len() > 1 {
        Err(KeyError::SeveralKeys)
    } else {
        Ok(keys.remove(0))
    }
}

} // verus!
