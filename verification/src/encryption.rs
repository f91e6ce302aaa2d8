//! The encryption formats of Joplin master keys and strings.
pub mod generic;

use vstd::prelude::*;

pub use generic::{EncryptedContent, EncryptedData};

verus! {

/// The number of PBKDF2 rounds that derive the key of a master key.
pub const KEY_V1_ITERATIONS: u32 = 220000;

/// The number of PBKDF2 rounds that derive the key of a string.
pub const STRING_V1_ITERATIONS: u32 = 3;

/// A master key: AES-256-GCM under a PBKDF2-HMAC-SHA512 key.
pub type EncryptedKeyV1 = EncryptedData<KEY_V1_ITERATIONS>;

/// A string: AES-256-GCM under a PBKDF2-HMAC-SHA512 key.
pub type EncryptedStringV1 = EncryptedData<STRING_V1_ITERATIONS>;

pub const ENCRYPTION_METHOD_KEY_V1: u32 = 8;

pub const ENCRYPTION_METHOD_STRING_V1: u32 = 10;

} // verus!
