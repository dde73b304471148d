//! What a run is told: the contract and its creation block, the target
//! block, the batch size, and the tokens to take snapshots of.

use crate::address::Address;
use vstd::prelude::*;
use vstd::string::*;

verus! {

/// The settings of a run.
#[derive(Debug, PartialEq, Eq)]
pub struct Config {
    /// The block in which the contract was created: the first to scan.
    pub contract_creation_block: u64,
    /// The contract whose transfer events make the holders.
    pub contract_address: Address,
    /// The target block: the last to scan, and the one at which balances
    /// are read.
    pub block_height: u64,
    /// The tokens to take snapshots of.
    pub token_addresses: Vec<Address>,
    /// The name of each token, in the order of `token_addresses`.
    pub token_names: Vec<String>,
    /// How many blocks a batch holds after its first.
    pub batch_size: u64,
}

/// Why settings cannot be used.
#[derive(Clone, Copy, Debug, PartialEq, Eq, Structural)]
pub enum ConfigError {
    /// There are not as many token names as token addresses.
    TokenListsDiffer,
}

impl ConfigError {
    /// The error in words.
    pub fn message(&self) -> (r: String)
        ensures
            r@ == "Token addresses and names must be the same length"@,
    {
        String::from_str("Token addresses and names must be the same length")
    }
}

impl Config {
    /// Whether every token has a name.
    pub open spec fn valid(&self) -> bool {
        self.token_addresses@.len() == self.token_names@.len()
    }

    /// Accepts the settings when every token has a name.
    pub fn validate(&self) -> (r: Result<(), ConfigError>)
        ensures
            r is Ok <==> self.valid(),
            r matches Err(e) ==> e == ConfigError::TokenListsDiffer,
    {
        if self.token_addresses.len() != self.token_names.len() {
            Err(ConfigError::TokenListsDiffer)
        } else {
            Ok(())
        }
    }
}

/// The name of the file that holds the snapshot of the token `name`.
pub fn snapshot_file_name(name: &str) -> (r: String)
    ensures
        r@ == name@ + "-balances.json"@,
{
    let mut r = String::from_str(name);
    r.append("-balances.json");
    r
}

} // verus!
