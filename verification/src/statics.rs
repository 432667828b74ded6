//! The single storage account of a `connectionstring.txt` file.

use vstd::prelude::*;
use crate::credentials::{connection_fields, connection_fields_of};

verus! {

/// The endpoint and the shared access signature of a storage account.
pub struct StorageAccount {
    pub endpoint: String,
    pub sas: String,
}

/// Reads a connection string; both the endpoint and the signature must be
/// present.
pub fn parse_sas(text: String) -> (r: StorageAccount)
    requires
        connection_fields_of(text@).0 is Some,
        connection_fields_of(text@).1 is Some,
    ensures
        Some(r.endpoint@) == connection_fields_of(text@).0,
        Some(r.sas@) == connection_fields_of(text@).1,
{
    let (endpoint, sas) = connection_fields(text.as_str());
    StorageAccount { endpoint: endpoint.unwrap(), sas: sas.unwrap() }
}

} // verus!
