//! Display options for public keys.

use vstd::prelude::*;

verus! {

/// Options for displaying public key
#[derive(Clone, Copy, Debug, PartialEq, Eq, Structural)]
pub enum PubkeyDisplay {
    Base64,
    Bech32,
    Json,
}

/// Relies on str's `PartialEq`: two string slices are equal exactly when
/// their character sequences are.
#[verifier::external_body]
fn str_eq(a: &str, b: &str) -> (r: bool)
    ensures
        r == (a@ == b@),
{
    a == b
}

impl PubkeyDisplay {
    /// Parse a display option from its lower-case name; any other string is
    /// rejected with a fixed message.
    pub fn from_str(s: &str) -> (r: Result<PubkeyDisplay, String>)
        ensures
            s@ == "base64"@ ==> r == Ok::<PubkeyDisplay, String>(PubkeyDisplay::Base64),
            s@ == "bech32"@ ==> r == Ok::<PubkeyDisplay, String>(PubkeyDisplay::Bech32),
            s@ == "json"@ ==> r == Ok::<PubkeyDisplay, String>(PubkeyDisplay::Json),
            s@ != "base64"@ && s@ != "bech32"@ && s@ != "json"@ ==> r is Err
                && r->Err_0@ == "unknown display type"@,
    {
        proof {
            reveal_strlit("base64");
            reveal_strlit("bech32");
            reveal_strlit("json");
            assert("base64"@[1] != "bech32"@[1]);
            assert("base64"@.len() != "json"@.len());
            assert("bech32"@.len() != "json"@.len());
        }
        if str_eq(s, "base64") {
            Ok(PubkeyDisplay::Base64)
        } else if str_eq(s, "bech32") {
            Ok(PubkeyDisplay::Bech32)
        } else if str_eq(s, "json") {
            Ok(PubkeyDisplay::Json)
        } else {
            Err("unknown display type".to_owned())
        }
    }
}

} // verus!
