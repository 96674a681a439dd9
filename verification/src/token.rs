//! Opaque session tokens.

use vstd::prelude::*;

verus! {

/// The fixed alphabet from which session tokens are drawn.
pub open spec fn token_charset() -> Seq<char> {
    "0123456789ABCDEFGHIJKLMNOPQRSTUVWXYZ"@
}

/// Number of characters in a freshly issued token.
pub const TOKEN_LEN: usize = 20;

/// Relies on random_string::generate: the result holds exactly `length`
/// characters, each drawn from `charset`. It panics on an empty charset,
/// which the precondition rules out.
#[verifier::external_body]
fn random_chars(length: usize, charset: &str) -> (r: String)
    requires
        charset@.len() > 0,
    ensures
        r@.len() == length,
        forall|i: int| 0 <= i < r@.len() ==> charset@.contains(r@[i]),
{
    random_string::generate(length, charset)
}

/// An opaque session credential granting access to privileged operations.
pub struct ApiToken(String);

impl View for ApiToken {
    type V = Seq<char>;

    closed spec fn view(&self) -> Seq<char> {
        self.0@
    }
}

impl Clone for ApiToken {
    fn clone(&self) -> (r: Self)
        ensures
            r == *self,
    {
        ApiToken(self.0.clone())
    }
}

impl ApiToken {
    /// A freshly generated random token.
    pub fn new() -> (r: ApiToken)
        ensures
            r@.len() == TOKEN_LEN,
            forall|i: int| 0 <= i < r@.len() ==> token_charset().contains(r@[i]),
    {
        proof {
            reveal_strlit("0123456789ABCDEFGHIJKLMNOPQRSTUVWXYZ");
        }
        ApiToken(random_chars(TOKEN_LEN, "0123456789ABCDEFGHIJKLMNOPQRSTUVWXYZ"))
    }

    /// The token whose value is exactly `token`.
    pub fn from_string(token: &str) -> (r: ApiToken)
        ensures
            r@ == token@,
    {
        ApiToken(String::from_str(token))
    }

    /// The token's value.
    pub fn as_str<'a>(&'a self) -> (r: &'a str)
        ensures
            r@ == self@,
    {
        self.0.as_str()
    }
}

} // verus!
