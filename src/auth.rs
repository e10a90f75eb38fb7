use vstd::prelude::*;
use vstd::string::*;

verus! {

/// A key that matched the expected one.
#[derive(Debug)]
pub struct ApiKey(pub String);

/// Why a request's key was refused.
#[derive(Debug, Clone, Copy, PartialEq, Eq, Structural)]
pub enum ApiKeyError {
    Missing,
    Invalid,
}

impl ApiKey {
    /// Accepts the key given with a request when it equals the expected one.
    pub fn check(given: Option<&str>, expected: &str) -> (r: Result<ApiKey, ApiKeyError>)
        ensures
            given is None ==> r == Err::<ApiKey, ApiKeyError>(ApiKeyError::Missing),
            given is Some && given->Some_0@ == expected@ ==> r is Ok && r->Ok_0.0@ == expected@,
            given is Some && given->Some_0@ != expected@ ==> r == Err::<ApiKey, ApiKeyError>(
                ApiKeyError::Invalid,
            ),
    {
        match given {
            None => Err(ApiKeyError::Missing),
            Some(key) => {
                let key = String::from_str(key);
                let expected = String::from_str(expected);
                if key == expected {
                    Ok(ApiKey(key))
                } else {
                    Err(ApiKeyError::Invalid)
                }
            },
        }
    }
}

} // verus!
