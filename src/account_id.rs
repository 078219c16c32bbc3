//! Account identifiers: lower-case names such as `alice.near`, usable as map
//! keys and values.
use vstd::prelude::*;

use vstd::utf8::encode_utf8;

verus! {

/// Shortest valid account identifier, in bytes.
pub const MIN_ACCOUNT_ID_LEN: usize = 2;

/// Longest valid account identifier, in bytes.
pub const MAX_ACCOUNT_ID_LEN: usize = 64;

/// A lower-case letter or a digit.
pub open spec fn is_name_byte(c: u8) -> bool {
    (97 <= c <= 122) || (48 <= c <= 57)
}

/// One of the separators `-`, `_` and `.`.
pub open spec fn is_separator(c: u8) -> bool {
    c == 45 || c == 95 || c == 46
}

/// A valid account identifier: 2 to 64 bytes of lower-case letters, digits
/// and separators, neither starting nor ending with a separator and with no
/// two separators side by side.
pub open spec fn valid_account_id(b: Seq<u8>) -> bool {
    &&& MIN_ACCOUNT_ID_LEN <= b.len() <= MAX_ACCOUNT_ID_LEN
    &&& forall|i: int| 0 <= i < b.len() ==> is_name_byte(#[trigger] b[i]) || is_separator(b[i])
    &&& !is_separator(b[0])
    &&& !is_separator(b.last())
    &&& forall|i: int|
        0 <= i < b.len() - 1 ==> !(is_separator(#[trigger] b[i]) && is_separator(b[i + 1]))
}

/// Whether `b` is a valid account identifier.
pub fn is_valid_account_id(b: &[u8]) -> (r: bool)
    ensures
        r == valid_account_id(b@),
{
    if b.len() < MIN_ACCOUNT_ID_LEN || b.len() > MAX_ACCOUNT_ID_LEN {
        return false;
    }
    let mut last_is_separator = true;
    let mut i: usize = 0;
    while i < b.len()
        invariant
            i <= b@.len(),
            2 <= b@.len() <= 64,
            forall|j: int| 0 <= j < i ==> is_name_byte(#[trigger] b@[j]) || is_separator(b@[j]),
            i > 0 ==> !is_separator(b@[0]),
            forall|j: int|
                0 <= j < i - 1 ==> !(is_separator(#[trigger] b@[j]) && is_separator(b@[j + 1])),
            i == 0 ==> last_is_separator,
            i > 0 ==> last_is_separator == is_separator(b@[i - 1]),
        decreases b@.len() - i,
    {
        let c = b[i];
        let current_is_separator = if (97 <= c && c <= 122) || (48 <= c && c <= 57) {
            false
        } else if c == 45 || c == 95 || c == 46 {
            true
        } else {
            return false;
        };
        if current_is_separator && last_is_separator {
            return false;
        }
        last_is_separator = current_is_separator;
        i = i + 1;
    }
    !last_is_separator
}

/// Why a string is not an account identifier.
#[derive(Debug, Clone, Copy, PartialEq, Eq, Structural)]
pub enum ParseAccountIdErrorKind {
    /// The bytes break the account identifier rules.
    InvalidAccountId,
    /// The bytes are not UTF-8.
    InvalidUtf8,
}

/// A string was rejected as an account identifier.
#[derive(Debug, Clone, Copy, PartialEq, Eq, Structural)]
pub struct ParseAccountIdError {
    pub kind: ParseAccountIdErrorKind,
}

impl ParseAccountIdError {
    /// A description of the error.
    pub fn message(&self) -> (r: String)
        ensures
            self.kind == ParseAccountIdErrorKind::InvalidAccountId ==> r@
                == "the account ID is invalid"@,
            self.kind == ParseAccountIdErrorKind::InvalidUtf8 ==> r@
                == "bytes are not valid utf-8"@,
    {
        match self.kind {
            ParseAccountIdErrorKind::InvalidAccountId => "the account ID is invalid".to_owned(),
            ParseAccountIdErrorKind::InvalidUtf8 => "bytes are not valid utf-8".to_owned(),
        }
    }
}

/// Checks `id` against the account identifier rules.
pub fn validate_account_id(id: &str) -> (r: Result<(), ParseAccountIdError>)
    ensures
        r is Ok == valid_account_id(encode_utf8(id@)),
        r matches Err(e) ==> e.kind == ParseAccountIdErrorKind::InvalidAccountId,
{
    if is_valid_account_id(id.as_bytes()) {
        Ok(())
    } else {
        Err(ParseAccountIdError { kind: ParseAccountIdErrorKind::InvalidAccountId })
    }
}

/// An account identifier.
#[derive(Debug, Clone, PartialEq, Eq, PartialOrd, Ord, Hash)]
pub struct AccountId(String);

impl View for AccountId {
    type V = Seq<char>;

    closed spec fn view(&self) -> Seq<char> {
        self.0@
    }
}

impl AccountId {
    /// The identifier's bytes.
    pub fn as_bytes(&self) -> (r: &[u8])
        ensures
            r@ == encode_utf8(self@),
    {
        self.0.as_str().as_bytes()
    }

    /// The identifier as a string slice.
    pub fn as_str(&self) -> (r: &str)
        ensures
            r@ == self@,
    {
        self.0.as_str()
    }

    /// The identifier as an owned string.
    pub fn into_string(self) -> (r: String)
        ensures
            r@ == self@,
    {
        self.0
    }

    /// Wraps `id` without checking it.
    pub fn new_unchecked(id: String) -> (r: Self)
        ensures
            r@ == id@,
    {
        AccountId(id)
    }

    /// Parses `value`, checking the account identifier rules.
    pub fn from_str(value: &str) -> (r: Result<Self, ParseAccountIdError>)
        ensures
            r is Ok == valid_account_id(encode_utf8(value@)),
            r matches Ok(a) ==> a@ == value@,
            r matches Err(e) ==> e.kind == ParseAccountIdErrorKind::InvalidAccountId,
    {
        match validate_account_id(value) {
            Ok(()) => Ok(AccountId(value.to_owned())),
            Err(e) => Err(e),
        }
    }

    /// Takes `value` as an identifier, checking the account identifier rules.
    pub fn try_from_string(value: String) -> (r: Result<Self, ParseAccountIdError>)
        ensures
            r is Ok == valid_account_id(encode_utf8(value@)),
            r matches Ok(a) ==> a@ == value@,
            r matches Err(e) ==> e.kind == ParseAccountIdErrorKind::InvalidAccountId,
    {
        match validate_account_id(value.as_str()) {
            Ok(()) => Ok(AccountId(value)),
            Err(e) => Err(e),
        }
    }
}

impl core::str::FromStr for AccountId {
    type Err = ParseAccountIdError;

    fn from_str(value: &str) -> Result<Self, Self::Err> {
        AccountId::from_str(value)
    }
}

impl AsRef<str> for AccountId {
    fn as_ref(&self) -> &str {
        self.0.as_str()
    }
}

impl<'a> TryFrom<&'a str> for AccountId {
    type Error = ParseAccountIdError;

    fn try_from(value: &'a str) -> Result<Self, Self::Error> {
        AccountId::from_str(value)
    }
}

impl<'a> vstd::std_specs::convert::TryFromSpecImpl<&'a str> for AccountId {
    open spec fn obeys_try_from_spec() -> bool {
        false
    }

    open spec fn try_from_spec(v: &'a str) -> Result<Self, ParseAccountIdError> {
        vstd::pervasive::arbitrary()
    }
}

} // verus!
