//! The shapes of the tokens that an identity provider issues. They are validated before
//! they get here; these are the types that their payloads are read into.
use crate::text;
use crate::value::Member;
use vstd::prelude::*;

verus! {

/// The claims of an identity token.
pub struct FirebaseClaims {
    pub sub: String,
    pub iss: String,
    pub aud: Option<StringOrArray>,
    pub exp: Option<i64>,
    pub iat: Option<i64>,
    pub auth_time: Option<i64>,
    pub firebase: Option<FirebaseInfo>,
    pub user_id: Option<String>,
    pub email: Option<String>,
    pub email_verified: Option<bool>,
    pub name: Option<String>,
    pub picture: Option<String>,
}

/// How somebody signed in.
pub struct FirebaseInfo {
    pub sign_in_provider: Option<String>,
    /// Linked identities, by provider.
    pub identities: Option<Vec<(String, Vec<String>)>>,
    pub tenant: Option<String>,
}

impl Default for FirebaseInfo {
    fn default() -> (r: FirebaseInfo)
        ensures
            r.sign_in_provider is None,
            r.identities is None,
            r.tenant is None,
    {
        FirebaseInfo { sign_in_provider: None, identities: None, tenant: None }
    }
}

/// The claims of a custom token, where `sub` names a service account and `uid` the user.
pub struct FirebaseCustomTokenClaims {
    pub sub: String,
    pub iss: String,
    pub aud: Option<StringOrArray>,
    pub exp: Option<i64>,
    pub iat: Option<i64>,
    pub uid: Option<String>,
    pub claims: Option<Vec<Member>>,
}

/// An audience: one name or several.
#[derive(Debug, Clone)]
pub enum StringOrArray {
    Single(String),
    Multiple(Vec<String>),
}

impl View for StringOrArray {
    type V = Seq<Seq<char>>;

    open spec fn view(&self) -> Seq<Seq<char>> {
        match *self {
            StringOrArray::Single(s) => seq![s@],
            StringOrArray::Multiple(v) => text::texts(v@),
        }
    }
}

/// The first of several names.
pub open spec fn first_of(names: Seq<Seq<char>>) -> Option<Seq<char>> {
    if names.len() > 0 {
        Some(names[0])
    } else {
        None
    }
}

impl StringOrArray {
    /// The first name.
    pub fn first(&self) -> (r: Option<&str>)
        ensures
            match r {
                Some(s) => first_of(self@) == Some(s@),
                None => first_of(self@) is None,
            },
    {
        match self {
            StringOrArray::Single(s) => Some(s.as_str()),
            StringOrArray::Multiple(v) => {
                if v.len() > 0 {
                    Some(v[0].as_str())
                } else {
                    None
                }
            },
        }
    }
}

/// The first of several names is the one in front, and a single name is its own first.
pub proof fn law_first_name(v: StringOrArray)
    ensures
        v matches StringOrArray::Single(s) ==> first_of(v@) == Some(s@),
        v matches StringOrArray::Multiple(l) ==> first_of(v@) == if l@.len() == 0 {
            None
        } else {
            Some(l@[0]@)
        },
{
}

} // verus!
