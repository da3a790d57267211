//! Players: the stored user record and its public projection.

use vstd::prelude::*;
use vstd::string::StringSliceAdditionalSpecFns;

use crate::trusted::{base62_encode, new_token, random_id_number};
use crate::utils::{color_to_hex, spec_color_hex, spec_string_color, string_to_color};

verus! {

/// Mathematical content of a user record.
pub ghost struct SpecUser {
    pub color: Seq<char>,
    pub id: Seq<char>,
    pub username: Seq<char>,
    pub token: Seq<char>,
}

/// A registered player: random identifier and token, name-derived color.
#[derive(Debug)]
pub struct User {
    pub color: String,
    pub id: String,
    pub username: String,
    pub token: String,
}

impl View for User {
    type V = SpecUser;

    open spec fn view(&self) -> SpecUser {
        SpecUser {
            color: self.color@,
            id: self.id@,
            username: self.username@,
            token: self.token@,
        }
    }
}

impl Clone for User {
    fn clone(&self) -> (r: Self)
        ensures
            r == *self,
    {
        User {
            color: self.color.clone(),
            id: self.id.clone(),
            username: self.username.clone(),
            token: self.token.clone(),
        }
    }
}

impl User {
    /// A fresh user: random id and token, color derived from the username.
    pub fn new(username: &str) -> (u: User)
        ensures
            u@.username == username@,
            u@.color == spec_color_hex(spec_string_color(username.spec_bytes())),
            1 <= u@.id.len() <= 22,
            u@.token.len() == 36,
    {
        let token = new_token();
        let encoded_id = base62_encode(random_id_number());

        User {
            id: encoded_id,
            username: username.to_owned(),
            token,
            color: color_to_hex(string_to_color(username)),
        }
    }
}

/// A user as shown to other players: record fields plus the current score.
#[derive(Debug)]
pub struct PublicUser {
    pub id: String,
    pub username: String,
    pub color: String,
    pub score: u32,
}

/// Mathematical content of a public user.
pub ghost struct SpecPublicUser {
    pub id: Seq<char>,
    pub username: Seq<char>,
    pub color: Seq<char>,
    pub score: nat,
}

impl View for PublicUser {
    type V = SpecPublicUser;

    open spec fn view(&self) -> SpecPublicUser {
        SpecPublicUser {
            id: self.id@,
            username: self.username@,
            color: self.color@,
            score: self.score as nat,
        }
    }
}

impl Clone for PublicUser {
    fn clone(&self) -> (r: Self)
        ensures
            r == *self,
    {
        PublicUser {
            id: self.id.clone(),
            username: self.username.clone(),
            color: self.color.clone(),
            score: self.score,
        }
    }
}

} // verus!
