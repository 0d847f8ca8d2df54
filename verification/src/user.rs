//! Users as the surrounding bot sees them.

use vstd::prelude::*;

verus! {

/// A user of the chat service.
#[derive(Debug)]
pub struct User {
    pub id: i64,
    pub first_name: String,
    pub is_bot: bool,
    pub last_name: Option<String>,
    pub username: Option<String>,
}

impl User {
    /// The name shown for the user: the username when one is set, else
    /// first and last name, else the first name alone.
    pub open spec fn spec_shown_name(&self) -> Seq<char> {
        match self.username {
            Some(u) => u@,
            None => match self.last_name {
                Some(l) => self.first_name@ + " "@ + l@,
                None => self.first_name@,
            },
        }
    }

    /// The name shown for the user.
    pub fn shown_name(&self) -> (r: String)
        ensures
            r@ == self.spec_shown_name(),
    {
        match &self.username {
            Some(u) => u.clone(),
            None => match &self.last_name {
                Some(l) => {
                    let mut r = self.first_name.clone();
                    r.append(" ");
                    r.append(l.as_str());
                    r
                },
                None => self.first_name.clone(),
            },
        }
    }
}

} // verus!
