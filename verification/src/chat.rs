//! Chats as the surrounding bot sees them.

use vstd::prelude::*;

verus! {

/// A chat the bot takes part in.
#[derive(Debug)]
pub struct Chat {
    pub id: i64,
    pub kind: ChatType,
}

/// What kind of chat it is; every kind but a private chat has a title.
#[derive(Debug)]
pub enum ChatType {
    Private,
    Group { title: String },
    SuperGroup { title: String },
    Channel { title: String },
}

impl ChatType {
    /// The kind's name as the chat service spells it.
    pub open spec fn spec_name(&self) -> Seq<char> {
        match self {
            ChatType::Private => "private"@,
            ChatType::Group { .. } => "group"@,
            ChatType::SuperGroup { .. } => "supergroup"@,
            ChatType::Channel { .. } => "channel"@,
        }
    }

    /// The kind's name as the chat service spells it.
    pub fn name(&self) -> (r: &'static str)
        ensures
            r@ == self.spec_name(),
    {
        match self {
            ChatType::Private => "private",
            ChatType::Group { .. } => "group",
            ChatType::SuperGroup { .. } => "supergroup",
            ChatType::Channel { .. } => "channel",
        }
    }
}

} // verus!
