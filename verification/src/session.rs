//! What the bot does with each record that it receives.

use vstd::prelude::*;
use crate::grammar::{Category, ReplyView};
use crate::reply::{IrcReply, IrcReplyCommand};
use crate::sample::{recognize, vote_of, Vote};

verus! {

/// What a received record asks of the bot.
#[derive(Debug)]
pub enum Reaction {
    /// The server greeted the bot: join the channel.
    Join,
    /// The server asked whether the bot is alive: answer with this text.
    Pong(String),
    /// A chat message: count it, with the command it votes for, if any.
    Count(Option<Vote>),
    /// Nothing to do but to show the record.
    Trace,
}

/// A reaction, as the contracts speak of it.
pub enum ReactionView {
    Join,
    Pong(Seq<char>),
    Count(Option<Vote>),
    Trace,
}

impl View for Reaction {
    type V = ReactionView;

    open spec fn view(&self) -> ReactionView {
        match self {
            Reaction::Join => ReactionView::Join,
            Reaction::Pong(text) => ReactionView::Pong(text@),
            Reaction::Count(vote) => ReactionView::Count(*vote),
            Reaction::Trace => ReactionView::Trace,
        }
    }
}

/// The command that an optional payload votes for.
pub open spec fn vote_in(payload: Option<Seq<char>>) -> Option<Vote> {
    match payload {
        Some(text) => vote_of(text),
        None => None,
    }
}

/// The reaction to a record. The first greeting is answered by joining; a
/// later one is only shown. A keep-alive request is answered with its
/// payload; one without a payload is only shown. Every chat message is
/// counted, with the command that its payload votes for.
pub open spec fn reaction_of(welcome: bool, reply: ReplyView) -> ReactionView {
    match reply.command {
        Category::Welcome => if welcome {
            ReactionView::Trace
        } else {
            ReactionView::Join
        },
        Category::Ping => match reply.payload_text() {
            Some(text) => ReactionView::Pong(text),
            None => ReactionView::Trace,
        },
        Category::PrivMsg => ReactionView::Count(vote_in(reply.payload_text())),
        _ => ReactionView::Trace,
    }
}

/// Whether the bot has been greeted once the reaction is carried out.
pub open spec fn welcome_after(welcome: bool, reaction: ReactionView) -> bool {
    welcome || reaction is Join
}

/// Decides the reaction to a record, given whether the server has greeted
/// the bot before.
pub fn react(welcome: bool, reply: &IrcReply) -> (reaction: Reaction)
    ensures
        reaction@ == reaction_of(welcome, reply@),
{
    match reply.command() {
        IrcReplyCommand::Welcome => {
            if welcome {
                Reaction::Trace
            } else {
                Reaction::Join
            }
        },
        IrcReplyCommand::Ping => {
            match reply.text() {
                Some(text) => Reaction::Pong(text.to_owned()),
                None => Reaction::Trace,
            }
        },
        IrcReplyCommand::PrivMsg => {
            match reply.text() {
                Some(text) => Reaction::Count(recognize(text)),
                None => Reaction::Count(None),
            }
        },
        _ => Reaction::Trace,
    }
}

/// Whether the bot has been greeted once the reaction is carried out.
pub fn greeted_after(welcome: bool, reaction: &Reaction) -> (next: bool)
    ensures
        next == welcome_after(welcome, reaction@),
{
    match reaction {
        Reaction::Join => true,
        _ => welcome,
    }
}

} // verus!
