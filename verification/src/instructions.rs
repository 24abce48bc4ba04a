//! The instructions that tell a model how to deliver its answer on a
//! channel: which markers stand for attachments, and how to write.

use crate::text::{chars_of, same_chars};
use vstd::prelude::*;

verus! {

/// The instructions for channels without a dialect of their own.
pub const DEFAULT_INSTRUCTIONS: &'static str =
    "Delivery instructions:\n\
- Be concise and direct. Skip filler phrases and get to the point.\n\
- Use tool results silently: answer with what you found, do not narrate the calls you made.\n\
- To send media, put a marker on a line of its own:\n\
  [IMAGE:<path-or-url>]\n\
  [DOCUMENT:<path-or-url>]\n\
  [VIDEO:<path-or-url>]\n\
  [AUDIO:<path-or-url>]\n\
  [VOICE:<path-or-url>]\n\
- A marker is taken out of the text and delivered as an attachment.";

/// The instructions for Telegram.
pub const TELEGRAM_INSTRUCTIONS: &'static str =
    "Delivery instructions for Telegram:\n\
- Be concise and direct. Skip filler phrases and get to the point.\n\
- Use tool results silently: answer with what you found, do not narrate the calls you made.\n\
- Formatting: **bold**, _italic_ and `code` are rendered; keep tables and headers out.\n\
- To send media, put a marker on a line of its own:\n\
  [IMAGE:<path-or-url>]\n\
  [DOCUMENT:<path-or-url>]\n\
  [VIDEO:<path-or-url>]\n\
  [AUDIO:<path-or-url>]\n\
  [VOICE:<path-or-url>]\n\
- A marker is taken out of the text and delivered as an attachment.";

/// Whether `channel` is one of the channels that take the default
/// instructions.
pub open spec fn takes_default_instructions(channel: Seq<char>) -> bool {
    ||| channel == "discord"@
    ||| channel == "slack"@
    ||| channel == "mattermost"@
    ||| channel == "matrix"@
    ||| channel == "dingtalk"@
    ||| channel == "lark"@
    ||| channel == "feishu"@
    ||| channel == "signal"@
    ||| channel == "whatsapp"@
    ||| channel == "qq"@
}

/// The instructions for `channel`: its own for Telegram, the default ones
/// for the other messaging channels, none for any other name. Names are
/// compared exactly.
pub open spec fn instructions_for(channel: Seq<char>) -> Option<Seq<char>> {
    if channel == "telegram"@ {
        Some(TELEGRAM_INSTRUCTIONS@)
    } else if takes_default_instructions(channel) {
        Some(DEFAULT_INSTRUCTIONS@)
    } else {
        None
    }
}

/// Whether the characters are those of `name`.
fn is_named(channel: &Vec<char>, name: &str) -> (b: bool)
    ensures
        b == (channel@ == name@),
{
    same_chars(channel, &chars_of(name))
}

/// The delivery instructions for `channel`, if it has any.
pub fn channel_delivery_instructions(channel: &str) -> (text: Option<&'static str>)
    ensures
        match text {
            Some(t) => instructions_for(channel@) == Some(t@),
            None => instructions_for(channel@) is None,
        },
{
    let c = chars_of(channel);
    if is_named(&c, "telegram") {
        Some(TELEGRAM_INSTRUCTIONS)
    } else if is_named(&c, "discord") || is_named(&c, "slack") || is_named(&c, "mattermost")
        || is_named(&c, "matrix") || is_named(&c, "dingtalk") || is_named(&c, "lark") || is_named(
        &c,
        "feishu",
    ) || is_named(&c, "signal") || is_named(&c, "whatsapp") || is_named(&c, "qq") {
        Some(DEFAULT_INSTRUCTIONS)
    } else {
        None
    }
}

} // verus!
