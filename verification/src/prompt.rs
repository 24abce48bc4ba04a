//! Building one prompt of bounded size from a conversation history.

use crate::text::{
    chars_of, find, find_in, fit, fitting_count, lemma_fitting, lemma_fitting_holds,
    push_range, push_str, same_chars, string_of, utf8_len,
};
use vstd::prelude::*;

verus! {

/// One message of a conversation.
#[derive(Debug, Clone)]
pub struct ChatMessage {
    /// Who speaks: `system`, `user` or `assistant`. A message with any
    /// other role takes no part in a prompt.
    pub role: String,
    pub content: String,
}

impl ChatMessage {
    /// A message of the system.
    pub fn system(content: &str) -> (m: ChatMessage)
        ensures
            m.role@ == "system"@,
            m.content@ == content@,
    {
        ChatMessage { role: "system".to_owned(), content: content.to_owned() }
    }

    /// A message of the user.
    pub fn user(content: &str) -> (m: ChatMessage)
        ensures
            m.role@ == "user"@,
            m.content@ == content@,
    {
        ChatMessage { role: "user".to_owned(), content: content.to_owned() }
    }

    /// A message of the assistant.
    pub fn assistant(content: &str) -> (m: ChatMessage)
        ensures
            m.role@ == "assistant"@,
            m.content@ == content@,
    {
        ChatMessage { role: "assistant".to_owned(), content: content.to_owned() }
    }
}

/// What a system message gives to the prompt.
#[derive(Debug, Clone)]
pub enum SystemPolicy {
    /// The whole message.
    Full,
    /// The message from the first occurrence of the anchor on, and nothing
    /// where the anchor does not occur: for an agent that brings a system
    /// prompt of its own and needs one block of ours only.
    FromAnchor(String),
}

impl SystemPolicy {
    /// The anchor of the policy, if it has one.
    pub open spec fn anchor(self) -> Option<Seq<char>> {
        match self {
            SystemPolicy::Full => None,
            SystemPolicy::FromAnchor(anchor) => Some(anchor@),
        }
    }
}

/// The bounds of a prompt.
#[derive(Debug, Clone, Copy)]
pub struct PromptBudget {
    /// The most bytes of UTF-8 that a prompt may take.
    pub max_prompt_chars: usize,
    /// The most parts that are kept besides the first one.
    pub max_history_turns: usize,
}

/// What stands between two parts of a prompt: a blank line.
pub open spec fn separator() -> Seq<char> {
    seq!['\n', '\n']
}

/// The part that the message `m` gives to a prompt, if it gives one. A
/// system message gives its content: all of it where there is no anchor,
/// else what begins at the first occurrence of the anchor, and nothing
/// where the anchor does not occur. A turn of the user or of the assistant
/// gives its content after the name of the speaker.
pub open spec fn render(m: ChatMessage, anchor: Option<Seq<char>>) -> Option<Seq<char>> {
    if m.role@ == "system"@ {
        match anchor {
            None => Some(m.content@),
            Some(header) => match find(m.content@, header) {
                Some(at) => Some(m.content@.skip(at)),
                None => None,
            },
        }
    } else if m.role@ == "user"@ {
        Some("User: "@ + m.content@)
    } else if m.role@ == "assistant"@ {
        Some("Assistant: "@ + m.content@)
    } else {
        None
    }
}

/// The parts that the messages give, in the order of the messages.
pub open spec fn parts_of(messages: Seq<ChatMessage>, anchor: Option<Seq<char>>) -> Seq<Seq<char>>
    decreases messages.len(),
{
    if messages.len() == 0 {
        Seq::empty()
    } else {
        let before = parts_of(messages.drop_last(), anchor);
        match render(messages.last(), anchor) {
            Some(part) => before.push(part),
            None => before,
        }
    }
}

/// The parts that stay: where there are more than `max_turns` parts after
/// the first one, the first part and the last `max_turns` parts; otherwise
/// all of them.
pub open spec fn compact(parts: Seq<Seq<char>>, max_turns: nat) -> Seq<Seq<char>> {
    if parts.len() > max_turns + 1 {
        seq![parts[0]] + parts.skip(parts.len() - max_turns)
    } else {
        parts
    }
}

/// The parts joined, a blank line between each two.
pub open spec fn join_parts(parts: Seq<Seq<char>>) -> Seq<char>
    decreases parts.len(),
{
    if parts.len() == 0 {
        Seq::empty()
    } else if parts.len() == 1 {
        parts[0]
    } else {
        join_parts(parts.drop_last()) + separator() + parts.last()
    }
}

/// The prompt for a history: the parts of its messages, compacted, joined,
/// and cut to the longest prefix that fits into the budget.
pub open spec fn prompt_of(
    messages: Seq<ChatMessage>,
    anchor: Option<Seq<char>>,
    max_turns: nat,
    max_bytes: nat,
) -> Seq<char> {
    fit(join_parts(compact(parts_of(messages, anchor), max_turns)), max_bytes)
}

/// The texts that the vectors hold.
pub open spec fn texts(parts: Seq<Vec<char>>) -> Seq<Seq<char>> {
    Seq::new(parts.len(), |i: int| parts[i]@)
}

/// The part that `m` gives to a prompt, if it gives one.
fn render_part(m: &ChatMessage, policy: &SystemPolicy) -> (part: Option<Vec<char>>)
    ensures
        match part {
            Some(p) => render(*m, policy.anchor()) == Some(p@),
            None => render(*m, policy.anchor()) is None,
        },
{
    let role = chars_of(m.role.as_str());
    let content = chars_of(m.content.as_str());
    let n = content.len();
    let mut out: Vec<char> = Vec::new();
    assert(content@.subrange(0, n as int) =~= content@);
    if same_chars(&role, &chars_of("system")) {
        match policy {
            SystemPolicy::Full => {
                return Some(content);
            },
            SystemPolicy::FromAnchor(anchor) => {
                let pattern = chars_of(anchor.as_str());
                match find_in(&content, 0, n, &pattern) {
                    Some(at) => {
                        push_range(&mut out, &content, at, n);
                        assert(out@ =~= content@.skip(at as int));
                        Some(out)
                    },
                    None => None,
                }
            },
        }
    } else if same_chars(&role, &chars_of("user")) {
        push_str(&mut out, "User: ");
        push_range(&mut out, &content, 0, n);
        assert(out@ =~= "User: "@ + content@);
        Some(out)
    } else if same_chars(&role, &chars_of("assistant")) {
        push_str(&mut out, "Assistant: ");
        push_range(&mut out, &content, 0, n);
        assert(out@ =~= "Assistant: "@ + content@);
        Some(out)
    } else {
        None
    }
}

/// The parts that the messages give.
fn render_parts(messages: &[ChatMessage], policy: &SystemPolicy) -> (parts: Vec<Vec<char>>)
    ensures
        texts(parts@) == parts_of(messages@, policy.anchor()),
{
    let mut parts: Vec<Vec<char>> = Vec::new();
    let mut i: usize = 0;
    assert(messages@.take(0) =~= Seq::<ChatMessage>::empty());
    assert(texts(parts@) =~= Seq::<Seq<char>>::empty());
    while i < messages.len()
        invariant
            i <= messages.len(),
            texts(parts@) == parts_of(messages@.take(i as int), policy.anchor()),
        decreases messages.len() - i,
    {
        let ghost before = texts(parts@);
        assert(messages@.take(i + 1).drop_last() =~= messages@.take(i as int));
        assert(messages@.take(i + 1).last() == messages@[i as int]);
        match render_part(&messages[i], policy) {
            Some(p) => {
                parts.push(p);
                assert(texts(parts@) =~= before.push(p@));
            },
            None => {},
        }
        i += 1;
    }
    assert(messages@.take(messages.len() as int) =~= messages@);
    parts
}

/// The parts that stay, joined.
fn join_compacted(parts: &Vec<Vec<char>>, max_turns: usize) -> (out: Vec<char>)
    ensures
        out@ == join_parts(compact(texts(parts@), max_turns as nat)),
{
    let ghost ps = texts(parts@);
    let n = parts.len();
    let mut out: Vec<char> = Vec::new();
    if n == 0 {
        return out;
    }
    let from: usize = if n - 1 > max_turns {
        n - max_turns
    } else {
        1
    };
    push_range(&mut out, &parts[0], 0, parts[0].len());
    assert(parts[0]@.subrange(0, parts[0].len() as int) =~= parts[0]@);
    let ghost mut kept: Seq<Seq<char>> = seq![ps[0]];
    let mut j: usize = from;
    assert(kept =~= seq![ps[0]] + ps.subrange(from as int, j as int));
    while j < n
        invariant
            ps == texts(parts@),
            n == parts.len(),
            1 <= from <= j <= n,
            kept == seq![ps[0]] + ps.subrange(from as int, j as int),
            out@ == join_parts(kept),
        decreases n - j,
    {
        let ghost before = out@;
        out.push('\n');
        out.push('\n');
        push_range(&mut out, &parts[j], 0, parts[j].len());
        proof {
            assert(parts[j as int]@.subrange(0, parts[j as int].len() as int) =~= parts[j as int]@);
            let next = kept.push(ps[j as int]);
            assert(next.drop_last() =~= kept);
            assert(out@ =~= before + separator() + ps[j as int]);
            assert(next =~= seq![ps[0]] + ps.subrange(from as int, j + 1));
            kept = next;
        }
        j += 1;
    }
    proof {
        assert(ps.subrange(from as int, n as int) =~= ps.skip(from as int));
        if !(ps.len() > max_turns + 1) {
            assert(kept =~= ps);
        }
    }
    out
}

/// Builds the prompt for a history.
///
/// Every message gives at most one part. Where there are too many parts,
/// the first one and the most recent ones stay. The parts are joined with
/// blank lines, and the text is cut, between two characters, to the budget.
pub fn build_prompt(messages: &[ChatMessage], policy: &SystemPolicy, budget: &PromptBudget) -> (out:
    String)
    ensures
        out@ == prompt_of(
            messages@,
            policy.anchor(),
            budget.max_history_turns as nat,
            budget.max_prompt_chars as nat,
        ),
        utf8_len(out@) <= budget.max_prompt_chars,
{
    let parts = render_parts(messages, policy);
    let joined = join_compacted(&parts, budget.max_history_turns);
    let k = fitting_count(&joined, budget.max_prompt_chars);
    proof {
        lemma_fitting(joined@, budget.max_prompt_chars as nat);
    }
    string_of(&joined, 0, k)
}

/// A prompt never takes more bytes than the budget allows, it is a prefix
/// of the joined parts that ends between two characters, and it is the
/// longest such prefix: where something was cut off, one more character
/// would not have fitted.
pub proof fn lemma_prompt_fits(
    messages: Seq<ChatMessage>,
    anchor: Option<Seq<char>>,
    max_turns: nat,
    max_bytes: nat,
)
    ensures
        utf8_len(prompt_of(messages, anchor, max_turns, max_bytes)) <= max_bytes,
        prompt_of(messages, anchor, max_turns, max_bytes).is_prefix_of(
            join_parts(compact(parts_of(messages, anchor), max_turns)),
        ),
        ({
            let whole = join_parts(compact(parts_of(messages, anchor), max_turns));
            let kept = prompt_of(messages, anchor, max_turns, max_bytes).len() as int;
            kept < whole.len() ==> utf8_len(whole.take(kept + 1)) > max_bytes
        }),
{
    let whole = join_parts(compact(parts_of(messages, anchor), max_turns));
    lemma_fitting(whole, max_bytes);
}

/// Compaction keeps at most `max_turns` parts besides the first one, and
/// those are the most recent parts, in their order.
pub proof fn lemma_compact_keeps_recent(parts: Seq<Seq<char>>, max_turns: nat)
    ensures
        compact(parts, max_turns).len() <= max_turns + 1,
        compact(parts, max_turns).len() <= parts.len(),
        parts.len() > 0 ==> compact(parts, max_turns).len() > 0 && compact(parts, max_turns)[0]
            == parts[0],
        forall|j: int|
            1 <= j < compact(parts, max_turns).len() ==> compact(parts, max_turns)[j] == parts[parts.len()
                - compact(parts, max_turns).len() + j],
{
}

/// The first message gives the first part.
pub proof fn lemma_first_part(messages: Seq<ChatMessage>, anchor: Option<Seq<char>>)
    requires
        messages.len() > 0,
        render(messages[0], anchor) is Some,
    ensures
        parts_of(messages, anchor).len() > 0,
        parts_of(messages, anchor)[0] == render(messages[0], anchor)->0,
    decreases messages.len(),
{
    if messages.len() > 1 {
        lemma_first_part(messages.drop_last(), anchor);
    } else {
        assert(parts_of(messages.drop_last(), anchor) =~= Seq::<Seq<char>>::empty());
    }
}

/// The joined parts begin with the first part.
pub proof fn lemma_join_begins(parts: Seq<Seq<char>>)
    requires
        parts.len() > 0,
    ensures
        parts[0].is_prefix_of(join_parts(parts)),
    decreases parts.len(),
{
    if parts.len() > 1 {
        lemma_join_begins(parts.drop_last());
    }
}

/// Where a history begins with a system message that gives a part, that
/// part is the first part that stays, however many turns follow; at most
/// `max_turns` other parts stay, the most recent ones in their order; and
/// the prompt begins with the system part in full if that alone fits into
/// the budget.
pub proof fn lemma_system_part_survives(
    messages: Seq<ChatMessage>,
    anchor: Option<Seq<char>>,
    max_turns: nat,
    max_bytes: nat,
)
    requires
        messages.len() > 0,
        messages[0].role@ == "system"@,
        render(messages[0], anchor) is Some,
    ensures
        ({
            let system = render(messages[0], anchor)->0;
            let all = parts_of(messages, anchor);
            let kept = compact(all, max_turns);
            &&& kept.len() >= 1
            &&& kept[0] == system
            &&& kept.len() - 1 <= max_turns
            &&& forall|j: int| 1 <= j < kept.len() ==> kept[j] == all[all.len() - kept.len() + j]
            &&& utf8_len(system) <= max_bytes ==> system.is_prefix_of(
                prompt_of(messages, anchor, max_turns, max_bytes),
            )
        }),
{
    let system = render(messages[0], anchor)->0;
    let all = parts_of(messages, anchor);
    let kept = compact(all, max_turns);
    let whole = join_parts(kept);
    lemma_first_part(messages, anchor);
    lemma_compact_keeps_recent(all, max_turns);
    lemma_join_begins(kept);
    if utf8_len(system) <= max_bytes {
        assert(whole.take(system.len() as int) =~= system);
        lemma_fitting_holds(whole, max_bytes, system.len() as int);
        lemma_fitting(whole, max_bytes);
        assert(system =~= prompt_of(messages, anchor, max_turns, max_bytes).subrange(
            0,
            system.len() as int,
        ));
    }
}

} // verus!
