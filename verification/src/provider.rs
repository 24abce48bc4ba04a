//! The provider that drives the `kiro-cli` agent: how it is configured,
//! how it is invoked, and how what comes back is read. Starting the process
//! and moving bytes is left to the caller.

use crate::prompt::{build_prompt, prompt_of, ChatMessage, PromptBudget, SystemPolicy};
use crate::sanitize::{
    reports_context_overflow, reports_overflow, sanitized, strip_ansi_and_artifacts,
};
use crate::text::{push_str, string_of, utf8_len};
use vstd::prelude::*;

verus! {

/// The name under which the agent is looked for when no path is known.
pub const DEFAULT_PROGRAM: &'static str = "kiro-cli";

/// The header at which the part of a system message that the agent needs
/// begins.
pub const TOOL_USE_ANCHOR: &'static str = "## Tool Use";

/// The most bytes of a prompt for the agent.
pub const MAX_PROMPT_CHARS: usize = 24_000;

/// The most turns of a history that reach the agent.
pub const MAX_HISTORY_TURNS: usize = 8;

/// The text of an optional string.
pub open spec fn text_of(s: Option<String>) -> Option<Seq<char>> {
    match s {
        Some(t) => Some(t@),
        None => None,
    }
}

/// The text of an optional string slice.
pub open spec fn slice_text(s: Option<&str>) -> Option<Seq<char>> {
    match s {
        Some(t) => Some(t@),
        None => None,
    }
}

/// The texts that the strings hold.
pub open spec fn strings(v: Seq<String>) -> Seq<Seq<char>> {
    Seq::new(v.len(), |i: int| v[i]@)
}

/// The texts that the pairs of strings hold.
pub open spec fn string_pairs(v: Seq<(String, String)>) -> Seq<(Seq<char>, Seq<char>)> {
    Seq::new(v.len(), |i: int| (v[i].0@, v[i].1@))
}

/// The path of the executable: the explicit one if there is one, else the
/// one that the environment names, else the one that was found on the
/// search path, else the default name.
pub open spec fn chosen_path(
    explicit: Option<Seq<char>>,
    from_environment: Option<Seq<char>>,
    discovered: Option<Seq<char>>,
) -> Seq<char> {
    match explicit {
        Some(p) => p,
        None => match from_environment {
            Some(p) => p,
            None => match discovered {
                Some(p) => p,
                None => DEFAULT_PROGRAM@,
            },
        },
    }
}

/// The arguments of an invocation: the subcommand for one exchange without
/// interaction, then the agent and the model where they are set.
pub open spec fn arguments(agent: Option<Seq<char>>, model: Option<Seq<char>>) -> Seq<Seq<char>> {
    let base = seq!["chat"@, "--no-interactive"@];
    let with_agent = match agent {
        Some(a) => base + seq!["--agent"@, a],
        None => base,
    };
    match model {
        Some(m) => with_agent + seq!["--model"@, m],
        None => with_agent,
    }
}

/// The variables that every invocation sets, so that the agent writes
/// plain text: no colour, and a terminal without capabilities.
pub open spec fn environment() -> Seq<(Seq<char>, Seq<char>)> {
    seq![("NO_COLOR"@, "1"@), ("TERM"@, "dumb"@)]
}

/// The prompt for a single turn.
pub open spec fn single_turn(system: Option<Seq<char>>, message: Seq<char>) -> Seq<char> {
    match system {
        Some(s) => "System: "@ + s + seq!['\n', '\n'] + "User: "@ + message,
        None => "User: "@ + message,
    }
}

/// Where the parts of a configuration come from. The caller looks them up
/// once; nothing is read from the environment here.
#[derive(Debug, Clone)]
pub struct ProviderConfig {
    /// The path that the caller was given.
    pub kiro_path: Option<String>,
    /// The path that the environment names.
    pub environment_path: Option<String>,
    /// The path that a search for the default name found.
    pub discovered_path: Option<String>,
    /// The agent to select.
    pub agent: Option<String>,
    /// The model to select.
    pub model: Option<String>,
}

/// Why an invocation failed.
#[derive(Debug, Clone)]
pub enum ProviderError {
    /// The agent could not be started.
    SpawnFailure { reason: String },
    /// The agent ran and ended with a status other than success.
    NonZeroExit { status: String, stderr: String },
    /// The agent ended with success, but its output says that the context
    /// window has overflowed.
    BackendOverflow,
}

/// What an error says.
pub ghost enum Failure {
    SpawnFailure { reason: Seq<char> },
    NonZeroExit { status: Seq<char>, stderr: Seq<char> },
    BackendOverflow,
}

impl View for ProviderError {
    type V = Failure;

    open spec fn view(&self) -> Failure {
        match self {
            ProviderError::SpawnFailure { reason } => Failure::SpawnFailure { reason: reason@ },
            ProviderError::NonZeroExit { status, stderr } => Failure::NonZeroExit {
                status: status@,
                stderr: stderr@,
            },
            ProviderError::BackendOverflow => Failure::BackendOverflow,
        }
    }
}

impl Failure {
    /// The message of the failure.
    pub open spec fn message(self) -> Seq<char> {
        match self {
            Failure::SpawnFailure { reason } => "Failed to spawn kiro-cli: "@ + reason,
            Failure::NonZeroExit { status, stderr } => "kiro-cli exited with status: "@ + status
                + " stderr: "@ + stderr,
            Failure::BackendOverflow => "kiro-cli: context window has overflowed"@,
        }
    }
}

impl ProviderError {
    /// The message of the error.
    pub fn message(&self) -> (text: String)
        ensures
            text@ == self@.message(),
    {
        let mut out: Vec<char> = Vec::new();
        match self {
            ProviderError::SpawnFailure { reason } => {
                push_str(&mut out, "Failed to spawn kiro-cli: ");
                push_str(&mut out, reason.as_str());
            },
            ProviderError::NonZeroExit { status, stderr } => {
                push_str(&mut out, "kiro-cli exited with status: ");
                push_str(&mut out, status.as_str());
                push_str(&mut out, " stderr: ");
                push_str(&mut out, stderr.as_str());
            },
            ProviderError::BackendOverflow => {
                push_str(&mut out, "kiro-cli: context window has overflowed");
            },
        }
        assert(out@ =~= self@.message());
        assert(out@.subrange(0, out.len() as int) =~= out@);
        string_of(&out, 0, out.len())
    }
}

/// What the output of a run that has ended means: a run that did not end
/// with success is an error that carries its status and what it wrote to
/// the error stream; a run whose cleaned output reports a context overflow
/// is an error too; any other run gives its cleaned output.
pub open spec fn outcome(
    success: bool,
    status: Seq<char>,
    stdout: Seq<char>,
    stderr: Seq<char>,
) -> Result<Seq<char>, Failure> {
    if !success {
        Err(Failure::NonZeroExit { status, stderr })
    } else if reports_overflow(sanitized(stdout)) {
        Err(Failure::BackendOverflow)
    } else {
        Ok(sanitized(stdout))
    }
}

/// What a result says.
pub open spec fn result_text(r: Result<String, ProviderError>) -> Result<Seq<char>, Failure> {
    match r {
        Ok(text) => Ok(text@),
        Err(e) => Err(e@),
    }
}

/// Reads the output of a run that has ended.
pub fn interpret_output(success: bool, status: &str, stdout: &str, stderr: &str) -> (r: Result<
    String,
    ProviderError,
>)
    ensures
        result_text(r) == outcome(success, status@, stdout@, stderr@),
{
    if !success {
        return Err(
            ProviderError::NonZeroExit { status: status.to_owned(), stderr: stderr.to_owned() },
        );
    }
    let text = strip_ansi_and_artifacts(stdout);
    if reports_context_overflow(text.as_str()) {
        Err(ProviderError::BackendOverflow)
    } else {
        Ok(text)
    }
}

/// Chooses the path of the executable.
pub fn choose_path(
    explicit: Option<&str>,
    from_environment: Option<&str>,
    discovered: Option<&str>,
) -> (path: String)
    ensures
        path@ == chosen_path(
            slice_text(explicit),
            slice_text(from_environment),
            slice_text(discovered),
        ),
{
    match explicit {
        Some(p) => p.to_owned(),
        None => match from_environment {
            Some(p) => p.to_owned(),
            None => match discovered {
                Some(p) => p.to_owned(),
                None => DEFAULT_PROGRAM.to_owned(),
            },
        },
    }
}

/// A copy of an optional string slice.
fn owned(s: Option<&str>) -> (r: Option<String>)
    ensures
        text_of(r) == slice_text(s),
{
    match s {
        Some(t) => Some(t.to_owned()),
        None => None,
    }
}

/// A view into an optional string.
fn borrowed(s: &Option<String>) -> (r: Option<&str>)
    ensures
        slice_text(r) == text_of(*s),
{
    match s {
        Some(t) => Some(t.as_str()),
        None => None,
    }
}

/// The prompt for a single turn: the system text, if there is one, and
/// the message of the user.
pub fn single_turn_prompt(system: Option<&str>, message: &str) -> (prompt: String)
    ensures
        prompt@ == single_turn(slice_text(system), message@),
{
    let mut out: Vec<char> = Vec::new();
    match system {
        Some(s) => {
            push_str(&mut out, "System: ");
            push_str(&mut out, s);
            out.push('\n');
            out.push('\n');
        },
        None => {},
    }
    push_str(&mut out, "User: ");
    push_str(&mut out, message);
    assert(out@ =~= single_turn(slice_text(system), message@));
    assert(out@.subrange(0, out.len() as int) =~= out@);
    string_of(&out, 0, out.len())
}

/// The variables that every invocation sets.
pub fn environment_overrides() -> (vars: Vec<(String, String)>)
    ensures
        string_pairs(vars@) == environment(),
{
    let mut vars: Vec<(String, String)> = Vec::new();
    vars.push(("NO_COLOR".to_owned(), "1".to_owned()));
    vars.push(("TERM".to_owned(), "dumb".to_owned()));
    assert(string_pairs(vars@) =~= environment());
    vars
}

/// What it takes to start the agent once: the executable, its arguments,
/// and the variables that are set for it.
#[derive(Debug, Clone)]
pub struct ProcessInvocation {
    pub program: String,
    pub args: Vec<String>,
    pub env: Vec<(String, String)>,
}

/// A provider that answers through the `kiro-cli` agent. It is made once
/// and never changes.
#[derive(Debug, Clone)]
pub struct KiroProvider {
    kiro_path: String,
    agent: Option<String>,
    model: Option<String>,
}

impl KiroProvider {
    /// The path of the executable.
    pub closed spec fn path(&self) -> Seq<char> {
        self.kiro_path@
    }

    /// The agent that is selected, if one is.
    pub closed spec fn agent(&self) -> Option<Seq<char>> {
        text_of(self.agent)
    }

    /// The model that is selected, if one is.
    pub closed spec fn model(&self) -> Option<Seq<char>> {
        text_of(self.model)
    }

    /// A provider for the executable at `kiro_path`, or for the default
    /// name where no path is given, with no agent selected.
    pub fn new(kiro_path: Option<&str>, model: Option<&str>) -> (provider: KiroProvider)
        ensures
            provider.path() == chosen_path(slice_text(kiro_path), None, None),
            provider.agent() is None,
            provider.model() == slice_text(model),
    {
        KiroProvider {
            kiro_path: choose_path(kiro_path, None, None),
            agent: None,
            model: owned(model),
        }
    }

    /// A provider for what the caller has looked up.
    pub fn from_config(config: &ProviderConfig) -> (provider: KiroProvider)
        ensures
            provider.path() == chosen_path(
                text_of(config.kiro_path),
                text_of(config.environment_path),
                text_of(config.discovered_path),
            ),
            provider.agent() == text_of(config.agent),
            provider.model() == text_of(config.model),
    {
        KiroProvider {
            kiro_path: choose_path(
                borrowed(&config.kiro_path),
                borrowed(&config.environment_path),
                borrowed(&config.discovered_path),
            ),
            agent: owned(borrowed(&config.agent)),
            model: owned(borrowed(&config.model)),
        }
    }

    /// The path of the executable.
    pub fn program(&self) -> (path: &str)
        ensures
            path@ == self.path(),
    {
        self.kiro_path.as_str()
    }

    /// The arguments of an invocation.
    pub fn command_args(&self) -> (args: Vec<String>)
        ensures
            strings(args@) == arguments(self.agent(), self.model()),
    {
        let mut args: Vec<String> = Vec::new();
        args.push("chat".to_owned());
        args.push("--no-interactive".to_owned());
        match &self.agent {
            Some(a) => {
                args.push("--agent".to_owned());
                args.push(a.clone());
            },
            None => {},
        }
        match &self.model {
            Some(m) => {
                args.push("--model".to_owned());
                args.push(m.clone());
            },
            None => {},
        }
        assert(strings(args@) =~= arguments(self.agent(), self.model()));
        args
    }

    /// What it takes to start the agent for this provider. The prompt is
    /// not part of it: it goes to the input of the process.
    pub fn invocation(&self) -> (inv: ProcessInvocation)
        ensures
            inv.program@ == self.path(),
            strings(inv.args@) == arguments(self.agent(), self.model()),
            string_pairs(inv.env@) == environment(),
    {
        ProcessInvocation {
            program: self.kiro_path.clone(),
            args: self.command_args(),
            env: environment_overrides(),
        }
    }

    /// The prompt for a history: of a system message only what begins at
    /// the tool-use header, then the turns, compacted and cut to the
    /// budget of the agent.
    pub fn messages_to_prompt(&self, messages: &[ChatMessage]) -> (prompt: String)
        ensures
            prompt@ == prompt_of(
                messages@,
                Some(TOOL_USE_ANCHOR@),
                MAX_HISTORY_TURNS as nat,
                MAX_PROMPT_CHARS as nat,
            ),
            utf8_len(prompt@) <= MAX_PROMPT_CHARS,
    {
        let policy = SystemPolicy::FromAnchor(TOOL_USE_ANCHOR.to_owned());
        let budget = PromptBudget {
            max_prompt_chars: MAX_PROMPT_CHARS,
            max_history_turns: MAX_HISTORY_TURNS,
        };
        build_prompt(messages, &policy, &budget)
    }

    /// Whether the agent takes tool definitions natively: it does not.
    pub fn supports_native_tools(&self) -> (b: bool)
        ensures
            !b,
    {
        false
    }

    /// Whether the agent can be shown images: it can.
    pub fn supports_vision(&self) -> (b: bool)
        ensures
            b,
    {
        true
    }

    /// Whether image markers reach the agent as they are: they do.
    pub fn supports_raw_image_markers(&self) -> (b: bool)
        ensures
            b,
    {
        true
    }
}

} // verus!
