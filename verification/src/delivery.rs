//! Where rendered feedback goes when the user sends it.
//!
//! The clipboard is the default. Inside Herdr the target is an agent's pane and the transport
//! is `herdr agent prompt`. A target says what to do next, one turn at a time; whoever drives
//! it writes to the terminal or runs the command, and hands back what came of it.

use vstd::prelude::*;
use vstd::utf8::{decode_utf8, encode_utf8, encode_utf8_decode_utf8};
use crate::base64::{decoded, encode, encoded, lemma_printable, lemma_round_trip, printable};
use crate::json::{
    as_text, at, json_in_bytes, json_in_text, lemma_at, lemma_pointer_through, parse_bytes,
    parse_text, plain_name, pointer_through, text_at, Json,
};
use crate::text::{
    lemma_trimmed_blank, lossy, optional_text, texts, trim, trimmed, utf8_lossy, white_space,
};

verus! {

/// Why a send did not land.
#[derive(Debug, PartialEq, Eq)]
pub enum DeliveryError {
    /// The agent is at a dialog and Herdr refused the prompt; retry later.
    Blocked(String),
    /// No agent to send to: pane gone, agent not detected yet, herdr binary missing.
    Unavailable(String),
    /// Herdr refused before typing anything because it cannot drive this agent. The pane
    /// itself may still take the text.
    Unpromptable(String),
    /// Anything else, with whatever the transport said.
    Failed(String),
}

/// The view of a `DeliveryError`.
pub enum Refusal {
    Blocked(Seq<char>),
    Unavailable(Seq<char>),
    Unpromptable(Seq<char>),
    Failed(Seq<char>),
}

impl View for DeliveryError {
    type V = Refusal;

    open spec fn view(&self) -> Refusal {
        match self {
            DeliveryError::Blocked(message) => Refusal::Blocked(message@),
            DeliveryError::Unavailable(message) => Refusal::Unavailable(message@),
            DeliveryError::Unpromptable(message) => Refusal::Unpromptable(message@),
            DeliveryError::Failed(message) => Refusal::Failed(message@),
        }
    }
}

/// What a refusal says.
pub open spec fn refusal_text(refusal: Refusal) -> Seq<char> {
    match refusal {
        Refusal::Blocked(message) => message,
        Refusal::Unavailable(message) => message,
        Refusal::Unpromptable(message) => message,
        Refusal::Failed(message) => message,
    }
}

impl DeliveryError {
    /// What the error says.
    pub fn message(&self) -> (text: &str)
        ensures
            text@ == refusal_text(self@),
    {
        match self {
            DeliveryError::Blocked(message) => message.as_str(),
            DeliveryError::Unavailable(message) => message.as_str(),
            DeliveryError::Unpromptable(message) => message.as_str(),
            DeliveryError::Failed(message) => message.as_str(),
        }
    }
}

/// The view of the outcome of a send.
pub open spec fn outcome_view(outcome: Result<(), DeliveryError>) -> Result<(), Refusal> {
    match outcome {
        Ok(_) => Ok(()),
        Err(error) => Err(error@),
    }
}

/// What a command that ran left behind.
#[derive(Debug)]
pub struct Output {
    pub success: bool,
    pub stdout: Vec<u8>,
    pub stderr: Vec<u8>,
}

/// The view of an `Output`.
pub struct OutputView {
    pub success: bool,
    pub stdout: Seq<u8>,
    pub stderr: Seq<u8>,
}

impl View for Output {
    type V = OutputView;

    open spec fn view(&self) -> OutputView {
        OutputView { success: self.success, stdout: self.stdout@, stderr: self.stderr@ }
    }
}

/// The view of what came of a command: its output, or why it did not run.
pub open spec fn run_view(ran: Result<Output, String>) -> Result<OutputView, Seq<char>> {
    match ran {
        Ok(output) => Ok(output@),
        Err(message) => Err(message@),
    }
}

// ---- Herdr's replies ----

/// The `code` of Herdr's JSON error envelope, where `stderr` is one.
pub open spec fn code_in(stderr: Seq<char>) -> Option<Seq<char>> {
    match json_in_text(trimmed(stderr)) {
        Some(envelope) => as_text(at(envelope, seq!["error"@, "code"@])),
        None => None,
    }
}

/// The `message` of Herdr's JSON error envelope, where `stderr` is one.
pub open spec fn envelope_message_in(stderr: Seq<char>) -> Option<Seq<char>> {
    match json_in_text(trimmed(stderr)) {
        Some(envelope) => as_text(at(envelope, seq!["error"@, "message"@])),
        None => None,
    }
}

/// `message` where there is one, else `stderr` without the white space around it.
pub open spec fn message_or_raw(message: Option<Seq<char>>, stderr: Seq<char>) -> Seq<char> {
    match message {
        Some(m) => m,
        None => trimmed(stderr),
    }
}

/// The `message` of Herdr's JSON error envelope, else the raw stderr.
pub open spec fn message_in(stderr: Seq<char>) -> Seq<char> {
    message_or_raw(envelope_message_in(stderr), stderr)
}

proof fn lemma_reply_pointers()
    ensures
        "/error/code"@ == pointer_through(seq!["error"@, "code"@]),
        "/error/message"@ == pointer_through(seq!["error"@, "message"@]),
        "/result/agent/agent"@ == pointer_through(seq!["result"@, "agent"@, "agent"@]),
        plain_name("error"@),
        plain_name("code"@),
        plain_name("message"@),
        plain_name("result"@),
        plain_name("agent"@),
{
    reveal_strlit("/error/code");
    reveal_strlit("/error/message");
    reveal_strlit("/result/agent/agent");
    reveal_strlit("error");
    reveal_strlit("code");
    reveal_strlit("message");
    reveal_strlit("result");
    reveal_strlit("agent");
    reveal_with_fuel(pointer_through, 4);
    assert("/error/code"@ == pointer_through(seq!["error"@, "code"@]));
    assert("/error/message"@ == pointer_through(seq!["error"@, "message"@]));
    assert("/result/agent/agent"@ == pointer_through(seq!["result"@, "agent"@, "agent"@]));
}

/// The `code` of Herdr's JSON error envelope, when it sent one.
pub fn error_code(stderr: &str) -> (code: Option<String>)
    ensures
        optional_text(code) == code_in(stderr@),
{
    proof {
        lemma_reply_pointers();
        lemma_pointer_through(seq!["error"@, "code"@]);
    }
    match parse_text(trim(stderr).as_str()) {
        Some(envelope) => text_at(&envelope, "/error/code"),
        None => None,
    }
}

/// `message` where there is one, else `stderr` without the white space around it.
pub fn message_or_stderr(message: Option<String>, stderr: &str) -> (text: String)
    ensures
        text@ == message_or_raw(optional_text(message), stderr@),
{
    match message {
        Some(m) => m,
        None => trim(stderr),
    }
}

/// The `message` of Herdr's JSON error envelope, else the raw stderr.
pub fn error_message(stderr: &str) -> (text: String)
    ensures
        text@ == message_in(stderr@),
{
    proof {
        lemma_reply_pointers();
        lemma_pointer_through(seq!["error"@, "message"@]);
    }
    let message = match parse_text(trim(stderr).as_str()) {
        Some(envelope) => text_at(&envelope, "/error/message"),
        None => None,
    };
    message_or_stderr(message, stderr)
}

/// What a refusal with this code and message comes to.
pub open spec fn classified(code: Option<Seq<char>>, message: Seq<char>) -> Refusal {
    match code {
        Some(code) => if code == "agent_blocked"@ {
            Refusal::Blocked(message)
        } else if code == "agent_not_found"@ || code == "agent_not_ready"@ {
            Refusal::Unpromptable(message)
        } else if code == "pane_not_found"@ || code == "empty_agent_prompt"@ {
            Refusal::Unavailable(message)
        } else {
            Refusal::Failed(code + ": "@ + message)
        },
        None => Refusal::Failed(
            "herdr agent prompt failed: "@ + if message.len() == 0 {
                "no output"@
            } else {
                message
            },
        ),
    }
}

/// What a refusal with this code and message comes to.
pub fn classify(code: Option<String>, message: String) -> (error: DeliveryError)
    ensures
        error@ == classified(optional_text(code), message@),
{
    match code {
        Some(code) => {
            let name = code.as_str();
            if *name == *"agent_blocked" {
                DeliveryError::Blocked(message)
            } else if *name == *"agent_not_found" || *name == *"agent_not_ready" {
                // Herdr found the pane and typed nothing: an agent it cannot drive. Whoever
                // called decides whether the pane itself can take the text instead.
                DeliveryError::Unpromptable(message)
            } else if *name == *"pane_not_found" || *name == *"empty_agent_prompt" {
                DeliveryError::Unavailable(message)
            } else {
                let mut text = code;
                text.append(": ");
                text.append(message.as_str());
                DeliveryError::Failed(text)
            }
        },
        None => {
            let mut text = "herdr agent prompt failed: ".to_owned();
            if message.as_str().is_empty() {
                text.append("no output");
            } else {
                text.append(message.as_str());
            }
            DeliveryError::Failed(text)
        },
    }
}

/// What an exit of `herdr agent prompt` comes to.
pub open spec fn response(success: bool, stderr: Seq<char>) -> Result<(), Refusal> {
    if success {
        Ok(())
    } else {
        Err(classified(code_in(stderr), message_in(stderr)))
    }
}

/// Maps an exit of `herdr agent prompt` to an outcome. Herdr prints a JSON envelope
/// `{"error":{"code","message"}}` on stderr when it refuses.
pub fn parse_response(success: bool, _stdout: &str, stderr: &str) -> (outcome: Result<
    (),
    DeliveryError,
>)
    ensures
        outcome_view(outcome) == response(success, stderr@),
{
    if success {
        return Ok(());
    }
    Err(classify(error_code(stderr), error_message(stderr)))
}

/// `name` without the white space around it, where that leaves anything.
pub open spec fn agent_named(name: Option<Seq<char>>) -> Option<Seq<char>> {
    match name {
        Some(text) => if trimmed(text).len() == 0 {
            None
        } else {
            Some(trimmed(text))
        },
        None => None,
    }
}

/// The agent in a reply to `agent get`.
pub open spec fn agent_in(stdout: Seq<u8>) -> Option<Seq<char>> {
    match json_in_bytes(stdout) {
        Some(reply) => agent_named(as_text(at(reply, seq!["result"@, "agent"@, "agent"@]))),
        None => None,
    }
}

/// `name` without the white space around it, where that leaves anything.
pub fn agent_of(name: Option<String>) -> (agent: Option<String>)
    ensures
        optional_text(agent) == agent_named(optional_text(name)),
{
    match name {
        Some(text) => {
            let inner = trim(text.as_str());
            if inner.as_str().is_empty() {
                None
            } else {
                Some(inner)
            }
        },
        None => None,
    }
}

/// The `agent` name in an `agent get` reply; a pane without an agent answers with an error
/// envelope instead.
pub fn listed_agent(stdout: &[u8]) -> (agent: Option<String>)
    ensures
        optional_text(agent) == agent_in(stdout@),
{
    proof {
        lemma_reply_pointers();
        lemma_pointer_through(seq!["result"@, "agent"@, "agent"@]);
    }
    match parse_bytes(stdout) {
        Some(reply) => agent_of(text_at(&reply, "/result/agent/agent")),
        None => None,
    }
}

/// Whether what came of `herdr agent get` shows an agent in the pane.
pub open spec fn hosts_an_agent(ran: Result<OutputView, Seq<char>>) -> bool {
    ran matches Ok(output) && output.success && agent_in(output.stdout) is Some
}

// ---- A send, turn by turn ----

/// How far a send to an agent has come: which command it is at.
#[derive(Debug)]
pub enum Stage {
    /// `agent prompt`: hand the feedback to the agent.
    Prompt,
    /// `agent get`: Herdr refused with this message; is there an agent in the pane?
    Inspect(String),
    /// `pane run`: paste the feedback into the pane.
    Paste,
}

/// The view of a `Stage`.
pub enum StageView {
    Prompt,
    Inspect(Seq<char>),
    Paste,
}

impl View for Stage {
    type V = StageView;

    open spec fn view(&self) -> StageView {
        match self {
            Stage::Prompt => StageView::Prompt,
            Stage::Inspect(message) => StageView::Inspect(message@),
            Stage::Paste => StageView::Paste,
        }
    }
}

/// A command of a send to an agent.
#[derive(Debug)]
pub struct Call {
    /// The program, as it is named in messages.
    pub bin: String,
    pub pane: String,
    pub feedback: String,
    pub stage: Stage,
}

/// The view of a `Call`.
pub struct CallView {
    pub bin: Seq<char>,
    pub pane: Seq<char>,
    pub feedback: Seq<char>,
    pub stage: StageView,
}

impl View for Call {
    type V = CallView;

    open spec fn view(&self) -> CallView {
        CallView {
            bin: self.bin@,
            pane: self.pane@,
            feedback: self.feedback@,
            stage: self.stage@,
        }
    }
}

/// What to do next in a send.
#[derive(Debug)]
pub enum Turn {
    /// Write this to the terminal; `written` then says what came of the send.
    Write(String),
    /// Run this command; `Call::resume` then says what to do next.
    Run(Call),
    /// Nothing: the send is over.
    Done(Result<(), DeliveryError>),
}

/// The view of a `Turn`.
pub enum TurnView {
    Write(Seq<char>),
    Run(CallView),
    Done(Result<(), Refusal>),
}

impl View for Turn {
    type V = TurnView;

    open spec fn view(&self) -> TurnView {
        match self {
            Turn::Write(text) => TurnView::Write(text@),
            Turn::Run(call) => TurnView::Run(call@),
            Turn::Done(outcome) => TurnView::Done(outcome_view(*outcome)),
        }
    }
}

/// The arguments of a command.
pub open spec fn arguments(call: CallView) -> Seq<Seq<char>> {
    match call.stage {
        StageView::Prompt => seq!["agent"@, "prompt"@, call.pane, call.feedback],
        StageView::Inspect(_) => seq!["agent"@, "get"@, call.pane],
        StageView::Paste => seq!["pane"@, "run"@, call.pane, call.feedback],
    }
}

/// The same send, at another stage.
pub open spec fn at_stage(call: CallView, stage: StageView) -> CallView {
    CallView { stage, ..call }
}

/// What is said of a program that could not be run.
pub open spec fn cannot_run_text(bin: Seq<char>, err: Seq<char>) -> Seq<char> {
    "cannot run "@ + bin + ": "@ + err
}

/// What to do after a command, given what came of it.
pub open spec fn next_turn(call: CallView, ran: Result<OutputView, Seq<char>>) -> TurnView {
    match call.stage {
        StageView::Prompt => match ran {
            Err(err) => TurnView::Done(
                Err(Refusal::Unavailable(cannot_run_text(call.bin, err))),
            ),
            Ok(output) => match response(output.success, utf8_lossy(output.stderr)) {
                Err(Refusal::Unpromptable(message)) => TurnView::Run(
                    at_stage(call, StageView::Inspect(message)),
                ),
                outcome => TurnView::Done(outcome),
            },
        },
        StageView::Inspect(message) => if hosts_an_agent(ran) {
            TurnView::Run(at_stage(call, StageView::Paste))
        } else {
            TurnView::Done(Err(Refusal::Unpromptable(message)))
        },
        StageView::Paste => TurnView::Done(pasted(call.bin, ran)),
    }
}

/// What a paste comes to.
pub open spec fn pasted(bin: Seq<char>, ran: Result<OutputView, Seq<char>>) -> Result<
    (),
    Refusal,
> {
    match ran {
        Err(err) => Err(Refusal::Unavailable(cannot_run_text(bin, err))),
        Ok(output) => if output.success {
            Ok(())
        } else {
            Err(
                Refusal::Failed(
                    "herdr pane run failed: "@ + message_in(utf8_lossy(output.stderr)),
                ),
            )
        },
    }
}

fn cannot_run(bin: &str, err: &str) -> (error: DeliveryError)
    ensures
        error@ == Refusal::Unavailable(cannot_run_text(bin@, err@)),
{
    let mut text = "cannot run ".to_owned();
    text.append(bin);
    text.append(": ");
    text.append(err);
    DeliveryError::Unavailable(text)
}

/// Whether the pane still hosts an agent, by what came of `herdr agent get`. Pasting into a
/// pane that does not is the one thing a send must never do: a shell would run the feedback as
/// a command.
pub fn pane_hosts_an_agent(ran: &Result<Output, String>) -> (r: bool)
    ensures
        r == hosts_an_agent(run_view(*ran)),
{
    match ran {
        Ok(output) => output.success && listed_agent(output.stdout.as_slice()).is_some(),
        Err(_) => false,
    }
}

/// What came of `herdr pane run`.
pub fn paste_outcome(bin: &str, ran: &Result<Output, String>) -> (outcome: Result<
    (),
    DeliveryError,
>)
    ensures
        outcome_view(outcome) == pasted(bin@, run_view(*ran)),
{
    match ran {
        Err(err) => Err(cannot_run(bin, err.as_str())),
        Ok(output) => {
            if output.success {
                return Ok(());
            }
            let mut text = "herdr pane run failed: ".to_owned();
            text.append(error_message(lossy(output.stderr.as_slice()).as_str()).as_str());
            Err(DeliveryError::Failed(text))
        },
    }
}

impl Call {
    /// The arguments of the command. The feedback is one of them, whatever it holds.
    pub fn args(&self) -> (args: Vec<String>)
        ensures
            texts(args@) == arguments(self@),
    {
        let mut args: Vec<String> = Vec::new();
        match &self.stage {
            Stage::Prompt => {
                args.push("agent".to_owned());
                args.push("prompt".to_owned());
                args.push(self.pane.clone());
                args.push(self.feedback.clone());
            },
            Stage::Inspect(_) => {
                args.push("agent".to_owned());
                args.push("get".to_owned());
                args.push(self.pane.clone());
            },
            Stage::Paste => {
                args.push("pane".to_owned());
                args.push("run".to_owned());
                args.push(self.pane.clone());
                args.push(self.feedback.clone());
            },
        }
        assert(texts(args@) == arguments(self@));
        args
    }

    /// What to do after the command, given what came of it.
    pub fn resume(self, ran: Result<Output, String>) -> (turn: Turn)
        ensures
            turn@ == next_turn(self@, run_view(ran)),
    {
        let Call { bin, pane, feedback, stage } = self;
        match stage {
            Stage::Prompt => match ran {
                Err(err) => Turn::Done(Err(cannot_run(bin.as_str(), err.as_str()))),
                Ok(output) => {
                    let outcome = parse_response(
                        output.success,
                        lossy(output.stdout.as_slice()).as_str(),
                        lossy(output.stderr.as_slice()).as_str(),
                    );
                    match outcome {
                        // Herdr checked the pane and typed nothing, so the text is still ours
                        // to place. A dialog is different: Herdr refused on purpose, and
                        // pasting into it would answer the dialog instead of delivering
                        // feedback.
                        Err(DeliveryError::Unpromptable(message)) => Turn::Run(
                            Call { bin, pane, feedback, stage: Stage::Inspect(message) },
                        ),
                        outcome => Turn::Done(outcome),
                    }
                },
            },
            Stage::Inspect(message) => {
                if pane_hosts_an_agent(&ran) {
                    Turn::Run(Call { bin, pane, feedback, stage: Stage::Paste })
                } else {
                    Turn::Done(Err(DeliveryError::Unpromptable(message)))
                }
            },
            Stage::Paste => Turn::Done(paste_outcome(bin.as_str(), &ran)),
        }
    }
}

/// What came of a turn that wrote to the terminal.
pub fn written(wrote: Result<(), String>) -> (outcome: Result<(), DeliveryError>)
    ensures
        outcome_view(outcome) == match wrote {
            Ok(_) => Ok::<(), Refusal>(()),
            Err(err) => Err(Refusal::Failed(err@)),
        },
{
    match wrote {
        Ok(_) => Ok(()),
        Err(err) => Err(DeliveryError::Failed(err)),
    }
}

// ---- Targets ----

/// A target that feedback can be sent to.
pub trait Delivery {
    spec fn target(&self) -> Seq<char>;

    spec fn acts_on_feedback(&self) -> bool;

    spec fn host(&self) -> Option<Seq<char>>;

    spec fn first_turn(&self, feedback: Seq<char>) -> TurnView;

    /// Shown in the footer and on the button, e.g. `clipboard` or `codex in w1:p1`.
    fn describe(&self) -> (text: String)
        ensures
            text@ == self.target(),
    ;

    /// True when the target is an agent that will act on the feedback.
    fn is_agent(&self) -> (r: bool)
        ensures
            r == self.acts_on_feedback(),
    ;

    /// The receiving agent's host label (`codex`, `dsh-tui`, ...), when the target is one.
    fn agent_host(&self) -> (host: Option<&str>)
        ensures
            match host {
                Some(label) => self.host() == Some(label@),
                None => self.host() is None,
            },
    ;

    /// How a send of `feedback` starts.
    fn deliver(&self, feedback: &str) -> (turn: Turn)
        ensures
            turn@ == self.first_turn(feedback@),
    ;
}

/// The sequence that hands `text` to the terminal's clipboard.
pub open spec fn osc52(text: Seq<char>) -> Seq<char> {
    "\x1b]52;c;"@ + encoded(encode_utf8(text)) + "\x07"@
}

/// The OSC 52 sequence that hands `text` to the terminal's clipboard.
///
/// Terminals commonly refuse a long payload; the sequence is still emitted whole, because
/// truncating a copy silently is worse than one the terminal drops.
pub fn osc52_sequence(text: &str) -> (sequence: String)
    ensures
        sequence@ == osc52(text@),
{
    let mut sequence = "\x1b]52;c;".to_owned();
    sequence.append(encode(text.as_bytes()).as_str());
    sequence.append("\x07");
    sequence
}

/// OSC 52: hand text to the terminal's clipboard so that it can be pasted outside the app.
#[derive(Debug, Default)]
pub struct Clipboard;

impl Delivery for Clipboard {
    open spec fn target(&self) -> Seq<char> {
        "clipboard"@
    }

    open spec fn acts_on_feedback(&self) -> bool {
        false
    }

    open spec fn host(&self) -> Option<Seq<char>> {
        None
    }

    open spec fn first_turn(&self, feedback: Seq<char>) -> TurnView {
        TurnView::Write(osc52(feedback))
    }

    fn describe(&self) -> (text: String) {
        "clipboard".to_owned()
    }

    fn is_agent(&self) -> (r: bool) {
        false
    }

    fn agent_host(&self) -> (host: Option<&str>) {
        None
    }

    fn deliver(&self, feedback: &str) -> (turn: Turn) {
        Turn::Write(osc52_sequence(feedback))
    }
}

/// Headless runs: nothing leaves the process.
#[derive(Debug, Default)]
pub struct Discard;

impl Delivery for Discard {
    open spec fn target(&self) -> Seq<char> {
        "nowhere (headless)"@
    }

    open spec fn acts_on_feedback(&self) -> bool {
        false
    }

    open spec fn host(&self) -> Option<Seq<char>> {
        None
    }

    open spec fn first_turn(&self, feedback: Seq<char>) -> TurnView {
        TurnView::Done(Ok(()))
    }

    fn describe(&self) -> (text: String) {
        "nowhere (headless)".to_owned()
    }

    fn is_agent(&self) -> (r: bool) {
        false
    }

    fn agent_host(&self) -> (host: Option<&str>) {
        None
    }

    fn deliver(&self, _feedback: &str) -> (turn: Turn) {
        Turn::Done(Ok(()))
    }
}

/// An agent running in a Herdr pane. `herdr agent prompt` pastes the feedback as the agent's
/// next message and presses Enter.
#[derive(Debug)]
pub struct HerdrAgent {
    /// The herdr program, as it is named in messages.
    pub bin: String,
    pub pane: String,
    pub agent: Option<String>,
}

impl HerdrAgent {
    pub fn new(bin: String, pane: String, agent: Option<String>) -> (target: HerdrAgent)
        ensures
            target == (HerdrAgent { bin, pane, agent }),
    {
        HerdrAgent { bin, pane, agent }
    }
}

impl Delivery for HerdrAgent {
    open spec fn target(&self) -> Seq<char> {
        match self.agent {
            Some(agent) => agent@ + " in "@ + self.pane@,
            None => self.pane@,
        }
    }

    open spec fn acts_on_feedback(&self) -> bool {
        true
    }

    open spec fn host(&self) -> Option<Seq<char>> {
        optional_text(self.agent)
    }

    open spec fn first_turn(&self, feedback: Seq<char>) -> TurnView {
        TurnView::Run(
            CallView { bin: self.bin@, pane: self.pane@, feedback, stage: StageView::Prompt },
        )
    }

    fn describe(&self) -> (text: String) {
        match &self.agent {
            Some(agent) => {
                let mut text = agent.clone();
                text.append(" in ");
                text.append(self.pane.as_str());
                text
            },
            None => self.pane.clone(),
        }
    }

    fn is_agent(&self) -> (r: bool) {
        true
    }

    fn agent_host(&self) -> (host: Option<&str>) {
        match &self.agent {
            Some(agent) => Some(agent.as_str()),
            None => None,
        }
    }

    fn deliver(&self, feedback: &str) -> (turn: Turn) {
        Turn::Run(
            Call {
                bin: self.bin.clone(),
                pane: self.pane.clone(),
                feedback: feedback.to_owned(),
                stage: Stage::Prompt,
            },
        )
    }
}

// ---- What holds of every send ----

/// The turns of a send that goes on from `turn`, where the commands come to `answers`.
pub open spec fn turns(turn: TurnView, answers: Seq<Result<OutputView, Seq<char>>>) -> Seq<TurnView>
    decreases answers.len(),
{
    match turn {
        TurnView::Run(call) => if answers.len() > 0 {
            seq![turn] + turns(next_turn(call, answers.first()), answers.drop_first())
        } else {
            seq![turn]
        },
        _ => seq![turn],
    }
}

/// The turns of a send of `feedback` to an agent.
pub open spec fn send(
    target: HerdrAgent,
    feedback: Seq<char>,
    answers: Seq<Result<OutputView, Seq<char>>>,
) -> Seq<TurnView> {
    turns(target.first_turn(feedback), answers)
}

/// Whether Herdr refused a prompt before it typed anything.
pub open spec fn refused_before_typing(ran: Result<OutputView, Seq<char>>) -> bool {
    ran matches Ok(output) && response(output.success, utf8_lossy(output.stderr)) matches Err(
        Refusal::Unpromptable(_),
    )
}

proof fn lemma_send_unfolds(
    target: HerdrAgent,
    feedback: Seq<char>,
    answers: Seq<Result<OutputView, Seq<char>>>,
)
    ensures
        ({
            let all = send(target, feedback, answers);
            &&& 1 <= all.len() <= 4
            &&& all.len() <= answers.len() + 1
            &&& all[0] == target.first_turn(feedback)
            &&& forall|k: int|
                1 <= k < all.len() ==> (all[k - 1] matches TurnView::Run(call) && #[trigger] all[k]
                    == next_turn(call, answers[k - 1]))
            &&& all.last() is Done || all.len() == answers.len() + 1
        }),
{
    reveal_with_fuel(turns, 5);
    let all = send(target, feedback, answers);
    if answers.len() > 0 {
        let rest = answers.drop_first();
        if rest.len() > 0 {
            assert(rest.first() == answers[1]);
            if rest.drop_first().len() > 0 {
                assert(rest.drop_first().first() == answers[2]);
            }
        }
    }
}

/// The feedback is pasted into a pane only where Herdr refused to prompt its agent before it
/// typed anything, and then said that the pane hosts an agent. A pane without an agent is never
/// pasted into, and a dialog is never answered by a paste.
pub proof fn lemma_paste_needs_an_agent(
    target: HerdrAgent,
    feedback: Seq<char>,
    answers: Seq<Result<OutputView, Seq<char>>>,
    k: int,
)
    requires
        0 <= k < send(target, feedback, answers).len(),
        send(target, feedback, answers)[k] matches TurnView::Run(call) && call.stage is Paste,
    ensures
        k == 2,
        answers.len() >= 2,
        refused_before_typing(answers[0]),
        hosts_an_agent(answers[1]),
{
    lemma_send_unfolds(target, feedback, answers);
    let all = send(target, feedback, answers);
    if k >= 1 {
        assert(all[k] == next_turn(all[k - 1]->Run_0, answers[k - 1]));
        if k >= 2 {
            assert(all[k - 1] == next_turn(all[k - 2]->Run_0, answers[k - 2]));
            if k >= 3 {
                assert(all[k - 2] == next_turn(all[k - 3]->Run_0, answers[k - 3]));
            }
        }
    }
}

/// An agent at a dialog gets the prompt and nothing else: the send ends with Herdr's message.
pub proof fn lemma_dialog_ends_the_send(
    target: HerdrAgent,
    feedback: Seq<char>,
    answers: Seq<Result<OutputView, Seq<char>>>,
)
    requires
        answers.len() > 0,
        answers[0] matches Ok(output) && !output.success && code_in(utf8_lossy(output.stderr))
            == Some("agent_blocked"@),
    ensures
        send(target, feedback, answers) == seq![
            target.first_turn(feedback),
            TurnView::Done(
                Err(Refusal::Blocked(message_in(utf8_lossy(answers[0]->Ok_0.stderr)))),
            ),
        ],
{
    reveal_with_fuel(turns, 3);
    assert(answers.first() == answers[0]);
}

/// A prompt that Herdr took ends the send, whatever was printed.
pub proof fn lemma_success_ends_the_send(
    target: HerdrAgent,
    feedback: Seq<char>,
    answers: Seq<Result<OutputView, Seq<char>>>,
)
    requires
        answers.len() > 0,
        answers[0] matches Ok(output) && output.success,
    ensures
        send(target, feedback, answers) == seq![
            target.first_turn(feedback),
            TurnView::Done(Ok(())),
        ],
{
    reveal_with_fuel(turns, 3);
    assert(answers.first() == answers[0]);
}

/// Where Herdr cannot drive the agent and the pane hosts none, the refusal stands.
pub proof fn lemma_refusal_stands(
    target: HerdrAgent,
    feedback: Seq<char>,
    answers: Seq<Result<OutputView, Seq<char>>>,
)
    requires
        answers.len() >= 2,
        refused_before_typing(answers[0]),
        !hosts_an_agent(answers[1]),
    ensures
        send(target, feedback, answers).len() == 3,
        send(target, feedback, answers)[2] == TurnView::Done(
            response(
                answers[0]->Ok_0.success,
                utf8_lossy(answers[0]->Ok_0.stderr),
            ),
        ),
{
    reveal_with_fuel(turns, 4);
    assert(answers.first() == answers[0]);
    assert(answers.drop_first().first() == answers[1]);
}

/// A send is over after three commands at most.
pub proof fn lemma_send_ends(
    target: HerdrAgent,
    feedback: Seq<char>,
    answers: Seq<Result<OutputView, Seq<char>>>,
)
    requires
        answers.len() >= 3,
    ensures
        send(target, feedback, answers).len() <= 4,
        send(target, feedback, answers).last() is Done,
{
    lemma_send_unfolds(target, feedback, answers);
    let all = send(target, feedback, answers);
    if all.len() == 4 {
        assert(all[1] == next_turn(all[0]->Run_0, answers[0]));
        assert(all[2] == next_turn(all[1]->Run_0, answers[1]));
        assert(all[3] == next_turn(all[2]->Run_0, answers[2]));
    }
}

/// Every command of a send goes to the target's pane, and one that carries the feedback carries
/// it whole, as its last argument of four.
#[verifier::spinoff_prover]
pub proof fn lemma_feedback_is_one_argument(
    target: HerdrAgent,
    feedback: Seq<char>,
    answers: Seq<Result<OutputView, Seq<char>>>,
    k: int,
)
    requires
        0 <= k < send(target, feedback, answers).len(),
        send(target, feedback, answers)[k] is Run,
    ensures
        ({
            let call = send(target, feedback, answers)[k]->Run_0;
            &&& call.bin == target.bin@
            &&& call.pane == target.pane@
            &&& call.feedback == feedback
            &&& arguments(call)[2] == target.pane@
            &&& if call.stage is Inspect {
                arguments(call).len() == 3
            } else {
                arguments(call).len() == 4 && arguments(call)[3] == feedback
            }
        }),
    decreases k,
{
    lemma_send_unfolds(target, feedback, answers);
    let all = send(target, feedback, answers);
    if k >= 1 {
        assert(all[k] == next_turn(all[k - 1]->Run_0, answers[k - 1]));
        lemma_feedback_is_one_argument(target, feedback, answers, k - 1);
    }
}

/// Nothing leaves a headless run: a send to nowhere is over before anything is written or run.
pub proof fn lemma_discard_does_nothing(
    feedback: Seq<char>,
    answers: Seq<Result<OutputView, Seq<char>>>,
)
    ensures
        turns(Discard.first_turn(feedback), answers) == seq![TurnView::Done(Ok(()))],
{
}

/// A copy is emitted whole: what stands between the opening and the closing of the sequence is
/// free of control characters and decodes to all of the text.
pub proof fn lemma_copy_is_whole(text: Seq<char>)
    ensures
        ({
            let sequence = osc52(text);
            let payload = sequence.subrange(7, sequence.len() - 1);
            &&& sequence.len() >= 8
            &&& sequence.take(7) == "\x1b]52;c;"@
            &&& sequence.last() == '\x07'
            &&& payload == encoded(encode_utf8(text))
            &&& decode_utf8(decoded(payload)) == text
            &&& forall|i: int| 0 <= i < payload.len() ==> printable(#[trigger] payload[i])
        }),
{
    reveal_strlit("\x1b]52;c;");
    reveal_strlit("\x07");
    let sequence = osc52(text);
    let bytes = encode_utf8(text);
    assert(sequence.subrange(7, sequence.len() - 1) == encoded(bytes));
    assert(sequence.take(7) == "\x1b]52;c;"@);
    lemma_round_trip(bytes);
    lemma_printable(bytes);
    encode_utf8_decode_utf8(text);
}

proof fn lemma_two_names(first: Seq<char>, second: Seq<char>)
    ensures
        seq![first, second] == seq![first] + (seq![second] + Seq::<Seq<char>>::empty()),
{
}

/// What Herdr's envelope says decides what a refused prompt comes to: its code which outcome it
/// is, and its message, verbatim, what is said. Where the envelope has no message, what was
/// printed is said, without the white space around it.
pub proof fn lemma_envelope_decides(
    stderr: Seq<char>,
    envelope: Map<Seq<char>, Json>,
    error: Map<Seq<char>, Json>,
    code: Seq<char>,
)
    requires
        json_in_text(trimmed(stderr)) == Some(Json::Object(envelope)),
        envelope.contains_key("error"@) && envelope["error"@] == Json::Object(error),
        error.contains_key("code"@) && error["code"@] == Json::Text(code),
    ensures
        ({
            let said = if error.contains_key("message"@) && error["message"@] is Text {
                error["message"@]->Text_0
            } else {
                trimmed(stderr)
            };
            &&& code == "agent_blocked"@ ==> response(false, stderr) == Err::<(), Refusal>(
                Refusal::Blocked(said),
            )
            &&& code == "agent_not_found"@ || code == "agent_not_ready"@ ==> response(false, stderr)
                == Err::<(), Refusal>(Refusal::Unpromptable(said))
            &&& code == "pane_not_found"@ || code == "empty_agent_prompt"@ ==> response(
                false,
                stderr,
            ) == Err::<(), Refusal>(Refusal::Unavailable(said))
            &&& code != "agent_blocked"@ && code != "agent_not_found"@ && code
                != "agent_not_ready"@ && code != "pane_not_found"@ && code
                != "empty_agent_prompt"@ ==> response(false, stderr) == Err::<(), Refusal>(
                Refusal::Failed(code + seq![':', ' '] + said),
            )
        }),
{
    reveal_strlit("agent_blocked");
    reveal_strlit("agent_not_found");
    reveal_strlit("agent_not_ready");
    reveal_strlit("pane_not_found");
    reveal_strlit("empty_agent_prompt");
    reveal_strlit(": ");
    assert(": "@ == seq![':', ' ']);
    assert("agent_blocked"@.len() == 13 && "agent_not_found"@.len() == 15);
    assert("agent_not_ready"@.len() == 15 && "pane_not_found"@.len() == 14);
    assert("empty_agent_prompt"@.len() == 18);
    let none = Seq::<Seq<char>>::empty();
    let value = Json::Object(envelope);
    lemma_two_names("error"@, "code"@);
    lemma_two_names("error"@, "message"@);
    lemma_at(value, "error"@, seq!["code"@] + none);
    lemma_at(value, "error"@, seq!["message"@] + none);
    lemma_at(Json::Object(error), "code"@, none);
    lemma_at(Json::Object(error), "message"@, none);
    if error.contains_key("code"@) {
        lemma_at(error["code"@], "code"@, none);
    }
    if error.contains_key("message"@) {
        lemma_at(error["message"@], "message"@, none);
    }
}

/// A refusal that is no envelope is a failure that keeps what was printed, and says so where
/// that was nothing. A prompt that was taken is never a refusal.
pub proof fn lemma_garbage_is_kept(stderr: Seq<char>)
    ensures
        json_in_text(trimmed(stderr)) is None ==> response(false, stderr) == Err::<(), Refusal>(
            Refusal::Failed(
                "herdr agent prompt failed: "@ + if trimmed(stderr).len() == 0 {
                    "no output"@
                } else {
                    trimmed(stderr)
                },
            ),
        ),
        response(true, stderr) == Ok::<(), Refusal>(()),
{
}

/// Whether there is an agent in a pane is read off a successful reply alone: it names one, and
/// not by white space alone.
pub proof fn lemma_agent_is_named(
    ran: Result<OutputView, Seq<char>>,
    reply: Map<Seq<char>, Json>,
    result: Map<Seq<char>, Json>,
    agent: Map<Seq<char>, Json>,
    name: Seq<char>,
)
    requires
        ran matches Ok(output) && json_in_bytes(output.stdout) == Some(Json::Object(reply)),
        reply.contains_key("result"@) && reply["result"@] == Json::Object(result),
        result.contains_key("agent"@) && result["agent"@] == Json::Object(agent),
        agent.contains_key("agent"@) && agent["agent"@] == Json::Text(name),
    ensures
        hosts_an_agent(ran) <==> ran->Ok_0.success && exists|k: int|
            0 <= k < name.len() && !white_space(#[trigger] name[k]),
        agent_in(ran->Ok_0.stdout) == if exists|k: int|
            0 <= k < name.len() && !white_space(#[trigger] name[k]) {
            Some(trimmed(name))
        } else {
            None
        },
{
    let none = Seq::<Seq<char>>::empty();
    let names = seq!["result"@, "agent"@, "agent"@];
    assert(names == seq!["result"@] + (seq!["agent"@] + (seq!["agent"@] + none)));
    lemma_at(Json::Object(reply), "result"@, seq!["agent"@] + (seq!["agent"@] + none));
    lemma_at(Json::Object(result), "agent"@, seq!["agent"@] + none);
    lemma_at(Json::Object(agent), "agent"@, none);
    lemma_at(Json::Text(name), "agent"@, none);
    lemma_trimmed_blank(name);
}

/// Without a successful reply that names an agent there is none: not where the command did not
/// run or failed, and not where what it printed is no JSON, or has no text at the place for the
/// agent's name.
pub proof fn lemma_no_agent_is_named(ran: Result<OutputView, Seq<char>>)
    requires
        !({
            &&& ran matches Ok(output)
            &&& output.success
            &&& json_in_bytes(output.stdout) matches Some(Json::Object(reply))
            &&& reply.contains_key("result"@)
            &&& reply["result"@] matches Json::Object(result)
            &&& result.contains_key("agent"@)
            &&& result["agent"@] matches Json::Object(agent)
            &&& agent.contains_key("agent"@)
            &&& agent["agent"@] is Text
        }),
    ensures
        !hosts_an_agent(ran),
        ran matches Ok(output) ==> output.success ==> agent_in(output.stdout) is None,
{
    if let Ok(output) = ran {
        if let Some(reply) = json_in_bytes(output.stdout) {
            let none = Seq::<Seq<char>>::empty();
            let names = seq!["result"@, "agent"@, "agent"@];
            assert(names == seq!["result"@] + (seq!["agent"@] + (seq!["agent"@] + none)));
            lemma_at(reply, "result"@, seq!["agent"@] + (seq!["agent"@] + none));
            if let Json::Object(fields) = reply {
                if fields.contains_key("result"@) {
                    let result = fields["result"@];
                    lemma_at(result, "agent"@, seq!["agent"@] + none);
                    if let Json::Object(inner) = result {
                        if inner.contains_key("agent"@) {
                            lemma_at(inner["agent"@], "agent"@, none);
                            if let Json::Object(agent) = inner["agent"@] {
                                if agent.contains_key("agent"@) {
                                    lemma_at(agent["agent"@], "agent"@, none);
                                }
                            }
                        }
                    }
                }
            }
        }
    }
}

/// Every send starts with a prompt to the target's pane, with the feedback whole as its last
/// argument. Where the program does not run, that is the outcome, with its name and the reason.
pub proof fn lemma_send_starts_with_a_prompt(
    target: HerdrAgent,
    feedback: Seq<char>,
    answers: Seq<Result<OutputView, Seq<char>>>,
)
    ensures
        ({
            let all = send(target, feedback, answers);
            &&& all.len() >= 1
            &&& all[0] matches TurnView::Run(call) && call.bin == target.bin@ && arguments(call)
                == seq!["agent"@, "prompt"@, target.pane@, feedback]
            &&& answers.len() > 0 ==> (answers[0] matches Err(err) ==> all.len() == 2 && all[1]
                == TurnView::Done(
                Err(
                    Refusal::Unavailable("cannot run "@ + target.bin@ + seq![':', ' '] + err),
                ),
            ))
        }),
{
    reveal_strlit(": ");
    assert(": "@ == seq![':', ' ']);
    reveal_with_fuel(turns, 3);
    if answers.len() > 0 {
        assert(answers.first() == answers[0]);
    }
}

/// Where Herdr cannot drive the agent, and the pane is then shown to host one, the feedback is
/// pasted: whatever it holds, the next command is the paste of all of it into the target's pane,
/// and what comes of that command is the outcome of the send.
pub proof fn lemma_paste_happens(
    target: HerdrAgent,
    feedback: Seq<char>,
    answers: Seq<Result<OutputView, Seq<char>>>,
    envelope: Map<Seq<char>, Json>,
    error: Map<Seq<char>, Json>,
    reply: Map<Seq<char>, Json>,
    result: Map<Seq<char>, Json>,
    agent: Map<Seq<char>, Json>,
    name: Seq<char>,
)
    requires
        answers.len() >= 2,
        answers[0] matches Ok(output) && !output.success && json_in_text(
            trimmed(utf8_lossy(output.stderr)),
        ) == Some(Json::Object(envelope)),
        envelope.contains_key("error"@) && envelope["error"@] == Json::Object(error),
        error.contains_key("code"@),
        error["code"@] == Json::Text("agent_not_found"@) || error["code"@] == Json::Text(
            "agent_not_ready"@,
        ),
        answers[1] matches Ok(output) && output.success && json_in_bytes(output.stdout) == Some(
            Json::Object(reply),
        ),
        reply.contains_key("result"@) && reply["result"@] == Json::Object(result),
        result.contains_key("agent"@) && result["agent"@] == Json::Object(agent),
        agent.contains_key("agent"@) && agent["agent"@] == Json::Text(name),
        exists|k: int| 0 <= k < name.len() && !white_space(#[trigger] name[k]),
    ensures
        ({
            let all = send(target, feedback, answers);
            &&& all.len() >= 3
            &&& all[1] matches TurnView::Run(call) && call.bin == target.bin@ && arguments(call)
                == seq!["agent"@, "get"@, target.pane@]
            &&& all[2] matches TurnView::Run(call) && call.bin == target.bin@ && arguments(call)
                == seq!["pane"@, "run"@, target.pane@, feedback]
            &&& answers.len() >= 3 ==> {
                &&& all.len() == 4
                &&& all[3] matches TurnView::Done(outcome)
                &&& outcome is Ok <==> (answers[2] matches Ok(output) && output.success)
                &&& answers[2] matches Err(err) ==> outcome == Err::<(), Refusal>(
                    Refusal::Unavailable("cannot run "@ + target.bin@ + seq![':', ' '] + err),
                )
                &&& answers[2] is Ok && !answers[2]->Ok_0.success ==> outcome == Err::<
                    (),
                    Refusal,
                >(
                    Refusal::Failed(
                        "herdr pane run failed: "@ + message_in(
                            utf8_lossy(answers[2]->Ok_0.stderr),
                        ),
                    ),
                )
            }
        }),
{
    lemma_envelope_decides(
        utf8_lossy(answers[0]->Ok_0.stderr),
        envelope,
        error,
        error["code"@]->Text_0,
    );
    lemma_agent_is_named(answers[1], reply, result, agent, name);
    reveal_strlit(": ");
    assert(": "@ == seq![':', ' ']);
    reveal_with_fuel(turns, 5);
    let rest = answers.drop_first();
    assert(answers.first() == answers[0]);
    assert(rest.first() == answers[1]);
    if answers.len() >= 3 {
        assert(rest.drop_first().first() == answers[2]);
    }
}

/// What a failed command says is its envelope's message, verbatim, and else all that it printed,
/// without the white space around it.
pub proof fn lemma_message_is_kept(stderr: Seq<char>)
    ensures
        json_in_text(trimmed(stderr)) is None ==> message_in(stderr) == trimmed(stderr),
        json_in_text(trimmed(stderr)) matches Some(envelope) ==> message_in(stderr) == if (envelope
            is Object && envelope->Object_0.contains_key("error"@)
            && envelope->Object_0["error"@] is Object
            && envelope->Object_0["error"@]->Object_0.contains_key("message"@)
            && envelope->Object_0["error"@]->Object_0["message"@] is Text) {
            envelope->Object_0["error"@]->Object_0["message"@]->Text_0
        } else {
            trimmed(stderr)
        },
{
    if let Some(envelope) = json_in_text(trimmed(stderr)) {
        let none = Seq::<Seq<char>>::empty();
        lemma_two_names("error"@, "message"@);
        lemma_at(envelope, "error"@, seq!["message"@] + none);
        if let Json::Object(fields) = envelope {
            if fields.contains_key("error"@) {
                lemma_at(fields["error"@], "message"@, none);
                if let Json::Object(error) = fields["error"@] {
                    if error.contains_key("message"@) {
                        lemma_at(error["message"@], "message"@, none);
                    }
                }
            }
        }
    }
}

/// A refusal whose envelope has no code is a failure that says the message, or that there was
/// none.
pub proof fn lemma_no_code_is_a_failure(stderr: Seq<char>, envelope: Json)
    requires
        json_in_text(trimmed(stderr)) == Some(envelope),
        !({
            &&& envelope matches Json::Object(fields)
            &&& fields.contains_key("error"@)
            &&& fields["error"@] matches Json::Object(error)
            &&& error.contains_key("code"@)
            &&& error["code"@] is Text
        }),
    ensures
        response(false, stderr) == Err::<(), Refusal>(
            Refusal::Failed(
                "herdr agent prompt failed: "@ + if message_in(stderr).len() == 0 {
                    "no output"@
                } else {
                    message_in(stderr)
                },
            ),
        ),
{
    let none = Seq::<Seq<char>>::empty();
    lemma_two_names("error"@, "code"@);
    lemma_at(envelope, "error"@, seq!["code"@] + none);
    if let Json::Object(fields) = envelope {
        if fields.contains_key("error"@) {
            lemma_at(fields["error"@], "code"@, none);
            if let Json::Object(error) = fields["error"@] {
                if error.contains_key("code"@) {
                    lemma_at(error["code"@], "code"@, none);
                }
            }
        }
    }
}

/// A prompt that ran ends the send with what its exit comes to, whatever the feedback, unless
/// Herdr refused it before it typed anything. In that case the pane is looked at next.
pub proof fn lemma_prompt_decides(
    target: HerdrAgent,
    feedback: Seq<char>,
    answers: Seq<Result<OutputView, Seq<char>>>,
)
    requires
        answers.len() > 0,
        answers[0] is Ok,
    ensures
        ({
            let all = send(target, feedback, answers);
            let outcome = response(
                answers[0]->Ok_0.success,
                utf8_lossy(answers[0]->Ok_0.stderr),
            );
            &&& all.len() >= 2
            &&& if (outcome is Err && outcome->Err_0 is Unpromptable) {
                all[1] matches TurnView::Run(call) && call.bin == target.bin@ && arguments(call)
                    == seq!["agent"@, "get"@, target.pane@]
            } else {
                all.len() == 2 && all[1] == TurnView::Done(outcome)
            }
        }),
{
    reveal_with_fuel(turns, 3);
    assert(answers.first() == answers[0]);
}

/// An error says the message that it was made with, whatever kind of error it is, and is seen as
/// the kind that it is.
pub proof fn lemma_error_says_its_message(message: String)
    ensures
        DeliveryError::Blocked(message)@ == Refusal::Blocked(message@),
        DeliveryError::Unavailable(message)@ == Refusal::Unavailable(message@),
        DeliveryError::Unpromptable(message)@ == Refusal::Unpromptable(message@),
        DeliveryError::Failed(message)@ == Refusal::Failed(message@),
        refusal_text(Refusal::Blocked(message@)) == message@,
        refusal_text(Refusal::Unavailable(message@)) == message@,
        refusal_text(Refusal::Unpromptable(message@)) == message@,
        refusal_text(Refusal::Failed(message@)) == message@,
        outcome_view(Ok(())) is Ok,
        outcome_view(Err(DeliveryError::Failed(message))) == Err::<(), Refusal>(
            Refusal::Failed(message@),
        ),
{
}

/// Commands and what came of them are seen as they are.
pub proof fn lemma_call_view(call: Call, output: Output, message: String)
    ensures
        call@.bin == call.bin@,
        call@.pane == call.pane@,
        call@.feedback == call.feedback@,
        call.stage is Prompt <==> call@.stage is Prompt,
        call.stage is Paste <==> call@.stage is Paste,
        call.stage matches Stage::Inspect(said) ==> call@.stage == StageView::Inspect(said@),
        Turn::Run(call)@ == TurnView::Run(call@),
        Turn::Write(message)@ == TurnView::Write(message@),
        run_view(Err(message)) == Err::<OutputView, Seq<char>>(message@),
        run_view(Ok(output)) matches Ok(view) && view.success == output.success && view.stdout
            == output.stdout@ && view.stderr == output.stderr@,
{
}

/// An agent is shown by its name and its pane, or by the pane alone where the name is not known;
/// only an agent acts on feedback. A copy writes the sequence of all of the feedback.
pub proof fn lemma_targets(target: HerdrAgent, feedback: Seq<char>)
    ensures
        Clipboard.first_turn(feedback) == TurnView::Write(osc52(feedback)),
        Clipboard.target() == "clipboard"@,
        Discard.target() == "nowhere (headless)"@,
        target.agent matches Some(agent) ==> target.target() == agent@ + seq![' ', 'i', 'n', ' ']
            + target.pane@ && target.host() == Some(agent@),
        target.agent is None ==> target.target() == target.pane@ && target.host() is None,
        target.acts_on_feedback(),
        !Clipboard.acts_on_feedback() && Clipboard.host() is None,
        !Discard.acts_on_feedback() && Discard.host() is None,
{
    reveal_strlit(" in ");
    assert(" in "@ == seq![' ', 'i', 'n', ' ']);
}

} // verus!
