//! The bug report: when it can be sent, what the dialog says about the last
//! attempt, the diagnostics line naming the OS, and the pre-filled compose
//! page a report falls back to when the forge cannot file it.

use crate::strings::{bytes_eq, lemma_empty_valid, push_ascii, push_str_bytes, string_from_utf8};
use crate::text::{all_ws, lead_ws_exec, trim, trimmed};
use vstd::prelude::*;
use vstd::string::StringSliceAdditionalSpecFns;
use vstd::utf8::{encode_utf8, encode_utf8_valid_utf8, valid_utf8, valid_utf8_concat};

verus! {

/// Where the dialog stands. Everything but [`Phase::Submitting`] leaves the
/// report editable.
#[derive(Debug, Clone, PartialEq, Eq)]
pub enum Phase {
    Editing,
    /// An issue is being filed; Report stays disabled until it finishes, so
    /// one report cannot become two issues.
    Submitting,
    /// Filing through the forge failed, with why.
    Failed(String),
    /// The forge was not ready, and the compose page opened in the browser.
    BrowserReady,
    /// The forge was not ready, and the browser could not be opened either.
    BrowserFailed,
}

impl Phase {
    /// Whether the status line reports something that went wrong.
    pub fn is_error(&self) -> (r: bool)
        ensures
            r == (self is Failed || self is BrowserFailed),
    {
        match self {
            Phase::Failed(_) | Phase::BrowserFailed => true,
            _ => false,
        }
    }

    /// The localization key of the status line under the form, if there is
    /// one to show; `Failed`'s message takes its error as the `error`
    /// parameter.
    pub fn message_key(&self) -> (r: Option<&'static str>)
        ensures
            match self {
                Phase::Editing => r is None,
                Phase::Submitting => r matches Some(k) && k@ == "bug_report.submitting"@,
                Phase::Failed(_) => r matches Some(k) && k@ == "bug_report.failed"@,
                Phase::BrowserReady => r matches Some(k) && k@ == "bug_report.browser_ready"@,
                Phase::BrowserFailed => r matches Some(k) && k@ == "bug_report.browser_failed"@,
            },
    {
        match self {
            Phase::Editing => None,
            Phase::Submitting => Some("bug_report.submitting"),
            Phase::Failed(_) => Some("bug_report.failed"),
            Phase::BrowserReady => Some("bug_report.browser_ready"),
            Phase::BrowserFailed => Some("bug_report.browser_failed"),
        }
    }
}

/// Whether Report can be chosen: both fields hold something other than
/// whitespace, and no submission is already in flight.
pub fn can_report(subject: &str, description: &str, phase: &Phase) -> (r: bool)
    ensures
        r == (!all_ws(subject.spec_bytes()) && !all_ws(description.spec_bytes()) && !(phase is Submitting)),
{
    let s = subject.as_bytes();
    let d = description.as_bytes();
    lead_ws_exec(s) != s.len() && lead_ws_exec(d) != d.len() && !matches!(phase, Phase::Submitting)
}

/// The uppercase hexadecimal digit for `d` (below 16).
pub open spec fn hex_digit(d: int) -> u8 {
    if d < 10 {
        (0x30 + d) as u8
    } else {
        (0x41 + d - 10) as u8
    }
}

/// RFC 3986's unreserved characters: ASCII letters and digits, `-`, `.`,
/// `_` and `~`.
pub open spec fn unreserved(b: u8) -> bool {
    (0x30u8 <= b <= 0x39u8) || (0x41u8 <= b <= 0x5au8) || (0x61u8 <= b <= 0x7au8) || b == 0x2du8
        || b == 0x2eu8 || b == 0x5fu8 || b == 0x7eu8
}

/// One byte, percent-encoded unless it is unreserved.
pub open spec fn encode_byte(b: u8) -> Seq<u8> {
    if unreserved(b) {
        seq![b]
    } else {
        seq![0x25u8, hex_digit(b as int / 16), hex_digit(b as int % 16)]
    }
}

/// Every byte of `t` from `i` on, percent-encoded unless unreserved.
pub open spec fn percent_encoded(t: Seq<u8>, i: int) -> Seq<u8>
    decreases t.len() - i,
{
    if i < 0 || i >= t.len() {
        Seq::empty()
    } else {
        encode_byte(t[i]) + percent_encoded(t, i + 1)
    }
}

fn hex_exec(d: u8) -> (h: u8)
    requires
        d < 16,
    ensures
        h == hex_digit(d as int),
        h < 0x80,
{
    if d < 10 {
        0x30 + d
    } else {
        0x41 + d - 10
    }
}

/// Percent-encodes everything but RFC 3986's unreserved characters, so a
/// query value can carry spaces, slashes, `&`, `#` and any Unicode (as its
/// UTF-8 bytes) without being cut short or misread.
pub fn percent_encode(value: &str) -> (r: String)
    ensures
        encode_utf8(r@) == percent_encoded(value.spec_bytes(), 0),
{
    let t = value.as_bytes();
    let mut out: Vec<u8> = Vec::new();
    let mut i: usize = 0;
    proof {
        lemma_empty_valid();
    }
    while i < t.len()
        invariant
            i <= t@.len(),
            t@ == value.spec_bytes(),
            valid_utf8(out@),
            percent_encoded(t@, 0) == out@ + percent_encoded(t@, i as int),
        decreases t@.len() - i,
    {
        let b = t[i];
        let ghost before = out@;
        if (0x30 <= b && b <= 0x39) || (0x41 <= b && b <= 0x5a) || (0x61 <= b && b <= 0x7a) || b == 0x2d
            || b == 0x2e || b == 0x5f || b == 0x7e {
            push_ascii(&mut out, b);
        } else {
            push_ascii(&mut out, 0x25);
            push_ascii(&mut out, hex_exec(b / 16));
            push_ascii(&mut out, hex_exec(b % 16));
        }
        proof {
            assert(out@ =~= before + encode_byte(b));
            assert(before + (encode_byte(b) + percent_encoded(t@, i + 1)) =~= (before + encode_byte(b))
                + percent_encoded(t@, i + 1));
        }
        i = i + 1;
    }
    proof {
        assert(out@ + Seq::<u8>::empty() =~= out@);
    }
    string_from_utf8(out)
}

/// The value of an uppercase hexadecimal digit.
pub open spec fn hex_value(h: u8) -> int {
    if 0x30 <= h <= 0x39 {
        h - 0x30
    } else {
        h - 0x41 + 10
    }
}

/// Whether `h` is an uppercase hexadecimal digit.
pub open spec fn upper_hex(h: u8) -> bool {
    (0x30u8 <= h <= 0x39u8) || (0x41u8 <= h <= 0x46u8)
}

/// `e` read back: each `%XX` is the byte `0xXX`, any other byte stands
/// for itself.
pub open spec fn percent_decoded(e: Seq<u8>) -> Seq<u8>
    decreases e.len(),
{
    if e.len() == 0 {
        Seq::empty()
    } else if e[0] == 0x25 && e.len() >= 3 {
        seq![(hex_value(e[1]) * 16 + hex_value(e[2])) as u8] + percent_decoded(e.subrange(3, e.len() as int))
    } else {
        seq![e[0]] + percent_decoded(e.subrange(1, e.len() as int))
    }
}

/// Whether `e` is made only of unreserved bytes and `%XX` triples with
/// `XX` uppercase hexadecimal.
pub open spec fn well_encoded(e: Seq<u8>) -> bool
    decreases e.len(),
{
    if e.len() == 0 {
        true
    } else if unreserved(e[0]) {
        well_encoded(e.subrange(1, e.len() as int))
    } else {
        e[0] == 0x25 && e.len() >= 3 && upper_hex(e[1]) && upper_hex(e[2]) && well_encoded(
            e.subrange(3, e.len() as int),
        )
    }
}

/// How long the encoding of the bytes of `t` from `i` on is: one byte for
/// each unreserved byte, three for any other.
pub open spec fn encoded_len(t: Seq<u8>, i: int) -> int
    decreases t.len() - i,
{
    if i < 0 || i >= t.len() {
        0
    } else {
        (if unreserved(t[i]) {
            1int
        } else {
            3int
        }) + encoded_len(t, i + 1)
    }
}

proof fn lemma_encode_byte_reads_back(b: u8, rest: Seq<u8>)
    ensures
        percent_decoded(encode_byte(b) + rest) == seq![b] + percent_decoded(rest),
        well_encoded(encode_byte(b) + rest) == well_encoded(rest),
{
    let e = encode_byte(b) + rest;
    if unreserved(b) {
        assert(e.subrange(1, e.len() as int) =~= rest);
        assert(e[0] == b);
    } else {
        let hi = b as int / 16;
        let lo = b as int % 16;
        assert(e.subrange(3, e.len() as int) =~= rest);
        assert(e[1] == hex_digit(hi) && e[2] == hex_digit(lo));
        assert(hex_value(hex_digit(hi)) == hi);
        assert(hex_value(hex_digit(lo)) == lo);
        assert(hi * 16 + lo == b as int);
    }
}

/// Percent-encoding reads back: decoding what `percent_encode` gives
/// yields the bytes it was given. What it gives is made only of unreserved
/// bytes and `%XX` triples in uppercase hexadecimal, one byte for each
/// unreserved byte of the input and three for any other.
pub proof fn lemma_percent_encoding_reads_back(t: Seq<u8>, i: int)
    requires
        0 <= i <= t.len(),
    ensures
        percent_decoded(percent_encoded(t, i)) == t.subrange(i, t.len() as int),
        well_encoded(percent_encoded(t, i)),
        percent_encoded(t, i).len() == encoded_len(t, i),
    decreases t.len() - i,
{
    if i < t.len() {
        lemma_percent_encoding_reads_back(t, i + 1);
        lemma_encode_byte_reads_back(t[i], percent_encoded(t, i + 1));
        assert(t.subrange(i, t.len() as int) =~= seq![t[i]] + t.subrange(i + 1, t.len() as int));
    } else {
        assert(t.subrange(i, t.len() as int) =~= Seq::<u8>::empty());
    }
}

/// The OS as the diagnostics line names it: `macos` reads `macOS`, any
/// other name stands as it is.
pub open spec fn os_name(os: Seq<u8>) -> Seq<u8> {
    if os == "macos".spec_bytes() {
        "macOS".spec_bytes()
    } else {
        os
    }
}

/// `macOS 26.0 (Darwin 25.6.0)`: the product version after the name, then
/// the kernel release in brackets, each left out when it is unknown.
pub open spec fn os_line_bytes(os: Seq<u8>, product: Option<Seq<u8>>, kernel: Option<Seq<u8>>) -> Seq<u8> {
    let name = os_name(os);
    match (product, kernel) {
        (Some(p), Some(k)) => name + seq![0x20u8] + p + seq![0x20u8, 0x28u8] + k + seq![0x29u8],
        (Some(p), None) => name + seq![0x20u8] + p,
        (None, Some(k)) => name + seq![0x20u8, 0x28u8] + k + seq![0x29u8],
        (None, None) => name,
    }
}

/// The bytes of an optional string.
pub open spec fn opt_bytes(s: Option<&str>) -> Option<Seq<u8>> {
    match s {
        Some(x) => Some(x.spec_bytes()),
        None => None,
    }
}

/// The OS line of the diagnostics block.
pub fn os_line(os: &str, product: Option<&str>, kernel: Option<&str>) -> (r: String)
    ensures
        encode_utf8(r@) == os_line_bytes(os.spec_bytes(), opt_bytes(product), opt_bytes(kernel)),
{
    let mut out: Vec<u8> = Vec::new();
    proof {
        lemma_empty_valid();
    }
    let macos = "macos";
    if bytes_eq(os.as_bytes(), macos.as_bytes()) {
        push_str_bytes(&mut out, "macOS");
    } else {
        push_str_bytes(&mut out, os);
    }
    proof {
        assert(out@ =~= os_name(os.spec_bytes()));
    }
    let ghost name = out@;
    match (product, kernel) {
        (Some(p), Some(k)) => {
            push_ascii(&mut out, 0x20);
            push_str_bytes(&mut out, p);
            push_ascii(&mut out, 0x20);
            push_ascii(&mut out, 0x28);
            push_str_bytes(&mut out, k);
            push_ascii(&mut out, 0x29);
            proof {
                assert(out@ =~= name + seq![0x20u8] + p.spec_bytes() + seq![0x20u8, 0x28u8] + k.spec_bytes()
                    + seq![0x29u8]);
            }
        },
        (Some(p), None) => {
            push_ascii(&mut out, 0x20);
            push_str_bytes(&mut out, p);
            proof {
                assert(out@ =~= name + seq![0x20u8] + p.spec_bytes());
            }
        },
        (None, Some(k)) => {
            push_ascii(&mut out, 0x20);
            push_ascii(&mut out, 0x28);
            push_str_bytes(&mut out, k);
            push_ascii(&mut out, 0x29);
            proof {
                assert(out@ =~= name + seq![0x20u8, 0x28u8] + k.spec_bytes() + seq![0x29u8]);
            }
        },
        (None, None) => {},
    }
    string_from_utf8(out)
}

/// What the user filed, plus the diagnostics that accompany it.
#[derive(Debug, Clone, PartialEq, Eq)]
pub struct Report {
    pub subject: String,
    pub description: String,
    pub diagnostics: String,
}

/// The issue body: the description, then the diagnostics under a heading
/// (`label`, already localized), fenced so the forge keeps their lines.
pub open spec fn issue_body_bytes(description: Seq<u8>, label: Seq<u8>, diagnostics: Seq<u8>) -> Seq<u8> {
    trimmed(description) + "\n\n### ".spec_bytes() + label + "\n\n```\n".spec_bytes() + diagnostics
        + "\n```\n".spec_bytes()
}

fn issue_body_vec(report: &Report, label: &str) -> (v: Vec<u8>)
    ensures
        v@ == issue_body_bytes(encode_utf8(report.description@), label.spec_bytes(),
            encode_utf8(report.diagnostics@)),
        valid_utf8(v@),
{
    let mut out: Vec<u8> = Vec::new();
    proof {
        lemma_empty_valid();
    }
    push_str_bytes(&mut out, trim(report.description.as_str()));
    push_str_bytes(&mut out, "\n\n### ");
    push_str_bytes(&mut out, label);
    push_str_bytes(&mut out, "\n\n```\n");
    push_str_bytes(&mut out, report.diagnostics.as_str());
    push_str_bytes(&mut out, "\n```\n");
    out
}

/// The issue body for `report`, its diagnostics under the heading `label`.
pub fn issue_body(report: &Report, label: &str) -> (r: String)
    ensures
        encode_utf8(r@) == issue_body_bytes(encode_utf8(report.description@), label.spec_bytes(),
            encode_utf8(report.diagnostics@)),
{
    string_from_utf8(issue_body_vec(report, label))
}

/// The bytes of the new-issue page of repository `repo`, with the title and
/// body pre-filled, each percent-encoded.
pub open spec fn compose_url_bytes(report: Report, repo: Seq<u8>, label: Seq<u8>) -> Seq<u8> {
    "https://github.com/".spec_bytes() + repo + "/issues/new?title=".spec_bytes() + percent_encoded(
        trimmed(encode_utf8(report.subject@)),
        0,
    ) + "&body=".spec_bytes() + percent_encoded(
        issue_body_bytes(encode_utf8(report.description@), label, encode_utf8(report.diagnostics@)),
        0,
    )
}

/// The new-issue page of repository `repo`, with the title and body
/// pre-filled, each percent-encoded.
pub fn compose_url(report: &Report, repo: &str, label: &str) -> (r: String)
    ensures
        encode_utf8(r@) == compose_url_bytes(*report, repo.spec_bytes(), label.spec_bytes()),
{
    let mut out: Vec<u8> = Vec::new();
    proof {
        lemma_empty_valid();
    }
    push_str_bytes(&mut out, "https://github.com/");
    push_str_bytes(&mut out, repo);
    push_str_bytes(&mut out, "/issues/new?title=");
    let title = percent_encode(trim(report.subject.as_str()));
    push_str_bytes(&mut out, title.as_str());
    push_str_bytes(&mut out, "&body=");
    let body = issue_body(report, label);
    let encoded = percent_encode(body.as_str());
    push_str_bytes(&mut out, encoded.as_str());
    string_from_utf8(out)
}

/// Whether the forge's command-line client can file an issue.
#[derive(Debug, Clone, PartialEq, Eq)]
pub enum ForgeAvailability {
    /// The client is not installed.
    Missing,
    /// Installed, but not signed in.
    Unauthenticated,
    Ready,
    /// The probe itself failed, with why.
    Failed(String),
}

impl ForgeAvailability {
    pub fn is_ready(&self) -> (r: bool)
        ensures
            r == (self is Ready),
    {
        match self {
            ForgeAvailability::Ready => true,
            _ => false,
        }
    }

    /// The localization key of the forge's readiness in words. Each state
    /// has its own, since each has a different next step for the user;
    /// `Failed`'s text takes its reason as the `reason` parameter.
    pub fn label_key(&self) -> (r: &'static str)
        ensures
            r@ == forge_label_key(*self),
    {
        match self {
            ForgeAvailability::Missing => "bug_report.forge.missing",
            ForgeAvailability::Unauthenticated => "bug_report.forge.unauthenticated",
            ForgeAvailability::Ready => "bug_report.forge.ready",
            ForgeAvailability::Failed(_) => "bug_report.forge.failed",
        }
    }
}

/// How a submission ended.
#[derive(Debug, Clone, PartialEq, Eq)]
pub enum Outcome {
    /// Filed through the forge, at this URL.
    Filed(String),
    /// The forge was ready but filing failed, with why.
    FileFailed(String),
    /// The forge was not ready; the compose page opened in the browser.
    BrowserReady,
    /// The forge was not ready, and the browser could not be opened.
    BrowserFailed,
}

/// What a submission does.
#[derive(Debug, Clone, PartialEq, Eq)]
pub enum SubmitAction {
    /// File the issue through the forge, with this title and body.
    File { title: String, body: String },
    /// Open this compose page in the browser.
    OpenBrowser(String),
}

/// What submitting `report` to repository `repo` does: file it through the
/// forge when the forge is ready, and otherwise - not installed, not
/// signed in, or a probe that failed - open the pre-filled compose page,
/// whose body is the same issue body. `label` heads the diagnostics.
pub fn submit_action(report: &Report, forge: &ForgeAvailability, repo: &str, label: &str) -> (r: SubmitAction)
    ensures
        match r {
            SubmitAction::File { title, body } => forge is Ready && encode_utf8(title@) == trimmed(
                encode_utf8(report.subject@),
            ) && encode_utf8(body@) == issue_body_bytes(
                encode_utf8(report.description@),
                label.spec_bytes(),
                encode_utf8(report.diagnostics@),
            ),
            SubmitAction::OpenBrowser(url) => !(forge is Ready) && encode_utf8(url@) == compose_url_bytes(
                *report,
                repo.spec_bytes(),
                label.spec_bytes(),
            ),
        },
{
    if forge.is_ready() {
        let trimmed_subject = trim(report.subject.as_str());
        let mut t: Vec<u8> = Vec::new();
        proof {
            lemma_empty_valid();
        }
        push_str_bytes(&mut t, trimmed_subject);
        SubmitAction::File { title: string_from_utf8(t), body: issue_body(report, label) }
    } else {
        SubmitAction::OpenBrowser(compose_url(report, repo, label))
    }
}

/// The outcome of filing through the forge: the issue's URL, or why it
/// failed.
pub fn filed_outcome(result: Result<String, String>) -> (r: Outcome)
    ensures
        r == match result {
            Ok(url) => Outcome::Filed(url),
            Err(error) => Outcome::FileFailed(error),
        },
{
    match result {
        Ok(url) => Outcome::Filed(url),
        Err(error) => Outcome::FileFailed(error),
    }
}

/// The outcome of handing the compose page to the browser.
pub fn browser_outcome(opened: bool) -> (r: Outcome)
    ensures
        r == if opened {
            Outcome::BrowserReady
        } else {
            Outcome::BrowserFailed
        },
{
    if opened {
        Outcome::BrowserReady
    } else {
        Outcome::BrowserFailed
    }
}

impl Phase {
    /// Where the dialog stands once a submission ended: a filed issue
    /// closes the dialog and leaves a fresh form; anything else keeps what
    /// was typed, so the user can retry or copy it.
    pub fn after(outcome: Outcome) -> (r: Phase)
        ensures
            r == match outcome {
                Outcome::Filed(_) => Phase::Editing,
                Outcome::FileFailed(error) => Phase::Failed(error),
                Outcome::BrowserReady => Phase::BrowserReady,
                Outcome::BrowserFailed => Phase::BrowserFailed,
            },
    {
        match outcome {
            Outcome::Filed(_) => Phase::Editing,
            Outcome::FileFailed(error) => Phase::Failed(error),
            Outcome::BrowserReady => Phase::BrowserReady,
            Outcome::BrowserFailed => Phase::BrowserFailed,
        }
    }
}

/// The localization key of each forge state's words.
pub open spec fn forge_label_key(f: ForgeAvailability) -> Seq<char> {
    match f {
        ForgeAvailability::Missing => "bug_report.forge.missing"@,
        ForgeAvailability::Unauthenticated => "bug_report.forge.unauthenticated"@,
        ForgeAvailability::Ready => "bug_report.forge.ready"@,
        ForgeAvailability::Failed(_) => "bug_report.forge.failed"@,
    }
}

/// Which of the four forge states `f` is.
pub open spec fn forge_state(f: ForgeAvailability) -> int {
    match f {
        ForgeAvailability::Missing => 0,
        ForgeAvailability::Unauthenticated => 1,
        ForgeAvailability::Ready => 2,
        ForgeAvailability::Failed(_) => 3,
    }
}

/// The forge states are told apart: two different states never share
/// their words' key.
pub proof fn lemma_forge_states_told_apart(a: ForgeAvailability, b: ForgeAvailability)
    requires
        forge_state(a) != forge_state(b),
    ensures
        forge_label_key(a) != forge_label_key(b),
{
    reveal_strlit("bug_report.forge.missing");
    reveal_strlit("bug_report.forge.unauthenticated");
    reveal_strlit("bug_report.forge.ready");
    reveal_strlit("bug_report.forge.failed");
    assert(forge_label_key(a)[17] != forge_label_key(b)[17] || forge_label_key(a).len() != forge_label_key(
        b,
    ).len());
}

/// The facts the diagnostics block is drawn from.
#[derive(Debug, Clone, PartialEq, Eq)]
pub struct Diagnostics {
    /// Name, version and build, exactly as the About window copies them.
    pub app: String,
    pub os: String,
    pub arch: String,
    pub forge: ForgeAvailability,
}

/// The block's labels, already localized, one per fact.
#[derive(Debug, Clone, PartialEq, Eq)]
pub struct DiagnosticLabels {
    pub app: String,
    pub os: String,
    pub arch: String,
    pub forge: String,
}

/// One labelled fact: `label: value`.
pub open spec fn fact_line(label: Seq<u8>, value: Seq<u8>) -> Seq<u8> {
    label + ": ".spec_bytes() + value
}

/// The diagnostics block: app, OS, architecture and forge, one labelled
/// fact per line. `forge` is the forge's readiness in words.
pub open spec fn diagnostics_block(d: Diagnostics, labels: DiagnosticLabels, forge: Seq<u8>) -> Seq<u8> {
    fact_line(encode_utf8(labels.app@), encode_utf8(d.app@)) + "\n".spec_bytes() + fact_line(
        encode_utf8(labels.os@),
        encode_utf8(d.os@),
    ) + "\n".spec_bytes() + fact_line(encode_utf8(labels.arch@), encode_utf8(d.arch@)) + "\n".spec_bytes()
        + fact_line(encode_utf8(labels.forge@), forge)
}

fn push_fact(out: &mut Vec<u8>, label: &str, value: &str)
    ensures
        final(out)@ == old(out)@ + fact_line(label.spec_bytes(), value.spec_bytes()),
        valid_utf8(old(out)@) ==> valid_utf8(final(out)@),
{
    push_str_bytes(out, label);
    push_str_bytes(out, ": ");
    push_str_bytes(out, value);
}

impl Diagnostics {
    /// The block as the dialog shows it and the issue body carries it: one
    /// labelled fact per line, labels localized (`labels`), values not;
    /// `forge` is the forge's readiness in words.
    pub fn text(&self, labels: &DiagnosticLabels, forge: &str) -> (r: String)
        ensures
            encode_utf8(r@) == diagnostics_block(*self, *labels, forge.spec_bytes()),
    {
        let mut out: Vec<u8> = Vec::new();
        proof {
            lemma_empty_valid();
        }
        push_fact(&mut out, labels.app.as_str(), self.app.as_str());
        push_str_bytes(&mut out, "\n");
        push_fact(&mut out, labels.os.as_str(), self.os.as_str());
        push_str_bytes(&mut out, "\n");
        push_fact(&mut out, labels.arch.as_str(), self.arch.as_str());
        push_str_bytes(&mut out, "\n");
        push_fact(&mut out, labels.forge.as_str(), forge);
        proof {
            assert(out@ =~= diagnostics_block(*self, *labels, forge.spec_bytes()));
        }
        string_from_utf8(out)
    }
}

} // verus!
