//! Decisions of the network controller: the command lines it issues to the
//! network manager's tool, and what each reply of the tool means. Running
//! the tool is left to the caller, who hands each reply back.

use vstd::prelude::*;
use crate::fields::string_views;
use crate::records::{observations, merged_from, parse_ap_list, sorted_aps, AccessPoint};
use crate::text::{
    chars_of, contains_chars, eq_ascii_nocase, eq_ignore_ascii_case, occurs_in, string_of, trim,
    trimmed_chars,
};

verus! {

/// Why a command gave no usable reply.
#[derive(Clone, Debug)]
pub enum NetError {
    /// The tool could not be started; carries the reason.
    SpawnFailed(String),
    /// The tool ran and reported failure; carries its diagnostic text.
    CommandFailed(String),
}

/// What a finished run of the tool left behind.
#[derive(Clone, Debug)]
pub struct CommandOutcome {
    pub status: i32,
    pub stdout: String,
    pub stderr: String,
}

/// Which list command a scan is issuing.
#[derive(Clone, Copy, Debug, PartialEq, Eq, Structural)]
pub enum ScanAttempt {
    /// The first command, which asks for a fresh rescan.
    WithRescan,
    /// The fallback for tool versions that lack the rescan directive.
    WithoutRescan,
}

/// What a scan does after a reply.
#[derive(Debug)]
pub enum ScanStep {
    /// Run the tool again with these arguments, then report with
    /// [`ScanAttempt::WithoutRescan`].
    Retry(Vec<String>),
    /// The scan is over.
    Finished(Result<Vec<AccessPoint>, NetError>),
}

/// The name of the network manager's command-line tool.
pub open spec fn tool_spec() -> Seq<char> {
    "nmcli"@
}

/// Arguments of the radio state query.
pub open spec fn radio_query_argv() -> Seq<Seq<char>> {
    seq!["-t"@, "-f"@, "WIFI"@, "g"@]
}

/// Arguments that switch the radio on or off.
pub open spec fn radio_switch_argv(enable: bool) -> Seq<Seq<char>> {
    seq!["radio"@, "wifi"@, if enable { "on"@ } else { "off"@ }]
}

/// Arguments of the access-point list command, with or without the rescan directive.
pub open spec fn list_argv(attempt: ScanAttempt) -> Seq<Seq<char>> {
    let base = seq!["-t"@, "-f"@, "IN-USE,SSID,SECURITY,SIGNAL"@, "dev"@, "wifi"@, "list"@];
    match attempt {
        ScanAttempt::WithRescan => base + seq!["--rescan"@, "auto"@],
        ScanAttempt::WithoutRescan => base,
    }
}

/// The diagnostic of a failed run: the trimmed error output, or a generic
/// message naming the program when that is empty.
pub open spec fn failure_message(program: Seq<char>, stderr: Seq<char>) -> Seq<char> {
    if trim(stderr).len() == 0 {
        program + " returned a failure status."@
    } else {
        trim(stderr)
    }
}

/// Whether a radio state reply says that the radio is on.
pub open spec fn radio_enabled_of(reply: Seq<char>) -> bool {
    eq_ascii_nocase(trim(reply), "enabled"@)
}

/// Whether a failure says that the tool does not know the rescan directive.
pub open spec fn mentions_rescan(e: NetError) -> bool {
    match e {
        NetError::CommandFailed(m) => occurs_in("rescan"@, m@),
        NetError::SpawnFailed(_) => false,
    }
}

/// Whether a failed list command is issued again without the rescan directive.
pub open spec fn retries(attempt: ScanAttempt, e: NetError) -> bool {
    attempt == ScanAttempt::WithRescan && mentions_rescan(e)
}

fn owned(s: &str) -> (r: String)
    ensures
        r@ == s@,
{
    string_of(&chars_of(s))
}

/// The name of the tool to run.
pub fn tool() -> (r: &'static str)
    ensures
        r@ == tool_spec(),
{
    "nmcli"
}

/// The arguments of the radio state query.
pub fn radio_query_args() -> (r: Vec<String>)
    ensures
        string_views(r@) == radio_query_argv(),
{
    let r = vec![owned("-t"), owned("-f"), owned("WIFI"), owned("g")];
    assert(string_views(r@) =~= radio_query_argv());
    r
}

/// The arguments that switch the radio on or off.
pub fn radio_switch_args(enable: bool) -> (r: Vec<String>)
    ensures
        string_views(r@) == radio_switch_argv(enable),
{
    let onoff = if enable { owned("on") } else { owned("off") };
    let r = vec![owned("radio"), owned("wifi"), onoff];
    assert(string_views(r@) =~= radio_switch_argv(enable));
    r
}

/// The arguments of the list command for an attempt.
pub fn scan_args(attempt: ScanAttempt) -> (r: Vec<String>)
    ensures
        string_views(r@) == list_argv(attempt),
{
    let mut r = vec![
        owned("-t"),
        owned("-f"),
        owned("IN-USE,SSID,SECURITY,SIGNAL"),
        owned("dev"),
        owned("wifi"),
        owned("list"),
    ];
    match attempt {
        ScanAttempt::WithRescan => {
            r.push(owned("--rescan"));
            r.push(owned("auto"));
        },
        ScanAttempt::WithoutRescan => {},
    }
    assert(string_views(r@) =~= list_argv(attempt));
    r
}

/// Turns a finished run of `program` into its reply: the standard output
/// on exit status 0, else a failure carrying the diagnostic.
pub fn command_reply(program: &str, outcome: CommandOutcome) -> (r: Result<String, NetError>)
    ensures
        outcome.status == 0 ==> (r matches Ok(out) && out@ == outcome.stdout@),
        outcome.status != 0 ==> (r matches Err(NetError::CommandFailed(m)) && m@ == failure_message(
            program@,
            outcome.stderr@,
        )),
{
    if outcome.status == 0 {
        return Ok(outcome.stdout);
    }
    let err = trimmed_chars(outcome.stderr.as_str());
    if err.len() == 0 {
        let mut msg = chars_of(program);
        let mut tail = chars_of(" returned a failure status.");
        msg.append(&mut tail);
        Err(NetError::CommandFailed(string_of(&msg)))
    } else {
        Err(NetError::CommandFailed(string_of(&err)))
    }
}

/// Interprets the reply of the radio state query: the radio is on when the
/// trimmed reply is "enabled" in any ASCII case; a failure is passed on.
pub fn wifi_enabled(reply: Result<String, NetError>) -> (r: Result<bool, NetError>)
    ensures
        match reply {
            Ok(t) => r == Ok::<bool, NetError>(radio_enabled_of(t@)),
            Err(e) => r == Err::<bool, NetError>(e),
        },
{
    match reply {
        Ok(t) => {
            let v = trimmed_chars(t.as_str());
            Ok(eq_ignore_ascii_case(&v, &chars_of("enabled")))
        },
        Err(e) => Err(e),
    }
}

/// Interprets the reply of a radio switch: any successful run succeeds; a
/// failure is passed on unchanged.
pub fn set_wifi_enabled(reply: Result<String, NetError>) -> (r: Result<(), NetError>)
    ensures
        match reply {
            Ok(_) => r == Ok::<(), NetError>(()),
            Err(e) => r == Err::<(), NetError>(e),
        },
{
    match reply {
        Ok(_) => Ok(()),
        Err(e) => Err(e),
    }
}

/// Whether a failure says that the rescan directive is unknown.
pub fn is_rescan_failure(e: &NetError) -> (r: bool)
    ensures
        r == mentions_rescan(*e),
{
    match e {
        NetError::CommandFailed(m) => {
            let kw = chars_of("rescan");
            contains_chars(&chars_of(m.as_str()), &kw)
        },
        NetError::SpawnFailed(_) => false,
    }
}

/// Decides what a scan does with the reply to `attempt`: a listing becomes
/// the ordered records; a failure of the first attempt that mentions the
/// rescan directive asks for one more run without it; any other failure
/// ends the scan.
pub fn scan_access_points(attempt: ScanAttempt, reply: Result<String, NetError>) -> (r: ScanStep)
    ensures
        match reply {
            Ok(t) => (r matches ScanStep::Finished(Ok(aps)) && merged_from(aps@, observations(t@))
                && sorted_aps(aps@)),
            Err(e) => if retries(attempt, e) {
                (r matches ScanStep::Retry(args) && string_views(args@) == list_argv(
                    ScanAttempt::WithoutRescan,
                ))
            } else {
                r == ScanStep::Finished(Err(e))
            },
        },
{
    match reply {
        Ok(t) => ScanStep::Finished(Ok(parse_ap_list(t.as_str()))),
        Err(e) => {
            let again = match attempt {
                ScanAttempt::WithRescan => is_rescan_failure(&e),
                ScanAttempt::WithoutRescan => false,
            };
            if again {
                ScanStep::Retry(scan_args(ScanAttempt::WithoutRescan))
            } else {
                ScanStep::Finished(Err(e))
            }
        },
    }
}

/// A scan retries at most once: the fallback attempt never retries, and the
/// first attempt retries exactly on a failure that mentions the rescan
/// directive.
pub proof fn lemma_retry_at_most_once(e: NetError)
    ensures
        !retries(ScanAttempt::WithoutRescan, e),
        retries(ScanAttempt::WithRescan, e) <==> mentions_rescan(e),
        list_argv(ScanAttempt::WithoutRescan) == list_argv(ScanAttempt::WithRescan).subrange(0, 6),
{
    assert(list_argv(ScanAttempt::WithoutRescan) =~= list_argv(ScanAttempt::WithRescan).subrange(0, 6));
}

/// The radio state read from a reply depends on the reply text alone, so
/// two queries that get the same reply report the same state.
pub proof fn lemma_radio_query_repeatable(a: Seq<char>, b: Seq<char>)
    requires
        a == b,
    ensures
        radio_enabled_of(a) == radio_enabled_of(b),
{
}

} // verus!
