//! Decisions around the Windows services: which failures of the service
//! manager count as success, what is reported about a service's state, and
//! whether TCP timestamps must be switched on.
use vstd::prelude::*;
use vstd::string::*;
use crate::paths::concat_str;
use crate::text::{first_match_from, contains_seq, contains_str, lemma_split_concat, lemma_split_nonempty, lowercase_of, split_seq, split_str, to_lowercase};

verus! {

/// The name of the bypass service.
pub const SRVCNAME: &'static str = "zapret-rust";

/// Windows error: the service does not exist.
pub const ERROR_SERVICE_DOES_NOT_EXIST: i32 = 1060;

/// Windows error: the service has not been started.
pub const ERROR_SERVICE_NOT_ACTIVE: i32 = 1062;

/// Windows error: the service has been marked for deletion.
pub const ERROR_SERVICE_MARKED_FOR_DELETE: i32 = 1072;

/// The state of a Windows service.
#[derive(Debug, Clone, Copy, PartialEq, Eq, Structural)]
pub enum ServiceState {
    Stopped,
    StartPending,
    StopPending,
    Running,
    ContinuePending,
    PausePending,
    Paused,
}

/// A failure of the service manager: a Windows API error with its code,
/// when it has one, or any other failure.
#[derive(Debug, Clone, Copy, PartialEq, Eq, Structural)]
pub enum ServiceError {
    Winapi(Option<i32>),
    Other,
}

/// The failure says that the service does not exist.
pub open spec fn is_missing_service_spec(e: ServiceError) -> bool {
    e == ServiceError::Winapi(Some(ERROR_SERVICE_DOES_NOT_EXIST))
}

/// Whether the failure says that the service does not exist: opening a
/// service to delete it, or to read its state, then counts as done.
pub fn is_missing_service(e: ServiceError) -> (r: bool)
    ensures
        r == is_missing_service_spec(e),
{
    match e {
        ServiceError::Winapi(Some(code)) => code == ERROR_SERVICE_DOES_NOT_EXIST,
        _ => false,
    }
}

/// Whether the failure of a deletion says that the service is already
/// marked for deletion: the deletion then counts as done, after a wait.
pub fn is_marked_for_delete(e: ServiceError) -> (r: bool)
    ensures
        r == (e == ServiceError::Winapi(Some(ERROR_SERVICE_MARKED_FOR_DELETE))),
{
    match e {
        ServiceError::Winapi(Some(code)) => code == ERROR_SERVICE_MARKED_FOR_DELETE,
        _ => false,
    }
}

/// The code to report when stopping the service before an installation
/// failed: a Windows API error is reported with its code (0 when it has
/// none), unless the service was not running or does not exist; other
/// failures are not reported.
pub fn stop_failure_report(e: ServiceError) -> (r: Option<i32>)
    ensures
        r == match e {
            ServiceError::Winapi(c) => {
                let code = match c {
                    Some(x) => x,
                    None => 0,
                };
                if code != ERROR_SERVICE_NOT_ACTIVE && code != ERROR_SERVICE_DOES_NOT_EXIST {
                    Some(code)
                } else {
                    None
                }
            },
            ServiceError::Other => None,
        },
{
    match e {
        ServiceError::Winapi(c) => {
            let code = match c {
                Some(x) => x,
                None => 0,
            };
            if code != ERROR_SERVICE_NOT_ACTIVE && code != ERROR_SERVICE_DOES_NOT_EXIST {
                Some(code)
            } else {
                None
            }
        },
        ServiceError::Other => None,
    }
}

/// Whether a filter driver service in this state must be stopped before it
/// is deleted.
pub fn driver_needs_stop(state: ServiceState) -> (r: bool)
    ensures
        r == (state == ServiceState::Running),
{
    match state {
        ServiceState::Running => true,
        _ => false,
    }
}

/// What is said about a service after its state was read.
#[derive(Debug, Clone, Copy, PartialEq, Eq, Structural)]
pub enum ServiceNotice {
    /// The service already runs, so nothing is installed over it.
    AlreadyRunning,
    Running,
    /// The service hangs while stopping.
    StopPending,
    NotRunning,
}

/// The notice for a service in `state` (`None` when it is not installed
/// or its state could not be read). In the soft check, made before an
/// installation, a running service stops the installation and a service
/// that does not run is not mentioned.
pub open spec fn service_notice_spec(state: Option<ServiceState>, soft: bool) -> Option<ServiceNotice> {
    match state {
        None => None,
        Some(ServiceState::Running) => if soft {
            Some(ServiceNotice::AlreadyRunning)
        } else {
            Some(ServiceNotice::Running)
        },
        Some(ServiceState::StopPending) => Some(ServiceNotice::StopPending),
        Some(_) => if soft {
            None
        } else {
            Some(ServiceNotice::NotRunning)
        },
    }
}

/// The notice for a service in `state`.
pub fn service_notice(state: Option<ServiceState>, soft: bool) -> (r: Option<ServiceNotice>)
    ensures
        r == service_notice_spec(state, soft),
{
    match state {
        None => None,
        Some(ServiceState::Running) => if soft {
            Some(ServiceNotice::AlreadyRunning)
        } else {
            Some(ServiceNotice::Running)
        },
        Some(ServiceState::StopPending) => Some(ServiceNotice::StopPending),
        Some(_) => if soft {
            None
        } else {
            Some(ServiceNotice::NotRunning)
        },
    }
}

/// The line printed for a notice about the service shown as `name`.
pub open spec fn notice_line_spec(name: Seq<char>, notice: ServiceNotice) -> Seq<char> {
    match notice {
        ServiceNotice::AlreadyRunning => "\""@ + name
            + "\" is ALREADY RUNNING as service, choose `Remove Services` first."@,
        ServiceNotice::Running => "\""@ + name + "\" service is RUNNING."@,
        ServiceNotice::StopPending => "\x1b[33m\""@ + name
            + "\" is STOP_PENDING, that may be caused by a conflict with another bypass.\x1b[0m"@,
        ServiceNotice::NotRunning => "\""@ + name + "\" service is NOT running."@,
    }
}

/// The line printed for a notice about the service shown as `name`.
pub fn notice_line(name: &str, notice: ServiceNotice) -> (r: String)
    ensures
        r@ == notice_line_spec(name@, notice),
{
    let (open, close) = match notice {
        ServiceNotice::AlreadyRunning => (
            "\"",
            "\" is ALREADY RUNNING as service, choose `Remove Services` first.",
        ),
        ServiceNotice::Running => ("\"", "\" service is RUNNING."),
        ServiceNotice::StopPending => (
            "\x1b[33m\"",
            "\" is STOP_PENDING, that may be caused by a conflict with another bypass.\x1b[0m",
        ),
        ServiceNotice::NotRunning => ("\"", "\" service is NOT running."),
    };
    let mut r = concat_str(open, name);
    r.append(close);
    r
}

/// The label shown in the menu for whether the tool's directory is on the PATH.
pub fn path_status_label(in_path: bool) -> (r: &'static str)
    ensures
        in_path ==> r@ == "IN PATH"@,
        !in_path ==> r@ == "NOT IN PATH"@,
{
    if in_path {
        "IN PATH"
    } else {
        "NOT IN PATH"
    }
}

/// A piece of text without one closing carriage return.
pub open spec fn strip_cr(x: Seq<char>) -> Seq<char> {
    if x.len() > 0 && x.last() == '\r' {
        x.drop_last()
    } else {
        x
    }
}

/// The lines of a text as `str::lines` yields them: cut at each `\n`, a
/// line that ended in `\r\n` loses the `\r`, and a final empty piece after
/// the last `\n` is no line.
pub open spec fn lines_seq(s: Seq<char>) -> Seq<Seq<char>> {
    let p = split_seq(s, "\n"@);
    let n = if p.last().len() == 0 {
        p.len() - 1
    } else {
        p.len() as int
    };
    Seq::new(n as nat, |i: int| if i < p.len() - 1 { strip_cr(p[i]) } else { p[i] })
}

/// A line, already lowercased, that reports TCP timestamps as enabled.
pub open spec fn reports_timestamps_enabled(lowered: Seq<char>) -> bool {
    contains_seq(lowered, "timestamps"@) && contains_seq(lowered, "enabled"@)
}

/// Some line of the output of `netsh interface tcp show global`, lowercased,
/// reports TCP timestamps as enabled.
pub open spec fn timestamps_enabled_spec(output: Seq<char>) -> bool {
    let l = lines_seq(output);
    exists|i: int| 0 <= i < l.len() && reports_timestamps_enabled(lowercase_of(#[trigger] l[i]))
}

/// Whether the lowercased line `lowered` reports TCP timestamps as enabled.
pub fn line_reports_timestamps(lowered: &str) -> (r: bool)
    ensures
        r == reports_timestamps_enabled(lowered@),
{
    contains_str(lowered, "timestamps") && contains_str(lowered, "enabled")
}

/// `piece` without one closing carriage return.
fn strip_cr_str(piece: &str) -> (r: &str)
    ensures
        r@ == strip_cr(piece@),
{
    let n = piece.unicode_len();
    if n > 0 && piece.get_char(n - 1) == '\r' {
        piece.substring_char(0, n - 1)
    } else {
        piece
    }
}

/// Whether the output of `netsh interface tcp show global` shows TCP
/// timestamps as enabled.
pub fn timestamps_enabled(output: &str) -> (r: bool)
    ensures
        r == timestamps_enabled_spec(output@),
{
    proof {
        reveal_strlit("\n");
    }
    let pieces = split_str(output, "\n");
    let ghost p = pieces.deep_view();
    let ghost l = lines_seq(output@);
    proof {
        crate::text::lemma_split_nonempty(output@, "\n"@);
    }
    let n = pieces.len();
    let count = if pieces[n - 1].unicode_len() == 0 {
        n - 1
    } else {
        n
    };
    assert(count == l.len());
    let mut i: usize = 0;
    while i < count
        invariant
            p == pieces.deep_view(),
            p == split_seq(output@, "\n"@),
            l == lines_seq(output@),
            n == p.len(),
            count == l.len(),
            count <= n,
            i <= count,
            forall|k: int| 0 <= k < i ==> !reports_timestamps_enabled(lowercase_of(#[trigger] l[k])),
        decreases count - i,
    {
        assert(p[i as int] == pieces@[i as int]@);
        assert(l[i as int] == (if i < p.len() - 1 { strip_cr(p[i as int]) } else { p[i as int] }));
        let line = if i < n - 1 {
            strip_cr_str(pieces[i].as_str())
        } else {
            pieces[i].as_str()
        };
        assert(line@ == l[i as int]);
        let lowered = to_lowercase(line);
        if line_reports_timestamps(lowered.as_str()) {
            return true;
        }
        i = i + 1;
    }
    false
}

/// Whether TCP timestamps must be switched on: when showing the settings
/// failed, or when they do not show timestamps as enabled.
pub fn tcp_start_needed(shown: bool, output: &str) -> (r: bool)
    ensures
        r == (!shown || !timestamps_enabled_spec(output@)),
{
    if !shown {
        return true;
    }
    !timestamps_enabled(output)
}


/// A line at any position that, lowercased, holds both `timestamps` and
/// `enabled` makes the output count as enabled.
pub proof fn law_reporting_line_enables(output: Seq<char>, i: int)
    requires
        0 <= i < lines_seq(output).len(),
        reports_timestamps_enabled(lowercase_of(lines_seq(output)[i])),
    ensures
        timestamps_enabled_spec(output),
{
}

/// Without such a line the output does not count as enabled.
pub proof fn law_no_reporting_line(output: Seq<char>)
    requires
        forall|i: int|
            0 <= i < lines_seq(output).len() ==> !reports_timestamps_enabled(
                lowercase_of(#[trigger] lines_seq(output)[i]),
            ),
    ensures
        !timestamps_enabled_spec(output),
{
}

/// The lines of a text that ends a line are kept, in front, when more text follows.
pub proof fn lemma_lines_prefix(output: Seq<char>, more: Seq<char>)
    requires
        output.len() > 0,
        output.last() == '\n',
    ensures
        lines_seq(output).len() <= lines_seq(output + more).len(),
        forall|i: int|
            0 <= i < lines_seq(output).len() ==> #[trigger] lines_seq(output + more)[i] == lines_seq(
                output,
            )[i],
{
    reveal_strlit("\n");
    let x = output.drop_last();
    let nl = "\n"@;
    assert(output =~= x + nl + Seq::<char>::empty());
    assert(output + more =~= x + nl + more);
    lemma_split_concat(x, nl, Seq::<char>::empty());
    lemma_split_concat(x, nl, more);
    lemma_split_nonempty(Seq::<char>::empty(), nl);
    lemma_split_nonempty(more, nl);
    let sx = split_seq(x, nl);
    assert(split_seq(Seq::<char>::empty(), nl) == seq![Seq::<char>::empty()]) by {
        assert(first_match_from(Seq::<char>::empty(), nl, 0) is None);
    }
    let p = split_seq(output, nl);
    let q = split_seq(output + more, nl);
    assert(p == sx + seq![Seq::<char>::empty()]);
    assert(p.last() == Seq::<char>::empty());
    assert(lines_seq(output).len() == sx.len());
    assert forall|i: int| 0 <= i < lines_seq(output).len() implies #[trigger] lines_seq(output + more)[i]
        == lines_seq(output)[i] by {
        assert(p[i] == sx[i]);
        assert(q[i] == sx[i]);
    }
}

/// Appending more output after a complete line keeps an enabled output enabled.
pub proof fn law_more_lines_keep_enabled(output: Seq<char>, more: Seq<char>)
    requires
        output.len() > 0,
        output.last() == '\n',
        timestamps_enabled_spec(output),
    ensures
        timestamps_enabled_spec(output + more),
{
    lemma_lines_prefix(output, more);
    let l = lines_seq(output);
    let i = choose|i: int| 0 <= i < l.len() && reports_timestamps_enabled(lowercase_of(#[trigger] l[i]));
    assert(lines_seq(output + more)[i] == l[i]);
}

/// The notices for each state: a running service is reported as running,
/// or as already running in the soft check; a service stopping is reported
/// as stopping in both checks; a service in any other state is reported as
/// not running in the full check and not mentioned in the soft one; an
/// unknown service is not mentioned.
pub proof fn law_notice_for_state(s: ServiceState)
    ensures
        service_notice_spec(None, true) is None,
        service_notice_spec(None, false) is None,
        s == ServiceState::Running ==> service_notice_spec(Some(s), false) == Some(ServiceNotice::Running)
            && service_notice_spec(Some(s), true) == Some(ServiceNotice::AlreadyRunning),
        s == ServiceState::StopPending ==> service_notice_spec(Some(s), false) == Some(
            ServiceNotice::StopPending,
        ) && service_notice_spec(Some(s), true) == Some(ServiceNotice::StopPending),
        s != ServiceState::Running && s != ServiceState::StopPending ==> service_notice_spec(
            Some(s),
            false,
        ) == Some(ServiceNotice::NotRunning) && service_notice_spec(Some(s), true) is None,
{
}

} // verus!
