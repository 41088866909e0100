use vstd::prelude::*;
use crate::index::{
    build_index, config_name, entries_closed, entries_sorted, first2, has_entry, is_first_dir, listed, resolves,
    tree_items, Index, IndexTree,
};
use crate::object::{append, blob_id, object_id, CommitUserInfo, PackFileEntry};
use crate::pktline::CodecError;
use crate::protocol::{
    advertise, advertisement, organisation_of, parse_exec, respond, shell_split, ExecError,
    Protocol, RespondError, Step,
};

verus! {

/// `\r\nNo organisation was given in the path part of the SSH URI. A chartered registry should be defined in your .cargo/config.toml as follows:\r\n    [registries]\r\n    chartered = { index = "ssh://domain.to.registry.com/my-organisation" }\r\n`
pub open spec fn missing_org_message() -> Seq<u8> {
    seq![13u8, 10, 78, 111, 32, 111, 114, 103, 97, 110, 105, 115, 97, 116, 105, 111, 110, 32, 119, 97, 115, 32, 103, 105, 118, 101, 110, 32, 105, 110, 32, 116, 104, 101, 32, 112, 97, 116, 104, 32, 112, 97, 114, 116, 32, 111, 102, 32, 116, 104, 101, 32, 83, 83, 72, 32, 85, 82, 73, 46, 32, 65, 32, 99, 104, 97, 114, 116, 101, 114, 101, 100, 32, 114, 101, 103, 105, 115, 116, 114, 121, 32, 115, 104, 111, 117, 108, 100, 32, 98, 101, 32, 100, 101, 102, 105, 110, 101, 100, 32, 105, 110, 32, 121, 111, 117, 114, 32, 46, 99, 97, 114, 103, 111, 47, 99, 111, 110, 102, 105, 103, 46, 116, 111, 109, 108, 32, 97, 115, 32, 102, 111, 108, 108, 111, 119, 115, 58, 13, 10, 32, 32, 32, 32, 91, 114, 101, 103, 105, 115, 116, 114, 105, 101, 115, 93, 13, 10, 32, 32, 32, 32, 99, 104, 97, 114, 116, 101, 114, 101, 100, 32, 61, 32, 123, 32, 105, 110, 100, 101, 120, 32, 61, 32, 34, 115, 115, 104, 58, 47, 47, 100, 111, 109, 97, 105, 110, 46, 116, 111, 46, 114, 101, 103, 105, 115, 116, 114, 121, 46, 99, 111, 109, 47, 109, 121, 45, 111, 114, 103, 97, 110, 105, 115, 97, 116, 105, 111, 110, 34, 32, 125, 13, 10]
}

/// `Hi there, `
pub open spec fn shell_greeting() -> Seq<u8> {
    seq![72u8, 105, 32, 116, 104, 101, 114, 101, 44, 32]
}

/// `! You've successfully authenticated, but chartered does not provide shell access.\r\n`
pub open spec fn shell_refusal() -> Seq<u8> {
    seq![33u8, 32, 89, 111, 117, 39, 118, 101, 32, 115, 117, 99, 99, 101, 115, 115, 102, 117, 108, 108, 121, 32, 97, 117, 116, 104, 101, 110, 116, 105, 99, 97, 116, 101, 100, 44, 32, 98, 117, 116, 32, 99, 104, 97, 114, 116, 101, 114, 101, 100, 32, 100, 111, 101, 115, 32, 110, 111, 116, 32, 112, 114, 111, 118, 105, 100, 101, 32, 115, 104, 101, 108, 108, 32, 97, 99, 99, 101, 115, 115, 46, 13, 10]
}

/// `chartered`
pub open spec fn identity_name() -> Seq<u8> {
    seq![99u8, 104, 97, 114, 116, 101, 114, 101, 100]
}

/// `chartered@localhost`
pub open spec fn identity_email() -> Seq<u8> {
    seq![99u8, 104, 97, 114, 116, 101, 114, 101, 100, 64, 108, 111, 99, 97, 108, 104, 111, 115, 116]
}

/// `Most recent crates`
pub open spec fn commit_message() -> Seq<u8> {
    seq![77u8, 111, 115, 116, 32, 114, 101, 99, 101, 110, 116, 32, 99, 114, 97, 116, 101, 115]
}


/// Whether `y` is a leap year of the Gregorian calendar.
pub open spec fn is_leap(y: int) -> bool {
    (y % 4 == 0 && y % 100 != 0) || y % 400 == 0
}

/// The number of leap years from year 1 up to, not including, `y >= 1`.
pub open spec fn leaps_before(y: int) -> int {
    (y - 1) / 4 - (y - 1) / 100 + (y - 1) / 400
}

pub open spec fn days_in_month(y: int, m: int) -> int {
    if m == 2 {
        if is_leap(y) {
            29
        } else {
            28
        }
    } else if m == 4 || m == 6 || m == 9 || m == 11 {
        30
    } else {
        31
    }
}

/// Days of year `y` before the first of month `m`.
pub open spec fn days_before_month(y: int, m: int) -> int {
    let base: int = if m == 1 {
        0
    } else if m == 2 {
        31
    } else if m == 3 {
        59
    } else if m == 4 {
        90
    } else if m == 5 {
        120
    } else if m == 6 {
        151
    } else if m == 7 {
        181
    } else if m == 8 {
        212
    } else if m == 9 {
        243
    } else if m == 10 {
        273
    } else if m == 11 {
        304
    } else {
        334
    };
    base + if m > 2 && is_leap(y) {
        1int
    } else {
        0int
    }
}

/// A date and time of the Gregorian calendar from 1970 to 9999.
pub open spec fn valid_datetime(y: int, m: int, d: int, h: int, mi: int, s: int) -> bool {
    &&& 1970 <= y <= 9999
    &&& 1 <= m <= 12
    &&& 1 <= d <= days_in_month(y, m)
    &&& 0 <= h < 24
    &&& 0 <= mi < 60
    &&& 0 <= s < 60
}

/// Seconds since the Unix epoch of a date and time in UTC, from 1970 on.
pub open spec fn unix_seconds(y: int, m: int, d: int, h: int, mi: int, s: int) -> int {
    (365 * (y - 1970) + leaps_before(y) - leaps_before(1970) + days_before_month(y, m) + d - 1)
        * 86400 + h * 3600 + mi * 60 + s
}

/// Relies on chrono's `TimeZone::with_ymd_and_hms` for `Utc` (with
/// `single`, which is `Some` for every valid date in UTC) and
/// `DateTime::timestamp`: the Unix time of a date and time in UTC.
#[verifier::external_body]
fn utc_timestamp(year: i32, month: u32, day: u32, hour: u32, min: u32, sec: u32) -> (r: Option<i64>)
    ensures
        valid_datetime(year as int, month as int, day as int, hour as int, min as int, sec as int)
            ==> r == Some(
            unix_seconds(year as int, month as int, day as int, hour as int, min as int, sec as int)
                as i64,
        ),
{
    match chrono::TimeZone::with_ymd_and_hms(&chrono::Utc, year, month, day, hour, min, sec).single() {
        Some(d) => Some(d.timestamp()),
        None => None,
    }
}

/// The author and committer of every synthesised commit, dated
/// 2021-09-08 17:46:01 UTC.
pub fn commit_identity() -> (r: CommitUserInfo)
    ensures
        r.name@ == identity_name(),
        r.email@ == identity_email(),
        r.time == 1631123161,
{
    proof {
        assert(valid_datetime(2021, 9, 8, 17, 46, 1));
        assert(unix_seconds(2021, 9, 8, 17, 46, 1) == 1631123161);
    }
    let t: i64 = match utc_timestamp(2021, 9, 8, 17, 46, 1) {
        Some(t) => t,
        None => 1631123161,
    };
    let name: Vec<u8> = vec![99u8, 104, 97, 114, 116, 101, 114, 101, 100];
    let email: Vec<u8> = vec![99u8, 104, 97, 114, 116, 101, 114, 101, 100, 64, 108, 111, 99, 97, 108, 104, 111, 115, 116];
    CommitUserInfo { name, email, time: t as u64 }
}

/// Builds the repository of `tree` with the fixed identity and message.
pub fn build_repository(config: Vec<u8>, tree: &IndexTree) -> (r: Index)
    requires
        tree.wf(),
    ensures
        ({
            let ix = r;
            &&& ix.entries@.len() >= 3
            &&& ix.entries@[0] matches PackFileEntry::Blob(b) && b@ == config@
            &&& entries_sorted(ix.entries@)
            &&& entries_closed(ix.entries@)
            &&& ix.commit_hash@ == object_id(ix.entries@.last())
            &&& ix.entries@.last() matches PackFileEntry::Commit(c) && c.tree@ == object_id(
                ix.entries@[ix.entries@.len() - 2],
            ) && c.message@ == commit_message() && c.author.name@ == identity_name()
                && c.author.email@ == identity_email() && c.author.time == 1631123161
                && c.committer.name@ == identity_name() && c.committer.email@ == identity_email()
                && c.committer.time == 1631123161
            &&& has_entry(tree_items(ix.entries@[ix.entries@.len() - 2]), config_name())
            &&& forall|m: int|
                0 <= m < tree_items(ix.entries@[ix.entries@.len() - 2]).len() ==> (
                #[trigger] tree_items(ix.entries@[ix.entries@.len() - 2])[m]).name@ == config_name()
                    || is_first_dir(tree, tree_items(ix.entries@[ix.entries@.len() - 2])[m].name@)
            &&& forall|j: int|
                0 <= j < tree.crates().len() ==> has_entry(
                    tree_items(ix.entries@[ix.entries@.len() - 2]),
                    first2(#[trigger] tree.crates()[j].name@),
                )
            &&& forall|j: int|
                0 <= j < tree.crates().len() ==> listed(
                    ix.entries@,
                    (#[trigger] tree.crates()[j]).name@,
                    blob_id(tree.crates()[j].file@),
                )
            &&& forall|j: int|
                0 <= j < tree.crates().len() ==> resolves(
                    ix.entries@,
                    tree_items(ix.entries@[ix.entries@.len() - 2]),
                    (#[trigger] tree.crates()[j]).name@,
                    blob_id(tree.crates()[j].file@),
                )
        }),
{
    let author = commit_identity();
    let committer = commit_identity();
    let message: Vec<u8> = vec![77u8, 111, 115, 116, 32, 114, 101, 99, 101, 110, 116, 32, 99, 114, 97, 116, 101, 115];
    build_index(config, tree, author, committer, message)
}

/// The answer to an authentication attempt.
#[derive(Debug, Clone, Copy, PartialEq, Eq, Structural)]
pub enum Auth {
    Accept,
    Reject,
    UnsupportedMethod,
}

/// Who authenticated, as the registry knows them.
pub struct LoggedIn {
    pub user_id: i32,
    pub username: Vec<u8>,
    pub ssh_key_id: i32,
}

/// What to do with an exec request.
pub enum ExecOutcome {
    /// Serve it: the capability advertisement is in the output buffer.
    Serve,
    /// Send this on the extended-data (stderr) stream and close the channel.
    Refuse(Vec<u8>),
    /// Close the channel without a word.
    Close,
}

/// The state of one SSH connection.
pub struct Handler {
    /// The client's address, as text, where known.
    pub ip: Option<Vec<u8>>,
    pub user: Option<LoggedIn>,
    pub organisation: Option<Vec<u8>>,
    pub protocol: Protocol,
    /// Bytes waiting to be sent on the channel.
    pub output: Vec<u8>,
}

impl Handler {
    /// A connection that has not authenticated yet.
    pub fn new(ip: Option<Vec<u8>>) -> (r: Handler)
        ensures
            r.ip == ip,
            r.user is None,
            r.organisation is None,
            r.output@.len() == 0,
            r.protocol.input@.len() == 0,
    {
        Handler { ip, user: None, organisation: None, protocol: Protocol::new(), output: Vec::new() }
    }

    /// A public key was offered; `found` is what the registry holds for it.
    /// An unknown key is rejected and nothing is kept.
    pub fn auth_publickey(&mut self, found: Option<LoggedIn>) -> (r: Auth)
        ensures
            found is None ==> r == Auth::Reject && *final(self) == *old(self),
            found is Some ==> r == Auth::Accept && final(self).user == found && final(self).ip
                == old(self).ip && final(self).organisation == old(self).organisation,
    {
        match found {
            None => Auth::Reject,
            Some(u) => {
                self.user = Some(u);
                Auth::Accept
            },
        }
    }

    /// Passwords, keyboard-interactive and `none` are not offered.
    pub fn auth_other(&self) -> (r: Auth)
        ensures
            r == Auth::UnsupportedMethod,
    {
        Auth::UnsupportedMethod
    }

    /// The message for a shell request, which is always refused; `None`
    /// before authentication.
    pub fn shell_request(&self) -> (r: Option<Vec<u8>>)
        ensures
            self.user matches Some(u) ==> (r matches Some(m) && m@ == shell_greeting()
                + u.username@ + shell_refusal()),
            self.user is None ==> r is None,
    {
        match &self.user {
            None => None,
            Some(u) => {
                let mut m: Vec<u8> = Vec::new();
                append(&mut m, &[72u8, 105, 32, 116, 104, 101, 114, 101, 44, 32]);
                append(&mut m, u.username.as_slice());
                append(&mut m, &[33u8, 32, 89, 111, 117, 39, 118, 101, 32, 115, 117, 99, 99, 101, 115, 115, 102, 117, 108, 108, 121, 32, 97, 117, 116, 104, 101, 110, 116, 105, 99, 97, 116, 101, 100, 44, 32, 98, 117, 116, 32, 99, 104, 97, 114, 116, 101, 114, 101, 100, 32, 100, 111, 101, 115, 32, 110, 111, 116, 32, 112, 114, 111, 118, 105, 100, 101, 32, 115, 104, 101, 108, 108, 32, 97, 99, 99, 101, 115, 115, 46, 13, 10]);
                assert(m@ =~= shell_greeting() + u.username@ + shell_refusal());
                Some(m)
            },
        }
    }

    /// Handles an exec request: `git-upload-pack <organisation>` is served,
    /// a missing organisation is explained on stderr, anything else (a
    /// command line that is not UTF-8 too) closes the channel. A refused
    /// request leaves the organisation as it was.
    pub fn exec_request(&mut self, data: &[u8]) -> (r: ExecOutcome)
        ensures
            !vstd::utf8::valid_utf8(data@) ==> r is Close && final(self).output@ == old(self).output@,
            vstd::utf8::valid_utf8(data@) ==> match shell_split(data@) {
                Some(ws) => match organisation_of(ws) {
                    Ok(o) => r is Serve && final(self).output@ == old(self).output@ + advertisement()
                        && (final(self).organisation matches Some(v) && v@ == o),
                    Err(ExecError::BadPath) => final(self).output@ == old(self).output@ && (
                    r matches ExecOutcome::Refuse(m) && m@ == missing_org_message()),
                    Err(ExecError::BadExec) => r is Close && final(self).output@ == old(
                        self,
                    ).output@,
                },
                None => r is Close && final(self).output@ == old(self).output@,
            },
            !(r is Serve) ==> final(self).organisation == old(self).organisation,
            final(self).user == old(self).user,
            final(self).ip == old(self).ip,
            final(self).protocol == old(self).protocol,
    {
        match parse_exec(data) {
            Ok(org) => {
                self.organisation = Some(org);
                advertise(&mut self.output);
                ExecOutcome::Serve
            },
            Err(ExecError::BadPath) => {
                let m: Vec<u8> = vec![13u8, 10, 78, 111, 32, 111, 114, 103, 97, 110, 105, 115, 97, 116, 105, 111, 110, 32, 119, 97, 115, 32, 103, 105, 118, 101, 110, 32, 105, 110, 32, 116, 104, 101, 32, 112, 97, 116, 104, 32, 112, 97, 114, 116, 32, 111, 102, 32, 116, 104, 101, 32, 83, 83, 72, 32, 85, 82, 73, 46, 32, 65, 32, 99, 104, 97, 114, 116, 101, 114, 101, 100, 32, 114, 101, 103, 105, 115, 116, 114, 121, 32, 115, 104, 111, 117, 108, 100, 32, 98, 101, 32, 100, 101, 102, 105, 110, 101, 100, 32, 105, 110, 32, 121, 111, 117, 114, 32, 46, 99, 97, 114, 103, 111, 47, 99, 111, 110, 102, 105, 103, 46, 116, 111, 109, 108, 32, 97, 115, 32, 102, 111, 108, 108, 111, 119, 115, 58, 13, 10, 32, 32, 32, 32, 91, 114, 101, 103, 105, 115, 116, 114, 105, 101, 115, 93, 13, 10, 32, 32, 32, 32, 99, 104, 97, 114, 116, 101, 114, 101, 100, 32, 61, 32, 123, 32, 105, 110, 100, 101, 120, 32, 61, 32, 34, 115, 115, 104, 58, 47, 47, 100, 111, 109, 97, 105, 110, 46, 116, 111, 46, 114, 101, 103, 105, 115, 116, 114, 121, 46, 99, 111, 109, 47, 109, 121, 45, 111, 114, 103, 97, 110, 105, 115, 97, 116, 105, 111, 110, 34, 32, 125, 13, 10];
                ExecOutcome::Refuse(m)
            },
            Err(ExecError::BadExec) => ExecOutcome::Close,
        }
    }

    /// Takes in channel data; see `Protocol::receive`.
    pub fn data(&mut self, data: &[u8]) -> (r: Result<Step, CodecError>)
        ensures
            final(self).user == old(self).user,
            final(self).organisation == old(self).organisation,
            final(self).output == old(self).output,
            final(self).protocol.state == crate::protocol::run(
                old(self).protocol.state,
                old(self).protocol.input@ + data@,
            ).0,
            final(self).protocol.input@ == crate::protocol::run(
                old(self).protocol.state,
                old(self).protocol.input@ + data@,
            ).1,
            match crate::protocol::run(old(self).protocol.state, old(self).protocol.input@ + data@).2 {
                Err(()) => r == Err::<Step, CodecError>(CodecError::ProtocolAbuse),
                Ok(step) => r == Ok::<Step, CodecError>(step),
            },
    {
        self.protocol.receive(data)
    }

    /// Writes the answers to the pending requests into the output buffer.
    /// Gives whether the channel is to be closed once they are sent (exit
    /// status 0, end of file, close): after a packfile it is, and when `close`
    /// (from `Step::Respond`) asks for it.
    pub fn respond(&mut self, ls_refs: bool, fetch: bool, close: bool, index: Index) -> (r: Result<
        bool,
        RespondError,
    >)
        ensures
            ({
                let after_ls = if ls_refs {
                    old(self).output@ + crate::protocol::ls_refs_answer(index.commit_hash@)
                } else {
                    old(self).output@
                };
                &&& r is Ok ==> final(self).output@ == if fetch {
                    after_ls + crate::protocol::fetch_answer(
                        crate::packfile::pack_bytes(index.entries@),
                    )
                } else {
                    after_ls
                }
                &&& r is Ok <==> !fetch || index.entries@.len() < 0x1_0000_0000
                &&& r is Err ==> final(self).output@ == after_ls
                &&& r matches Ok(c) ==> c == (fetch || close)
            }),
            final(self).user == old(self).user,
            final(self).organisation == old(self).organisation,
            final(self).protocol == old(self).protocol,
    {
        match respond(ls_refs, fetch, index, &mut self.output) {
            Ok(()) => Ok(fetch || close),
            Err(e) => Err(e),
        }
    }

    /// Hands over the bytes waiting to be sent, leaving none.
    pub fn flush(&mut self) -> (r: Vec<u8>)
        ensures
            r@ == old(self).output@,
            final(self).output@.len() == 0,
            final(self).protocol == old(self).protocol,
            final(self).user == old(self).user,
            final(self).organisation == old(self).organisation,
    {
        let mut out: Vec<u8> = Vec::new();
        std::mem::swap(&mut out, &mut self.output);
        out
    }
}

} // verus!
