use vstd::prelude::*;
use crate::index::{compare_bytes, Index};
use crate::object::{append, hex_encode, hex_lower};
use crate::packfile::{pack_bytes, PackFile};
use crate::pktline::{
    decode_frame, frame_spec, pkt, push_frame, push_sideband_data, sideband_frames, CodecError,
    Frame, FrameView, MAX_PAYLOAD_LEN,
};

verus! {

/// `git-upload-pack`
pub open spec fn upload_pack_cmd() -> Seq<u8> {
    seq![103u8, 105, 116, 45, 117, 112, 108, 111, 97, 100, 45, 112, 97, 99, 107]
}

/// `command=ls-refs`
pub open spec fn ls_refs_cmd() -> Seq<u8> {
    seq![99u8, 111, 109, 109, 97, 110, 100, 61, 108, 115, 45, 114, 101, 102, 115]
}

/// `command=fetch`
pub open spec fn fetch_cmd() -> Seq<u8> {
    seq![99u8, 111, 109, 109, 97, 110, 100, 61, 102, 101, 116, 99, 104]
}

/// `version 2\n`
pub open spec fn cap_version() -> Seq<u8> {
    seq![118u8, 101, 114, 115, 105, 111, 110, 32, 50, 10]
}

/// `agent=chartered/0.1.0\n`
pub open spec fn cap_agent() -> Seq<u8> {
    seq![97u8, 103, 101, 110, 116, 61, 99, 104, 97, 114, 116, 101, 114, 101, 100, 47, 48, 46, 49, 46, 48, 10]
}

/// `ls-refs=unborn\n`
pub open spec fn cap_ls_refs() -> Seq<u8> {
    seq![108u8, 115, 45, 114, 101, 102, 115, 61, 117, 110, 98, 111, 114, 110, 10]
}

/// `fetch=shallow wait-for-done\n`
pub open spec fn cap_fetch() -> Seq<u8> {
    seq![102u8, 101, 116, 99, 104, 61, 115, 104, 97, 108, 108, 111, 119, 32, 119, 97, 105, 116, 45, 102, 111, 114, 45, 100, 111, 110, 101, 10]
}

/// `server-option\n`
pub open spec fn cap_server_option() -> Seq<u8> {
    seq![115u8, 101, 114, 118, 101, 114, 45, 111, 112, 116, 105, 111, 110, 10]
}

/// `object-info\n`
pub open spec fn cap_object_info() -> Seq<u8> {
    seq![111u8, 98, 106, 101, 99, 116, 45, 105, 110, 102, 111, 10]
}

/// ` HEAD symref-target:refs/heads/master\n`
pub open spec fn head_ref() -> Seq<u8> {
    seq![32u8, 72, 69, 65, 68, 32, 115, 121, 109, 114, 101, 102, 45, 116, 97, 114, 103, 101, 116, 58, 114, 101, 102, 115, 47, 104, 101, 97, 100, 115, 47, 109, 97, 115, 116, 101, 114, 10]
}

/// `acknowledgments\n`
pub open spec fn acknowledgments() -> Seq<u8> {
    seq![97u8, 99, 107, 110, 111, 119, 108, 101, 100, 103, 109, 101, 110, 116, 115, 10]
}

/// `ready\n`
pub open spec fn ready() -> Seq<u8> {
    seq![114u8, 101, 97, 100, 121, 10]
}

/// `packfile\n`
pub open spec fn packfile_line() -> Seq<u8> {
    seq![112u8, 97, 99, 107, 102, 105, 108, 101, 10]
}

/// `Hello from chartered!\n`
pub open spec fn greeting() -> Seq<u8> {
    seq![72u8, 101, 108, 108, 111, 32, 102, 114, 111, 109, 32, 99, 104, 97, 114, 116, 101, 114, 101, 100, 33, 10]
}

/// `{"dl":"`
pub open spec fn cfg_open() -> Seq<u8> {
    seq![123u8, 34, 100, 108, 34, 58, 34]
}

/// `/a/`
pub open spec fn cfg_session() -> Seq<u8> {
    seq![47u8, 97, 47]
}

/// `/o/`
pub open spec fn cfg_org() -> Seq<u8> {
    seq![47u8, 111, 47]
}

/// `/api/v1/crates","api":"`
pub open spec fn cfg_mid() -> Seq<u8> {
    seq![47u8, 97, 112, 105, 47, 118, 49, 47, 99, 114, 97, 116, 101, 115, 34, 44, 34, 97, 112, 105, 34, 58, 34]
}

/// `"}`
pub open spec fn cfg_close() -> Seq<u8> {
    seq![34u8, 125]
}


/// The words of a POSIX shell command line; `None` where it cannot be split
/// (an unclosed quote, a trailing backslash).
pub uninterp spec fn shell_split(s: Seq<u8>) -> Option<Seq<Seq<u8>>>;

/// Relies on shlex::bytes::split for splitting an exec request into words.
#[verifier::external_body]
fn split_words(data: &[u8]) -> (r: Option<Vec<Vec<u8>>>)
    ensures
        match shell_split(data@) {
            None => r is None,
            Some(ws) => r matches Some(v) && v@.len() == ws.len() && forall|i: int|
                0 <= i < ws.len() ==> (#[trigger] v@[i])@ == ws[i],
        },
{
    shlex::bytes::split(data)
}

/// Why an exec request is refused.
#[derive(Debug, Clone, Copy, PartialEq, Eq, Structural)]
pub enum ExecError {
    /// Not `git-upload-pack`, or a command line that is not UTF-8 or cannot
    /// be split.
    BadExec,
    /// No organisation in the path.
    BadPath,
}

/// `s` without its leading slashes.
pub open spec fn trim_start_slashes(s: Seq<u8>) -> Seq<u8>
    decreases s.len(),
{
    if s.len() > 0 && s[0] == 47u8 {
        trim_start_slashes(s.skip(1))
    } else {
        s
    }
}

/// `s` without its trailing slashes.
pub open spec fn trim_end_slashes(s: Seq<u8>) -> Seq<u8>
    decreases s.len(),
{
    if s.len() > 0 && s.last() == 47u8 {
        trim_end_slashes(s.drop_last())
    } else {
        s
    }
}

/// The organisation named by the words of an exec request.
pub open spec fn organisation_of(ws: Seq<Seq<u8>>) -> Result<Seq<u8>, ExecError> {
    if ws.len() == 0 || ws[0] != upload_pack_cmd() {
        Err(ExecError::BadExec)
    } else if ws.len() < 2 || trim_end_slashes(trim_start_slashes(ws[1])).len() == 0 {
        Err(ExecError::BadPath)
    } else {
        Ok(trim_end_slashes(trim_start_slashes(ws[1])))
    }
}

/// Whether two byte strings are equal.
pub fn bytes_eq(a: &[u8], b: &[u8]) -> (r: bool)
    ensures
        r == (a@ == b@),
{
    compare_bytes(a, b) == 0
}

/// `s` with the slashes at both ends removed.
pub fn trim_slashes(s: &Vec<u8>) -> (r: Vec<u8>)
    ensures
        r@ == trim_end_slashes(trim_start_slashes(s@)),
{
    let mut a: usize = 0;
    assert(s@.skip(0) =~= s@);
    while a < s.len() && s[a] == 47
        invariant
            a <= s@.len(),
            trim_start_slashes(s@) == trim_start_slashes(s@.skip(a as int)),
        decreases s@.len() - a,
    {
        assert(s@.skip(a as int).skip(1) =~= s@.skip(a + 1));
        a += 1;
    }
    let mut b: usize = s.len();
    assert(s@.skip(a as int) =~= s@.subrange(a as int, b as int));
    while b > a && s[b - 1] == 47
        invariant
            a <= b <= s@.len(),
            trim_start_slashes(s@) == s@.skip(a as int),
            trim_end_slashes(s@.skip(a as int)) == trim_end_slashes(s@.subrange(a as int, b as int)),
        decreases b,
    {
        assert(s@.subrange(a as int, b as int).drop_last() =~= s@.subrange(a as int, b - 1));
        b -= 1;
    }
    crate::pktline::copy_range(s, a, b)
}

/// The organisation of an exec request already split into words: the
/// command must be `git-upload-pack`, and its path, without slashes at
/// either end, must not be empty.
pub fn organisation_from_words(words: &Vec<Vec<u8>>) -> (r: Result<Vec<u8>, ExecError>)
    ensures
        match organisation_of(words@.map_values(|w: Vec<u8>| w@)) {
            Ok(o) => r matches Ok(v) && v@ == o,
            Err(e) => r == Err::<Vec<u8>, ExecError>(e),
        },
{
    let ghost ws = words@.map_values(|w: Vec<u8>| w@);
    let cmd = [103u8, 105, 116, 45, 117, 112, 108, 111, 97, 100, 45, 112, 97, 99, 107];
    if words.len() == 0 || !bytes_eq(words[0].as_slice(), &cmd) {
        proof {
            if words@.len() > 0 {
                assert(ws[0] == words@[0]@);
                assert(cmd@ == upload_pack_cmd());
            }
        }
        return Err(ExecError::BadExec);
    }
    assert(ws[0] == upload_pack_cmd());
    if words.len() < 2 {
        return Err(ExecError::BadPath);
    }
    let org = trim_slashes(&words[1]);
    assert(ws[1] == words@[1]@);
    if org.len() == 0 {
        return Err(ExecError::BadPath);
    }
    Ok(org)
}

/// Relies on std::str::from_utf8: `Ok` exactly when `data` is valid UTF-8.
#[verifier::external_body]
fn utf8_valid(data: &[u8]) -> (r: bool)
    ensures
        r == vstd::utf8::valid_utf8(data@),
{
    std::str::from_utf8(data).is_ok()
}

/// Reads the organisation from the command line of an exec request; one
/// that is not UTF-8 is refused.
pub fn parse_exec(data: &[u8]) -> (r: Result<Vec<u8>, ExecError>)
    ensures
        !vstd::utf8::valid_utf8(data@) ==> r == Err::<Vec<u8>, ExecError>(ExecError::BadExec),
        vstd::utf8::valid_utf8(data@) ==> match shell_split(data@) {
            None => r == Err::<Vec<u8>, ExecError>(ExecError::BadExec),
            Some(ws) => match organisation_of(ws) {
                Ok(o) => r matches Ok(v) && v@ == o,
                Err(e) => r == Err::<Vec<u8>, ExecError>(e),
            },
        },
{
    if !utf8_valid(data) {
        return Err(ExecError::BadExec);
    }
    match split_words(data) {
        None => Err(ExecError::BadExec),
        Some(words) => {
            assert(words@.map_values(|w: Vec<u8>| w@) =~= shell_split(data@)->0);
            organisation_from_words(&words)
        },
    }
}

/// The registry pointer served as `config.json`.
pub open spec fn config_spec(base: Seq<u8>, key: Seq<u8>, org: Seq<u8>) -> Seq<u8> {
    cfg_open() + base + cfg_session() + key + cfg_org() + org + cfg_mid() + base + cfg_session()
        + key + cfg_org() + org + cfg_close()
}

/// `{"dl":"<base>/a/<key>/o/<org>/api/v1/crates","api":"<base>/a/<key>/o/<org>"}`
pub fn config_json(base: &[u8], session_key: &[u8], org: &[u8]) -> (r: Vec<u8>)
    ensures
        r@ == config_spec(base@, session_key@, org@),
{
    let mut r: Vec<u8> = Vec::new();
    append(&mut r, &[123u8, 34, 100, 108, 34, 58, 34]);
    append(&mut r, base);
    append(&mut r, &[47u8, 97, 47]);
    append(&mut r, session_key);
    append(&mut r, &[47u8, 111, 47]);
    append(&mut r, org);
    append(&mut r, &[47u8, 97, 112, 105, 47, 118, 49, 47, 99, 114, 97, 116, 101, 115, 34, 44, 34, 97, 112, 105, 34, 58, 34]);
    append(&mut r, base);
    append(&mut r, &[47u8, 97, 47]);
    append(&mut r, session_key);
    append(&mut r, &[47u8, 111, 47]);
    append(&mut r, org);
    append(&mut r, &[34u8, 125]);
    assert(r@ =~= config_spec(base@, session_key@, org@));
    r
}

/// The protocol v2 command a request carries.
#[derive(Debug, Clone, Copy, PartialEq, Eq, Structural)]
pub enum Command {
    LsRefs,
    Fetch,
    /// Any other command, such as `object-info`: not served.
    Other,
}

/// Where a connection stands between requests. A flush that ends no
/// request (or one that is not served) asks to close, but requests already
/// read are answered first.
#[derive(Debug, Clone, Copy, PartialEq, Eq, Structural)]
pub struct RequestState {
    /// The command of the request being read, if one has begun.
    pub command: Option<Command>,
    /// Whether the request's arguments (after the delimiter) are being read.
    pub in_args: bool,
    /// Whether a fetch request being read has said `done`. Kept as part of
    /// the request's state; no answer depends on it, since a fetch is
    /// answered with the whole packfile either way.
    pub done_seen: bool,
    /// A whole `ls-refs` request has been read and not yet answered.
    pub ls_refs_pending: bool,
    /// A whole `fetch` request has been read and not yet answered.
    pub fetch_pending: bool,
}

/// What the connection is to do after the input read so far.
#[derive(Debug, Clone, Copy, PartialEq, Eq, Structural)]
pub enum Step {
    /// Wait for more input.
    Wait,
    /// Send exit status 0, end of file, and close the channel.
    Close,
    /// Answer the pending requests, `ls-refs` first; then, if `close`, close
    /// as for `Close`.
    Respond { ls_refs: bool, fetch: bool, close: bool },
}

/// The command a request's first line names.
pub open spec fn classify(line: Seq<u8>) -> Command {
    if line == ls_refs_cmd() {
        Command::LsRefs
    } else if line == fetch_cmd() {
        Command::Fetch
    } else {
        Command::Other
    }
}

/// `done`
pub open spec fn done_arg() -> Seq<u8> {
    seq![100u8, 111, 110, 101]
}

/// The state after one frame, and whether the channel is to close: a flush
/// that ends no request, or ends one that is not served.
pub open spec fn next_state(st: RequestState, f: FrameView) -> (RequestState, bool) {
    match f {
        FrameView::Data(line) => if st.command is None {
            (RequestState { command: Some(classify(line)), in_args: false, done_seen: false, ..st }, false)
        } else if st.in_args && st.command == Some(Command::Fetch) && line == done_arg() {
            (RequestState { done_seen: true, ..st }, false)
        } else {
            (st, false)
        },
        FrameView::Delimiter => if st.command is Some {
            (RequestState { in_args: true, ..st }, false)
        } else {
            (st, false)
        },
        FrameView::ResponseEnd => (st, false),
        FrameView::Flush => match st.command {
            Some(Command::LsRefs) => (
                RequestState {
                    command: None,
                    in_args: false,
                    done_seen: false,
                    ls_refs_pending: true,
                    ..st
                },
                false,
            ),
            Some(Command::Fetch) => (
                RequestState {
                    command: None,
                    in_args: false,
                    done_seen: false,
                    fetch_pending: true,
                    ..st
                },
                false,
            ),
            _ => (RequestState { command: None, in_args: false, done_seen: false, ..st }, true),
        },
    }
}

/// Reads every whole frame of `s` from state `st`: the state afterwards,
/// what is left of the input, and the step to take (`Err` for a bad frame).
pub open spec fn run(st: RequestState, s: Seq<u8>) -> (RequestState, Seq<u8>, Result<Step, ()>)
    decreases s.len(),
{
    match frame_spec(s) {
        Err(()) => (st, s, Err(())),
        Ok(None) => if st.ls_refs_pending || st.fetch_pending {
            (
                RequestState { ls_refs_pending: false, fetch_pending: false, ..st },
                s,
                Ok(
                    Step::Respond {
                        ls_refs: st.ls_refs_pending,
                        fetch: st.fetch_pending,
                        close: false,
                    },
                ),
            )
        } else {
            (st, s, Ok(Step::Wait))
        },
        Ok(Some((f, n))) => if 0 < n <= s.len() {
            let (st2, close) = next_state(st, f);
            if close && (st2.ls_refs_pending || st2.fetch_pending) {
                (
                    RequestState { ls_refs_pending: false, fetch_pending: false, ..st2 },
                    s.skip(n as int),
                    Ok(
                        Step::Respond {
                            ls_refs: st2.ls_refs_pending,
                            fetch: st2.fetch_pending,
                            close: true,
                        },
                    ),
                )
            } else if close {
                (st2, s.skip(n as int), Ok(Step::Close))
            } else {
                run(st2, s.skip(n as int))
            }
        } else {
            (st, s, Err(()))
        },
    }
}

proof fn lemma_frame_len(s: Seq<u8>)
    ensures
        frame_spec(s) matches Ok(Some((_, n))) ==> 4 <= n <= s.len(),
{
}

fn next_state_exec(st: RequestState, f: &Frame) -> (r: (RequestState, bool))
    ensures
        r == next_state(st, f@),
{
    match f {
        Frame::Data(line) => {
            if st.command.is_none() {
                let c = if bytes_eq(line.as_slice(), &[99u8, 111, 109, 109, 97, 110, 100, 61, 108, 115, 45, 114, 101, 102, 115]) {
                    Command::LsRefs
                } else if bytes_eq(line.as_slice(), &[99u8, 111, 109, 109, 97, 110, 100, 61, 102, 101, 116, 99, 104]) {
                    Command::Fetch
                } else {
                    Command::Other
                };
                (RequestState { command: Some(c), in_args: false, done_seen: false, ..st }, false)
            } else if st.in_args && st.command == Some(Command::Fetch) && bytes_eq(
                line.as_slice(),
                &[100u8, 111, 110, 101],
            ) {
                (RequestState { done_seen: true, ..st }, false)
            } else {
                (st, false)
            }
        },
        Frame::Delimiter => {
            if st.command.is_some() {
                (RequestState { in_args: true, ..st }, false)
            } else {
                (st, false)
            }
        },
        Frame::ResponseEnd => (st, false),
        Frame::Flush => {
            match st.command {
                Some(Command::LsRefs) => (
                    RequestState {
                        command: None,
                        in_args: false,
                        done_seen: false,
                        ls_refs_pending: true,
                        ..st
                    },
                    false,
                ),
                Some(Command::Fetch) => (
                    RequestState {
                        command: None,
                        in_args: false,
                        done_seen: false,
                        fetch_pending: true,
                        ..st
                    },
                    false,
                ),
                _ => (RequestState { command: None, in_args: false, done_seen: false, ..st }, true),
            }
        },
    }
}

/// The request side of one connection: the state between requests and the
/// input not yet framed.
pub struct Protocol {
    pub state: RequestState,
    pub input: Vec<u8>,
}

impl Protocol {
    pub fn new() -> (r: Protocol)
        ensures
            r.input@.len() == 0,
            r.state == (RequestState {
                command: None,
                in_args: false,
                done_seen: false,
                ls_refs_pending: false,
                fetch_pending: false,
            }),
    {
        Protocol {
            state: RequestState {
                command: None,
                in_args: false,
                done_seen: false,
                ls_refs_pending: false,
                fetch_pending: false,
            },
            input: Vec::new(),
        }
    }

    /// Takes in bytes from the channel and reads every whole frame: a
    /// partial frame stays for the next call. Says whether to wait, close,
    /// or answer the requests now complete.
    pub fn receive(&mut self, data: &[u8]) -> (r: Result<Step, CodecError>)
        ensures
            final(self).state == run(old(self).state, old(self).input@ + data@).0,
            final(self).input@ == run(old(self).state, old(self).input@ + data@).1,
            match run(old(self).state, old(self).input@ + data@).2 {
                Err(()) => r == Err::<Step, CodecError>(CodecError::ProtocolAbuse),
                Ok(step) => r == Ok::<Step, CodecError>(step),
            },
    {
        append(&mut self.input, data);
        let ghost target = run(old(self).state, old(self).input@ + data@);
        loop
            invariant
                target == run(old(self).state, old(self).input@ + data@),
                run(self.state, self.input@) == target,
            decreases self.input@.len(),
        {
            let ghost before = self.input@;
            proof {
                lemma_frame_len(before);
            }
            match decode_frame(&mut self.input) {
                Err(e) => {
                    return Err(e);
                },
                Ok(None) => {
                    if self.state.ls_refs_pending || self.state.fetch_pending {
                        let step = Step::Respond {
                            ls_refs: self.state.ls_refs_pending,
                            fetch: self.state.fetch_pending,
                            close: false,
                        };
                        self.state.ls_refs_pending = false;
                        self.state.fetch_pending = false;
                        return Ok(step);
                    }
                    return Ok(Step::Wait);
                },
                Ok(Some(f)) => {
                    let (st2, close) = next_state_exec(self.state, &f);
                    self.state = st2;
                    if close {
                        if self.state.ls_refs_pending || self.state.fetch_pending {
                            let step = Step::Respond {
                                ls_refs: self.state.ls_refs_pending,
                                fetch: self.state.fetch_pending,
                                close: true,
                            };
                            self.state.ls_refs_pending = false;
                            self.state.fetch_pending = false;
                            return Ok(step);
                        }
                        return Ok(Step::Close);
                    }
                },
            }
        }
    }
}

/// The capability advertisement, ended by a flush.
pub open spec fn advertisement() -> Seq<u8> {
    pkt(cap_version()) + pkt(cap_agent()) + pkt(cap_ls_refs()) + pkt(cap_fetch()) + pkt(
        cap_server_option(),
    ) + pkt(cap_object_info()) + flush_pkt()
}

/// `0000`
pub open spec fn flush_pkt() -> Seq<u8> {
    seq![48u8, 48, 48, 48]
}

/// `0001`
pub open spec fn delim_pkt() -> Seq<u8> {
    seq![48u8, 48, 48, 49]
}

fn push_line(dst: &mut Vec<u8>, line: &[u8])
    requires
        line@.len() < MAX_PAYLOAD_LEN,
    ensures
        final(dst)@ == old(dst)@ + pkt(line@),
{
    push_frame(dst, None, line, 0, line.len());
    assert(line@.subrange(0, line@.len() as int) =~= line@);
}

fn push_control(dst: &mut Vec<u8>, last: u8)
    ensures
        final(dst)@ == old(dst)@ + seq![48u8, 48, 48, last],
{
    append(dst, &[48u8, 48, 48]);
    dst.push(last);
    assert(final(dst)@ =~= old(dst)@ + seq![48u8, 48, 48, last]);
}

/// Appends the capability advertisement sent once an exec request is
/// accepted.
pub fn advertise(dst: &mut Vec<u8>)
    ensures
        final(dst)@ == old(dst)@ + advertisement(),
{
    let ghost start = dst@;
    push_line(dst, &[118u8, 101, 114, 115, 105, 111, 110, 32, 50, 10]);
    push_line(dst, &[97u8, 103, 101, 110, 116, 61, 99, 104, 97, 114, 116, 101, 114, 101, 100, 47, 48, 46, 49, 46, 48, 10]);
    push_line(dst, &[108u8, 115, 45, 114, 101, 102, 115, 61, 117, 110, 98, 111, 114, 110, 10]);
    push_line(dst, &[102u8, 101, 116, 99, 104, 61, 115, 104, 97, 108, 108, 111, 119, 32, 119, 97, 105, 116, 45, 102, 111, 114, 45, 100, 111, 110, 101, 10]);
    push_line(dst, &[115u8, 101, 114, 118, 101, 114, 45, 111, 112, 116, 105, 111, 110, 10]);
    push_line(dst, &[111u8, 98, 106, 101, 99, 116, 45, 105, 110, 102, 111, 10]);
    push_control(dst, 48);
    assert(dst@ =~= start + advertisement());
}

/// The answer to `ls-refs`: HEAD, a symbolic reference to
/// `refs/heads/master`, at the commit; then a flush.
pub open spec fn ls_refs_answer(commit: Seq<u8>) -> Seq<u8> {
    pkt(hex_lower(commit) + head_ref()) + flush_pkt()
}

/// The answer to `fetch`: acknowledgments, then the packfile section with a
/// progress greeting and `pack` on band 1; then a flush.
pub open spec fn fetch_answer(pack: Seq<u8>) -> Seq<u8> {
    pkt(acknowledgments()) + pkt(ready()) + delim_pkt() + pkt(packfile_line()) + pkt(
        seq![2u8] + greeting(),
    ) + sideband_frames(pack) + flush_pkt()
}

proof fn lemma_hex_lower_len(s: Seq<u8>)
    ensures
        hex_lower(s).len() == 2 * s.len(),
    decreases s.len(),
{
    if s.len() > 0 {
        lemma_hex_lower_len(s.drop_last());
    }
}

/// Appends the answer to `ls-refs` for the commit `commit_hash`.
pub fn ls_refs_response(commit_hash: &[u8; 20], dst: &mut Vec<u8>)
    ensures
        final(dst)@ == old(dst)@ + ls_refs_answer(commit_hash@),
{
    let mut line = hex_encode(commit_hash);
    proof {
        lemma_hex_lower_len(commit_hash@);
    }
    append(&mut line, &[32u8, 72, 69, 65, 68, 32, 115, 121, 109, 114, 101, 102, 45, 116, 97, 114, 103, 101, 116, 58, 114, 101, 102, 115, 47, 104, 101, 97, 100, 115, 47, 109, 97, 115, 116, 101, 114, 10]);
    push_line(dst, line.as_slice());
    push_control(dst, 48);
    assert(final(dst)@ =~= old(dst)@ + ls_refs_answer(commit_hash@));
}

/// Appends the answer to `fetch` carrying the packfile `pack`.
pub fn fetch_response(pack: &Vec<u8>, dst: &mut Vec<u8>)
    ensures
        final(dst)@ == old(dst)@ + fetch_answer(pack@),
{
    let ghost start = dst@;
    push_line(dst, &[97u8, 99, 107, 110, 111, 119, 108, 101, 100, 103, 109, 101, 110, 116, 115, 10]);
    push_line(dst, &[114u8, 101, 97, 100, 121, 10]);
    push_control(dst, 49);
    push_line(dst, &[112u8, 97, 99, 107, 102, 105, 108, 101, 10]);
    let g = [72u8, 101, 108, 108, 111, 32, 102, 114, 111, 109, 32, 99, 104, 97, 114, 116, 101, 114, 101, 100, 33, 10];
    push_frame(dst, Some(2), &g, 0, g.len());
    assert(g@.subrange(0, g@.len() as int) =~= greeting());
    push_sideband_data(dst, pack);
    push_control(dst, 48);
    assert(dst@ =~= start + fetch_answer(pack@));
}

/// Why answering failed.
#[derive(Debug, Clone, Copy, PartialEq, Eq, Structural)]
pub enum RespondError {
    /// The packfile could not be built: `2^32` objects or more.
    Internal,
}

/// Appends the answers a `Step::Respond` asks for, about the repository
/// `index`: the `ls-refs` answer first, then the `fetch` answer.
pub fn respond(ls_refs: bool, fetch: bool, index: Index, dst: &mut Vec<u8>) -> (r: Result<(), RespondError>)
    ensures
        ({
            let after_ls = if ls_refs {
                old(dst)@ + ls_refs_answer(index.commit_hash@)
            } else {
                old(dst)@
            };
            &&& r is Ok ==> final(dst)@ == if fetch {
                after_ls + fetch_answer(pack_bytes(index.entries@))
            } else {
                after_ls
            }
            &&& r is Ok <==> !fetch || index.entries@.len() < 0x1_0000_0000
            &&& r is Err ==> final(dst)@ == after_ls
        }),
{
    if ls_refs {
        ls_refs_response(&index.commit_hash, dst);
    }
    if fetch {
        let pack = match PackFile::new(index.entries).encode() {
            Some(p) => p,
            None => return Err(RespondError::Internal),
        };
        fetch_response(&pack, dst);
    }
    Ok(())
}

} // verus!
