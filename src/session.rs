//! The control-channel session as a state machine: from its state and one
//! received line to its next state, the bytes to send and the transfer to
//! start. The caller owns the connection and performs what it is told.
use vstd::prelude::*;
use crate::announce::{
    announcement_fits, announces, is_announcement, is_keep_alive, keep_alive_token, line_body,
    parse_line, ping_word, Message, TransferAnnouncement,
};
use crate::transfer::{min, DownloadError};

verus! {

pub open spec fn crlf() -> Seq<u8> {
    seq![13u8, 10]
}

/// `NICK <nick>`
pub open spec fn nick_line(nick: Seq<u8>) -> Seq<u8> {
    seq![78u8, 73, 67, 75, 32] + nick + crlf()
}

/// `USER <nick> * * :<nick>`
pub open spec fn user_line(nick: Seq<u8>) -> Seq<u8> {
    seq![85u8, 83, 69, 82, 32] + nick + seq![32u8, 42, 32, 42, 32, 58] + nick + crlf()
}

/// `PONG :<token>`
pub open spec fn pong_line(token: Seq<u8>) -> Seq<u8> {
    seq![80u8, 79, 78, 71, 32, 58] + token + crlf()
}

/// `JOIN #nibl`: the channel every serving peer sits in.
pub open spec fn join_line() -> Seq<u8> {
    seq![74u8, 79, 73, 78, 32, 35, 110, 105, 98, 108] + crlf()
}

/// `PRIVMSG <peer> :xdcc send #<pack>`
pub open spec fn request_line(peer: Seq<u8>, pack: Seq<u8>) -> Seq<u8> {
    seq![80u8, 82, 73, 86, 77, 83, 71, 32] + peer + seq![
        32u8,
        58,
        120,
        100,
        99,
        99,
        32,
        115,
        101,
        110,
        100,
        32,
        35,
    ] + pack + crlf()
}

/// `QUIT :adios`
pub open spec fn quit_line() -> Seq<u8> {
    seq![81u8, 85, 73, 84, 32, 58, 97, 100, 105, 111, 115] + crlf()
}

/// One request line per pack, in the order given.
pub open spec fn request_lines(peer: Seq<u8>, packs: Seq<Seq<u8>>) -> Seq<u8>
    decreases packs.len(),
{
    if packs.len() == 0 {
        seq![]
    } else {
        request_lines(peer, packs.drop_last()) + request_line(peer, packs.last())
    }
}

/// Appends `s` to `out`.
fn append(out: &mut Vec<u8>, s: &[u8])
    ensures
        final(out)@ == old(out)@ + s@,
{
    let mut i: usize = 0;
    while i < s.len()
        invariant
            i <= s@.len(),
            out@ == old(out)@ + s@.take(i as int),
        decreases s@.len() - i,
    {
        out.push(s[i]);
        proof {
            assert(s@.take(i + 1) =~= s@.take(i as int).push(s@[i as int]));
        }
        i = i + 1;
    }
    proof {
        assert(s@.take(i as int) =~= s@);
    }
}

fn append_crlf(out: &mut Vec<u8>)
    ensures
        final(out)@ == old(out)@ + crlf(),
{
    let w: [u8; 2] = [13, 10];
    proof {
        assert(w@ =~= crlf());
    }
    append(out, &w);
}

/// The registration lines that open a session under `nick`.
pub fn registration(nick: &[u8]) -> (r: Vec<u8>)
    ensures
        r@ == nick_line(nick@) + user_line(nick@),
{
    let mut out: Vec<u8> = Vec::new();
    let w1: [u8; 5] = [78, 73, 67, 75, 32];
    let w2: [u8; 5] = [85, 83, 69, 82, 32];
    let w3: [u8; 6] = [32, 42, 32, 42, 32, 58];
    proof {
        assert(w1@ =~= seq![78u8, 73, 67, 75, 32]);
        assert(w2@ =~= seq![85u8, 83, 69, 82, 32]);
        assert(w3@ =~= seq![32u8, 42, 32, 42, 32, 58]);
    }
    append(&mut out, &w1);
    append(&mut out, nick);
    append_crlf(&mut out);
    append(&mut out, &w2);
    append(&mut out, nick);
    append(&mut out, &w3);
    append(&mut out, nick);
    append_crlf(&mut out);
    proof {
        assert(out@ =~= nick_line(nick@) + user_line(nick@));
    }
    out
}

fn append_pong(out: &mut Vec<u8>, token: &[u8])
    ensures
        final(out)@ == old(out)@ + pong_line(token@),
{
    let w: [u8; 6] = [80, 79, 78, 71, 32, 58];
    proof {
        assert(w@ =~= seq![80u8, 79, 78, 71, 32, 58]);
    }
    append(out, &w);
    append(out, token);
    append_crlf(out);
    proof {
        assert(final(out)@ =~= old(out)@ + pong_line(token@));
    }
}

fn append_join(out: &mut Vec<u8>)
    ensures
        final(out)@ == old(out)@ + join_line(),
{
    let w: [u8; 10] = [74, 79, 73, 78, 32, 35, 110, 105, 98, 108];
    proof {
        assert(w@ =~= seq![74u8, 79, 73, 78, 32, 35, 110, 105, 98, 108]);
    }
    append(out, &w);
    append_crlf(out);
    proof {
        assert(final(out)@ =~= old(out)@ + join_line());
    }
}

fn append_quit(out: &mut Vec<u8>)
    ensures
        final(out)@ == old(out)@ + quit_line(),
{
    let w: [u8; 11] = [81, 85, 73, 84, 32, 58, 97, 100, 105, 111, 115];
    proof {
        assert(w@ =~= seq![81u8, 85, 73, 84, 32, 58, 97, 100, 105, 111, 115]);
    }
    append(out, &w);
    append_crlf(out);
    proof {
        assert(final(out)@ =~= old(out)@ + quit_line());
    }
}

/// The request for one pack, addressed to `peer`.
pub fn pack_request(peer: &[u8], pack: &[u8]) -> (r: Vec<u8>)
    ensures
        r@ == request_line(peer@, pack@),
{
    let w1: [u8; 8] = [80, 82, 73, 86, 77, 83, 71, 32];
    let w2: [u8; 13] = [32, 58, 120, 100, 99, 99, 32, 115, 101, 110, 100, 32, 35];
    proof {
        assert(w1@ =~= seq![80u8, 82, 73, 86, 77, 83, 71, 32]);
        assert(w2@ =~= seq![32u8, 58, 120, 100, 99, 99, 32, 115, 101, 110, 100, 32, 35]);
    }
    let mut out: Vec<u8> = Vec::new();
    append(&mut out, &w1);
    append(&mut out, peer);
    append(&mut out, &w2);
    append(&mut out, pack);
    append_crlf(&mut out);
    proof {
        assert(out@ =~= request_line(peer@, pack@));
    }
    out
}

/// Where the session stands.
#[derive(PartialEq, Eq, Structural, Clone, Copy, Debug)]
pub enum Phase {
    /// Registered; waiting for the server's first keep-alive challenge.
    AwaitingWelcome,
    /// Joined and requested every pack; waiting for the announcements.
    AwaitingTransfers,
    /// Every requested pack was announced and the quit command was sent.
    Closed,
}

/// The session as a mathematical value.
pub struct SessionView {
    pub peer: Seq<u8>,
    pub packs: Seq<Seq<u8>>,
    pub phase: Phase,
    /// How many announcements were taken since the requests went out.
    pub announced: nat,
}

/// The control-channel session of one download request.
pub struct Session {
    peer: Vec<u8>,
    packs: Vec<Vec<u8>>,
    phase: Phase,
    announced: usize,
}

/// What the caller does after a line was handled.
pub struct Reaction {
    /// Bytes to write to the control connection, in order.
    pub send: Vec<u8>,
    /// A transfer to start, or the failure of an unreadable announcement.
    pub task: Option<Result<TransferAnnouncement, DownloadError>>,
    /// The session has just closed: shut the control connection down.
    pub close: bool,
}

/// Line `line` starts a transfer task in state `s`.
pub open spec fn starts_task(s: SessionView, line: Seq<u8>) -> bool {
    s.phase == Phase::AwaitingTransfers && !is_keep_alive(line) && is_announcement(line)
}

/// The state after `line`.
pub open spec fn next_state(s: SessionView, line: Seq<u8>) -> SessionView {
    match s.phase {
        Phase::AwaitingWelcome => if is_keep_alive(line) {
            SessionView {
                phase: if s.packs.len() == 0 {
                    Phase::Closed
                } else {
                    Phase::AwaitingTransfers
                },
                ..s
            }
        } else {
            s
        },
        Phase::AwaitingTransfers => if starts_task(s, line) {
            SessionView {
                announced: s.announced + 1,
                phase: if s.announced + 1 >= s.packs.len() {
                    Phase::Closed
                } else {
                    Phase::AwaitingTransfers
                },
                ..s
            }
        } else {
            s
        },
        Phase::Closed => s,
    }
}

/// The bytes sent in answer to `line` in state `s`.
pub open spec fn output(s: SessionView, line: Seq<u8>) -> Seq<u8> {
    match s.phase {
        Phase::AwaitingWelcome => if is_keep_alive(line) {
            pong_line(keep_alive_token(line)) + join_line() + request_lines(s.peer, s.packs) + (
            if s.packs.len() == 0 {
                quit_line()
            } else {
                seq![]
            })
        } else {
            seq![]
        },
        Phase::AwaitingTransfers => if is_keep_alive(line) {
            pong_line(keep_alive_token(line))
        } else if starts_task(s, line) && s.announced + 1 >= s.packs.len() {
            quit_line()
        } else {
            seq![]
        },
        Phase::Closed => seq![],
    }
}

/// The state after each of `lines` in turn.
pub open spec fn run(s: SessionView, lines: Seq<Seq<u8>>) -> SessionView
    decreases lines.len(),
{
    if lines.len() == 0 {
        s
    } else {
        next_state(run(s, lines.drop_last()), lines.last())
    }
}

/// How many transfer tasks `lines` start, from state `s`.
pub open spec fn tasks_started(s: SessionView, lines: Seq<Seq<u8>>) -> nat
    decreases lines.len(),
{
    if lines.len() == 0 {
        0
    } else {
        tasks_started(s, lines.drop_last()) + if starts_task(
            run(s, lines.drop_last()),
            lines.last(),
        ) {
            1nat
        } else {
            0nat
        }
    }
}

/// How many of `lines` are announcements.
pub open spec fn announcements(lines: Seq<Seq<u8>>) -> nat
    decreases lines.len(),
{
    if lines.len() == 0 {
        0
    } else {
        announcements(lines.drop_last()) + if !is_keep_alive(lines.last()) && is_announcement(
            lines.last(),
        ) {
            1nat
        } else {
            0nat
        }
    }
}

proof fn lemma_tasks(s: SessionView, lines: Seq<Seq<u8>>)
    requires
        session_wf(s),
        s.phase == Phase::AwaitingTransfers,
    ensures
        tasks_started(s, lines) == min(s.packs.len() - s.announced, announcements(lines) as int),
        run(s, lines).announced == s.announced + tasks_started(s, lines),
        run(s, lines).packs == s.packs,
        run(s, lines).phase == if announcements(lines) >= s.packs.len() - s.announced {
            Phase::Closed
        } else {
            Phase::AwaitingTransfers
        },
    decreases lines.len(),
{
    if lines.len() > 0 {
        lemma_tasks(s, lines.drop_last());
    }
}

/// Task count: from the state in which all `N` packs were requested and no
/// announcement has yet come, any sequence of control lines, whatever
/// unrelated traffic is interleaved, starts exactly as many transfer tasks
/// as it holds announcements, up to `N`; the session closes exactly once
/// `N` announcements have been seen.
pub proof fn tasks_follow_announcements(s: SessionView, lines: Seq<Seq<u8>>)
    requires
        s.phase == Phase::AwaitingTransfers,
        s.announced == 0,
        s.packs.len() > 0,
    ensures
        tasks_started(s, lines) == min(s.packs.len() as int, announcements(lines) as int),
        run(s, lines).phase == Phase::Closed <==> announcements(lines) >= s.packs.len(),
{
    lemma_tasks(s, lines);
}

/// Unrelated traffic is ignored: a line that is neither a keep-alive
/// challenge nor an announcement sends nothing and changes nothing.
pub proof fn unrelated_lines_are_silent(s: SessionView, line: Seq<u8>)
    requires
        !is_keep_alive(line),
        !is_announcement(line),
    ensures
        output(s, line) == Seq::<u8>::empty(),
        next_state(s, line) == s,
{
}

/// Keep-alive answer: while the session is open, a challenge line ending in
/// a carriage return and line feed is answered first of all by the same
/// line with the directive word swapped and the token unchanged.
pub proof fn keep_alive_answer(s: SessionView, line: Seq<u8>)
    requires
        s.phase != Phase::Closed,
        is_keep_alive(line),
        line.len() >= 2,
        line.skip(line.len() - 2) == crlf(),
    ensures
        output(s, line).take(line.len() as int) == seq![80u8, 79, 78, 71] + line.skip(4),
{
    let n = line.len() as int;
    assert(line[n - 1] == 10);
    assert(line[n - 2] == 13);
    assert(line_body(line) =~= line.take(n - 2));
    let token = keep_alive_token(line);
    assert(line =~= ping_word() + token + crlf()) by {
        assert(line.take(6) == ping_word());
    }
    let pong = pong_line(token);
    assert(pong =~= seq![80u8, 79, 78, 71] + line.skip(4));
    assert(output(s, line).take(n) =~= pong);
}

impl View for Session {
    type V = SessionView;

    closed spec fn view(&self) -> SessionView {
        SessionView {
            peer: self.peer@,
            packs: self.packs@.map_values(|p: Vec<u8>| p@),
            phase: self.phase,
            announced: self.announced as nat,
        }
    }
}

/// The session's invariant: while waiting for announcements, fewer have
/// come than packs were requested.
pub open spec fn session_wf(s: SessionView) -> bool {
    &&& s.announced <= s.packs.len()
    &&& s.phase == Phase::AwaitingTransfers ==> s.announced < s.packs.len()
    &&& s.phase == Phase::AwaitingWelcome ==> s.announced == 0
}

impl Session {
    /// A session that will request `packs` from `peer`, once registered.
    pub fn new(peer: Vec<u8>, packs: Vec<Vec<u8>>) -> (r: Session)
        ensures
            r@ == (SessionView {
                peer: peer@,
                packs: packs@.map_values(|p: Vec<u8>| p@),
                phase: Phase::AwaitingWelcome,
                announced: 0,
            }),
            session_wf(r@),
    {
        Session { peer, packs, phase: Phase::AwaitingWelcome, announced: 0 }
    }

    pub fn phase(&self) -> (r: Phase)
        ensures
            r == self@.phase,
    {
        self.phase
    }

    /// How many announcements were taken so far.
    pub fn announced(&self) -> (r: usize)
        ensures
            r as nat == self@.announced,
    {
        self.announced
    }

    #[verifier::type_invariant]
    spec fn inv(self) -> bool {
        session_wf(self@)
    }

    fn append_requests(&self, out: &mut Vec<u8>)
        ensures
            final(out)@ == old(out)@ + request_lines(self@.peer, self@.packs),
    {
        let ghost packs = self@.packs;
        let mut i: usize = 0;
        while i < self.packs.len()
            invariant
                i <= packs.len(),
                packs == self@.packs,
                out@ == old(out)@ + request_lines(self@.peer, packs.take(i as int)),
            decreases self.packs.len() - i,
        {
            let line = pack_request(self.peer.as_slice(), self.packs[i].as_slice());
            proof {
                assert(packs.take(i + 1).drop_last() =~= packs.take(i as int));
            }
            append(out, line.as_slice());
            proof {
                assert(out@ =~= old(out)@ + request_lines(self@.peer, packs.take(i + 1)));
            }
            i = i + 1;
        }
        proof {
            assert(packs.take(i as int) =~= packs);
        }
    }

    /// Handles one line received on the control connection.
    pub fn handle_line(&mut self, line: &[u8]) -> (r: Reaction)
        ensures
            session_wf(final(self)@),
            final(self)@ == next_state(old(self)@, line@),
            r.send@ == output(old(self)@, line@),
            r.close == (old(self)@.phase != Phase::Closed && final(self)@.phase == Phase::Closed),
            r.task is Some <==> starts_task(old(self)@, line@),
            r.task matches Some(Ok(a)) ==> announcement_fits(line@) && announces(line@, a),
            r.task matches Some(Err(e)) ==> !announcement_fits(line@) && e
                == DownloadError::ProtocolParse,
    {
        proof {
            use_type_invariant(&*self);
        }
        let mut send: Vec<u8> = Vec::new();
        let message = parse_line(line);
        match self.phase {
            Phase::AwaitingWelcome => {
                if let Message::KeepAlive { token } = message {
                    append_pong(&mut send, token.as_slice());
                    append_join(&mut send);
                    self.append_requests(&mut send);
                    if self.packs.len() == 0 {
                        append_quit(&mut send);
                        self.phase = Phase::Closed;
                        return Reaction { send, task: None, close: true };
                    }
                    self.phase = Phase::AwaitingTransfers;
                } else {
                    proof {
                        assert(send@ =~= output(old(self)@, line@));
                    }
                }
                Reaction { send, task: None, close: false }
            },
            Phase::AwaitingTransfers => {
                let task = match message {
                    Message::KeepAlive { token } => {
                        append_pong(&mut send, token.as_slice());
                        return Reaction { send, task: None, close: false };
                    },
                    Message::Other => {
                        return Reaction { send, task: None, close: false };
                    },
                    Message::Announcement(a) => Ok(a),
                    Message::Malformed => Err(DownloadError::ProtocolParse),
                };
                let n = self.packs.len();
                let close = self.announced + 1 >= n;
                if close {
                    append_quit(&mut send);
                    self.phase = Phase::Closed;
                }
                self.announced = self.announced + 1;
                proof {
                    if !close {
                        assert(send@ =~= output(old(self)@, line@));
                    }
                }
                Reaction { send, task: Some(task), close }
            },
            Phase::Closed => Reaction { send, task: None, close: false },
        }
    }
}

} // verus!
