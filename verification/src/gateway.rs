//! The connection gateway: the process-wide server state and the
//! per-connection session state machine. The transport handshake, the
//! actual sends, and the per-connection reader/writer loops live in the
//! I/O shell; every decision lives here.

use vstd::prelude::*;
use crate::auth::{auth_result, auth_table, AuthOutcome, CredentialStore, CredentialView};
use crate::frame::{
    auth_ok_frame, auth_ok_marker, auth_rejected_frame, auth_rejected_marker, json_str_field,
    line_of, parse_auth_frame, parse_chat_frame,
};
use crate::hub::{
    deliver, deliver_all, drained, has_id, lemma_registration_order, queue_of, remove_id,
    unique_ids, HandleView, Hub,
};
use crate::message_log::{keep_last, MessageLog};

verus! {

/// One connection's protocol position. A connection is handed to the
/// library once its transport handshake is done, so it starts in
/// `Authenticating`; no other traffic is accepted before authentication
/// completes.
pub enum Conn {
    /// The very first inbound frame must be a credential payload.
    Authenticating,
    /// Authentication succeeded: inbound frames are chat messages from
    /// `identity` (immutable for the session's lifetime), and the hub
    /// handle `handle_id` carries this session's fan-out.
    Active { identity: String, handle_id: u64 },
    /// Terminal: the session was rejected or torn down.
    Closed,
}

impl Conn {
    /// A connection that just completed its transport handshake.
    pub fn open() -> (conn: Conn)
        ensures
            conn is Authenticating,
    {
        Conn::Authenticating
    }
}

/// What the gateway decided about one inbound frame, and what the shell
/// must now send on this connection alone; fan-out to everyone else goes
/// through the hub's pending queues.
pub enum FrameOutcome {
    /// Authentication succeeded: send `ack`, then the replayed `replay`
    /// lines in order; only then does the session's writer start draining
    /// its hub handle.
    Accepted { ack: String, replay: Vec<String> },
    /// Authentication failed: send the explicit rejection frame; the
    /// connection is closed without having been registered.
    Rejected { reply: String },
    /// A chat message was accepted: `line` was appended to the log and
    /// delivered to every registered handle (the sender's included).
    Broadcast { line: String },
    /// The frame was not usable in this state; nothing changed.
    Ignored,
}

/// The process-wide shared state: credential store, message log and
/// broadcast hub, mutated only through the gateway.
pub struct Server {
    store: CredentialStore,
    log: MessageLog,
    hub: Hub,
}

/// Nothing observable about the server changed.
pub open spec fn same_state(pre: Server, post: Server) -> bool {
    &&& post.credentials() == pre.credentials()
    &&& post.log_view() == pre.log_view()
    &&& post.hub_view() == pre.hub_view()
    &&& post.hub_fresh_id() == pre.hub_fresh_id()
}

impl Server {
    /// The stored credential table.
    pub closed spec fn credentials(&self) -> Seq<CredentialView> {
        self.store@
    }

    /// The retained log lines, oldest first.
    pub closed spec fn log_view(&self) -> Seq<Seq<char>> {
        self.log@
    }

    /// The registered handles, in registration order.
    pub closed spec fn hub_view(&self) -> Seq<HandleView> {
        self.hub@
    }

    /// The registration id the next admitted session will get.
    pub closed spec fn hub_fresh_id(&self) -> u64 {
        self.hub.fresh_id()
    }

    /// The log's capacity bound.
    pub closed spec fn log_capacity(&self) -> nat {
        self.log.capacity()
    }

    /// The hub's per-handle queue bound.
    pub closed spec fn queue_capacity(&self) -> nat {
        self.hub.queue_capacity()
    }

    pub closed spec fn wf(&self) -> bool {
        &&& self.store.wf()
        &&& self.log.wf()
        &&& self.hub.wf()
    }

    /// A fresh server: no credentials, no backlog, no registered session.
    pub fn new(log_capacity: usize, queue_capacity: usize) -> (server: Server)
        requires
            log_capacity >= 1,
            queue_capacity >= 1,
        ensures
            server.wf(),
            server.credentials() == Seq::<CredentialView>::empty(),
            server.log_view() == Seq::<Seq<char>>::empty(),
            server.hub_view() == Seq::<HandleView>::empty(),
            server.log_capacity() == log_capacity,
            server.queue_capacity() == queue_capacity,
            server.hub_fresh_id() == 0,
    {
        Server {
            store: CredentialStore::new(),
            log: MessageLog::new(log_capacity),
            hub: Hub::new(queue_capacity),
        }
    }

    /// Drives one inbound frame through the session state machine.
    ///
    /// In `Authenticating`, the frame must be a credential payload; the
    /// credential store then decides. On acceptance the log snapshot is
    /// taken and the session registered in one step, with no message
    /// processed in between: the replayed lines plus what the fresh handle
    /// later receives cover every broadcast exactly once. On rejection
    /// (wrong password or malformed payload) the connection closes with an
    /// explicit rejection frame, never registered, the server untouched.
    ///
    /// In `Active`, a chat payload is formatted with the session's own
    /// identity, appended to the log, and delivered to every registered
    /// handle — the sender echoes back to itself; anything else is ignored.
    ///
    /// `salt` seeds the digest if this frame enrolls a new username.
    pub fn handle_frame(&mut self, conn: &mut Conn, text: &str, salt: u64) -> (outcome:
        FrameOutcome)
        requires
            old(self).wf(),
            *old(conn) is Authenticating ==> old(self).hub_fresh_id() < u64::MAX,
        ensures
            final(self).wf(),
            final(self).log_capacity() == old(self).log_capacity(),
            final(self).queue_capacity() == old(self).queue_capacity(),
            match *old(conn) {
                Conn::Authenticating => {
                    let u = json_str_field(text@, "username"@);
                    let p = json_str_field(text@, "password"@);
                    if u is Some && p is Some && auth_result(
                        old(self).credentials(),
                        u->0,
                        p->0,
                    ) == AuthOutcome::Accepted {
                        &&& final(self).credentials() == auth_table(
                            old(self).credentials(),
                            u->0,
                            p->0,
                            salt,
                        )
                        &&& final(self).log_view() == old(self).log_view()
                        &&& final(self).hub_view() == old(self).hub_view().push(
                            (HandleView { id: old(self).hub_fresh_id(), queue: Seq::empty() }),
                        )
                        &&& final(self).hub_fresh_id() == old(self).hub_fresh_id() + 1
                        &&& (*final(conn) matches Conn::Active { identity, handle_id }
                            && identity@ == u->0 && handle_id == old(self).hub_fresh_id())
                        &&& (outcome matches FrameOutcome::Accepted { ack, replay }
                            && ack@ == auth_ok_marker() && replay.deep_view() == old(
                            self,
                        ).log_view())
                    } else {
                        &&& same_state(*old(self), *final(self))
                        &&& *final(conn) is Closed
                        &&& (outcome matches FrameOutcome::Rejected { reply }
                            && reply@ == auth_rejected_marker())
                    }
                },
                Conn::Active { identity, handle_id } => {
                    let n = json_str_field(text@, "name"@);
                    let m = json_str_field(text@, "msg"@);
                    if n is Some && m is Some {
                        let line = line_of(identity@, m->0);
                        &&& final(self).credentials() == old(self).credentials()
                        &&& final(self).log_view() == keep_last(
                            old(self).log_view().push(line),
                            old(self).log_capacity(),
                        )
                        &&& final(self).hub_view() == deliver(
                            old(self).hub_view(),
                            line,
                            old(self).queue_capacity(),
                        )
                        &&& final(self).hub_fresh_id() == old(self).hub_fresh_id()
                        &&& *final(conn) == *old(conn)
                        &&& (outcome matches FrameOutcome::Broadcast { line: sent }
                            && sent@ == line)
                    } else {
                        &&& same_state(*old(self), *final(self))
                        &&& *final(conn) == *old(conn)
                        &&& outcome is Ignored
                    }
                },
                Conn::Closed => {
                    &&& same_state(*old(self), *final(self))
                    &&& *final(conn) is Closed
                    &&& outcome is Ignored
                },
            },
    {
        match conn {
            Conn::Authenticating => {
                match parse_auth_frame(text) {
                    Some(auth) => {
                        let decision = self.store.verify_or_enroll(
                            auth.username.as_str(),
                            auth.password.as_str(),
                            salt,
                        );
                        match decision {
                            AuthOutcome::Accepted => {
                                let replay = self.log.snapshot();
                                let handle_id = self.hub.register();
                                *conn = Conn::Active { identity: auth.username, handle_id };
                                FrameOutcome::Accepted { ack: auth_ok_frame(), replay }
                            },
                            AuthOutcome::Rejected => {
                                *conn = Conn::Closed;
                                FrameOutcome::Rejected { reply: auth_rejected_frame() }
                            },
                        }
                    },
                    None => {
                        *conn = Conn::Closed;
                        FrameOutcome::Rejected { reply: auth_rejected_frame() }
                    },
                }
            },
            Conn::Active { identity, handle_id: _ } => {
                match parse_chat_frame(text) {
                    Some(chat) => {
                        let line = crate::frame::format_line(identity.as_str(), chat.msg.as_str());
                        let stored = line.clone();
                        self.log.append(stored);
                        self.hub.broadcast(line.as_str());
                        FrameOutcome::Broadcast { line }
                    },
                    None => FrameOutcome::Ignored,
                }
            },
            Conn::Closed => FrameOutcome::Ignored,
        }
    }

    /// Tears a session down: its hub handle, if it ever had one, is
    /// unregistered (a no-op when a failed delivery already removed it),
    /// and the connection becomes `Closed`. Store and log are untouched.
    pub fn close(&mut self, conn: &mut Conn)
        requires
            old(self).wf(),
        ensures
            final(self).wf(),
            final(self).log_capacity() == old(self).log_capacity(),
            final(self).queue_capacity() == old(self).queue_capacity(),
            final(self).credentials() == old(self).credentials(),
            final(self).log_view() == old(self).log_view(),
            final(self).hub_fresh_id() == old(self).hub_fresh_id(),
            *final(conn) is Closed,
            match *old(conn) {
                Conn::Active { identity, handle_id } => final(self).hub_view() == remove_id(
                    old(self).hub_view(),
                    handle_id,
                ),
                _ => final(self).hub_view() == old(self).hub_view(),
            },
    {
        match conn {
            Conn::Active { identity: _, handle_id } => {
                let id = *handle_id;
                self.hub.unregister(id);
            },
            _ => {},
        }
        *conn = Conn::Closed;
    }

    /// Everything pending for a session's hub handle, in delivery order;
    /// the per-session writer drains this and sends it on the transport.
    pub fn take_pending(&mut self, handle_id: u64) -> (lines: Vec<String>)
        requires
            old(self).wf(),
        ensures
            final(self).wf(),
            final(self).log_capacity() == old(self).log_capacity(),
            final(self).queue_capacity() == old(self).queue_capacity(),
            final(self).credentials() == old(self).credentials(),
            final(self).log_view() == old(self).log_view(),
            final(self).hub_fresh_id() == old(self).hub_fresh_id(),
            lines.deep_view() == queue_of(old(self).hub_view(), handle_id),
            final(self).hub_view() == drained(old(self).hub_view(), handle_id),
    {
        self.hub.take_pending(handle_id)
    }

    /// The id the next admitted session would be given; `u64::MAX` means
    /// the id space is exhausted, so `handle_frame` may no longer be
    /// called.
    pub fn fresh_registration_id(&self) -> (id: u64)
        ensures
            id == self.hub_fresh_id(),
    {
        self.hub.fresh_registration_id()
    }

    /// A point-in-time copy of the message log, for replay or for the
    /// shell's durable snapshot.
    pub fn log_snapshot(&self) -> (lines: Vec<String>)
        ensures
            lines.deep_view() == self.log_view(),
    {
        self.log.snapshot()
    }
}

/// Registration-order law at the session level. A session `handle_frame`
/// just admitted is the last handle of the hub, fresh and empty, and was
/// handed exactly the log's contents at registration time as its replay —
/// the gateway takes the snapshot and registers in one step, with no
/// message in between. This lemma adds the other half: after any later
/// broadcasts that fit its queue, that handle holds exactly those lines,
/// in broadcast order. Together the session sees the snapshot plus every
/// line broadcast after its registration, each exactly once, in order.
pub proof fn lemma_admitted_session_delivery(admitted: Server, id: u64, lines: Seq<Seq<char>>)
    requires
        admitted.wf(),
        admitted.hub_view().len() > 0,
        admitted.hub_view().last() == (HandleView { id, queue: Seq::empty() }),
        lines.len() <= admitted.queue_capacity(),
    ensures
        queue_of(deliver_all(admitted.hub_view(), lines, admitted.queue_capacity()), id)
            == lines,
{
    let handles = admitted.hub_view();
    let prefix = handles.drop_last();
    assert(unique_ids(handles));
    assert(unique_ids(prefix)) by {
        assert(forall|i: int| 0 <= i < prefix.len() ==> prefix[i] == handles[i]);
    }
    assert(!has_id(prefix, id)) by {
        if has_id(prefix, id) {
            let w = choose|i: int| 0 <= i < prefix.len() && (#[trigger] prefix[i]).id == id;
            assert(handles[w].id == handles[handles.len() - 1].id);
        }
    }
    assert(prefix.push(HandleView { id, queue: Seq::empty() }) =~= handles);
    lemma_registration_order(prefix, lines, admitted.queue_capacity(), id);
}

} // verus!
