//! The process supervisor's decisions: exactly zero or one session is live
//! at a time; start installs a fresh session and discards any prior one;
//! stop is an idempotent take-and-discard; send is refused while no session
//! is live. The process handles themselves, and the lock guarding this
//! state, live with the caller — every decision about them is made here.

use vstd::prelude::*;

verus! {

/// Why an operation was refused.
#[derive(Clone, Copy, Debug, PartialEq, Eq, Structural)]
pub enum LspError {
    /// A send was attempted while no session is live.
    NotRunning,
}

/// The supervisor's shared state: which session, if any, is live. Sessions
/// are numbered in the order they are started, so a fresh session is never
/// mistaken for a discarded one.
pub struct Supervisor {
    session: Option<u64>,
    next_session: u64,
}

impl Supervisor {
    /// The live session's number, if one is live.
    pub closed spec fn running_session(&self) -> Option<u64> {
        self.session
    }

    /// How many sessions have been started.
    pub closed spec fn sessions_spent(&self) -> u64 {
        self.next_session
    }

    pub open spec fn is_running(&self) -> bool {
        self.running_session() is Some
    }

    /// A live session's number was issued earlier.
    pub closed spec fn wf(&self) -> bool {
        self.session is Some ==> self.session->0 < self.next_session
    }

    /// The initial state: stopped, before any session.
    pub fn new() -> (s: Supervisor)
        ensures
            s.wf(),
            !s.is_running(),
            s.sessions_spent() == 0,
    {
        Supervisor { session: None, next_session: 0 }
    }

    /// Whether another session can still be numbered. Exhausting the
    /// numbering would take as many starts as the counter has values.
    pub fn can_start(&self) -> (r: bool)
        ensures
            r == (self.sessions_spent() < u64::MAX),
    {
        self.next_session < u64::MAX
    }

    /// Installs a fresh session, discarding whatever session was live: the
    /// fresh session is the only live one, and its number differs from the
    /// discarded one's, so nothing meant for the old session reaches it.
    /// The caller spawns the process and its background task under the
    /// returned number, and drops any prior handle.
    pub fn start(&mut self) -> (sid: u64)
        requires
            old(self).wf(),
            old(self).sessions_spent() < u64::MAX,
        ensures
            final(self).wf(),
            final(self).running_session() == Some(sid),
            sid == old(self).sessions_spent(),
            final(self).sessions_spent() == old(self).sessions_spent() + 1,
            old(self).is_running() ==> sid != old(self).running_session()->0,
    {
        let sid = self.next_session;
        self.next_session = self.next_session + 1;
        self.session = Some(sid);
        sid
    }

    /// Discards the live session, if any. Idempotent: stopping while
    /// stopped changes nothing and is no error. The caller drops the
    /// process handle, which ends that session's background task.
    pub fn stop(&mut self)
        requires
            old(self).wf(),
        ensures
            final(self).wf(),
            !final(self).is_running(),
            final(self).sessions_spent() == old(self).sessions_spent(),
    {
        self.session = None;
    }

    /// Starting anew supersedes whatever session was live: the fresh
    /// session is the only one installed afterwards, and because a live
    /// session's number is always one issued earlier, the fresh number
    /// differs from the discarded one's — so a later send, which `check_send`
    /// directs at the installed session alone, can only reach the fresh
    /// session, never the discarded one.
    pub proof fn lemma_start_supersedes(pre: Supervisor, post: Supervisor, sid: u64)
        requires
            pre.wf(),
            sid == pre.sessions_spent(),
            post.running_session() == Some(sid),
        ensures
            post.is_running(),
            pre.is_running() ==> sid != pre.running_session()->0,
    {
    }

    /// Decides a send: refused with `NotRunning` while no session is live;
    /// otherwise directed at exactly the live session, whose number the
    /// caller uses to write to that session's process and no other.
    pub fn check_send(&self) -> (r: Result<u64, LspError>)
        ensures
            match r {
                Ok(sid) => self.running_session() == Some(sid),
                Err(e) => e == LspError::NotRunning && !self.is_running(),
            },
    {
        match self.session {
            Some(sid) => Ok(sid),
            None => Err(LspError::NotRunning),
        }
    }
}

} // verus!
