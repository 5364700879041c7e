//! The PTY manager: the warm pool, the session table, and the routing
//! state of every live PTY, as one sequential state machine.
//!
//! The manager decides; the host around it performs. Each operation either
//! answers a lookup (which handle to write to, to resize, to probe) or
//! returns the actions the host must carry out (spawn a shell, resize a
//! master, send a replay batch, write a `cd` command, kill a child). A PTY
//! is identified by a handle, the index of its router slot; a slot lives
//! from spawn until its reader reports end of file.

use vstd::prelude::*;
use vstd::string::StringExecFns;
use vstd::utf8::encode_utf8;
use crate::MAX_POOL_SIZE;
use crate::cwd::{cd_command, cd_command_spec};
use crate::errors::PtyError;
use crate::messages::{lossy_decode, PtySize, TerminalExitPayload, TerminalOutput};
use crate::router::OutputRouter;

verus! {

/// The message carried by the error for an unknown terminal id.
pub open spec fn not_found_message(id: Seq<char>) -> Seq<char> {
    "Terminal "@ + id + " not found"@
}

/// True when a creation request asks for a working directory: the argument
/// is present and not empty.
pub open spec fn wants_cwd(cwd: Option<String>) -> bool {
    cwd matches Some(d) && d@.len() > 0
}

/// What the host must do to finish creating a terminal.
pub enum CreateAction {
    /// A pooled PTY was assigned. Apply in order: resize its master to
    /// `size`, send `replay` on the new channel if present, write `inject`
    /// to its shell if present. Resizing must come first: the replayed
    /// bytes were produced at the pool's default size, and the emulator
    /// re-wraps them only for the width in force when they arrive.
    PoolHit {
        handle: usize,
        size: PtySize,
        replay: Option<TerminalOutput>,
        inject: Option<Vec<u8>>,
    },
    /// The pool was empty. Open a fresh PTY at `size`, spawn the shell with
    /// the requested working directory set at spawn time, then call
    /// `register_fresh`.
    SpawnFresh { size: PtySize },
}

/// One live, assigned terminal: its id and the handle of its PTY.
pub struct Session {
    pub terminal_id: String,
    pub handle: usize,
}

/// The manager's whole state.
pub struct PtyManager {
    /// Terminal id to PTY handle, unique in both columns.
    sessions: Vec<Session>,
    /// Handles of pooled, pre-spawned PTYs; popped most-recent-first.
    pool: Vec<usize>,
    /// The routing state of every PTY ever spawned, indexed by handle;
    /// `None` once the PTY's reader has reported end of file.
    routers: Vec<Option<OutputRouter>>,
}

impl PtyManager {
    /// The session table.
    pub closed spec fn sessions_seq(self) -> Seq<Session> {
        self.sessions@
    }

    /// The pooled handles, oldest first.
    pub closed spec fn pool_handles(self) -> Seq<usize> {
        self.pool@
    }

    /// All router slots, indexed by handle.
    pub closed spec fn slots_seq(self) -> Seq<Option<OutputRouter>> {
        self.routers@
    }

    /// How many PTYs sit in the pool.
    pub open spec fn pool_len(self) -> nat {
        self.pool_handles().len()
    }

    /// True while the PTY with this handle has a live router slot.
    pub open spec fn live_slot(self, h: int) -> bool {
        0 <= h < self.slots_seq().len() && self.slots_seq()[h] is Some
    }

    /// The router of the PTY with this handle.
    pub open spec fn slot(self, h: int) -> OutputRouter
        recommends
            self.live_slot(h),
    {
        self.slots_seq()[h]->0
    }

    /// True when the session table holds the terminal id.
    pub open spec fn has_session(self, id: Seq<char>) -> bool {
        exists|i: int|
            0 <= i < self.sessions_seq().len() && (#[trigger] self.sessions_seq()[i]).terminal_id@
                == id
    }

    /// The table row holding the terminal id.
    pub open spec fn session_index(self, id: Seq<char>) -> int {
        choose|i: int|
            0 <= i < self.sessions_seq().len() && (#[trigger] self.sessions_seq()[i]).terminal_id@
                == id
    }

    /// The handle of the terminal's PTY.
    pub open spec fn session_handle(self, id: Seq<char>) -> usize
        recommends
            self.has_session(id),
    {
        self.sessions_seq()[self.session_index(id)].handle
    }

    /// The pool invariant: never over the bound, no handle twice, and every
    /// pooled PTY's router still buffering and unassigned.
    pub open spec fn pool_wf(self) -> bool {
        &&& self.pool_handles().len() <= MAX_POOL_SIZE
        &&& forall|i: int, j: int|
            #![trigger self.pool_handles()[i], self.pool_handles()[j]]
            0 <= i < j < self.pool_handles().len() ==> self.pool_handles()[i]
                != self.pool_handles()[j]
        &&& forall|i: int|
            0 <= i < self.pool_handles().len() ==> self.live_slot(
                #[trigger] self.pool_handles()[i] as int,
            )
        &&& forall|i: int|
            0 <= i < self.pool_handles().len() ==> self.slot(
                #[trigger] self.pool_handles()[i] as int,
            ).is_buffering() && self.slot(self.pool_handles()[i] as int).assigned_id is None
    }

    /// The session-table invariant: ids and handles unique, handles in
    /// range, and a session's router, while it lives, streams to that very
    /// terminal.
    pub open spec fn sessions_wf(self) -> bool {
        &&& forall|i: int, j: int|
            #![trigger self.sessions_seq()[i], self.sessions_seq()[j]]
            0 <= i < j < self.sessions_seq().len() ==> self.sessions_seq()[i].terminal_id@
                != self.sessions_seq()[j].terminal_id@
        &&& forall|i: int, j: int|
            #![trigger self.sessions_seq()[i], self.sessions_seq()[j]]
            0 <= i < j < self.sessions_seq().len() ==> self.sessions_seq()[i].handle
                != self.sessions_seq()[j].handle
        &&& forall|i: int|
            0 <= i < self.sessions_seq().len() ==> (#[trigger] self.sessions_seq()[i]).handle
                < self.slots_seq().len()
        &&& forall|i: int|
            0 <= i < self.sessions_seq().len() && self.live_slot(
                (#[trigger] self.sessions_seq()[i]).handle as int,
            ) ==> self.slot(self.sessions_seq()[i].handle as int).is_streaming() && self.slot(
                self.sessions_seq()[i].handle as int,
            ).stream_id() == self.sessions_seq()[i].terminal_id@
    }

    /// Pooled PTYs and sessions never share a handle.
    pub open spec fn disjoint_wf(self) -> bool {
        forall|i: int, j: int|
            #![trigger self.pool_handles()[i], self.sessions_seq()[j]]
            0 <= i < self.pool_handles().len() && 0 <= j < self.sessions_seq().len()
                ==> self.pool_handles()[i] != self.sessions_seq()[j].handle
    }

    /// Every live router is itself well formed.
    pub open spec fn slots_wf(self) -> bool {
        forall|h: int|
            0 <= h < self.slots_seq().len() && (#[trigger] self.slots_seq()[h]) is Some
                ==> self.slots_seq()[h]->0.wf()
    }

    /// The manager's invariant, established by `new` and preserved by every
    /// operation.
    pub open spec fn wf(self) -> bool {
        &&& self.pool_wf()
        &&& self.sessions_wf()
        &&& self.disjoint_wf()
        &&& self.slots_wf()
    }

    /// An empty manager: no sessions, nothing pooled, no PTY ever spawned.
    pub fn new() -> (m: PtyManager)
        ensures
            m.wf(),
            m.pool_len() == 0,
            m.sessions_seq().len() == 0,
            m.slots_seq().len() == 0,
    {
        PtyManager { sessions: Vec::new(), pool: Vec::new(), routers: Vec::new() }
    }

    /// How many PTYs sit in the pool.
    pub fn pool_count(&self) -> (n: usize)
        ensures
            n == self.pool_len(),
    {
        self.pool.len()
    }

    /// How many terminals the session table holds.
    pub fn session_count(&self) -> (n: usize)
        ensures
            n == self.sessions_seq().len(),
    {
        self.sessions.len()
    }

    /// How many fresh shells a warm request may spawn: enough to reach the
    /// requested count, but never past the pool bound.
    pub fn spawn_quota(&self, count: usize) -> (n: usize)
        requires
            self.wf(),
        ensures
            n == if count <= MAX_POOL_SIZE - self.pool_len() {
                count as int
            } else {
                MAX_POOL_SIZE - self.pool_len()
            },
            self.pool_len() + n <= MAX_POOL_SIZE,
    {
        let current = self.pool.len();
        let avail = MAX_POOL_SIZE - current;
        if count < avail {
            count
        } else {
            avail
        }
    }

    /// Admit one freshly spawned PTY to the pool: allocate its handle, give
    /// it a buffering, unassigned router, and push it. Refused exactly when
    /// the pool is full, so the pool can never exceed its bound.
    pub fn admit_to_pool(&mut self) -> (r: Option<usize>)
        requires
            old(self).wf(),
        ensures
            final(self).wf(),
            old(self).pool_len() >= MAX_POOL_SIZE ==> r is None && *final(self) == *old(self),
            old(self).pool_len() < MAX_POOL_SIZE ==> {
                &&& r matches Some(h)
                &&& r matches Some(h) ==> {
                    &&& h == old(self).slots_seq().len()
                    &&& final(self).pool_handles() == old(self).pool_handles().push(h)
                    &&& final(self).sessions_seq() == old(self).sessions_seq()
                    &&& final(self).slots_seq().len() == old(self).slots_seq().len() + 1
                    &&& forall|x: int|
                        0 <= x < old(self).slots_seq().len() ==> final(self).slots_seq()[x]
                            == old(self).slots_seq()[x]
                    &&& final(self).live_slot(h as int)
                    &&& final(self).slot(h as int).is_buffering()
                    &&& final(self).slot(h as int).buffered() == Seq::<u8>::empty()
                    &&& final(self).slot(h as int).assigned_id is None
                }
            },
    {
        if self.pool.len() >= MAX_POOL_SIZE {
            return None;
        }
        let h = self.routers.len();
        self.routers.push(Some(OutputRouter::new()));
        self.pool.push(h);
        Some(h)
    }

    /// Empty the pool in one sweep, handing back the drained handles so the
    /// caller can kill their shells. The drained routers stay buffering and
    /// unassigned, so those readers will emit no exit events at end of
    /// file.
    pub fn drain_pool(&mut self) -> (drained: Vec<usize>)
        requires
            old(self).wf(),
        ensures
            final(self).wf(),
            drained@ == old(self).pool_handles(),
            final(self).pool_len() == 0,
            final(self).sessions_seq() == old(self).sessions_seq(),
            final(self).slots_seq() == old(self).slots_seq(),
    {
        let drained = self.pool.split_off(0);
        proof {
            assert(self.pool@ =~= Seq::<usize>::empty());
            assert(drained@ =~= old(self).pool@);
        }
        drained
    }

    /// A row holding the id pins down `session_index`, because ids are
    /// unique.
    proof fn lemma_found_index(self, i: int, id: Seq<char>)
        requires
            self.sessions_wf(),
            0 <= i < self.sessions_seq().len(),
            self.sessions_seq()[i].terminal_id@ == id,
        ensures
            self.has_session(id),
            self.session_index(id) == i,
    {
        assert(self.has_session(id));
        let j = self.session_index(id);
        assert(0 <= j < self.sessions_seq().len() && self.sessions_seq()[j].terminal_id@ == id);
        if i < j {
            assert(self.sessions_seq()[i].terminal_id@ != self.sessions_seq()[j].terminal_id@);
        } else if j < i {
            assert(self.sessions_seq()[j].terminal_id@ != self.sessions_seq()[i].terminal_id@);
        }
    }

    /// The table row for a terminal id, if the table holds it.
    fn find_session(&self, terminal_id: &String) -> (r: Option<usize>)
        requires
            self.wf(),
        ensures
            r is Some <==> self.has_session(terminal_id@),
            r matches Some(i) ==> {
                &&& i < self.sessions_seq().len()
                &&& self.sessions_seq()[i as int].terminal_id@ == terminal_id@
                &&& self.session_index(terminal_id@) == i
                &&& self.sessions_seq()[i as int].handle == self.session_handle(terminal_id@)
            },
    {
        let mut i: usize = 0;
        while i < self.sessions.len()
            invariant
                self.wf(),
                i <= self.sessions_seq().len(),
                forall|k: int|
                    0 <= k < i ==> (#[trigger] self.sessions_seq()[k]).terminal_id@
                        != terminal_id@,
            decreases self.sessions_seq().len() - i,
        {
            if self.sessions[i].terminal_id == *terminal_id {
                proof {
                    self.lemma_found_index(i as int, terminal_id@);
                }
                return Some(i);
            }
            i += 1;
        }
        None
    }

    /// The error returned for a terminal id the table does not hold.
    fn not_found_error(terminal_id: &String) -> (e: PtyError)
        ensures
            e.message@ == not_found_message(terminal_id@),
    {
        let mut msg = String::from_str("Terminal ");
        msg.append(terminal_id.as_str());
        msg.append(" not found");
        PtyError { message: msg }
    }

    /// Look up the handle whose writer carries input for this terminal. The
    /// write itself goes through the host on the returned handle; the only
    /// error is an unknown id.
    pub fn write_terminal(&self, terminal_id: &String) -> (r: Result<usize, PtyError>)
        requires
            self.wf(),
        ensures
            r is Ok <==> self.has_session(terminal_id@),
            r matches Ok(h) ==> h == self.session_handle(terminal_id@),
            r matches Err(e) ==> e.message@ == not_found_message(terminal_id@),
    {
        match self.find_session(terminal_id) {
            Some(i) => Ok(self.sessions[i].handle),
            None => Err(Self::not_found_error(terminal_id)),
        }
    }

    /// Look up the handle whose master must be resized, and the size to
    /// apply: the requested cells, with zero pixel dimensions.
    pub fn resize_terminal(&self, terminal_id: &String, cols: u16, rows: u16) -> (r: Result<
        (usize, PtySize),
        PtyError,
    >)
        requires
            self.wf(),
        ensures
            r is Ok <==> self.has_session(terminal_id@),
            r matches Ok(p) ==> p.0 == self.session_handle(terminal_id@) && p.1 == (PtySize {
                rows,
                cols,
                pixel_width: 0,
                pixel_height: 0,
            }),
            r matches Err(e) ==> e.message@ == not_found_message(terminal_id@),
    {
        match self.find_session(terminal_id) {
            Some(i) => Ok((self.sessions[i].handle, PtySize::cells(rows, cols))),
            None => Err(Self::not_found_error(terminal_id)),
        }
    }

    /// Look up the handle whose child's working directory the external
    /// probe should report on. The probe itself runs outside any lock the
    /// host keeps on this manager, so it cannot block other operations.
    pub fn cwd_probe_target(&self, terminal_id: &String) -> (r: Result<usize, PtyError>)
        requires
            self.wf(),
        ensures
            r is Ok <==> self.has_session(terminal_id@),
            r matches Ok(h) ==> h == self.session_handle(terminal_id@),
            r matches Err(e) ==> e.message@ == not_found_message(terminal_id@),
    {
        match self.find_session(terminal_id) {
            Some(i) => Ok(self.sessions[i].handle),
            None => Err(Self::not_found_error(terminal_id)),
        }
    }

    /// Remove the terminal from the table and hand back the handle whose
    /// child to kill. Closing an unknown id does nothing: the operation is
    /// idempotent and never fails.
    pub fn close_terminal(&mut self, terminal_id: &String) -> (kill: Option<usize>)
        requires
            old(self).wf(),
        ensures
            final(self).wf(),
            !final(self).has_session(terminal_id@),
            kill is Some <==> old(self).has_session(terminal_id@),
            kill matches Some(h) ==> h == old(self).session_handle(terminal_id@),
            forall|id: Seq<char>|
                id != terminal_id@ ==> (#[trigger] final(self).has_session(id)
                    <==> old(self).has_session(id)),
            forall|id: Seq<char>|
                id != terminal_id@ && old(self).has_session(id)
                    ==> #[trigger] final(self).session_handle(id) == old(self).session_handle(id),
            final(self).pool_handles() == old(self).pool_handles(),
            final(self).slots_seq() == old(self).slots_seq(),
    {
        match self.find_session(terminal_id) {
            Some(i) => {
                let h = self.sessions[i].handle;
                let _removed = self.sessions.remove(i);
                proof {
                    self.lemma_after_remove(*old(self), i as int, terminal_id@);
                }
                Some(h)
            }
            None => None,
        }
    }

    /// What removing one table row leaves: everything about every other id
    /// is untouched.
    proof fn lemma_after_remove(self, prior: PtyManager, i: int, id: Seq<char>)
        requires
            prior.wf(),
            0 <= i < prior.sessions_seq().len(),
            prior.sessions_seq()[i].terminal_id@ == id,
            self.sessions_seq() == prior.sessions_seq().remove(i),
            self.pool_handles() == prior.pool_handles(),
            self.slots_seq() == prior.slots_seq(),
        ensures
            self.wf(),
            !self.has_session(id),
            forall|other: Seq<char>|
                other != id ==> (#[trigger] self.has_session(other) <==> prior.has_session(other)),
            forall|other: Seq<char>|
                other != id && prior.has_session(other) ==> #[trigger] self.session_handle(other)
                    == prior.session_handle(other),
    {
        let olds = prior.sessions_seq();
        let news = self.sessions_seq();
        assert(news.len() == olds.len() - 1);
        assert(forall|k: int|
            0 <= k < news.len() ==> #[trigger] news[k] == if k < i {
                olds[k]
            } else {
                olds[k + 1]
            });

        assert(self.sessions_wf());
        assert(self.pool_wf());
        assert(self.disjoint_wf());
        assert(self.slots_wf());

        assert(!self.has_session(id)) by {
            if self.has_session(id) {
                let k = choose|k: int|
                    0 <= k < news.len() && (#[trigger] news[k]).terminal_id@ == id;
                let ko = if k < i {
                    k
                } else {
                    k + 1
                };
                assert(olds[ko].terminal_id@ == id);
                assert(ko != i);
                assert(olds[ko].terminal_id@ != olds[i].terminal_id@);
            }
        }

        assert forall|other: Seq<char>| other != id implies (#[trigger] self.has_session(other)
            <==> prior.has_session(other)) by {
            if prior.has_session(other) {
                let ko = prior.session_index(other);
                assert(0 <= ko < olds.len() && olds[ko].terminal_id@ == other);
                assert(ko != i);
                let kn = if ko < i {
                    ko
                } else {
                    ko - 1
                };
                assert(news[kn].terminal_id@ == other);
                assert(self.has_session(other));
            }
            if self.has_session(other) {
                let kn = self.session_index(other);
                assert(0 <= kn < news.len() && news[kn].terminal_id@ == other);
                let ko = if kn < i {
                    kn
                } else {
                    kn + 1
                };
                assert(olds[ko].terminal_id@ == other);
                assert(prior.has_session(other));
            }
        }

        assert forall|other: Seq<char>| other != id && prior.has_session(other) implies #[trigger] self.session_handle(
            other,
        ) == prior.session_handle(other) by {
            let ko = prior.session_index(other);
            assert(0 <= ko < olds.len() && olds[ko].terminal_id@ == other);
            assert(ko != i);
            let kn = if ko < i {
                ko
            } else {
                ko - 1
            };
            assert(news[kn].terminal_id@ == other);
            self.lemma_found_index(kn, other);
            assert(self.session_handle(other) == news[kn].handle);
            prior.lemma_found_index(ko, other);
            assert(prior.session_handle(other) == olds[ko].handle);
        }
    }

    /// What appending a fresh table row leaves: the new id maps to the new
    /// handle, and everything about every other id is untouched.
    proof fn lemma_after_push(self, prior: PtyManager, id: Seq<char>, h: usize)
        requires
            prior.wf(),
            !prior.has_session(id),
            prior.live_slot(h as int),
            prior.slot(h as int).is_streaming(),
            prior.slot(h as int).stream_id() == id,
            forall|j: int|
                0 <= j < prior.sessions_seq().len() ==> (#[trigger] prior.sessions_seq()[j]).handle
                    != h,
            forall|i: int|
                0 <= i < prior.pool_handles().len() ==> (#[trigger] prior.pool_handles()[i]) != h,
            self.sessions_seq().len() == prior.sessions_seq().len() + 1,
            forall|k: int|
                0 <= k < prior.sessions_seq().len() ==> #[trigger] self.sessions_seq()[k]
                    == prior.sessions_seq()[k],
            self.sessions_seq().last().terminal_id@ == id,
            self.sessions_seq().last().handle == h,
            self.pool_handles() == prior.pool_handles(),
            self.slots_seq() == prior.slots_seq(),
        ensures
            self.wf(),
            self.has_session(id),
            self.session_handle(id) == h,
            forall|other: Seq<char>|
                other != id ==> (#[trigger] self.has_session(other) <==> prior.has_session(other)),
            forall|other: Seq<char>|
                other != id && prior.has_session(other) ==> #[trigger] self.session_handle(other)
                    == prior.session_handle(other),
    {
        let olds = prior.sessions_seq();
        let news = self.sessions_seq();
        let n = olds.len() as int;
        assert(news[n] == news.last());

        assert(forall|k: int|
            0 <= k < n ==> (#[trigger] news[k]).terminal_id@ != id) by {
            if exists|k: int| 0 <= k < n && (#[trigger] news[k]).terminal_id@ == id {
                let k = choose|k: int| 0 <= k < n && (#[trigger] news[k]).terminal_id@ == id;
                assert(olds[k].terminal_id@ == id);
                assert(prior.has_session(id));
            }
        }

        assert(self.sessions_wf());
        assert(self.pool_wf());
        assert(self.disjoint_wf());
        assert(self.slots_wf());

        self.lemma_found_index(n, id);

        assert forall|other: Seq<char>| other != id implies (#[trigger] self.has_session(other)
            <==> prior.has_session(other)) by {
            if prior.has_session(other) {
                let j = prior.session_index(other);
                assert(olds[j].terminal_id@ == other);
                assert(news[j].terminal_id@ == other);
                assert(self.has_session(other));
            }
            if self.has_session(other) {
                let j = self.session_index(other);
                assert(news[j].terminal_id@ == other);
                assert(j != n);
                assert(olds[j].terminal_id@ == other);
                assert(prior.has_session(other));
            }
        }

        assert forall|other: Seq<char>| other != id && prior.has_session(other)
            implies #[trigger] self.session_handle(other) == prior.session_handle(other) by {
            let j = prior.session_index(other);
            assert(olds[j].terminal_id@ == other);
            assert(news[j].terminal_id@ == other);
            self.lemma_found_index(j, other);
            prior.lemma_found_index(j, other);
        }
    }

    /// Record that the terminal now owns the PTY with handle `h`,
    /// overwriting any session the id already had, as insertion into the
    /// table always does.
    fn insert_session(&mut self, terminal_id: &String, h: usize)
        requires
            old(self).wf(),
            old(self).live_slot(h as int),
            old(self).slot(h as int).is_streaming(),
            old(self).slot(h as int).stream_id() == terminal_id@,
            forall|j: int|
                0 <= j < old(self).sessions_seq().len() ==> (#[trigger] old(self).sessions_seq()[j]).handle != h,
            forall|i: int|
                0 <= i < old(self).pool_handles().len() ==> (#[trigger] old(self).pool_handles()[i]) != h,
        ensures
            final(self).wf(),
            final(self).has_session(terminal_id@),
            final(self).session_handle(terminal_id@) == h,
            forall|id: Seq<char>|
                id != terminal_id@ ==> (#[trigger] final(self).has_session(id)
                    <==> old(self).has_session(id)),
            forall|id: Seq<char>|
                id != terminal_id@ && old(self).has_session(id)
                    ==> #[trigger] final(self).session_handle(id) == old(self).session_handle(id),
            final(self).pool_handles() == old(self).pool_handles(),
            final(self).slots_seq() == old(self).slots_seq(),
    {
        match self.find_session(terminal_id) {
            Some(i) => {
                let _removed = self.sessions.remove(i);
                proof {
                    self.lemma_after_remove(*old(self), i as int, terminal_id@);
                    assert forall|j: int|
                        0 <= j < self.sessions_seq().len() implies (#[trigger] self
                        .sessions_seq()[j]).handle != h by {
                        let k = if j < i {
                            j
                        } else {
                            j + 1
                        };
                        assert(self.sessions_seq()[j] == old(self).sessions_seq()[k]);
                    }
                }
            }
            None => {}
        }
        let ghost mid = *self;
        self.sessions.push(Session { terminal_id: terminal_id.clone(), handle: h });
        proof {
            assert(self.sessions_seq().last().terminal_id@ == terminal_id@);
            assert(forall|k: int|
                0 <= k < mid.sessions_seq().len() ==> #[trigger] self.sessions_seq()[k]
                    == mid.sessions_seq()[k]);
            self.lemma_after_push(mid, terminal_id@, h);
        }
    }

    /// Create a terminal: pop the most recently pooled PTY and re-target
    /// it, or ask the host for a fresh spawn when the pool is empty. On a
    /// pool hit the router switches to streaming here; the buffered bytes
    /// are replayed when no working directory was asked for, and discarded
    /// otherwise, since the injected `cd` produces a fresh prompt anyway.
    pub fn create_terminal(
        &mut self,
        terminal_id: &String,
        cwd: &Option<String>,
        cols: u16,
        rows: u16,
    ) -> (r: CreateAction)
        requires
            old(self).wf(),
        ensures
            final(self).wf(),
            old(self).pool_len() == 0 ==> *final(self) == *old(self) && (r matches
                CreateAction::SpawnFresh { size } && size == (PtySize {
                rows,
                cols,
                pixel_width: 0,
                pixel_height: 0,
            })),
            old(self).pool_len() > 0 ==> ({
                let h = old(self).pool_handles().last() as int;
                &&& final(self).pool_handles() == old(self).pool_handles().drop_last()
                &&& final(self).slots_seq().len() == old(self).slots_seq().len()
                &&& forall|x: int|
                    0 <= x < old(self).slots_seq().len() && x != h ==> final(self).slots_seq()[x]
                        == old(self).slots_seq()[x]
                &&& final(self).live_slot(h)
                &&& final(self).slot(h).is_streaming()
                &&& final(self).slot(h).stream_id() == terminal_id@
                &&& final(self).has_session(terminal_id@)
                &&& final(self).session_handle(terminal_id@) == old(self).pool_handles().last()
                &&& forall|id: Seq<char>|
                    id != terminal_id@ ==> (#[trigger] final(self).has_session(id)
                        <==> old(self).has_session(id))
                &&& forall|id: Seq<char>|
                    id != terminal_id@ && old(self).has_session(id)
                        ==> #[trigger] final(self).session_handle(id) == old(self).session_handle(
                        id,
                    )
                &&& r matches CreateAction::PoolHit { handle, size, replay, inject }
                &&& r matches CreateAction::PoolHit { handle, size, replay, inject } ==> {
                    &&& handle == old(self).pool_handles().last()
                    &&& size == (PtySize { rows, cols, pixel_width: 0, pixel_height: 0 })
                    &&& wants_cwd(*cwd) ==> replay is None
                    &&& wants_cwd(*cwd) ==> (inject matches Some(cmd) && cmd@ == cd_command_spec(
                        encode_utf8((*cwd)->0@),
                    ))
                    &&& !wants_cwd(*cwd) ==> inject is None
                    &&& !wants_cwd(*cwd) ==> (replay is Some <==> old(self).slot(
                        h,
                    ).buffered().len() > 0)
                    &&& !wants_cwd(*cwd) ==> (replay matches Some(out) ==> out.terminal_id@
                        == terminal_id@ && out.data@ == lossy_decode(old(self).slot(h).buffered()))
                }
            }),
    {
        let has_cwd = match cwd {
            Some(d) => !d.as_str().is_empty(),
            None => false,
        };
        if self.pool.is_empty() {
            return CreateAction::SpawnFresh { size: PtySize::cells(rows, cols) };
        }
        let popped = self.pool.pop();
        match popped {
            None => {
                proof {
                    assert(false);
                }
                CreateAction::SpawnFresh { size: PtySize::cells(rows, cols) }
            }
            Some(h) => {
                proof {
                    let last = old(self).pool_handles().len() - 1;
                    assert(old(self).pool_handles()[last] == h);
                    assert(old(self).live_slot(h as int));
                    assert(old(self).slot(h as int).is_buffering());
                    assert forall|i: int|
                        0 <= i < self.pool_handles().len() implies #[trigger] self
                        .pool_handles()[i] != h by {
                        assert(old(self).pool_handles()[i] != old(self).pool_handles()[last]);
                    }
                    assert forall|j: int|
                        0 <= j < self.sessions_seq().len() implies (#[trigger] self
                        .sessions_seq()[j]).handle != h by {
                        assert(old(self).pool_handles()[last] != old(self).sessions_seq()[j].handle);
                    }
                }
                let mut taken: Option<OutputRouter> = None;
                self.routers.set_and_swap(h, &mut taken);
                let router_out: OutputRouter;
                let replay: Option<TerminalOutput>;
                match taken {
                    Some(mut router) => {
                        replay = router.assign(terminal_id, !has_cwd);
                        router_out = router;
                    }
                    None => {
                        proof {
                            assert(false);
                        }
                        replay = None;
                        router_out = OutputRouter::new();
                    }
                }
                self.routers.set(h, Some(router_out));
                proof {
                    assert(self.slots_seq()[h as int] == Some(router_out));
                    assert(self.live_slot(h as int));
                    assert(self.slot(h as int).is_streaming());
                    assert(self.slot(h as int).stream_id() == terminal_id@);
                    assert(forall|x: int|
                        0 <= x < old(self).slots_seq().len() && x != h
                            ==> #[trigger] self.slots_seq()[x] == old(self).slots_seq()[x]);
                    assert(self.pool_wf());
                    assert(self.sessions_wf());
                    assert(self.disjoint_wf());
                    assert(self.slots_wf());
                }
                let inject: Option<Vec<u8>> = if has_cwd {
                    match cwd {
                        Some(d) => Some(cd_command(d.as_str().as_bytes())),
                        None => None,
                    }
                } else {
                    None
                };
                self.insert_session(terminal_id, h);
                CreateAction::PoolHit { handle: h, size: PtySize::cells(rows, cols), replay, inject }
            }
        }
    }

    /// Complete a pool miss once the host has spawned a fresh PTY: allocate
    /// its handle, record the session, and start its router streaming from
    /// the first byte — a fresh PTY has no pooled life, and its reader
    /// always owes an exit event.
    pub fn register_fresh(&mut self, terminal_id: &String) -> (h: usize)
        requires
            old(self).wf(),
        ensures
            final(self).wf(),
            h == old(self).slots_seq().len(),
            final(self).slots_seq().len() == old(self).slots_seq().len() + 1,
            forall|x: int|
                0 <= x < old(self).slots_seq().len() ==> final(self).slots_seq()[x]
                    == old(self).slots_seq()[x],
            final(self).live_slot(h as int),
            final(self).slot(h as int).is_streaming(),
            final(self).slot(h as int).stream_id() == terminal_id@,
            final(self).has_session(terminal_id@),
            final(self).session_handle(terminal_id@) == h,
            forall|id: Seq<char>|
                id != terminal_id@ ==> (#[trigger] final(self).has_session(id)
                    <==> old(self).has_session(id)),
            forall|id: Seq<char>|
                id != terminal_id@ && old(self).has_session(id)
                    ==> #[trigger] final(self).session_handle(id) == old(self).session_handle(id),
            final(self).pool_handles() == old(self).pool_handles(),
    {
        let h = self.routers.len();
        let mut router = OutputRouter::new();
        let _ = router.assign(terminal_id, false);
        self.routers.push(Some(router));
        proof {
            assert(self.live_slot(h as int));
            assert(self.slot(h as int).is_streaming());
            assert(self.slot(h as int).stream_id() == terminal_id@);
            assert(self.pool_wf());
            assert(self.sessions_wf());
            assert(self.slots_wf());
        }
        self.insert_session(terminal_id, h);
        h
    }

    /// The pool row holding a handle, if any.
    fn find_pool_index(&self, handle: usize) -> (r: Option<usize>)
        ensures
            r matches Some(i) ==> i < self.pool_handles().len() && self.pool_handles()[i as int]
                == handle,
            r is None ==> forall|i: int|
                0 <= i < self.pool_handles().len() ==> #[trigger] self.pool_handles()[i] != handle,
    {
        let mut i: usize = 0;
        while i < self.pool.len()
            invariant
                i <= self.pool_handles().len(),
                forall|k: int| 0 <= k < i ==> #[trigger] self.pool_handles()[k] != handle,
            decreases self.pool_handles().len() - i,
        {
            if self.pool[i] == handle {
                return Some(i);
            }
            i += 1;
        }
        None
    }

    /// Route one batch of reader output for the PTY with this handle:
    /// accumulated while the PTY is pooled, or handed back as the message
    /// for the assigned terminal's channel. Output for a retired handle is
    /// dropped.
    pub fn route_output(&mut self, handle: usize, bytes: &[u8]) -> (r: Option<TerminalOutput>)
        requires
            old(self).wf(),
        ensures
            final(self).wf(),
            final(self).sessions_seq() == old(self).sessions_seq(),
            final(self).pool_handles() == old(self).pool_handles(),
            !old(self).live_slot(handle as int) ==> r is None && *final(self) == *old(self),
            old(self).live_slot(handle as int) ==> {
                &&& final(self).slots_seq().len() == old(self).slots_seq().len()
                &&& forall|x: int|
                    0 <= x < old(self).slots_seq().len() && x != handle ==> final(self).slots_seq()[x] == old(self).slots_seq()[x]
                &&& final(self).live_slot(handle as int)
                &&& old(self).slot(handle as int).is_buffering() ==> {
                    &&& r is None
                    &&& final(self).slot(handle as int).is_buffering()
                    &&& final(self).slot(handle as int).buffered() == old(self).slot(
                        handle as int,
                    ).buffered() + bytes@
                    &&& final(self).slot(handle as int).assigned_id == old(self).slot(
                        handle as int,
                    ).assigned_id
                }
                &&& old(self).slot(handle as int).is_streaming() ==> {
                    &&& final(self).slot(handle as int) == old(self).slot(handle as int)
                    &&& r matches Some(out)
                    &&& r matches Some(out) ==> out.terminal_id@ == old(self).slot(
                        handle as int,
                    ).stream_id() && out.data@ == lossy_decode(bytes@)
                }
            },
    {
        if handle >= self.routers.len() {
            return None;
        }
        if self.routers[handle].is_none() {
            return None;
        }
        let mut taken: Option<OutputRouter> = None;
        self.routers.set_and_swap(handle, &mut taken);
        match taken {
            Some(mut router) => {
                let out = router.route(bytes);
                self.routers.set(handle, Some(router));
                proof {
                    assert(self.slots_seq()[handle as int] == Some(router));
                    assert(forall|x: int|
                        0 <= x < old(self).slots_seq().len() && x != handle
                            ==> #[trigger] self.slots_seq()[x] == old(self).slots_seq()[x]);
                    assert(self.pool_wf());
                    assert(self.sessions_wf());
                    assert(self.disjoint_wf());
                    assert(self.slots_wf());
                }
                out
            }
            None => {
                proof {
                    assert(false);
                }
                None
            }
        }
    }

    /// The reader of the PTY with this handle hit end of file: retire its
    /// slot and decide the exit event. An assigned PTY yields exactly one
    /// exit payload; a never-assigned PTY — pooled, or drained during a
    /// refresh — yields none. A dead PTY still sitting in the pool leaves
    /// it. A handle already retired yields nothing, so no PTY can produce
    /// two exit events.
    pub fn reader_eof(&mut self, handle: usize, exit_code: Option<i32>) -> (r: Option<
        TerminalExitPayload,
    >)
        requires
            old(self).wf(),
        ensures
            final(self).wf(),
            final(self).sessions_seq() == old(self).sessions_seq(),
            !old(self).live_slot(handle as int) ==> r is None && *final(self) == *old(self),
            old(self).live_slot(handle as int) ==> {
                &&& !final(self).live_slot(handle as int)
                &&& final(self).slots_seq().len() == old(self).slots_seq().len()
                &&& forall|x: int|
                    0 <= x < old(self).slots_seq().len() && x != handle ==> final(self).slots_seq()[x] == old(self).slots_seq()[x]
                &&& (r is Some <==> old(self).slot(handle as int).assigned_id is Some)
                &&& r matches Some(p) ==> old(self).slot(handle as int).assigned_id matches Some(t)
                    && p.terminal_id@ == t@ && p.exit_code == exit_code
                &&& (forall|i: int|
                    0 <= i < old(self).pool_handles().len() ==> #[trigger] old(self).pool_handles()[i] != handle) ==> final(self).pool_handles() == old(self).pool_handles()
                &&& forall|k: int|
                    0 <= k < old(self).pool_handles().len() && old(self).pool_handles()[k] == handle
                        ==> final(self).pool_handles() == old(self).pool_handles().remove(k)
            },
    {
        if handle >= self.routers.len() {
            return None;
        }
        if self.routers[handle].is_none() {
            return None;
        }
        let r = match &self.routers[handle] {
            Some(router) => router.exit_payload(exit_code),
            None => None,
        };
        self.routers.set(handle, None);
        match self.find_pool_index(handle) {
            Some(i) => {
                let _h = self.pool.remove(i);
                proof {
                    assert forall|a: int, b: int|
                        #![trigger self.pool_handles()[a], self.pool_handles()[b]]
                        0 <= a < b < self.pool_handles().len() implies self.pool_handles()[a]
                        != self.pool_handles()[b] by {
                        let ao = if a < i {
                            a
                        } else {
                            a + 1
                        };
                        let bo = if b < i {
                            b
                        } else {
                            b + 1
                        };
                        assert(self.pool_handles()[a] == old(self).pool_handles()[ao]);
                        assert(self.pool_handles()[b] == old(self).pool_handles()[bo]);
                    }
                    assert forall|j: int|
                        0 <= j < self.pool_handles().len() implies self.live_slot(
                        #[trigger] self.pool_handles()[j] as int,
                    ) && self.slot(self.pool_handles()[j] as int).is_buffering() && self.slot(
                        self.pool_handles()[j] as int,
                    ).assigned_id is None by {
                        let jo = if j < i {
                            j
                        } else {
                            j + 1
                        };
                        assert(self.pool_handles()[j] == old(self).pool_handles()[jo]);
                        assert(old(self).pool_handles()[jo] != old(self).pool_handles()[i as int]);
                    }
                    assert(self.pool_wf());
                    assert(self.sessions_wf());
                    assert(self.disjoint_wf());
                    assert(self.slots_wf());
                    assert forall|k: int|
                        0 <= k < old(self).pool_handles().len() && old(self).pool_handles()[k]
                            == handle implies final(self).pool_handles() == old(self).pool_handles().remove(k) by {
                        if k != i {
                            assert(old(self).pool_handles()[k] != old(self).pool_handles()[i as int]);
                        }
                    }
                }
            }
            None => {
                proof {
                    assert(self.pool_wf());
                    assert(self.sessions_wf());
                    assert(self.disjoint_wf());
                    assert(self.slots_wf());
                }
            }
        }
        r
    }

    /// The pool never exceeds its bound, whatever sequence of operations
    /// ran: every operation preserves well-formedness, and well-formedness
    /// bounds the pool.
    pub proof fn lemma_pool_bounded(m: PtyManager)
        requires
            m.wf(),
        ensures
            m.pool_len() <= MAX_POOL_SIZE,
    {
    }

    /// While a PTY sits in the pool its router is buffering and not
    /// assigned, so a pooled PTY that dies yields no exit event.
    pub proof fn lemma_pooled_router_state(m: PtyManager, i: int)
        requires
            m.wf(),
            0 <= i < m.pool_len(),
        ensures
            m.live_slot(m.pool_handles()[i] as int),
            m.slot(m.pool_handles()[i] as int).is_buffering(),
            m.slot(m.pool_handles()[i] as int).assigned_id is None,
    {
    }
}

} // verus!
