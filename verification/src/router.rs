//! The per-PTY output router: the state machine that decides whether reader
//! bytes are buffered (while the PTY sits in the pool) or streamed to the
//! frontend channel of the terminal the PTY was assigned to.
//!
//! The only transition is buffering to streaming, performed exactly once at
//! the moment of assignment. `assigned_id` stays set from then on; at end of
//! file it decides whether an exit event is owed.

use vstd::prelude::*;
use crate::messages::{decode_lossy, lossy_decode, TerminalExitPayload, TerminalOutput};

verus! {

/// Where one PTY's reader output currently goes.
pub enum OutputMode {
    /// The PTY is pooled; output is accumulated until assignment.
    Buffering(Vec<u8>),
    /// The PTY is assigned to the terminal with this id; each batch is
    /// handed to that terminal's channel.
    Streaming(String),
}

/// The routing state of one PTY.
pub struct OutputRouter {
    pub mode: OutputMode,
    /// Set exactly when the router streams; consulted at end of file to
    /// decide whether an exit event is owed.
    pub assigned_id: Option<String>,
}

impl OutputRouter {
    /// True while the router accumulates output.
    pub open spec fn is_buffering(self) -> bool {
        self.mode is Buffering
    }

    /// True once the router streams to a terminal's channel.
    pub open spec fn is_streaming(self) -> bool {
        self.mode is Streaming
    }

    /// The bytes accumulated so far; empty once streaming.
    pub open spec fn buffered(self) -> Seq<u8> {
        match self.mode {
            OutputMode::Buffering(buffer) => buffer@,
            OutputMode::Streaming(_) => Seq::empty(),
        }
    }

    /// The id of the terminal the router streams to.
    pub open spec fn stream_id(self) -> Seq<char>
        recommends
            self.is_streaming(),
    {
        match self.mode {
            OutputMode::Buffering(_) => Seq::empty(),
            OutputMode::Streaming(tid) => tid@,
        }
    }

    /// A router is well formed when `assigned_id` is set exactly while it
    /// streams, and to the id it streams to.
    pub open spec fn wf(self) -> bool {
        match self.mode {
            OutputMode::Buffering(_) => self.assigned_id is None,
            OutputMode::Streaming(tid) => self.assigned_id matches Some(a) && a@ == tid@,
        }
    }

    /// A fresh router for a pooled PTY: buffering, nothing accumulated,
    /// not assigned.
    pub fn new() -> (r: OutputRouter)
        ensures
            r.wf(),
            r.is_buffering(),
            r.buffered() == Seq::<u8>::empty(),
            r.assigned_id is None,
    {
        OutputRouter { mode: OutputMode::Buffering(Vec::new()), assigned_id: None }
    }

    /// Route one batch of complete UTF-8 output: append it to the
    /// accumulator while buffering, otherwise hand back the message to send
    /// on the assigned terminal's channel.
    pub fn route(&mut self, bytes: &[u8]) -> (r: Option<TerminalOutput>)
        ensures
            final(self).assigned_id == old(self).assigned_id,
            old(self).wf() ==> final(self).wf(),
            old(self).is_buffering() ==> {
                &&& final(self).is_buffering()
                &&& final(self).buffered() == old(self).buffered() + bytes@
                &&& r is None
            },
            old(self).is_streaming() ==> {
                &&& *final(self) == *old(self)
                &&& r matches Some(out)
                &&& r matches Some(out) ==> out.terminal_id@ == old(self).stream_id()
                    && out.data@ == lossy_decode(bytes@)
            },
    {
        match &mut self.mode {
            OutputMode::Buffering(buffer) => {
                buffer.extend_from_slice(bytes);
                None
            }
            OutputMode::Streaming(terminal_id) => {
                Some(
                    TerminalOutput {
                        terminal_id: terminal_id.clone(),
                        data: decode_lossy(bytes),
                    },
                )
            }
        }
    }

    /// Switch from buffering to streaming at the moment of assignment; this
    /// happens exactly once per router. Returns the batch to replay on the
    /// new channel: the accumulated bytes, when replay is requested and
    /// anything was accumulated, and nothing otherwise.
    pub fn assign(&mut self, terminal_id: &String, replay: bool) -> (r: Option<TerminalOutput>)
        requires
            old(self).is_buffering(),
        ensures
            final(self).wf(),
            final(self).is_streaming(),
            final(self).stream_id() == terminal_id@,
            final(self).assigned_id matches Some(t) && t@ == terminal_id@,
            r is Some <==> replay && old(self).buffered().len() > 0,
            r matches Some(out) ==> out.terminal_id@ == terminal_id@ && out.data@
                == lossy_decode(old(self).buffered()),
    {
        let mut out: Option<TerminalOutput> = None;
        match &self.mode {
            OutputMode::Buffering(buffer) => {
                if replay && buffer.len() > 0 {
                    out = Some(
                        TerminalOutput {
                            terminal_id: terminal_id.clone(),
                            data: decode_lossy(buffer.as_slice()),
                        },
                    );
                }
            }
            OutputMode::Streaming(_) => {}
        }
        self.mode = OutputMode::Streaming(terminal_id.clone());
        self.assigned_id = Some(terminal_id.clone());
        out
    }

    /// The exit event owed when the reader reaches end of file: one event
    /// carrying the assigned terminal's id, or nothing for a PTY that was
    /// never assigned (a pooled shell drained during a refresh stays
    /// silent).
    pub fn exit_payload(&self, exit_code: Option<i32>) -> (r: Option<TerminalExitPayload>)
        ensures
            r is Some <==> self.assigned_id is Some,
            r matches Some(p) ==> self.assigned_id matches Some(t) && p.terminal_id@ == t@
                && p.exit_code == exit_code,
    {
        match &self.assigned_id {
            Some(tid) => Some(TerminalExitPayload { terminal_id: tid.clone(), exit_code }),
            None => None,
        }
    }
}

} // verus!
