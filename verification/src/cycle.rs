//! The update-cycle orchestrator as an explicit state machine.  The caller
//! performs the file and process work (reads, atomic replaces, the external
//! validator, signer and reload tool) and feeds each result back; every
//! decision — short-circuiting, merging, validation, size sanity checks,
//! serial bumping, bookkeeping — is made here, on plain values.
//!
//! One cycle: snapshot → short-circuit check → reconcile → validate →
//! publish zone → bump serial → publish serial → sign → bookkeeping →
//! reload.  Failures abort the cycle; pending state is only cleared for
//! hosts confirmed processed, so the next tick retries the rest.

use vstd::prelude::*;
use crate::sets::{StrSet, seq_set_eq};
use crate::serial::{bump_serial_lines, first_bumpable, bump_applied, SerialError};
use crate::store::{HostEntry, entries_map, hosts_wf};
use crate::text::{contains_seq, contains_str};
use crate::zone::{update_zone_file_content, zone_merge_out, zone_merge_residual};

verus! {

/// Why a cycle aborted.
#[derive(Clone, Copy, Debug, PartialEq, Eq, Structural)]
pub enum CycleError {
    /// The external zone validator did not report `OK`.
    ValidationFailed,
    /// The rewritten zone in the scratch file is suspiciously small.
    ZoneScratchTooSmall,
    /// The bumped serial in the scratch file is suspiciously small.
    SerialScratchTooSmall,
    /// No line of the serial file holds a serial to bump.
    SerialNotFound,
    /// The external signer failed.
    SignFailed,
}

/// Where the cycle stands; each non-terminal state awaits one result from
/// the caller.
#[derive(Clone, Copy, Debug, PartialEq, Eq, Structural)]
pub enum CycleState {
    /// Awaiting the live zone file's lines.
    Reconciling,
    /// Awaiting the scratch file holding the merged zone.
    WritingScratch,
    /// Awaiting the external validator's output.
    Validating,
    /// Awaiting the scratch file's size before publishing the zone.
    SizingZone,
    /// Awaiting the atomic replace of the zone file.
    PublishingZone,
    /// Awaiting the serial file's lines.
    BumpingSerial,
    /// Awaiting the scratch file holding the bumped serial.
    WritingSerialScratch,
    /// Awaiting the scratch file's size before publishing the serial.
    SizingSerial,
    /// Awaiting the atomic replace of the serial file.
    PublishingSerial,
    /// Awaiting the external signer's result.
    Signing,
    /// Awaiting the store bookkeeping.
    Bookkeeping,
    /// Awaiting the nameserver reload's result.
    Reloading,
    /// Terminal: the cycle is over (done, or short-circuited).
    Idle,
    /// Terminal: the cycle failed; see `error`.
    Aborted,
}

/// What the caller must do next.  Terminal states yield `Done`.
pub enum CycleAction {
    /// Nothing: the cycle is over.
    Done,
    /// Read the live zone file's lines and report them.
    ReadZone,
    /// First hand the residue to the store (`set_unreconciled`), then copy
    /// the zone file to the scratch path preserving attributes, overwrite
    /// the scratch file with these lines, and confirm.
    WriteScratch(Vec<String>, StrSet),
    /// Run the external zone validator against the scratch file and report
    /// its output.
    Validate,
    /// Report the scratch file's size in bytes.
    StatScratch,
    /// Atomically replace the live zone file with the scratch file.
    PublishZone,
    /// Read the serial file's lines and report them.
    ReadSerial,
    /// Copy the serial file to the scratch path preserving attributes,
    /// overwrite the scratch file with these lines, and confirm.
    WriteSerialScratch(Vec<String>),
    /// Atomically replace the serial file with the scratch file.
    PublishSerial,
    /// Run the external signer from the serial file's directory and report
    /// whether it succeeded.
    Sign,
    /// Hand the processed hosts to the store (`finish_cycle`, with this
    /// cycle's forced snapshot), and confirm.
    Finish(StrSet),
    /// Ask the nameserver to reload and report whether that succeeded; its
    /// failure is logged only and does not fail the cycle.
    Reload,
}

/// One reconciliation pass over a snapshot of the store.
pub struct UpdateCycle {
    pub state: CycleState,
    pub error: Option<CycleError>,
    /// Snapshot of the store's entries.
    pub hosts: Vec<HostEntry>,
    /// Snapshot of the pending set.
    pub pending: StrSet,
    /// Snapshot of the forced set.
    pub forced: StrSet,
    /// The residue of the merge (the candidate unreconciled set).
    pub unrec: StrSet,
    /// Whether zone file and serial file are the same path (validation runs
    /// only then).
    pub zone_eq_serial: bool,
    /// Whether the external signer runs.
    pub sign_enabled: bool,
    /// Whether the nameserver reload runs.
    pub reload_enabled: bool,
}

/// The validator's success token.
pub open spec fn ok_word() -> Seq<char> {
    seq!['O', 'K']
}

/// Success of the external validator: its output holds `OK`.
pub fn validation_output_ok(output: &str) -> (r: bool)
    ensures
        r == contains_seq(output@, ok_word()),
{
    proof {
        reveal_strlit("OK");
        assert("OK"@ =~= ok_word());
    }
    contains_str(output, "OK")
}

impl UpdateCycle {
    /// Validity of the snapshot this cycle works on.
    pub open spec fn wf(self) -> bool {
        &&& hosts_wf(self.hosts@)
        &&& self.pending@.no_duplicates()
        &&& self.forced@.no_duplicates()
        &&& self.unrec@.no_duplicates()
        &&& (self.state is Aborted <==> self.error is Some)
    }

    /// Starts a cycle on a snapshot.  With nothing pending, or with nothing
    /// authorized and nothing pending beyond what already failed to
    /// reconcile, the cycle short-circuits to `Idle` and asks for nothing —
    /// no file is read or written and no external tool runs.
    pub fn start(
        hosts: Vec<HostEntry>,
        pending: StrSet,
        forced: StrSet,
        unreconciled: &StrSet,
        zone_eq_serial: bool,
        sign_enabled: bool,
        reload_enabled: bool,
    ) -> (r: (UpdateCycle, CycleAction))
        requires
            hosts_wf(hosts@),
            pending.wf(),
            forced.wf(),
        ensures
            r.0.wf(),
            r.0.hosts@ == hosts@,
            r.0.pending@ == pending@,
            r.0.forced@ == forced@,
            r.0.zone_eq_serial == zone_eq_serial,
            r.0.sign_enabled == sign_enabled,
            r.0.reload_enabled == reload_enabled,
            pending@.len() == 0 ==> (r.0.state is Idle && r.1 is Done),
            (pending@.len() > 0 && forced@.len() == 0 && seq_set_eq(pending@, unreconciled@))
                ==> (r.0.state is Idle && r.1 is Done),
            (pending@.len() > 0 && !(forced@.len() == 0 && seq_set_eq(pending@, unreconciled@)))
                ==> (r.0.state is Reconciling && r.1 is ReadZone),
            r.0.error is None,
    {
        let short = pending.is_empty() || (forced.is_empty() && pending.same_set(unreconciled));
        let cycle = UpdateCycle {
            state: if short {
                CycleState::Idle
            } else {
                CycleState::Reconciling
            },
            error: Option::None,
            hosts,
            pending,
            forced,
            unrec: StrSet::new(),
            zone_eq_serial,
            sign_enabled,
            reload_enabled,
        };
        if short {
            (cycle, CycleAction::Done)
        } else {
            (cycle, CycleAction::ReadZone)
        }
    }

    /// Consumes the zone file's lines: merges the snapshot into them and
    /// hands back the rewritten lines together with the residue, which
    /// becomes the store's unreconciled set at once (visible even if a later
    /// step fails).
    pub fn on_zone_read(&mut self, lines: Vec<String>) -> (action: CycleAction)
        requires
            old(self).wf(),
            old(self).state is Reconciling,
        ensures
            final(self).wf(),
            final(self).state is WritingScratch,
            ({
                let out = zone_merge_out(
                    lines.deep_view(),
                    entries_map(old(self).hosts@),
                    old(self).pending@,
                    old(self).forced@,
                );
                let residual = zone_merge_residual(
                    lines.deep_view(),
                    entries_map(old(self).hosts@),
                    old(self).pending@,
                    old(self).forced@,
                );
                &&& action matches CycleAction::WriteScratch(ls, u) && ls.deep_view() == out
                    && u@ == residual
                &&& final(self).unrec@ == residual
            }),
            final(self).hosts@ == old(self).hosts@,
            final(self).pending@ == old(self).pending@,
            final(self).forced@ == old(self).forced@,
            final(self).zone_eq_serial == old(self).zone_eq_serial,
            final(self).sign_enabled == old(self).sign_enabled,
            final(self).reload_enabled == old(self).reload_enabled,
    {
        let pend_copy = self.pending.clone();
        let (out, residual) = update_zone_file_content(&lines, &self.hosts, pend_copy, &self.forced);
        let residual2 = residual.clone();
        self.unrec = residual;
        self.state = CycleState::WritingScratch;
        CycleAction::WriteScratch(out, residual2)
    }

    /// The scratch file now holds the merged zone: validate it when zone
    /// and serial share a path, otherwise go straight to the size check.
    pub fn on_scratch_written(&mut self) -> (action: CycleAction)
        requires
            old(self).wf(),
            old(self).state is WritingScratch,
        ensures
            final(self).wf(),
            old(self).zone_eq_serial ==> (final(self).state is Validating
                && action is Validate),
            !old(self).zone_eq_serial ==> (final(self).state is SizingZone
                && action is StatScratch),
            *final(self) == (UpdateCycle { state: final(self).state, ..*old(self) }),
    {
        if self.zone_eq_serial {
            self.state = CycleState::Validating;
            CycleAction::Validate
        } else {
            self.state = CycleState::SizingZone;
            CycleAction::StatScratch
        }
    }

    /// Consumes the validator's output: `OK` somewhere in it means success;
    /// anything else aborts the cycle before any file is replaced.
    pub fn on_validator_output(&mut self, output: &str) -> (action: CycleAction)
        requires
            old(self).wf(),
            old(self).state is Validating,
        ensures
            final(self).wf(),
            contains_seq(output@, ok_word()) ==> (final(self).state is SizingZone
                && action is StatScratch && final(self).error is None),
            !contains_seq(output@, ok_word()) ==> (final(self).state is Aborted
                && final(self).error == Some(CycleError::ValidationFailed) && action is Done),
            *final(self) == (UpdateCycle {
                state: final(self).state,
                error: final(self).error,
                ..*old(self)
            }),
    {
        if validation_output_ok(output) {
            self.state = CycleState::SizingZone;
            CycleAction::StatScratch
        } else {
            self.state = CycleState::Aborted;
            self.error = Option::Some(CycleError::ValidationFailed);
            CycleAction::Done
        }
    }

    /// Consumes the scratch file's size before the zone is published: a
    /// size below ten bytes smells of truncation and aborts the cycle.
    pub fn on_zone_size(&mut self, size: u64) -> (action: CycleAction)
        requires
            old(self).wf(),
            old(self).state is SizingZone,
        ensures
            final(self).wf(),
            size >= 10 ==> (final(self).state is PublishingZone && action is PublishZone
                && final(self).error is None),
            size < 10 ==> (final(self).state is Aborted && final(self).error == Some(
                CycleError::ZoneScratchTooSmall,
            ) && action is Done),
            *final(self) == (UpdateCycle {
                state: final(self).state,
                error: final(self).error,
                ..*old(self)
            }),
    {
        if size < 10 {
            self.state = CycleState::Aborted;
            self.error = Option::Some(CycleError::ZoneScratchTooSmall);
            CycleAction::Done
        } else {
            self.state = CycleState::PublishingZone;
            CycleAction::PublishZone
        }
    }

    /// The zone file has been atomically replaced; move on to the serial.
    pub fn on_zone_published(&mut self) -> (action: CycleAction)
        requires
            old(self).wf(),
            old(self).state is PublishingZone,
        ensures
            final(self).wf(),
            final(self).state is BumpingSerial,
            action is ReadSerial,
            *final(self) == (UpdateCycle { state: final(self).state, ..*old(self) }),
    {
        self.state = CycleState::BumpingSerial;
        CycleAction::ReadSerial
    }

    /// Consumes the serial file's lines and bumps the serial.  With no
    /// serial line to bump the cycle aborts — after the zone was already
    /// published, a deliberate, documented non-atomicity of the pipeline.
    pub fn on_serial_read(&mut self, lines: Vec<String>) -> (action: CycleAction)
        requires
            old(self).wf(),
            old(self).state is BumpingSerial,
        ensures
            final(self).wf(),
            ({
                let ldv = lines.deep_view();
                let k = first_bumpable(ldv, 0);
                &&& k < ldv.len() ==> (final(self).state is WritingSerialScratch
                    && (action matches CycleAction::WriteSerialScratch(out) && out.deep_view()
                    == ldv.update(k, bump_applied(ldv[k]))) && final(self).error is None)
                &&& k == ldv.len() ==> (final(self).state is Aborted && final(self).error
                    == Some(CycleError::SerialNotFound) && action is Done)
            }),
            *final(self) == (UpdateCycle {
                state: final(self).state,
                error: final(self).error,
                ..*old(self)
            }),
    {
        match bump_serial_lines(&lines) {
            Result::Ok(out) => {
                self.state = CycleState::WritingSerialScratch;
                CycleAction::WriteSerialScratch(out)
            },
            Result::Err(SerialError::NotFound) => {
                self.state = CycleState::Aborted;
                self.error = Option::Some(CycleError::SerialNotFound);
                CycleAction::Done
            },
        }
    }

    /// The scratch file now holds the bumped serial: check its size.
    pub fn on_serial_scratch_written(&mut self) -> (action: CycleAction)
        requires
            old(self).wf(),
            old(self).state is WritingSerialScratch,
        ensures
            final(self).wf(),
            final(self).state is SizingSerial,
            action is StatScratch,
            *final(self) == (UpdateCycle { state: final(self).state, ..*old(self) }),
    {
        self.state = CycleState::SizingSerial;
        CycleAction::StatScratch
    }

    /// Consumes the scratch file's size before the serial is published.
    pub fn on_serial_size(&mut self, size: u64) -> (action: CycleAction)
        requires
            old(self).wf(),
            old(self).state is SizingSerial,
        ensures
            final(self).wf(),
            size >= 10 ==> (final(self).state is PublishingSerial && action is PublishSerial
                && final(self).error is None),
            size < 10 ==> (final(self).state is Aborted && final(self).error == Some(
                CycleError::SerialScratchTooSmall,
            ) && action is Done),
            *final(self) == (UpdateCycle {
                state: final(self).state,
                error: final(self).error,
                ..*old(self)
            }),
    {
        if size < 10 {
            self.state = CycleState::Aborted;
            self.error = Option::Some(CycleError::SerialScratchTooSmall);
            CycleAction::Done
        } else {
            self.state = CycleState::PublishingSerial;
            CycleAction::PublishSerial
        }
    }

    /// The serial file has been atomically replaced: sign the zone, unless
    /// signing is disabled, in which case bookkeeping follows at once.
    pub fn on_serial_published(&mut self) -> (action: CycleAction)
        requires
            old(self).wf(),
            old(self).state is PublishingSerial,
        ensures
            final(self).wf(),
            old(self).sign_enabled ==> (final(self).state is Signing && action is Sign),
            !old(self).sign_enabled ==> (final(self).state is Bookkeeping
                && (action matches CycleAction::Finish(p) && p@ == old(self).pending@.filter(
                |x: Seq<char>| !old(self).unrec@.contains(x),
            ))),
            *final(self) == (UpdateCycle { state: final(self).state, ..*old(self) }),
    {
        if self.sign_enabled {
            self.state = CycleState::Signing;
            CycleAction::Sign
        } else {
            self.state = CycleState::Bookkeeping;
            let processed = self.pending.minus(&self.unrec);
            CycleAction::Finish(processed)
        }
    }

    /// Consumes the signer's result: failure aborts the cycle (after both
    /// files were already published); success leads to bookkeeping.  The
    /// processed hosts are the pending snapshot minus the residue.
    pub fn on_sign_result(&mut self, success: bool) -> (action: CycleAction)
        requires
            old(self).wf(),
            old(self).state is Signing,
        ensures
            final(self).wf(),
            success ==> (final(self).state is Bookkeeping
                && (action matches CycleAction::Finish(p) && p@ == old(self).pending@.filter(
                |x: Seq<char>| !old(self).unrec@.contains(x),
            )) && final(self).error is None),
            !success ==> (final(self).state is Aborted && final(self).error == Some(
                CycleError::SignFailed,
            ) && action is Done),
            *final(self) == (UpdateCycle {
                state: final(self).state,
                error: final(self).error,
                ..*old(self)
            }),
    {
        if success {
            self.state = CycleState::Bookkeeping;
            let processed = self.pending.minus(&self.unrec);
            CycleAction::Finish(processed)
        } else {
            self.state = CycleState::Aborted;
            self.error = Option::Some(CycleError::SignFailed);
            CycleAction::Done
        }
    }

    /// The store's bookkeeping is done: reload the nameserver, unless
    /// disabled.
    pub fn on_bookkeeping_done(&mut self) -> (action: CycleAction)
        requires
            old(self).wf(),
            old(self).state is Bookkeeping,
        ensures
            final(self).wf(),
            old(self).reload_enabled ==> (final(self).state is Reloading && action is Reload),
            !old(self).reload_enabled ==> (final(self).state is Idle && action is Done),
            *final(self) == (UpdateCycle { state: final(self).state, ..*old(self) }),
    {
        if self.reload_enabled {
            self.state = CycleState::Reloading;
            CycleAction::Reload
        } else {
            self.state = CycleState::Idle;
            CycleAction::Done
        }
    }

    /// Consumes the reload result.  Either way the cycle ends successfully:
    /// by this point all durable state is committed, and a reload failure
    /// is only logged by the caller.
    pub fn on_reload_result(&mut self, success: bool) -> (action: CycleAction)
        requires
            old(self).wf(),
            old(self).state is Reloading,
        ensures
            final(self).wf(),
            final(self).state is Idle,
            action is Done,
            *final(self) == (UpdateCycle { state: final(self).state, ..*old(self) }),
    {
        let _ = success;
        self.state = CycleState::Idle;
        CycleAction::Done
    }
}

} // verus!
