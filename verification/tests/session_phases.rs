use lpi2c::controller_registers::ControllerStatusError;
use lpi2c::session::{recovery_abort_for, Abort, PendingRecovery, SessionPhase};

fn start_pending(before: Abort, after: Abort) -> SessionPhase {
    SessionPhase::StartPending { before, after }
}

fn stop_pending(before: Abort) -> SessionPhase {
    SessionPhase::StopPending { before }
}

#[test]
fn only_an_addressed_read_takes_a_first_receive() {
    assert_eq!(
        SessionPhase::Stable(Abort::ReadAddressed).after_first_receive_enqueue(true),
        Some(SessionPhase::FirstReceivePending)
    );
    assert_eq!(
        SessionPhase::Stable(Abort::ReadAddressed).after_first_receive_enqueue(false),
        Some(SessionPhase::Stable(Abort::ReadAddressed))
    );
    assert_eq!(SessionPhase::FirstReceivePending.after_first_receive_enqueue(true), None);
    assert_eq!(SessionPhase::Stable(Abort::General).after_first_receive_enqueue(true), None);
    assert_eq!(SessionPhase::Stable(Abort::ReadStreaming).after_first_receive_enqueue(true), None);
    assert_eq!(
        start_pending(Abort::General, Abort::ReadAddressed).after_first_receive_enqueue(true),
        None
    );
}

#[test]
fn a_start_keeps_its_predecessor_until_it_settles() {
    assert_eq!(
        SessionPhase::Stable(Abort::General).after_start_enqueue(true, true),
        Some(start_pending(Abort::General, Abort::ReadAddressed))
    );
    assert_eq!(
        SessionPhase::Stable(Abort::ReadAddressed).after_start_enqueue(false, false),
        Some(SessionPhase::Stable(Abort::ReadAddressed))
    );
    assert_eq!(SessionPhase::FirstReceivePending.after_start_enqueue(true, true), None);
    assert_eq!(
        start_pending(Abort::General, Abort::General).after_start_settled(),
        Some(SessionPhase::Stable(Abort::General))
    );
    assert_eq!(
        start_pending(Abort::General, Abort::ReadAddressed).after_start_settled(),
        Some(SessionPhase::Stable(Abort::ReadAddressed))
    );
    assert_eq!(SessionPhase::Stable(Abort::General).after_start_settled(), None);
    assert_eq!(SessionPhase::FirstReceivePending.after_start_settled(), None);
    assert_eq!(stop_pending(Abort::General).after_start_settled(), None);
    assert_eq!(SessionPhase::StopFinalized.after_start_settled(), None);
}

#[test]
fn only_a_settled_write_transmits() {
    assert!(SessionPhase::Stable(Abort::General).permits_transmit());
    assert!(!SessionPhase::Stable(Abort::ReadAddressed).permits_transmit());
    assert!(!start_pending(Abort::General, Abort::General).permits_transmit());
    assert!(!stop_pending(Abort::General).permits_transmit());
}

#[test]
fn a_stop_closes_only_what_can_be_closed() {
    assert_eq!(
        SessionPhase::Stable(Abort::General).after_stop_enqueue(true),
        Some(stop_pending(Abort::General))
    );
    assert_eq!(
        SessionPhase::Stable(Abort::ReadStreaming).after_stop_enqueue(true),
        Some(stop_pending(Abort::ReadStreaming))
    );
    assert_eq!(
        SessionPhase::Stable(Abort::General).after_stop_enqueue(false),
        Some(SessionPhase::Stable(Abort::General))
    );
    assert_eq!(
        SessionPhase::Stable(Abort::ReadStreaming).after_stop_enqueue(false),
        Some(SessionPhase::Stable(Abort::ReadStreaming))
    );
    assert_eq!(SessionPhase::Stable(Abort::ReadAddressed).after_stop_enqueue(true), None);
    assert_eq!(start_pending(Abort::General, Abort::General).after_stop_enqueue(true), None);
    assert_eq!(SessionPhase::FirstReceivePending.after_stop_enqueue(true), None);
    assert_eq!(stop_pending(Abort::General).after_stop_enqueue(true), None);
    assert_eq!(SessionPhase::StopFinalized.after_stop_enqueue(true), None);
}

#[test]
fn a_pending_command_splits_the_recovery_shapes() {
    assert_eq!(stop_pending(Abort::General).abort_for_cancellation(), Abort::General);
    assert_eq!(stop_pending(Abort::ReadStreaming).abort_for_halted_fault(), Abort::ReadStreaming);
    assert_eq!(stop_pending(Abort::ReadStreaming).abort_for_cancellation(), Abort::ReadStreaming);
    assert_eq!(stop_pending(Abort::General).abort_for_halted_fault(), Abort::General);
    assert_eq!(SessionPhase::StopFinalized.abort_for_cancellation(), Abort::General);
    assert_eq!(
        SessionPhase::FirstReceivePending.after_read_progress_inner(),
        SessionPhase::Stable(Abort::ReadStreaming)
    );
    let start = start_pending(Abort::General, Abort::ReadAddressed);
    assert_eq!(start.abort_for_cancellation(), Abort::ReadAddressed);
    assert_eq!(start.abort_for_halted_fault(), Abort::General);
    assert_eq!(SessionPhase::FirstReceivePending.abort_for_cancellation(), Abort::ReadStreaming);
    assert_eq!(SessionPhase::FirstReceivePending.abort_for_halted_fault(), Abort::ReadAddressed);
    assert_eq!(
        PendingRecovery(SessionPhase::FirstReceivePending).abort_for_halted_fault(),
        Abort::ReadAddressed
    );
}

#[test]
fn a_nack_has_no_data_phase_to_unwind() {
    assert_eq!(
        recovery_abort_for(ControllerStatusError::AddressNack, Abort::ReadAddressed),
        Abort::General
    );
    assert_eq!(
        recovery_abort_for(ControllerStatusError::Fifo, Abort::ReadAddressed),
        Abort::ReadAddressed
    );
    assert_eq!(
        recovery_abort_for(ControllerStatusError::ArbitrationLoss, Abort::ReadStreaming),
        Abort::ReadStreaming
    );
}

#[test]
fn received_data_changes_only_a_pending_first_receive() {
    let write = SessionPhase::Stable(Abort::General);
    assert_eq!(write.after_dma_read_progress(), write);
    assert_eq!(
        SessionPhase::FirstReceivePending.after_dma_read_progress(),
        SessionPhase::Stable(Abort::ReadStreaming)
    );
}
