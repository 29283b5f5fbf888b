use sandbox_bridge::signal::{
    host_send_value, guest_action, guest_poll_step, host_wait_step, ChannelError, Command, Comms, GuestAction, PollStep,
    ProtocolError, Signal, SignalChannel, WaitStep,
};

#[test]
fn signal_values_round_trip() {
    let all = [Signal::Idle, Signal::Init, Signal::Tick, Signal::LargeAlloc, Signal::ModifyGrid, Signal::Exit];
    for (i, s) in all.iter().enumerate() {
        assert_eq!(s.value(), i as i32);
        assert_eq!(Signal::from(i as i32), *s);
        assert_eq!(Signal::decode(i as i32), Ok(*s));
    }
}

#[test]
fn signal_decode_rejects_out_of_range() {
    assert_eq!(Signal::decode(6), Err(ProtocolError::UnknownSignal(6)));
    assert_eq!(Signal::decode(-1), Err(ProtocolError::UnknownSignal(-1)));
}

#[test]
fn channel_handshake_cycle() {
    let mut ch = SignalChannel::new(2);
    assert_eq!(ch.read(0), Signal::Idle);
    assert_eq!(ch.send(0, Signal::Tick), Ok(()));
    assert_eq!(ch.read(0), Signal::Tick);
    // The host may not overwrite a command in flight.
    assert_eq!(ch.send(0, Signal::Init), Err(ChannelError::SlotBusy));
    assert_eq!(ch.read(0), Signal::Tick);
    let guest = Comms::new(0, 2).unwrap();
    assert_eq!(guest.send_idle(&mut ch), Ok(Signal::Tick));
    assert_eq!(ch.read(0), Signal::Idle);
    // A guest with nothing to do cannot write Idle twice.
    assert_eq!(guest.send_idle(&mut ch), Err(ChannelError::NoCommand));
}

#[test]
fn channel_rejects_idle_command_and_bad_slot() {
    let mut ch = SignalChannel::new(1);
    assert_eq!(ch.send(0, Signal::Idle), Err(ChannelError::IdleCommand));
    assert_eq!(ch.send(1, Signal::Tick), Err(ChannelError::NoSlot));
    assert_eq!(ch.finish(3), Err(ChannelError::NoSlot));
    assert!(Comms::new(1, 1).is_err());
}

#[test]
fn broadcast_then_joint_wait() {
    let mut ch = SignalChannel::new(3);
    let targets = vec![0usize, 2];
    assert_eq!(ch.broadcast(&targets, Signal::Tick), Ok(()));
    assert_eq!(ch.read(0), Signal::Tick);
    assert_eq!(ch.read(1), Signal::Idle);
    assert_eq!(ch.read(2), Signal::Tick);
    assert!(!ch.all_idle(&targets));
    assert_eq!(ch.finish(0), Ok(Signal::Tick));
    assert!(!ch.all_idle(&targets));
    assert_eq!(ch.finish(2), Ok(Signal::Tick));
    assert!(ch.all_idle(&targets));
}

#[test]
fn broadcast_refuses_busy_target() {
    let mut ch = SignalChannel::new(2);
    ch.send(1, Signal::Init).unwrap();
    assert_eq!(ch.broadcast(&vec![0, 1], Signal::Tick), Err(ChannelError::SlotBusy));
    assert_eq!(ch.read(0), Signal::Idle);
    assert_eq!(ch.read(1), Signal::Init);
}

#[test]
fn host_wait_steps() {
    assert_eq!(host_wait_step(&vec![0, 0], 0, 300), WaitStep::Done);
    assert_eq!(host_wait_step(&vec![0, 2], 0, 300), WaitStep::Sleep);
    assert_eq!(host_wait_step(&vec![0, 2], 299, 300), WaitStep::Timeout);
    assert_eq!(host_wait_step(&vec![0, 0], 299, 300), WaitStep::Done);
}

#[test]
fn handshake_sequence_observes_idle_after_wait() {
    let mut ch = SignalChannel::new(2);
    let targets = vec![0usize, 1];
    for cmd in [Signal::Init, Signal::Tick, Signal::ModifyGrid, Signal::Tick] {
        ch.broadcast(&targets, cmd).unwrap();
        let observed: Vec<i32> = targets.iter().map(|&t| ch.read(t).value()).collect();
        assert_eq!(host_wait_step(&observed, 0, 300), WaitStep::Sleep);
        for &t in &targets {
            assert_eq!(ch.finish(t), Ok(cmd));
        }
        let observed: Vec<i32> = targets.iter().map(|&t| ch.read(t).value()).collect();
        assert_eq!(host_wait_step(&observed, 1, 300), WaitStep::Done);
        for &t in &targets {
            assert_eq!(ch.read(t), Signal::Idle);
        }
    }
}

#[test]
fn guest_poll_steps() {
    assert_eq!(guest_poll_step(0, 0, 300), Ok(PollStep::Sleep));
    assert_eq!(guest_poll_step(0, 299, 300), Ok(PollStep::Timeout));
    assert_eq!(guest_poll_step(2, 0, 300), Ok(PollStep::Run(Signal::Tick)));
    assert_eq!(guest_poll_step(5, 299, 300), Ok(PollStep::Run(Signal::Exit)));
    assert_eq!(guest_poll_step(9, 0, 300), Err(ProtocolError::UnknownSignal(9)));
    let c = Comms::new(1, 2).unwrap();
    assert_eq!(c.index(), 1);
    assert_eq!(c.poll(3, 0, 10), Ok(PollStep::Run(Signal::LargeAlloc)));
}

#[test]
fn guest_actions() {
    assert_eq!(guest_action(Signal::Tick, 100, 100), Ok(GuestAction::Call(Signal::Tick)));
    assert_eq!(guest_action(Signal::Exit, 100, 100), Ok(GuestAction::Stop));
    assert_eq!(guest_action(Signal::Tick, 100, 200), Ok(GuestAction::Relocated));
    assert_eq!(guest_action(Signal::Idle, 100, 100), Err(ChannelError::NoCommand));
}

#[test]
fn command_chars() {
    assert_eq!(Command::from_char('@'), Some(Command::Ready));
    assert_eq!(Command::from_char('*'), Some(Command::Failed));
    assert_eq!(Command::from_char('i'), Some(Command::Init));
    assert_eq!(Command::from_char('t'), Some(Command::Tick));
    assert_eq!(Command::from_char('x'), Some(Command::Exit));
    assert_eq!(Command::from_char('m'), Some(Command::ModifyGrid));
    assert_eq!(Command::from_char('q'), None);
}

#[test]
fn host_send_values() {
    assert_eq!(host_send_value(0, Signal::Tick), Ok(2));
    assert_eq!(host_send_value(0, Signal::Exit), Ok(5));
    assert_eq!(host_send_value(0, Signal::Idle), Err(ChannelError::IdleCommand));
    assert_eq!(host_send_value(2, Signal::Init), Err(ChannelError::SlotBusy));
    assert_eq!(host_send_value(17, Signal::Init), Err(ChannelError::Unreadable(17)));
}
