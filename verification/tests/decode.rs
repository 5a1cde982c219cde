use auris::fingerprint::decode::{DecodeTracker, PacketAction, PacketEvent, SignalError, SignalLayout};

fn decoded(rate: u32, channels: u32, frames: usize, count: usize, capacity: Option<usize>) -> PacketEvent {
    PacketEvent::Decoded {
        layout: SignalLayout { rate, channels },
        frames,
        channel_count: count,
        buffer_capacity: capacity,
    }
}

#[test]
fn nothing_decoded_has_no_sample_rate() {
    let mut tracker = DecodeTracker::new();
    assert_eq!(tracker.step(PacketEvent::OtherTrack), PacketAction::Skip);
    assert_eq!(tracker.step(PacketEvent::Corrupt), PacketAction::Skip);
    assert_eq!(tracker.step(PacketEvent::EndOfStream), PacketAction::Finish);
    assert_eq!(tracker.finish(), Err(SignalError::UnknownSampleRate));
}

#[test]
fn failures_give_up() {
    let mut tracker = DecodeTracker::new();
    assert_eq!(tracker.step(PacketEvent::ReadFailed), PacketAction::FailRead);
    assert_eq!(tracker.step(PacketEvent::DecodeFailed), PacketAction::FailDecode);
}

#[test]
fn buffer_is_made_once_and_remade_on_change() {
    let mut tracker = DecodeTracker::new();
    // first packet: no buffer yet, 1152 frames of stereo
    assert_eq!(
        tracker.step(decoded(44100, 3, 1152, 2, None)),
        PacketAction::Append { new_buffer_samples: Some(2304) }
    );
    // same layout, buffer large enough: reuse it
    assert_eq!(
        tracker.step(decoded(44100, 3, 1152, 2, Some(2304))),
        PacketAction::Append { new_buffer_samples: None }
    );
    // same layout, a longer packet: a larger buffer
    assert_eq!(
        tracker.step(decoded(44100, 3, 2000, 2, Some(2304))),
        PacketAction::Append { new_buffer_samples: Some(4000) }
    );
    // the layout changes: a new buffer, and the layout is updated
    assert_eq!(
        tracker.step(decoded(48000, 1, 100, 1, Some(4000))),
        PacketAction::Append { new_buffer_samples: Some(100) }
    );
    assert_eq!(tracker.step(PacketEvent::EndOfStream), PacketAction::Finish);
    assert_eq!(tracker.finish(), Ok(SignalLayout { rate: 48000, channels: 1 }));
}

#[test]
fn first_layout_is_kept_while_the_buffer_fits() {
    let mut tracker = DecodeTracker::new();
    tracker.step(decoded(8000, 1, 10, 1, None));
    tracker.step(decoded(8000, 1, 5, 1, Some(10)));
    assert_eq!(tracker.finish(), Ok(SignalLayout { rate: 8000, channels: 1 }));
}
