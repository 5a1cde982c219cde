use vstd::prelude::*;

verus! {

/// The signal layout of a decoded packet: sample rate and channel set (a
/// bit mask of channel positions).
#[derive(Debug, Clone, Copy, PartialEq, Eq)]
pub struct SignalLayout {
    pub rate: u32,
    pub channels: u32,
}

/// What reading and decoding the next packet gave.
#[derive(Debug, Clone, Copy, PartialEq, Eq)]
pub enum PacketEvent {
    /// The stream ended.
    EndOfStream,
    /// Reading a packet failed otherwise.
    ReadFailed,
    /// The packet belongs to another track.
    OtherTrack,
    /// The packet decoded: its layout, its number of frames and channels,
    /// and the capacity of the current sample buffer, if there is one.
    Decoded { layout: SignalLayout, frames: usize, channel_count: usize, buffer_capacity: Option<usize> },
    /// The packet is corrupt; decoding can go on.
    Corrupt,
    /// Decoding failed for good.
    DecodeFailed,
}

/// What to do with the packet.
#[derive(Debug, Clone, Copy, PartialEq, Eq)]
pub enum PacketAction {
    /// Stop reading: all packets are decoded.
    Finish,
    /// Give up with a read error.
    FailRead,
    /// Give up with a decode error.
    FailDecode,
    /// Go on with the next packet.
    Skip,
    /// Append the decoded samples, first replacing the sample buffer with one
    /// for this many samples when given.
    Append { new_buffer_samples: Option<usize> },
}

/// Why decoding gave no usable signal.
#[derive(Debug, Clone, Copy, PartialEq, Eq)]
pub enum SignalError {
    UnknownSampleRate,
    UnknownChannelCount,
}

/// The state of packet decoding: the signal layout reported so far and the
/// layout of the current sample buffer.
#[derive(Debug, Clone, Copy)]
pub struct DecodeTracker {
    pub sample_rate: Option<u32>,
    pub channels: Option<u32>,
    pub buffer_layout: Option<SignalLayout>,
}

impl DecodeTracker {
    /// The rate and the channels are learnt together.
    pub open spec fn wf(&self) -> bool {
        self.sample_rate is Some <==> self.channels is Some
    }

    /// Nothing decoded yet.
    pub fn new() -> (tracker: Self)
        ensures
            tracker.wf(),
            tracker.sample_rate is None,
            tracker.buffer_layout is None,
    {
        DecodeTracker { sample_rate: None, channels: None, buffer_layout: None }
    }

    /// The decision for one packet. The end of the stream finishes, other
    /// read failures and fatal decode failures give up, packets of other
    /// tracks and corrupt packets are skipped. A decoded packet fixes the
    /// signal layout if none is known yet, and its samples are appended; the
    /// sample buffer is replaced first (and the layout updated to this
    /// packet's) when there is none, when the layout changed, or when it is
    /// too small for `frames * channel_count` samples.
    pub fn step(&mut self, event: PacketEvent) -> (action: PacketAction)
        requires
            old(self).wf(),
            event matches PacketEvent::Decoded { frames, channel_count, .. } ==> frames * channel_count <= usize::MAX,
        ensures
            final(self).wf(),
            event == PacketEvent::EndOfStream ==> action == PacketAction::Finish && *final(self) == *old(self),
            event == PacketEvent::ReadFailed ==> action == PacketAction::FailRead && *final(self) == *old(self),
            event == PacketEvent::DecodeFailed ==> action == PacketAction::FailDecode && *final(self) == *old(self),
            (event == PacketEvent::OtherTrack || event == PacketEvent::Corrupt) ==> action == PacketAction::Skip
                && *final(self) == *old(self),
            event matches PacketEvent::Decoded { layout, frames, channel_count, buffer_capacity } ==> {
                let required = frames * channel_count;
                let recreate = buffer_capacity is None || old(self).buffer_layout != Some(layout) || buffer_capacity.unwrap()
                    < required;
                &&& recreate ==> action == (PacketAction::Append { new_buffer_samples: Some(required as usize) })
                    && final(self).buffer_layout == Some(layout) && final(self).sample_rate == Some(layout.rate)
                    && final(self).channels == Some(layout.channels)
                &&& !recreate ==> action == (PacketAction::Append { new_buffer_samples: None })
                    && final(self).buffer_layout == old(self).buffer_layout && final(self).sample_rate == (
                    if old(self).sample_rate is None { Some(layout.rate) } else { old(self).sample_rate })
                    && final(self).channels == (if old(self).sample_rate is None { Some(layout.channels) } else {
                    old(self).channels })
            },
    {
        match event {
            PacketEvent::EndOfStream => PacketAction::Finish,
            PacketEvent::ReadFailed => PacketAction::FailRead,
            PacketEvent::OtherTrack => PacketAction::Skip,
            PacketEvent::Corrupt => PacketAction::Skip,
            PacketEvent::DecodeFailed => PacketAction::FailDecode,
            PacketEvent::Decoded { layout, frames, channel_count, buffer_capacity } => {
                if self.sample_rate.is_none() {
                    self.sample_rate = Some(layout.rate);
                    self.channels = Some(layout.channels);
                }
                let required = frames * channel_count;
                let recreate = match buffer_capacity {
                    None => true,
                    Some(capacity) => {
                        let same = match self.buffer_layout {
                            Some(current) => current.rate == layout.rate && current.channels == layout.channels,
                            None => false,
                        };
                        !same || capacity < required
                    },
                };
                if recreate {
                    self.buffer_layout = Some(layout);
                    self.sample_rate = Some(layout.rate);
                    self.channels = Some(layout.channels);
                    PacketAction::Append { new_buffer_samples: Some(required) }
                } else {
                    PacketAction::Append { new_buffer_samples: None }
                }
            },
        }
    }

    /// The signal layout of the decoded audio: the sample rate and channels
    /// last learnt, or an error when no packet was decoded.
    pub fn finish(&self) -> (layout: Result<SignalLayout, SignalError>)
        requires
            self.wf(),
        ensures
            self.sample_rate is None ==> layout == Err::<SignalLayout, _>(SignalError::UnknownSampleRate),
            self.sample_rate matches Some(rate) ==> layout == Ok::<_, SignalError>(
                SignalLayout { rate, channels: self.channels.unwrap() },
            ),
    {
        let rate = match self.sample_rate {
            Some(rate) => rate,
            None => return Err(SignalError::UnknownSampleRate),
        };
        let channels = match self.channels {
            Some(channels) => channels,
            None => return Err(SignalError::UnknownChannelCount),
        };
        Ok(SignalLayout { rate, channels })
    }
}

} // verus!
