//! Renumbering of packets, so that receivers see one uninterrupted stream while
//! the source behind it is switched or paused.
use crate::clock::utc_timestamp;
use crate::codec::RTPCodecType;
use vstd::prelude::*;

verus! {

/// Timestamp step from the last packet of one source to the first of the next,
/// for audio.
pub const AUDIO_SWITCH_GAP: u32 = 900;

/// The same step for video: one of 24 frames a second, at 90000 ticks a second.
pub const VIDEO_SWITCH_GAP: u32 = 3750;

/// The same step for a kind that is not specified, in
/// `TrackState::get_pkg_attrs_set_last_out`.
pub const UNSPECIFIED_FORWARD_GAP: u32 = 6000;

/// Sequence number `b` steps after `a`, around the 16-bit circle.
pub open spec fn seq_add(a: u16, b: u16) -> u16 {
    if a + b < 0x1_0000 {
        (a + b) as u16
    } else {
        (a + b - 0x1_0000) as u16
    }
}

/// Steps from sequence number `b` forward to `a`, around the 16-bit circle.
pub open spec fn seq_sub(a: u16, b: u16) -> u16 {
    if b <= a {
        (a - b) as u16
    } else {
        (a - b + 0x1_0000) as u16
    }
}

/// Timestamp `b` ticks after `a`, around the 32-bit circle.
pub open spec fn ts_add(a: u32, b: u32) -> u32 {
    if a + b < 0x1_0000_0000 {
        (a + b) as u32
    } else {
        (a + b - 0x1_0000_0000) as u32
    }
}

/// Ticks from timestamp `b` forward to `a`, around the 32-bit circle.
pub open spec fn ts_sub(a: u32, b: u32) -> u32 {
    if b <= a {
        (a - b) as u32
    } else {
        (a - b + 0x1_0000_0000) as u32
    }
}

/// What of a packet is rewritten before it leaves.
#[derive(Clone, Copy, Debug, PartialEq, Eq, Structural)]
pub struct PkgAttrs {
    pub sequence_number: u16,
    pub timestamp: u32,
    pub marker: bool,
}

/// Where the outgoing stream of a track stands.
#[derive(Debug)]
pub struct TrackState {
    /// Survives every switch of the source.
    last_out_seq: u16,
    /// Survives every switch of the source.
    last_out_ts: u32,
    /// When the track began, in Unix seconds.
    started_at_ts: i64,
    /// Raised by a pause: the last packet of a video frame.
    marker: bool,
    /// What is added to the sequence number and to the timestamp of a packet.
    /// None until the first packet of a source has been seen.
    pub out_offset: Option<(u16, u32)>,
}

/// The mathematical value of a `TrackState`.
pub struct TrackStateView {
    pub last_out_seq: u16,
    pub last_out_ts: u32,
    pub started_at_ts: i64,
    pub marker: bool,
    pub out_offset: Option<(u16, u32)>,
}

impl View for TrackState {
    type V = TrackStateView;

    closed spec fn view(&self) -> TrackStateView {
        TrackStateView {
            last_out_seq: self.last_out_seq,
            last_out_ts: self.last_out_ts,
            started_at_ts: self.started_at_ts,
            marker: self.marker,
            out_offset: self.out_offset,
        }
    }
}

impl Clone for TrackState {
    fn clone(&self) -> (state: TrackState)
        ensures
            state@ == self@,
    {
        TrackState {
            last_out_seq: self.last_out_seq,
            last_out_ts: self.last_out_ts,
            started_at_ts: self.started_at_ts,
            marker: self.marker,
            out_offset: self.out_offset,
        }
    }
}

impl TrackStateView {
    /// The state of a track that began at `started_at_ts` and has sent nothing.
    pub open spec fn initial(started_at_ts: i64) -> TrackStateView {
        TrackStateView {
            last_out_seq: 0,
            last_out_ts: 0,
            started_at_ts,
            marker: false,
            out_offset: None,
        }
    }

    /// How a packet leaves: moved by the offset of its source, or, as the first
    /// of its source, one number and `gap` ticks after the last packet sent.
    pub open spec fn rewritten(self, seq: u16, ts: u32, gap: u32) -> PkgAttrs {
        match self.out_offset {
            Some((seq_offset, ts_offset)) => PkgAttrs {
                sequence_number: seq_add(seq, seq_offset),
                timestamp: ts_add(ts, ts_offset),
                marker: self.marker,
            },
            None => PkgAttrs {
                sequence_number: seq_add(self.last_out_seq, 1),
                timestamp: ts_add(self.last_out_ts, gap),
                marker: self.marker,
            },
        }
    }

    /// The state that keeps the offset by which `seq` and `ts` become `out`.
    pub open spec fn with_offset(self, seq: u16, ts: u32, out: PkgAttrs) -> TrackStateView {
        TrackStateView {
            out_offset: Some((seq_sub(out.sequence_number, seq), ts_sub(out.timestamp, ts))),
            ..self
        }
    }

    /// The state after a packet with the given attributes has been sent.
    pub open spec fn sent(self, out: PkgAttrs) -> TrackStateView {
        TrackStateView {
            last_out_seq: out.sequence_number,
            last_out_ts: out.timestamp,
            ..self
        }
    }

    /// The state in which a withheld packet would repeat the last one sent.
    pub open spec fn shifted(self, seq: u16, ts: u32) -> TrackStateView {
        TrackStateView {
            marker: true,
            out_offset: Some((seq_sub(self.last_out_seq, seq), ts_sub(self.last_out_ts, ts))),
            ..self
        }
    }

    /// The state in which the next packet counts as the first of its source.
    pub open spec fn without_offset(self) -> TrackStateView {
        TrackStateView { out_offset: None, ..self }
    }

    /// The source's number for a packet that left as `modified_seq`.
    pub open spec fn origin(self, modified_seq: u16) -> u16 {
        match self.out_offset {
            Some((seq_offset, _)) => seq_sub(modified_seq, seq_offset),
            None => modified_seq,
        }
    }
}

/// The timestamp step over a switch in `TrackState::get_pkg_attrs`.
pub open spec fn resend_gap(kind: RTPCodecType) -> u32 {
    match kind {
        RTPCodecType::Audio => AUDIO_SWITCH_GAP,
        RTPCodecType::Video | RTPCodecType::Unspecified => VIDEO_SWITCH_GAP,
    }
}

/// The timestamp step over a switch in `TrackState::get_pkg_attrs_set_last_out`.
pub open spec fn forward_gap(kind: RTPCodecType) -> u32 {
    match kind {
        RTPCodecType::Audio => AUDIO_SWITCH_GAP,
        RTPCodecType::Video => VIDEO_SWITCH_GAP,
        RTPCodecType::Unspecified => UNSPECIFIED_FORWARD_GAP,
    }
}

impl TrackState {
    /// A state that begins now. Sequence numbers and timestamps start from zero.
    pub fn new() -> (state: TrackState)
        ensures
            state@ == TrackStateView::initial(state@.started_at_ts),
    {
        TrackState::starting_at(utc_timestamp())
    }

    /// A state that begins at the given Unix time in seconds.
    pub fn starting_at(started_at_ts: i64) -> (state: TrackState)
        ensures
            state@ == TrackStateView::initial(started_at_ts),
    {
        TrackState {
            last_out_seq: 0,
            last_out_ts: 0,
            started_at_ts,
            marker: false,
            out_offset: None,
        }
    }

    /// The attributes under which a packet leaves, without counting it as sent.
    /// The first packet of a source fixes the offset for those that follow.
    pub fn get_pkg_attrs(
        &mut self,
        kind: RTPCodecType,
        pkt_sequence_number: u16,
        pkt_timestamp: u32,
    ) -> (attrs: PkgAttrs)
        ensures
            attrs == old(self)@.rewritten(pkt_sequence_number, pkt_timestamp, resend_gap(kind)),
            final(self)@ == old(self)@.with_offset(pkt_sequence_number, pkt_timestamp, attrs),
    {
        match self.out_offset {
            Some((seq_num_offset, ts_offset)) => PkgAttrs {
                sequence_number: pkt_sequence_number.wrapping_add(seq_num_offset),
                timestamp: pkt_timestamp.wrapping_add(ts_offset),
                marker: self.marker,
            },
            None => {
                let seq_num_offset = self.last_out_seq.wrapping_sub(
                    pkt_sequence_number,
                ).wrapping_add(1);
                let ts_offset = self.last_out_ts.wrapping_sub(pkt_timestamp).wrapping_add(
                    match kind {
                        RTPCodecType::Audio => AUDIO_SWITCH_GAP,
                        _ => VIDEO_SWITCH_GAP,
                    },
                );
                self.out_offset = Some((seq_num_offset, ts_offset));
                PkgAttrs {
                    sequence_number: pkt_sequence_number.wrapping_add(seq_num_offset),
                    timestamp: pkt_timestamp.wrapping_add(ts_offset),
                    marker: self.marker,
                }
            },
        }
    }

    /// Counts a packet with the given attributes as the last one sent, and
    /// lowers the marker.
    pub fn set_last_out(&mut self, pkg_attrs: PkgAttrs)
        ensures
            final(self)@ == (TrackStateView { marker: false, ..old(self)@.sent(pkg_attrs) }),
    {
        self.last_out_seq = pkg_attrs.sequence_number;
        self.last_out_ts = pkg_attrs.timestamp;
        self.marker = false;
    }

    /// Accounts for a packet that nobody received: the packet after it will
    /// leave with the number after the last one sent. Raises the marker.
    pub fn shift_offset(&mut self, pkt_sequence_number: u16, pkt_timestamp: u32)
        ensures
            final(self)@ == old(self)@.shifted(pkt_sequence_number, pkt_timestamp),
    {
        self.marker = true;
        self.out_offset = Some(
            (
                self.last_out_seq.wrapping_sub(pkt_sequence_number),
                self.last_out_ts.wrapping_sub(pkt_timestamp),
            ),
        );
    }

    /// Forgets the offset: the next packet counts as the first of its source.
    pub fn reset_offset(&mut self)
        ensures
            final(self)@ == old(self)@.without_offset(),
    {
        self.out_offset = None;
    }

    /// The attributes under which a packet leaves, counting it as the last one
    /// sent. The first packet of a source fixes the offset for those that
    /// follow. The marker stays as it is.
    pub fn get_pkg_attrs_set_last_out(
        &mut self,
        kind: RTPCodecType,
        pkt_sequence_number: u16,
        pkt_timestamp: u32,
    ) -> (attrs: PkgAttrs)
        ensures
            attrs == old(self)@.rewritten(pkt_sequence_number, pkt_timestamp, forward_gap(kind)),
            final(self)@ == old(self)@.with_offset(
                pkt_sequence_number,
                pkt_timestamp,
                attrs,
            ).sent(attrs),
    {
        match self.out_offset {
            Some((seq_num_offset, ts_offset)) => {
                self.last_out_seq = pkt_sequence_number.wrapping_add(seq_num_offset);
                self.last_out_ts = pkt_timestamp.wrapping_add(ts_offset);
            },
            None => {
                let seq_num_offset = self.last_out_seq.wrapping_sub(
                    pkt_sequence_number,
                ).wrapping_add(1);
                let ts_offset = self.last_out_ts.wrapping_sub(pkt_timestamp).wrapping_add(
                    match kind {
                        RTPCodecType::Audio => AUDIO_SWITCH_GAP,
                        RTPCodecType::Video => VIDEO_SWITCH_GAP,
                        _ => UNSPECIFIED_FORWARD_GAP,
                    },
                );
                self.out_offset = Some((seq_num_offset, ts_offset));
                self.last_out_seq = pkt_sequence_number.wrapping_add(seq_num_offset);
                self.last_out_ts = pkt_timestamp.wrapping_add(ts_offset);
            },
        }
        PkgAttrs {
            sequence_number: self.last_out_seq,
            timestamp: self.last_out_ts,
            marker: self.marker,
        }
    }

    /// The source's number for a packet that left as `modified_seq`.
    pub fn origin_seq(&self, modified_seq: u16) -> (seq: u16)
        ensures
            seq == self@.origin(modified_seq),
    {
        match self.out_offset {
            Some((seq_num_offset, _)) => modified_seq.wrapping_sub(seq_num_offset),
            None => modified_seq,
        }
    }
}

/// A packet's own number is recovered from the number under which it left, once
/// the state holds the offset that the packet left with.
pub proof fn law_origin_recovers_number(state: TrackStateView, seq: u16, ts: u32, gap: u32)
    ensures
        ({
            let out = state.rewritten(seq, ts, gap);
            state.with_offset(seq, ts, out).origin(out.sequence_number) == seq
        }),
{
}

/// Numbers recovered from different outgoing numbers are different: no two
/// retransmission requests are answered with the same packet.
pub proof fn law_origin_is_injective(state: TrackStateView, out1: u16, out2: u16)
    requires
        state.origin(out1) == state.origin(out2),
    ensures
        out1 == out2,
{
}

/// Within one source the distance between two packets stays as it was, in
/// sequence numbers and in timestamps.
pub proof fn law_distances_are_kept(
    state: TrackStateView,
    seq1: u16,
    ts1: u32,
    seq2: u16,
    ts2: u32,
    gap: u32,
)
    ensures
        ({
            let out1 = state.rewritten(seq1, ts1, gap);
            let out2 = state.with_offset(seq1, ts1, out1).sent(out1).rewritten(seq2, ts2, gap);
            &&& seq_sub(out2.sequence_number, out1.sequence_number) == seq_sub(seq2, seq1)
            &&& ts_sub(out2.timestamp, out1.timestamp) == ts_sub(ts2, ts1)
        }),
{
}

/// Whatever numbers a new source begins with, its first packet leaves with the
/// number after the last one sent, `gap` ticks later.
pub proof fn law_switch_leaves_no_gap(state: TrackStateView, seq: u16, ts: u32, gap: u32)
    ensures
        ({
            let out = state.without_offset().rewritten(seq, ts, gap);
            &&& out.sequence_number == seq_add(state.last_out_seq, 1)
            &&& out.timestamp == ts_add(state.last_out_ts, gap)
        }),
{
}

/// A withheld packet does not move the outgoing stream, and the packet that
/// follows it at the source, `ticks` later, leaves with the number after the
/// last one sent, `ticks` later.
pub proof fn law_pause_leaves_no_gap(
    state: TrackStateView,
    seq: u16,
    ts: u32,
    ticks: u32,
    gap: u32,
)
    ensures
        ({
            let paused = state.shifted(seq, ts);
            let out = paused.rewritten(seq_add(seq, 1), ts_add(ts, ticks), gap);
            &&& paused.last_out_seq == state.last_out_seq
            &&& paused.last_out_ts == state.last_out_ts
            &&& out.sequence_number == seq_add(state.last_out_seq, 1)
            &&& out.timestamp == ts_add(state.last_out_ts, ticks)
            &&& out.marker
        }),
{
}

/// A packet of a source whose offset is known leaves with its own number and timestamp,
/// each moved by the offset around its circle, and with the marker of the state.
#[verifier::rlimit(50)]
pub proof fn law_offset_moves_a_packet(
    state: TrackStateView,
    seq: u16,
    ts: u32,
    gap: u32,
    seq_offset: u16,
    ts_offset: u32,
)
    requires
        state.out_offset == Some((seq_offset, ts_offset)),
    ensures
        state.rewritten(seq, ts, gap).sequence_number == (seq + seq_offset) % 0x1_0000,
        state.rewritten(seq, ts, gap).timestamp == (ts + ts_offset) % 0x1_0000_0000,
        state.rewritten(seq, ts, gap).marker == state.marker,
{
}

/// The first packet of a source leaves with the number after the last one sent and `gap`
/// ticks after it, and with the marker of the state.
#[verifier::rlimit(50)]
pub proof fn law_first_packet_follows_the_last(
    state: TrackStateView,
    seq: u16,
    ts: u32,
    gap: u32,
)
    requires
        state.out_offset is None,
    ensures
        state.rewritten(seq, ts, gap).sequence_number == (state.last_out_seq + 1) % 0x1_0000,
        state.rewritten(seq, ts, gap).timestamp == (state.last_out_ts + gap) % 0x1_0000_0000,
        state.rewritten(seq, ts, gap).marker == state.marker,
{
}

/// Over a switch of the source, audio goes on 900 ticks later, and video one of 24
/// frames a second later, at 90000 ticks a second.
pub proof fn law_steps_over_a_switch()
    ensures
        forward_gap(RTPCodecType::Audio) == 900,
        forward_gap(RTPCodecType::Video) == 90_000int / 24,
        forward_gap(RTPCodecType::Unspecified) == 6000,
        resend_gap(RTPCodecType::Audio) == 900,
        resend_gap(RTPCodecType::Video) == 90_000int / 24,
        resend_gap(RTPCodecType::Unspecified) == 3750,
{
}

/// Keeping an offset, counting a packet as sent, and forgetting the offset each change
/// what they name and nothing else. The offset that is kept turns the packet's numbers
/// into those that it left with.
#[verifier::rlimit(50)]
pub proof fn law_state_changes_are_separate(
    state: TrackStateView,
    seq: u16,
    ts: u32,
    out: PkgAttrs,
)
    ensures
        ({
            let kept = state.with_offset(seq, ts, out);
            &&& kept.out_offset matches Some((seq_offset, ts_offset))
            &&& (seq + seq_offset) % 0x1_0000 == out.sequence_number
            &&& (ts + ts_offset) % 0x1_0000_0000 == out.timestamp
            &&& kept.last_out_seq == state.last_out_seq
            &&& kept.last_out_ts == state.last_out_ts
            &&& kept.started_at_ts == state.started_at_ts
            &&& kept.marker == state.marker
        }),
        ({
            let counted = state.sent(out);
            &&& counted.last_out_seq == out.sequence_number
            &&& counted.last_out_ts == out.timestamp
            &&& counted.started_at_ts == state.started_at_ts
            &&& counted.marker == state.marker
            &&& counted.out_offset == state.out_offset
        }),
        ({
            let switched = state.without_offset();
            &&& switched.out_offset is None
            &&& switched.last_out_seq == state.last_out_seq
            &&& switched.last_out_ts == state.last_out_ts
            &&& switched.started_at_ts == state.started_at_ts
            &&& switched.marker == state.marker
        }),
{
}

/// A withheld packet raises the marker and sets the offset that would turn its numbers
/// into the last ones sent; nothing else changes.
#[verifier::rlimit(50)]
pub proof fn law_withheld_packet_sets_the_offset(state: TrackStateView, seq: u16, ts: u32)
    ensures
        ({
            let paused = state.shifted(seq, ts);
            &&& paused.marker
            &&& paused.out_offset matches Some((seq_offset, ts_offset))
            &&& (seq + seq_offset) % 0x1_0000 == state.last_out_seq
            &&& (ts + ts_offset) % 0x1_0000_0000 == state.last_out_ts
            &&& paused.last_out_seq == state.last_out_seq
            &&& paused.last_out_ts == state.last_out_ts
            &&& paused.started_at_ts == state.started_at_ts
        }),
{
}

/// The source's number of an outgoing number is the one that the offset moves to it;
/// without an offset it is the number itself.
#[verifier::rlimit(50)]
pub proof fn law_origin_undoes_the_offset(state: TrackStateView, modified_seq: u16)
    ensures
        match state.out_offset {
            Some((seq_offset, _)) => (state.origin(modified_seq) + seq_offset) % 0x1_0000
                == modified_seq,
            None => state.origin(modified_seq) == modified_seq,
        },
{
}

/// A track that has sent nothing counts from zero and knows no offset.
pub proof fn law_new_state_counts_from_zero(started_at_ts: i64)
    ensures
        ({
            let state = TrackStateView::initial(started_at_ts);
            &&& state.last_out_seq == 0
            &&& state.last_out_ts == 0
            &&& state.started_at_ts == started_at_ts
            &&& !state.marker
            &&& state.out_offset is None
        }),
{
}

} // verus!
