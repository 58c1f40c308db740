//! A local track with a fixed codec: it forwards the packets of a source to its
//! bindings, answers retransmission requests and steers the bitrate of the source.
use crate::binding::BindingView;
use crate::bindings::BindingTable;
use crate::bitrate_state::{BitrateState, BitrateView};
use crate::clock::instant_now;
use crate::codec::{
    get_max_bitrate, kind_of, kind_of_mime_type, max_bitrate, CapabilityView, RTCRtpCodecCapability,
    RTPCodecType,
};
use crate::header_extension::MarshalError;
use crate::loss_stats::{LossView, ReceiverLossStats};
use crate::packet::{extensions_fit, length_fits, ExtensionError};
use crate::packet_cache::{CacheView, PCache, PCacheBuffer};
use crate::track_state::{TrackState, TrackStateView};
use std::time::Instant;
use vstd::arithmetic::power2::is_pow2;
use vstd::prelude::*;
use vstd::utf8::encode_utf8;

verus! {

/// How many packets are kept for retransmission.
pub const CAPACITY: usize = 256;

/// How long a packet is kept for retransmission.
pub const TTL_NANOS: u128 = 3_000_000_000;

/// The least time between two requests for a key frame.
pub const PLI_INTERVAL_MS: u64 = 500;

/// The least time between two bitrate estimates.
pub const REMB_INTERVAL_MICROS: u64 = 1_000_000;

/// When the last bitrate estimate of a new track counts as sent: ten seconds before
/// the start, so that the first can be sent at once.
pub const INITIAL_REMB_MICROS: i128 = -10_000_000;

/// Room for bindings in a new track.
const BINDINGS_CAPACITY: usize = 10;

/// A track with a fixed codec that accepts RTP packets.
#[derive(Debug)]
pub struct TrackLocalStaticRTP {
    /// The bindings by SSRC.
    pub bindings: BindingTable,
    pub codec: RTCRtpCodecCapability,
    pub id: String,
    pub rid: Option<String>,
    pub stream_id: String,
    pub state: TrackState,
    pub rtp_cache: PCacheBuffer,
    pub pli_last_ms: u64,
    pub pli_interval_ms: u64,
    pub bitrate: BitrateState,
    pub loss_stats: ReceiverLossStats,
    pub max_bitrate_bps: u32,
    pub current_target_bitrate_bps: u32,
    /// In microseconds since the start; below zero for a time before it.
    pub last_remb_sent: i128,
    /// The start, from which the times of bitrate estimates are counted.
    pub start_remb_time: Instant,
    pub min_remb_interval_micros: u64,
}

/// Why a track refuses something.
#[derive(Debug)]
pub enum Error {
    /// The remote peer does not support the codec of the track.
    ErrUnsupportedCodec,
    /// There is no binding with the SSRC.
    LocalTrackBindingNotFound,
    /// An extension could not be marshaled.
    Util(MarshalError),
    /// An extension was refused.
    Rtp(ExtensionError),
}

/// The mathematical value of a `TrackLocalStaticRTP`.
#[verifier::ext_equal]
pub struct TrackView {
    pub bindings: Map<u32, BindingView>,
    pub codec: CapabilityView,
    pub id: Seq<char>,
    pub rid: Option<Seq<char>>,
    pub stream_id: Seq<char>,
    pub state: TrackStateView,
    pub rtp_cache: CacheView,
    pub pli_last_ms: u64,
    pub pli_interval_ms: u64,
    pub bitrate: BitrateView,
    pub loss_stats: LossView,
    pub max_bitrate_bps: u32,
    pub current_target_bitrate_bps: u32,
    pub last_remb_sent: i128,
    pub start_remb_time: Instant,
    pub min_remb_interval_micros: u64,
}

/// The times at which the parts of a track began.
pub struct StartTimes {
    /// In Unix seconds.
    pub started_at_ts: i64,
    pub start_remb_time: Instant,
    pub bitrate_origin: Instant,
    pub losses_updated_at: Instant,
}

/// The value of an optional text.
pub open spec fn optional_text(text: Option<String>) -> Option<Seq<char>> {
    match text {
        Some(text) => Some(text@),
        None => None,
    }
}

/// Whether an optional text, in UTF-8, has a length that fits.
pub open spec fn text_fits(text: Option<Seq<char>>) -> bool {
    text matches Some(text) ==> length_fits(encode_utf8(text).len() as int)
}

impl View for TrackLocalStaticRTP {
    type V = TrackView;

    open spec fn view(&self) -> TrackView {
        TrackView {
            bindings: self.bindings@,
            codec: self.codec@,
            id: self.id@,
            rid: optional_text(self.rid),
            stream_id: self.stream_id@,
            state: self.state@,
            rtp_cache: self.rtp_cache@,
            pli_last_ms: self.pli_last_ms,
            pli_interval_ms: self.pli_interval_ms,
            bitrate: self.bitrate@,
            loss_stats: self.loss_stats@,
            max_bitrate_bps: self.max_bitrate_bps,
            current_target_bitrate_bps: self.current_target_bitrate_bps,
            last_remb_sent: self.last_remb_sent,
            start_remb_time: self.start_remb_time,
            min_remb_interval_micros: self.min_remb_interval_micros,
        }
    }
}

/// Whether bindings stand under their own SSRCs and their extensions fit.
pub open spec fn bindings_wf(bindings: Map<u32, BindingView>) -> bool {
    forall|ssrc: u32| #[trigger]
        bindings.contains_key(ssrc) ==> bindings[ssrc].ssrc == ssrc && extensions_fit(
            bindings[ssrc].hdr_ext_ids,
        )
}

impl TrackView {
    /// A track that has forwarded nothing and has no bindings.
    pub open spec fn initial(
        codec: CapabilityView,
        id: Seq<char>,
        rid: Option<Seq<char>>,
        stream_id: Seq<char>,
        max_bitrate_bps: u32,
        times: StartTimes,
    ) -> TrackView {
        TrackView {
            bindings: Map::empty(),
            codec,
            id,
            rid,
            stream_id,
            state: TrackStateView::initial(times.started_at_ts),
            rtp_cache: CacheView {
                ttl_nanos: TTL_NANOS,
                slots: Seq::new(CAPACITY as nat, |i: int| None::<PCache>),
            },
            pli_last_ms: 0,
            pli_interval_ms: PLI_INTERVAL_MS,
            bitrate: BitrateView::initial(times.bitrate_origin),
            loss_stats: LossView {
                average_fraction_lost: 0,
                worst_fraction_lost: 0,
                receivers: Map::empty(),
                last_update: times.losses_updated_at,
            },
            max_bitrate_bps,
            current_target_bitrate_bps: max_bitrate_bps / 2,
            last_remb_sent: INITIAL_REMB_MICROS,
            start_remb_time: times.start_remb_time,
            min_remb_interval_micros: REMB_INTERVAL_MICROS,
        }
    }

    /// The times at which the parts of the track began.
    pub open spec fn times(self) -> StartTimes {
        StartTimes {
            started_at_ts: self.state.started_at_ts,
            start_remb_time: self.start_remb_time,
            bitrate_origin: self.bitrate.origin,
            losses_updated_at: self.loss_stats.last_update,
        }
    }

    /// The kind of media that the track carries.
    pub open spec fn kind(self) -> RTPCodecType {
        kind_of(self.codec.mime_type)
    }
}

impl TrackLocalStaticRTP {
    /// The bindings stand under their SSRCs, the parts are well-formed, and the target
    /// lies between a twentieth of the codec's largest bitrate and all of it.
    pub open spec fn wf(self) -> bool {
        &&& bindings_wf(self@.bindings)
        &&& self.rtp_cache.wf()
        &&& self.bitrate.wf()
        &&& self.loss_stats.wf()
        &&& max_bitrate(self@.codec.mime_type) == Some(self.max_bitrate_bps)
        &&& self.max_bitrate_bps / 20 <= self.current_target_bitrate_bps <= self.max_bitrate_bps
        &&& text_fits(self@.rid)
    }

    /// A track with or without a stream id of its own.
    fn with_optional_rid(
        codec: RTCRtpCodecCapability,
        id: String,
        rid: Option<String>,
        stream_id: String,
    ) -> (track: TrackLocalStaticRTP)
        requires
            max_bitrate(codec@.mime_type) is Some,
            text_fits(optional_text(rid)),
        ensures
            track.wf(),
            track@ == TrackView::initial(
                codec@,
                id@,
                optional_text(rid),
                stream_id@,
                max_bitrate(codec@.mime_type).unwrap(),
                track@.times(),
            ),
    {
        let max_bitrate_bps: u32 = get_max_bitrate(codec.mime_type.as_str());
        proof {
            assert(is_pow2(CAPACITY as int)) by {
                reveal_with_fuel(is_pow2, 10);
            }
        }
        let track = TrackLocalStaticRTP {
            bindings: BindingTable::with_capacity(BINDINGS_CAPACITY),
            codec,
            id,
            rid,
            stream_id,
            state: TrackState::new(),
            rtp_cache: PCacheBuffer::new(TTL_NANOS, CAPACITY),
            pli_last_ms: 0,
            pli_interval_ms: PLI_INTERVAL_MS,
            bitrate: BitrateState::new(),
            loss_stats: ReceiverLossStats::new(),
            max_bitrate_bps,
            current_target_bitrate_bps: max_bitrate_bps / 2,
            last_remb_sent: INITIAL_REMB_MICROS,
            start_remb_time: instant_now(),
            min_remb_interval_micros: REMB_INTERVAL_MICROS,
        };
        track
    }

    /// A track without a stream id of its own.
    pub fn new(codec: RTCRtpCodecCapability, id: String, stream_id: String) -> (track:
        TrackLocalStaticRTP)
        requires
            max_bitrate(codec@.mime_type) is Some,
        ensures
            track.wf(),
            track@ == TrackView::initial(
                codec@,
                id@,
                None,
                stream_id@,
                max_bitrate(codec@.mime_type).unwrap(),
                track@.times(),
            ),
    {
        TrackLocalStaticRTP::with_optional_rid(codec, id, None, stream_id)
    }

    /// A track with a stream id of its own.
    pub fn new_with_rid(
        codec: RTCRtpCodecCapability,
        id: String,
        rid: String,
        stream_id: String,
    ) -> (track: TrackLocalStaticRTP)
        requires
            max_bitrate(codec@.mime_type) is Some,
            text_fits(Some(rid@)),
        ensures
            track.wf(),
            track@ == TrackView::initial(
                codec@,
                id@,
                Some(rid@),
                stream_id@,
                max_bitrate(codec@.mime_type).unwrap(),
                track@.times(),
            ),
    {
        TrackLocalStaticRTP::with_optional_rid(codec, id, Some(rid), stream_id)
    }

    /// The codec of the track.
    pub fn codec(&self) -> (codec: RTCRtpCodecCapability)
        ensures
            codec@ == self@.codec,
    {
        self.codec.clone()
    }

    /// The identifier of the track, unique within its stream.
    pub fn id(&self) -> (id: &str)
        ensures
            id@ == self@.id,
    {
        self.id.as_str()
    }

    /// The RTP stream id of the track, if it has one.
    pub fn rid(&self) -> (rid: Option<&str>)
        ensures
            match rid {
                Some(rid) => self@.rid == Some(rid@),
                None => self@.rid is None,
            },
    {
        match &self.rid {
            Some(rid) => Some(rid.as_str()),
            None => None,
        }
    }

    /// The group that the track belongs to.
    pub fn stream_id(&self) -> (stream_id: &str)
        ensures
            stream_id@ == self@.stream_id,
    {
        self.stream_id.as_str()
    }

    /// Whether the track carries audio or video.
    pub fn kind(&self) -> (kind: RTPCodecType)
        ensures
            kind == self@.kind(),
    {
        kind_of_mime_type(self.codec.mime_type.as_str())
    }
}

/// A new track has no bindings, keeps 256 packets for three seconds, asks for a key frame
/// every half second at most and sends an estimate every second at most, and aims at half
/// of its largest bitrate.
pub proof fn law_new_track(
    codec: CapabilityView,
    id: Seq<char>,
    rid: Option<Seq<char>>,
    stream_id: Seq<char>,
    max_bitrate_bps: u32,
    times: StartTimes,
    ssrc: u32,
    seq: u16,
)
    ensures
        ({
            let track = TrackView::initial(codec, id, rid, stream_id, max_bitrate_bps, times);
            &&& !track.bindings.contains_key(ssrc)
            &&& track.codec == codec
            &&& track.id == id
            &&& track.rid == rid
            &&& track.stream_id == stream_id
            &&& track.rtp_cache.slots.len() == 256
            &&& track.rtp_cache.entry(seq) is None
            &&& track.rtp_cache.ttl_nanos == 3_000_000_000
            &&& track.pli_last_ms == 0
            &&& track.pli_interval_ms == 500
            &&& track.min_remb_interval_micros == 1_000_000
            &&& track.last_remb_sent == -10_000_000
            &&& track.max_bitrate_bps == max_bitrate_bps
            &&& max_bitrate_bps - 1 <= 2 * track.current_target_bitrate_bps <= max_bitrate_bps
            &&& !track.loss_stats.receivers.contains_key(ssrc)
            &&& track.loss_stats.worst_fraction_lost == 0
            &&& track.loss_stats.average_fraction_lost == 0
            &&& track.times() == times
        }),
{
}

/// The value of a track holds what its fields hold.
pub proof fn law_track_value_is_that_of_the_fields(track: TrackLocalStaticRTP, text: String)
    ensures
        track@.bindings == track.bindings@,
        track@.codec == track.codec@,
        track@.id == track.id@,
        track@.rid is Some == track.rid is Some,
        track.rid matches Some(rid) ==> track@.rid == Some(rid@),
        track@.stream_id == track.stream_id@,
        track@.state == track.state@,
        track@.rtp_cache == track.rtp_cache@,
        track@.pli_last_ms == track.pli_last_ms,
        track@.pli_interval_ms == track.pli_interval_ms,
        track@.bitrate == track.bitrate@,
        track@.loss_stats == track.loss_stats@,
        track@.max_bitrate_bps == track.max_bitrate_bps,
        track@.current_target_bitrate_bps == track.current_target_bitrate_bps,
        track@.last_remb_sent == track.last_remb_sent,
        track@.start_remb_time == track.start_remb_time,
        track@.min_remb_interval_micros == track.min_remb_interval_micros,
        track@.kind() == kind_of(track.codec.mime_type@),
        optional_text(Some(text)) == Some(text@),
        optional_text(None) is None,
        encode_utf8(text@).len() <= 0x3fff_ffff ==> text_fits(Some(text@)),
        text_fits(None),
{
}

/// A well-formed track has every binding under its own SSRC, the largest bitrate of its
/// codec, and a target between a twentieth of that and all of it.
pub proof fn law_well_formed_track(track: TrackLocalStaticRTP, ssrc: u32)
    requires
        track.wf(),
    ensures
        track@.bindings.contains_key(ssrc) ==> track@.bindings[ssrc].ssrc == ssrc,
        max_bitrate(track@.codec.mime_type) == Some(track@.max_bitrate_bps),
        track@.max_bitrate_bps as int / 20 <= track@.current_target_bitrate_bps
            <= track@.max_bitrate_bps,
        track.rtp_cache.wf(),
        track.bitrate.wf(),
        track.loss_stats.wf(),
{
}

} // verus!
