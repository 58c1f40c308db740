//! Header extensions that a caller asks to be sent with a packet.
use crate::octets::{octets, share};
use crate::packet::length_fits;
use bytes::Bytes;
use rtp::extension::abs_send_time_extension::AbsSendTimeExtension;
use rtp::extension::audio_level_extension::AudioLevelExtension;
use rtp::extension::playout_delay_extension::PlayoutDelayExtension;
use rtp::extension::transport_cc_extension::TransportCcExtension;
use rtp::extension::video_orientation_extension as orientation;
use vstd::prelude::*;
use webrtc_util::Marshal;

verus! {

/// Which way the camera faces.
#[derive(Debug, Clone, Copy, PartialEq, Eq, Structural)]
pub enum CameraDirection {
    Front,
    Back,
}

/// By how much the picture is rotated.
#[derive(Debug, Clone, Copy, PartialEq, Eq, Structural)]
pub enum VideoRotation {
    Degree0,
    Degree90,
    Degree180,
    Degree270,
}

/// A header extension. A custom one brings the bytes that it was marshaled to,
/// or the message of the error that this ended in.
#[derive(Debug)]
pub enum HeaderExtension {
    AbsSendTime { timestamp: u64 },
    AudioLevel { level: u8, voice: bool },
    PlayoutDelay { min_delay: u16, max_delay: u16 },
    TransportCc { transport_sequence: u16 },
    VideoOrientation { direction: CameraDirection, flip: bool, rotation: VideoRotation },
    Custom { uri: String, marshaled: Result<Bytes, String> },
}

/// Why an extension could not be marshaled.
#[derive(Debug)]
pub enum MarshalError {
    /// The level does not fit into seven bits.
    AudioLevelOverflow,
    /// A delay does not fit into twelve bits.
    PlayoutDelayOverflow,
    /// What a custom extension said.
    Custom(String),
}

/// The low 24 bits of a send time, most significant byte first.
pub open spec fn abs_send_time_bytes(timestamp: u64) -> Seq<u8> {
    seq![
        ((timestamp / 0x1_0000) % 0x100) as u8,
        ((timestamp / 0x100) % 0x100) as u8,
        (timestamp % 0x100) as u8,
    ]
}

/// The voice flag above seven bits of level.
pub open spec fn audio_level_bytes(level: u8, voice: bool) -> Result<Seq<u8>, MarshalError> {
    if level > 127 {
        Err(MarshalError::AudioLevelOverflow)
    } else {
        Ok(
            seq![
                if voice {
                    (0x80 + level) as u8
                } else {
                    level
                },
            ],
        )
    }
}

/// Twelve bits of each delay, most significant bits first.
pub open spec fn playout_delay_bytes(min_delay: u16, max_delay: u16) -> Result<
    Seq<u8>,
    MarshalError,
> {
    if min_delay > 0xFFF || max_delay > 0xFFF {
        Err(MarshalError::PlayoutDelayOverflow)
    } else {
        Ok(
            seq![
                (min_delay / 0x10) as u8,
                ((min_delay % 0x10) * 0x10 + max_delay / 0x100) as u8,
                (max_delay % 0x100) as u8,
            ],
        )
    }
}

/// A sequence number, most significant byte first.
pub open spec fn transport_cc_bytes(transport_sequence: u16) -> Seq<u8> {
    seq![(transport_sequence / 0x100) as u8, (transport_sequence % 0x100) as u8]
}

/// Direction, flip and two bits of rotation in the low four bits.
pub open spec fn video_orientation_bytes(
    direction: CameraDirection,
    flip: bool,
    rotation: VideoRotation,
) -> Seq<u8> {
    let c: int = if direction == CameraDirection::Back {
        8
    } else {
        0
    };
    let f: int = if flip {
        4
    } else {
        0
    };
    let r: int = match rotation {
        VideoRotation::Degree0 => 0,
        VideoRotation::Degree90 => 1,
        VideoRotation::Degree180 => 2,
        VideoRotation::Degree270 => 3,
    };
    seq![(c + f + r) as u8]
}

/// Calls `marshal` on `rtp`'s `AbsSendTimeExtension`, which never fails: three
/// bytes with the low 24 bits of the time.
#[verifier::external_body]
fn marshal_abs_send_time(timestamp: u64) -> (payload: Bytes)
    ensures
        octets(payload) == abs_send_time_bytes(timestamp),
{
    AbsSendTimeExtension { timestamp }.marshal().unwrap_or_default()
}

/// Calls `marshal` on `rtp`'s `AudioLevelExtension`: one byte, or an error for a
/// level above 127 and for nothing else.
#[verifier::external_body]
fn marshal_audio_level(level: u8, voice: bool) -> (result: Result<Bytes, MarshalError>)
    ensures
        match result {
            Ok(payload) => audio_level_bytes(level, voice) == Ok::<Seq<u8>, MarshalError>(
                octets(payload),
            ),
            Err(error) => audio_level_bytes(level, voice) == Err::<Seq<u8>, MarshalError>(error),
        },
{
    AudioLevelExtension { level, voice }.marshal().map_err(|_| MarshalError::AudioLevelOverflow)
}

/// Calls `marshal` on `rtp`'s `PlayoutDelayExtension`: three bytes, or an error
/// for a delay above 4095 and for nothing else.
#[verifier::external_body]
fn marshal_playout_delay(min_delay: u16, max_delay: u16) -> (result: Result<Bytes, MarshalError>)
    ensures
        match result {
            Ok(payload) => playout_delay_bytes(min_delay, max_delay) == Ok::<
                Seq<u8>,
                MarshalError,
            >(octets(payload)),
            Err(error) => playout_delay_bytes(min_delay, max_delay) == Err::<
                Seq<u8>,
                MarshalError,
            >(error),
        },
{
    PlayoutDelayExtension { min_delay, max_delay }.marshal().map_err(|_| MarshalError::PlayoutDelayOverflow)
}

/// Calls `marshal` on `rtp`'s `TransportCcExtension`, which never fails: the two
/// bytes of the number.
#[verifier::external_body]
fn marshal_transport_cc(transport_sequence: u16) -> (payload: Bytes)
    ensures
        octets(payload) == transport_cc_bytes(transport_sequence),
{
    TransportCcExtension { transport_sequence }.marshal().unwrap_or_default()
}

/// Calls `marshal` on `rtp`'s `VideoOrientationExtension`, which never fails: one
/// byte.
#[verifier::external_body]
fn marshal_video_orientation(
    direction: CameraDirection,
    flip: bool,
    rotation: VideoRotation,
) -> (payload: Bytes)
    ensures
        octets(payload) == video_orientation_bytes(direction, flip, rotation),
{
    let direction = match direction {
        CameraDirection::Front => orientation::CameraDirection::Front,
        CameraDirection::Back => orientation::CameraDirection::Back,
    };
    let rotation = match rotation {
        VideoRotation::Degree0 => orientation::VideoRotation::Degree0,
        VideoRotation::Degree90 => orientation::VideoRotation::Degree90,
        VideoRotation::Degree180 => orientation::VideoRotation::Degree180,
        VideoRotation::Degree270 => orientation::VideoRotation::Degree270,
    };
    orientation::VideoOrientationExtension { direction, flip, rotation }.marshal().unwrap_or_default()
}

impl HeaderExtension {
    /// The URI under which the extension is negotiated.
    pub open spec fn uri_chars(self) -> Seq<char> {
        match self {
            HeaderExtension::AbsSendTime { .. } =>
                "http://www.webrtc.org/experiments/rtp-hdrext/abs-send-time"@,
            HeaderExtension::AudioLevel { .. } => "urn:ietf:params:rtp-hdrext:ssrc-audio-level"@,
            HeaderExtension::PlayoutDelay { .. } =>
                "http://www.webrtc.org/experiments/rtp-hdrext/playout-delay"@,
            HeaderExtension::TransportCc { .. } =>
                "http://www.ietf.org/id/draft-holmer-rmcat-transport-wide-cc-extensions-01"@,
            HeaderExtension::VideoOrientation { .. } => "urn:3gpp:video-orientation"@,
            HeaderExtension::Custom { uri, .. } => uri@,
        }
    }

    /// The bytes that the extension is sent as, or why there are none.
    pub open spec fn bytes(self) -> Result<Seq<u8>, MarshalError> {
        match self {
            HeaderExtension::AbsSendTime { timestamp } => Ok(abs_send_time_bytes(timestamp)),
            HeaderExtension::AudioLevel { level, voice } => audio_level_bytes(level, voice),
            HeaderExtension::PlayoutDelay { min_delay, max_delay } => playout_delay_bytes(
                min_delay,
                max_delay,
            ),
            HeaderExtension::TransportCc { transport_sequence } => Ok(
                transport_cc_bytes(transport_sequence),
            ),
            HeaderExtension::VideoOrientation { direction, flip, rotation } => Ok(
                video_orientation_bytes(direction, flip, rotation),
            ),
            HeaderExtension::Custom { uri, marshaled } => match marshaled {
                Ok(payload) => Ok(octets(payload)),
                Err(message) => Err(MarshalError::Custom(message)),
            },
        }
    }

    /// Whether the bytes of the extension have a length that fits.
    pub open spec fn fits(self) -> bool {
        self.bytes() matches Ok(bytes) ==> length_fits(bytes.len() as int)
    }

    /// The URI under which the extension is negotiated.
    pub fn uri(&self) -> (uri: String)
        ensures
            uri@ == self.uri_chars(),
    {
        match self {
            HeaderExtension::AbsSendTime { .. } =>
                "http://www.webrtc.org/experiments/rtp-hdrext/abs-send-time".to_owned(),
            HeaderExtension::AudioLevel { .. } =>
                "urn:ietf:params:rtp-hdrext:ssrc-audio-level".to_owned(),
            HeaderExtension::PlayoutDelay { .. } =>
                "http://www.webrtc.org/experiments/rtp-hdrext/playout-delay".to_owned(),
            HeaderExtension::TransportCc { .. } =>
                "http://www.ietf.org/id/draft-holmer-rmcat-transport-wide-cc-extensions-01".to_owned(),
            HeaderExtension::VideoOrientation { .. } => "urn:3gpp:video-orientation".to_owned(),
            HeaderExtension::Custom { uri, .. } => uri.clone(),
        }
    }

    /// The bytes that the extension is sent as, or why there are none.
    pub fn marshal(&self) -> (result: Result<Bytes, MarshalError>)
        ensures
            match result {
                Ok(payload) => self.bytes() == Ok::<Seq<u8>, MarshalError>(octets(payload)),
                Err(error) => self.bytes() == Err::<Seq<u8>, MarshalError>(error),
            },
    {
        match self {
            HeaderExtension::AbsSendTime { timestamp } => Ok(marshal_abs_send_time(*timestamp)),
            HeaderExtension::AudioLevel { level, voice } => marshal_audio_level(*level, *voice),
            HeaderExtension::PlayoutDelay { min_delay, max_delay } => marshal_playout_delay(
                *min_delay,
                *max_delay,
            ),
            HeaderExtension::TransportCc { transport_sequence } => Ok(
                marshal_transport_cc(*transport_sequence),
            ),
            HeaderExtension::VideoOrientation { direction, flip, rotation } => Ok(
                marshal_video_orientation(*direction, *flip, *rotation),
            ),
            HeaderExtension::Custom { marshaled, .. } => match marshaled {
                Ok(payload) => Ok(share(payload)),
                Err(message) => Err(MarshalError::Custom(message.clone())),
            },
        }
    }
}

/// Payloads by URI. No URI occurs twice; the entries are in the order in which
/// their URIs came first.
pub type PayloadsByUri = Seq<(Seq<char>, Seq<u8>)>;

/// The place of a URI.
pub open spec fn uri_position(entries: PayloadsByUri, uri: Seq<char>) -> Option<int>
    decreases entries.len(),
{
    if entries.len() == 0 {
        None
    } else if entries[0].0 == uri {
        Some(0)
    } else {
        match uri_position(entries.drop_first(), uri) {
            Some(i) => Some(i + 1),
            None => None,
        }
    }
}

/// The entries with the payload of a URI set.
pub open spec fn with_payload(
    entries: PayloadsByUri,
    uri: Seq<char>,
    payload: Seq<u8>,
) -> PayloadsByUri {
    match uri_position(entries, uri) {
        Some(i) => entries.update(i, (uri, payload)),
        None => entries.push((uri, payload)),
    }
}

/// The payloads of those extensions that could be marshaled; of two with one URI
/// the later counts.
pub open spec fn payloads(extensions: Seq<HeaderExtension>) -> PayloadsByUri
    decreases extensions.len(),
{
    if extensions.len() == 0 {
        Seq::empty()
    } else {
        let before = payloads(extensions.drop_last());
        match extensions.last().bytes() {
            Ok(bytes) => with_payload(before, extensions.last().uri_chars(), bytes),
            Err(_) => before,
        }
    }
}

/// The errors of those extensions that could not be marshaled, in order.
pub open spec fn marshal_errors(extensions: Seq<HeaderExtension>) -> Seq<MarshalError>
    decreases extensions.len(),
{
    if extensions.len() == 0 {
        Seq::empty()
    } else {
        let before = marshal_errors(extensions.drop_last());
        match extensions.last().bytes() {
            Ok(_) => before,
            Err(error) => before.push(error),
        }
    }
}

/// Marshaled extensions, ready to be set in the packets of any binding.
#[derive(Debug)]
pub struct ExtensionData {
    entries: Vec<(String, Bytes)>,
}

impl View for ExtensionData {
    type V = PayloadsByUri;

    closed spec fn view(&self) -> PayloadsByUri {
        self.entries@.map_values(|entry: (String, Bytes)| (entry.0@, octets(entry.1)))
    }
}

/// Whether every payload has a length that fits.
pub open spec fn payloads_fit(entries: PayloadsByUri) -> bool {
    forall|i: int| 0 <= i < entries.len() ==> length_fits((#[trigger] entries[i]).1.len() as int)
}

/// Whether the bytes of every extension have a length that fits.
pub open spec fn all_fit(extensions: Seq<HeaderExtension>) -> bool {
    forall|i: int| 0 <= i < extensions.len() ==> (#[trigger] extensions[i]).fits()
}

impl ExtensionData {
    /// Marshals the extensions. The second part holds the errors of those that
    /// could not be.
    pub fn marshal(extensions: &[HeaderExtension]) -> (result: (ExtensionData, Vec<MarshalError>))
        ensures
            result.0@ == payloads(extensions@),
            result.1@ == marshal_errors(extensions@),
    {
        let mut data = ExtensionData { entries: Vec::new() };
        let mut errors: Vec<MarshalError> = Vec::new();
        assert(data@ =~= Seq::empty());
        assert(extensions@.take(0) =~= Seq::empty());
        for i in 0..extensions.len()
            invariant
                data@ == payloads(extensions@.take(i as int)),
                errors@ == marshal_errors(extensions@.take(i as int)),
        {
            assert(extensions@.take(i + 1).drop_last() =~= extensions@.take(i as int));
            assert(extensions@.take(i + 1).last() == extensions@[i as int]);
            match extensions[i].marshal() {
                Ok(payload) => {
                    data.put(extensions[i].uri(), payload);
                },
                Err(error) => {
                    errors.push(error);
                },
            }
        }
        assert(extensions@.take(extensions@.len() as int) =~= extensions@);
        (data, errors)
    }

    /// Sets the payload of a URI.
    fn put(&mut self, uri: String, payload: Bytes)
        ensures
            final(self)@ == with_payload(old(self)@, uri@, octets(payload)),
    {
        let ghost before = self@;
        let mut i: usize = 0;
        assert(before.skip(0) =~= before);
        while i < self.entries.len()
            invariant
                before == old(self)@,
                self@ == before,
                i <= self.entries@.len(),
                uri_position(before, uri@) == (match uri_position(before.skip(i as int), uri@) {
                    Some(j) => Some(i + j),
                    None => None,
                }),
            decreases self.entries@.len() - i,
        {
            assert(before.skip(i as int)[0] == before[i as int]);
            assert(before.skip(i as int).drop_first() =~= before.skip(i + 1));
            if self.entries[i].0 == uri {
                self.entries[i] = (uri, payload);
                assert(self@ =~= before.update(i as int, (uri@, octets(payload))));
                return ;
            }
            i = i + 1;
        }
        self.entries.push((uri, payload));
        assert(self@ =~= before.push((uri@, octets(payload))));
    }

    /// How many URIs there are.
    pub(crate) fn len(&self) -> (len: usize)
        ensures
            len == self@.len(),
    {
        self.entries.len()
    }

    /// The URI at place `i`.
    pub(crate) fn uri_at(&self, i: usize) -> (uri: &String)
        requires
            i < self@.len(),
        ensures
            uri@ == self@[i as int].0,
    {
        &self.entries[i].0
    }

    /// Another handle to the payload at place `i`.
    pub(crate) fn payload_at(&self, i: usize) -> (payload: Bytes)
        requires
            i < self@.len(),
        ensures
            octets(payload) == self@[i as int].1,
    {
        share(&self.entries[i].1)
    }
}

/// What was marshaled from extensions that fit, fits.
pub proof fn law_payloads_fit(extensions: Seq<HeaderExtension>)
    requires
        all_fit(extensions),
    ensures
        payloads_fit(payloads(extensions)),
    decreases extensions.len(),
{
    if extensions.len() > 0 {
        law_payloads_fit(extensions.drop_last());
        assert(extensions.last().fits());
        lemma_uri_position(payloads(extensions.drop_last()), extensions.last().uri_chars());
    }
}

proof fn lemma_uri_position(entries: PayloadsByUri, uri: Seq<char>)
    ensures
        match uri_position(entries, uri) {
            Some(i) => 0 <= i < entries.len() && entries[i].0 == uri && forall|j: int|
                0 <= j < i ==> (#[trigger] entries[j]).0 != uri,
            None => forall|j: int| 0 <= j < entries.len() ==> (#[trigger] entries[j]).0 != uri,
        },
    decreases entries.len(),
{
    if entries.len() > 0 && entries[0].0 != uri {
        let rest = entries.drop_first();
        lemma_uri_position(rest, uri);
        assert forall|j: int| 1 <= j < entries.len() implies entries[j] == rest[j - 1] by {}
    }
}

/// No URI occurs twice.
pub proof fn law_uris_are_distinct(extensions: Seq<HeaderExtension>)
    ensures
        ({
            let entries = payloads(extensions);
            forall|i: int, j: int|
                0 <= i < j < entries.len() ==> (#[trigger] entries[i]).0 != (#[trigger] entries[j]).0
        }),
    decreases extensions.len(),
{
    if extensions.len() > 0 {
        law_uris_are_distinct(extensions.drop_last());
        lemma_uri_position(payloads(extensions.drop_last()), extensions.last().uri_chars());
    }
}

/// Of two extensions with one URI the later counts: the last extension of all, if
/// it could be marshaled, is found with its own bytes.
pub proof fn law_later_extension_counts(extensions: Seq<HeaderExtension>)
    requires
        extensions.len() > 0,
        extensions.last().bytes() is Ok,
    ensures
        ({
            let entries = payloads(extensions);
            uri_position(entries, extensions.last().uri_chars()) matches Some(i) && Ok::<
                Seq<u8>,
                MarshalError,
            >(entries[i].1) == extensions.last().bytes()
        }),
{
    let uri = extensions.last().uri_chars();
    lemma_uri_position(payloads(extensions.drop_last()), uri);
    lemma_uri_position(payloads(extensions), uri);
    law_uris_are_distinct(extensions);
    match uri_position(payloads(extensions.drop_last()), uri) {
        Some(i) => {
            assert(payloads(extensions)[i].0 == uri);
        },
        None => {
            assert(payloads(extensions).last().0 == uri);
        },
    }
}

/// Whether a URI is found among the payloads with the given bytes.
pub open spec fn finds(entries: PayloadsByUri, uri: Seq<char>, bytes: Seq<u8>) -> bool {
    exists|k: int|
        0 <= k < entries.len() && (#[trigger] entries[k]).0 == uri && entries[k].1 == bytes
}

/// Every extension that can be marshaled is found under its URI with its bytes, unless a
/// later one that can be marshaled has the same URI.
pub proof fn law_every_extension_is_found(extensions: Seq<HeaderExtension>, i: int, bytes: Seq<u8>)
    requires
        0 <= i < extensions.len(),
        extensions[i].bytes() == Ok::<Seq<u8>, MarshalError>(bytes),
        forall|j: int|
            i < j < extensions.len() && (#[trigger] extensions[j]).bytes() is Ok
                ==> extensions[j].uri_chars() != extensions[i].uri_chars(),
    ensures
        finds(payloads(extensions), extensions[i].uri_chars(), bytes),
    decreases extensions.len(),
{
    let fewer = extensions.drop_last();
    let (before, after) = (payloads(fewer), payloads(extensions));
    let (uri, last) = (extensions[i].uri_chars(), extensions.last());
    lemma_uri_position(before, last.uri_chars());
    if i == extensions.len() - 1 {
        match uri_position(before, uri) {
            Some(k) => {
                assert(after[k].0 == uri);
            },
            None => {
                assert(after[before.len() as int].0 == uri);
            },
        }
    } else {
        assert(fewer[i] == extensions[i]);
        assert forall|j: int| i < j < fewer.len() && (#[trigger] fewer[j]).bytes() is Ok implies
            fewer[j].uri_chars() != uri by {
            assert(extensions[j] == fewer[j]);
        }
        law_every_extension_is_found(fewer, i, bytes);
        let k = choose|k: int|
            0 <= k < before.len() && (#[trigger] before[k]).0 == uri && before[k].1 == bytes;
        assert(extensions[extensions.len() - 1] == last);
        assert(after[k] == before[k]);
    }
}

/// Every payload is that of an extension that can be marshaled, under its URI, and no
/// later one that can be marshaled has the same URI.
pub proof fn law_only_extensions_are_found(extensions: Seq<HeaderExtension>, k: int)
    requires
        0 <= k < payloads(extensions).len(),
    ensures
        exists|i: int|
            0 <= i < extensions.len() && (#[trigger] extensions[i]).uri_chars() == payloads(
                extensions,
            )[k].0 && extensions[i].bytes() == Ok::<Seq<u8>, MarshalError>(
                payloads(extensions)[k].1,
            ) && forall|j: int|
                i < j < extensions.len() && (#[trigger] extensions[j]).bytes() is Ok
                    ==> extensions[j].uri_chars() != extensions[i].uri_chars(),
    decreases extensions.len(),
{
    let fewer = extensions.drop_last();
    let (before, after) = (payloads(fewer), payloads(extensions));
    let last = extensions.last();
    let end = extensions.len() - 1;
    lemma_uri_position(before, last.uri_chars());
    law_uris_are_distinct(extensions);
    law_uris_are_distinct(fewer);
    let replaced = match uri_position(before, last.uri_chars()) {
        Some(at) => at,
        None => before.len() as int,
    };
    if last.bytes() is Ok && k == replaced {
        assert(extensions[end].uri_chars() == after[k].0);
    } else {
        assert(after[k] == before[k]);
        law_only_extensions_are_found(fewer, k);
        let i = choose|i: int|
            0 <= i < fewer.len() && (#[trigger] fewer[i]).uri_chars() == before[k].0
                && fewer[i].bytes() == Ok::<Seq<u8>, MarshalError>(before[k].1) && forall|j: int|
                i < j < fewer.len() && (#[trigger] fewer[j]).bytes() is Ok
                    ==> fewer[j].uri_chars() != fewer[i].uri_chars();
        assert(extensions[i] == fewer[i]);
        assert forall|j: int|
            i < j < extensions.len() && (#[trigger] extensions[j]).bytes() is Ok implies
            extensions[j].uri_chars() != extensions[i].uri_chars() by {
            if j < end {
                assert(fewer[j] == extensions[j]);
            } else {
                if last.uri_chars() == before[k].0 {
                    assert(after[replaced].0 == last.uri_chars());
                }
            }
        }
    }
}

/// The errors of two lists are those of the first and then those of the second, and one
/// extension has an error just where it cannot be marshaled: its own.
pub proof fn law_errors_come_in_order(
    first: Seq<HeaderExtension>,
    second: Seq<HeaderExtension>,
    one: HeaderExtension,
)
    ensures
        marshal_errors(first + second) == marshal_errors(first) + marshal_errors(second),
        marshal_errors(seq![one]) == (match one.bytes() {
            Ok(_) => Seq::<MarshalError>::empty(),
            Err(error) => seq![error],
        }),
    decreases second.len(),
{
    reveal_with_fuel(marshal_errors, 2);
    assert(seq![one].drop_last() =~= Seq::empty());
    match one.bytes() {
        Ok(_) => {},
        Err(error) => {
            assert(Seq::<MarshalError>::empty().push(error) =~= seq![error]);
        },
    }
    if second.len() == 0 {
        assert(first + second =~= first);
        assert(marshal_errors(first) + marshal_errors(second) =~= marshal_errors(first));
    } else {
        law_errors_come_in_order(first, second.drop_last(), one);
        assert((first + second).drop_last() =~= first + second.drop_last());
        assert((first + second).last() == second.last());
        assert(marshal_errors(first + second) =~= marshal_errors(first) + marshal_errors(second));
    }
}

/// There are errors just where some extension cannot be marshaled, and the last error is
/// that of the last such extension.
pub proof fn law_last_error_is_that_of_the_last_failure(extensions: Seq<HeaderExtension>, i: int)
    requires
        0 <= i < extensions.len(),
        extensions[i].bytes() is Err,
        forall|j: int| i < j < extensions.len() ==> (#[trigger] extensions[j]).bytes() is Ok,
    ensures
        marshal_errors(extensions).len() > 0,
        extensions[i].bytes() == Err::<Seq<u8>, MarshalError>(marshal_errors(extensions).last()),
    decreases extensions.len(),
{
    if i < extensions.len() - 1 {
        let fewer = extensions.drop_last();
        assert(extensions[extensions.len() - 1].bytes() is Ok);
        assert(fewer[i] == extensions[i]);
        assert forall|j: int| i < j < fewer.len() implies (#[trigger] fewer[j]).bytes() is Ok by {
            assert(extensions[j] == fewer[j]);
        }
        law_last_error_is_that_of_the_last_failure(fewer, i);
    }
}

/// Where every extension can be marshaled there is no error.
pub proof fn law_no_failure_no_error(extensions: Seq<HeaderExtension>)
    requires
        forall|j: int| 0 <= j < extensions.len() ==> (#[trigger] extensions[j]).bytes() is Ok,
    ensures
        marshal_errors(extensions).len() == 0,
    decreases extensions.len(),
{
    if extensions.len() > 0 {
        let fewer = extensions.drop_last();
        assert(extensions[extensions.len() - 1].bytes() is Ok);
        assert forall|j: int| 0 <= j < fewer.len() implies (#[trigger] fewer[j]).bytes() is Ok by {
            assert(extensions[j] == fewer[j]);
        }
        law_no_failure_no_error(fewer);
    }
}

/// The bytes of an extension give its value back: numbers stand with the most
/// significant byte first, a send time keeps its low 24 bits, a level shares a byte with
/// the voice flag, and two delays of twelve bits share three bytes. Only a level or a
/// delay that is too large has no bytes.
pub proof fn law_bytes_give_the_value_back(extension: HeaderExtension)
    ensures
        match extension {
            HeaderExtension::AbsSendTime { timestamp } => {
                &&& extension.bytes() matches Ok(b)
                &&& b.len() == 3
                &&& b[0] * 0x1_0000 + b[1] * 0x100 + b[2] == timestamp % 0x100_0000
            },
            HeaderExtension::AudioLevel { level, voice } => match extension.bytes() {
                Ok(b) => level <= 127 && b.len() == 1 && b[0] == level + if voice {
                    128int
                } else {
                    0
                },
                Err(error) => level > 127 && error == MarshalError::AudioLevelOverflow,
            },
            HeaderExtension::PlayoutDelay { min_delay, max_delay } => match extension.bytes() {
                Ok(b) => {
                    &&& min_delay <= 4095 && max_delay <= 4095
                    &&& b.len() == 3
                    &&& b[0] * 0x1_0000 + b[1] * 0x100 + b[2] == min_delay * 0x1000 + max_delay
                },
                Err(error) => (min_delay > 4095 || max_delay > 4095) && error
                    == MarshalError::PlayoutDelayOverflow,
            },
            HeaderExtension::TransportCc { transport_sequence } => {
                &&& extension.bytes() matches Ok(b)
                &&& b.len() == 2
                &&& b[0] * 0x100 + b[1] == transport_sequence
            },
            HeaderExtension::VideoOrientation { direction, flip, rotation } => {
                &&& extension.bytes() matches Ok(b)
                &&& b.len() == 1
                &&& b[0] < 16
                &&& (b[0] >= 8) == (direction == CameraDirection::Back)
                &&& (b[0] % 8 >= 4) == flip
                &&& b[0] % 4 * 90 == match rotation {
                    VideoRotation::Degree0 => 0int,
                    VideoRotation::Degree90 => 90,
                    VideoRotation::Degree180 => 180,
                    VideoRotation::Degree270 => 270,
                }
            },
            HeaderExtension::Custom { uri, marshaled } => match marshaled {
                Ok(payload) => extension.bytes() == Ok::<Seq<u8>, MarshalError>(octets(payload)),
                Err(message) => extension.bytes() == Err::<Seq<u8>, MarshalError>(
                    MarshalError::Custom(message),
                ),
            },
        },
{
}

/// Every extension but a custom one fits, and a custom one whose bytes are fewer than a
/// gigabyte, or that has none.
pub proof fn law_ordinary_extensions_fit(extension: HeaderExtension)
    requires
        extension is Custom ==> (extension.bytes() matches Ok(bytes) ==> bytes.len()
            <= 0x3fff_ffff),
    ensures
        extension.fits(),
{
}

/// Each kind of extension has a URI of its own, and a custom one the URI it brings.
pub proof fn law_uris(extension: HeaderExtension)
    ensures
        extension.uri_chars() == match extension {
            HeaderExtension::AbsSendTime { .. } =>
                "http://www.webrtc.org/experiments/rtp-hdrext/abs-send-time"@,
            HeaderExtension::AudioLevel { .. } => "urn:ietf:params:rtp-hdrext:ssrc-audio-level"@,
            HeaderExtension::PlayoutDelay { .. } =>
                "http://www.webrtc.org/experiments/rtp-hdrext/playout-delay"@,
            HeaderExtension::TransportCc { .. } =>
                "http://www.ietf.org/id/draft-holmer-rmcat-transport-wide-cc-extensions-01"@,
            HeaderExtension::VideoOrientation { .. } => "urn:3gpp:video-orientation"@,
            HeaderExtension::Custom { uri, .. } => uri@,
        },
{
}

} // verus!
