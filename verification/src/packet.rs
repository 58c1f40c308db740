//! RTP packets, as far as a track reads and rewrites them.
use crate::octets::{octets, share};
use bytes::Bytes;
use rtp::header as outside;
use rtp::Error as RtpError;
use vstd::prelude::*;
use webrtc_util::Unmarshal;

verus! {

/// The profile number of one-byte header extensions.
pub const EXTENSION_PROFILE_ONE_BYTE: u16 = 0xBEDE;

/// The profile number of two-byte header extensions.
pub const EXTENSION_PROFILE_TWO_BYTE: u16 = 0x1000;

/// One extension element of a packet header.
#[derive(Debug)]
pub struct Extension {
    pub id: u8,
    pub payload: Bytes,
}

/// The mathematical value of an `Extension`.
pub struct ExtensionView {
    pub id: u8,
    pub payload: Seq<u8>,
}

impl View for Extension {
    type V = ExtensionView;

    open spec fn view(&self) -> ExtensionView {
        ExtensionView { id: self.id, payload: octets(self.payload) }
    }
}

impl Clone for Extension {
    fn clone(&self) -> (copy: Extension)
        ensures
            copy@ == self@,
    {
        Extension { id: self.id, payload: share(&self.payload) }
    }
}

/// The values of a list of extensions.
pub open spec fn extension_views(extensions: Seq<Extension>) -> Seq<ExtensionView> {
    extensions.map_values(|e: Extension| e@)
}

/// A copy of a list of extensions.
pub(crate) fn clone_extensions(extensions: &Vec<Extension>) -> (copy: Vec<Extension>)
    ensures
        extension_views(copy@) == extension_views(extensions@),
{
    let mut copy: Vec<Extension> = Vec::new();
    for i in 0..extensions.len()
        invariant
            copy@.len() == i,
            extension_views(copy@) == extension_views(extensions@).take(i as int),
    {
        copy.push(extensions[i].clone());
        assert(extension_views(copy@) =~= extension_views(extensions@).take(i + 1));
    }
    assert(extension_views(extensions@).take(extensions@.len() as int) =~= extension_views(
        extensions@,
    ));
    copy
}

/// The header of an RTP packet.
#[derive(Debug)]
pub struct Header {
    pub version: u8,
    pub padding: bool,
    pub extension: bool,
    pub marker: bool,
    pub payload_type: u8,
    pub sequence_number: u16,
    pub timestamp: u32,
    pub ssrc: u32,
    pub csrc: Vec<u32>,
    pub extension_profile: u16,
    pub extensions: Vec<Extension>,
    pub extensions_padding: usize,
}

/// The mathematical value of a `Header`.
#[verifier::ext_equal]
pub struct HeaderView {
    pub version: u8,
    pub padding: bool,
    pub extension: bool,
    pub marker: bool,
    pub payload_type: u8,
    pub sequence_number: u16,
    pub timestamp: u32,
    pub ssrc: u32,
    pub csrc: Seq<u32>,
    pub extension_profile: u16,
    pub extensions: Seq<ExtensionView>,
    pub extensions_padding: usize,
}

impl View for Header {
    type V = HeaderView;

    open spec fn view(&self) -> HeaderView {
        HeaderView {
            version: self.version,
            padding: self.padding,
            extension: self.extension,
            marker: self.marker,
            payload_type: self.payload_type,
            sequence_number: self.sequence_number,
            timestamp: self.timestamp,
            ssrc: self.ssrc,
            csrc: self.csrc@,
            extension_profile: self.extension_profile,
            extensions: extension_views(self.extensions@),
            extensions_padding: self.extensions_padding,
        }
    }
}

impl Clone for Header {
    fn clone(&self) -> (copy: Header)
        ensures
            copy@ == self@,
    {
        let copy = Header {
            version: self.version,
            padding: self.padding,
            extension: self.extension,
            marker: self.marker,
            payload_type: self.payload_type,
            sequence_number: self.sequence_number,
            timestamp: self.timestamp,
            ssrc: self.ssrc,
            csrc: self.csrc.clone(),
            extension_profile: self.extension_profile,
            extensions: clone_extensions(&self.extensions),
            extensions_padding: self.extensions_padding,
        };
        assert(copy.csrc@ =~= self.csrc@);
        copy
    }
}

/// An RTP packet.
#[derive(Debug)]
pub struct Packet {
    pub header: Header,
    pub payload: Bytes,
}

/// The mathematical value of a `Packet`.
#[verifier::ext_equal]
pub struct PacketView {
    pub header: HeaderView,
    pub payload: Seq<u8>,
}

impl View for Packet {
    type V = PacketView;

    open spec fn view(&self) -> PacketView {
        PacketView { header: self.header@, payload: octets(self.payload) }
    }
}

impl Clone for Packet {
    fn clone(&self) -> (copy: Packet)
        ensures
            copy@ == self@,
    {
        Packet { header: self.header.clone(), payload: share(&self.payload) }
    }
}

/// Whether a length leaves room for another one within the address space.
pub open spec fn length_fits(length: int) -> bool {
    length <= isize::MAX / 2
}

/// Whether every extension payload has a length that fits.
pub open spec fn extensions_fit(extensions: Seq<ExtensionView>) -> bool {
    forall|i: int|
        0 <= i < extensions.len() ==> length_fits((#[trigger] extensions[i]).payload.len() as int)
}

impl HeaderView {
    /// Whether the lengths in the header fit.
    pub open spec fn fits(self) -> bool {
        &&& length_fits(self.extensions_padding as int)
        &&& extensions_fit(self.extensions)
    }
}

/// Why an extension was refused.
#[derive(Debug, Clone, Copy, PartialEq, Eq, Structural)]
pub enum ExtensionError {
    /// The id of a one-byte extension lies outside 1 to 14.
    OneByteId,
    /// The payload of a one-byte extension is longer than 16 bytes.
    OneByteSize,
    /// The id of a two-byte extension is 0.
    TwoByteId,
    /// The payload of a two-byte extension is longer than 255 bytes.
    TwoByteSize,
    /// The id of an extension of another profile is not 0.
    OtherProfileId,
}

/// Why an extension cannot be set in a header that has the given profile.
pub open spec fn extension_refusal(profile: u16, id: u8, length: nat) -> Option<ExtensionError> {
    if profile == EXTENSION_PROFILE_ONE_BYTE {
        if !(1 <= id <= 14) {
            Some(ExtensionError::OneByteId)
        } else if length > 16 {
            Some(ExtensionError::OneByteSize)
        } else {
            None
        }
    } else if profile == EXTENSION_PROFILE_TWO_BYTE {
        if id < 1 {
            Some(ExtensionError::TwoByteId)
        } else if length > 255 {
            Some(ExtensionError::TwoByteSize)
        } else {
            None
        }
    } else if id != 0 {
        Some(ExtensionError::OtherProfileId)
    } else {
        None
    }
}

/// Bytes that precede each payload under the given profile.
pub open spec fn element_header_len(profile: u16) -> nat {
    if profile == EXTENSION_PROFILE_ONE_BYTE {
        1
    } else if profile == EXTENSION_PROFILE_TWO_BYTE {
        2
    } else {
        0
    }
}

/// The place of the first extension with the given id.
pub open spec fn extension_position(extensions: Seq<ExtensionView>, id: u8) -> Option<int>
    decreases extensions.len(),
{
    if extensions.len() == 0 {
        None
    } else if extensions[0].id == id {
        Some(0)
    } else {
        match extension_position(extensions.drop_first(), id) {
            Some(i) => Some(i + 1),
            None => None,
        }
    }
}

/// The padding that is left when `grown` more bytes are in use.
pub open spec fn padding_when_grown(padding: usize, grown: nat) -> usize {
    let taken = grown % 4;
    if padding < taken {
        (padding + 4 - taken) as usize
    } else {
        (padding - taken) as usize
    }
}

impl HeaderView {
    /// The header with the payload of extension `id` set. A header without
    /// extensions gets the profile that the payload needs; in one with
    /// extensions the first with that id is replaced, or a new one is added.
    pub open spec fn with_extension(self, id: u8, payload: Seq<u8>) -> Result<
        HeaderView,
        ExtensionError,
    > {
        let element = ExtensionView { id, payload };
        if !self.extension {
            let profile = if payload.len() <= 16 {
                EXTENSION_PROFILE_ONE_BYTE
            } else if payload.len() <= 255 {
                EXTENSION_PROFILE_TWO_BYTE
            } else {
                self.extension_profile
            };
            let element_header = if payload.len() <= 255 {
                element_header_len(profile)
            } else {
                0
            };
            Ok(
                HeaderView {
                    extension: true,
                    extension_profile: profile,
                    extensions: self.extensions.push(element),
                    extensions_padding: padding_when_grown(
                        self.extensions_padding,
                        payload.len() + element_header,
                    ),
                    ..self
                },
            )
        } else {
            match extension_refusal(self.extension_profile, id, payload.len()) {
                Some(error) => Err(error),
                None => match extension_position(self.extensions, id) {
                    Some(i) => {
                        let before = self.extensions[i].payload.len();
                        Ok(
                            HeaderView {
                                extensions: self.extensions.update(i, element),
                                extensions_padding: if payload.len() < before {
                                    ((self.extensions_padding + before - payload.len())
                                        % 4) as usize
                                } else {
                                    padding_when_grown(
                                        self.extensions_padding,
                                        (payload.len() - before) as nat,
                                    )
                                },
                                ..self
                            },
                        )
                    },
                    None => Ok(
                        HeaderView {
                            extensions: self.extensions.push(element),
                            extensions_padding: padding_when_grown(
                                self.extensions_padding,
                                payload.len() + element_header_len(self.extension_profile),
                            ),
                            ..self
                        },
                    ),
                },
            }
        }
    }
}

/// Calls `rtp::header::Header::set_extension` on the extension fields of a
/// header. The contract says what the source shows: which ids and lengths each
/// profile refuses, and otherwise which element is replaced or added, which
/// profile a header without extensions gets, and what padding is left. The
/// other fields of the header take no part.
#[verifier::external_body]
pub(crate) fn set_extension(header: &mut Header, id: u8, payload: Bytes) -> (result: Result<
    (),
    ExtensionError,
>)
    requires
        old(header)@.fits(),
        length_fits(octets(payload).len() as int),
    ensures
        match old(header)@.with_extension(id, octets(payload)) {
            Ok(changed) => result == Ok::<(), ExtensionError>(()) && final(header)@ == changed,
            Err(error) => result == Err::<(), ExtensionError>(error) && final(header)@ == old(
                header,
            )@,
        },
{
    let mut h = outside::Header { extension: header.extension, extension_profile: header.extension_profile, extensions_padding: header.extensions_padding, ..Default::default() };
    h.extensions = header.extensions.drain(..).map(|e| outside::Extension { id: e.id, payload: e.payload }).collect();
    let result = h.set_extension(id, payload).map_err(|e| match e {
        RtpError::ErrRfc8285oneByteHeaderIdrange => ExtensionError::OneByteId,
        RtpError::ErrRfc8285oneByteHeaderSize => ExtensionError::OneByteSize,
        RtpError::ErrRfc8285twoByteHeaderIdrange => ExtensionError::TwoByteId,
        RtpError::ErrRfc8285twoByteHeaderSize => ExtensionError::TwoByteSize,
        _ => ExtensionError::OtherProfileId,
    });
    header.extensions = h.extensions.into_iter().map(|e| Extension { id: e.id, payload: e.payload }).collect();
    header.extension = h.extension;
    header.extension_profile = h.extension_profile;
    header.extensions_padding = h.extensions_padding;
    result
}

/// Setting an extension whose length fits leaves a header whose lengths fit.
pub proof fn law_set_extension_keeps_lengths(header: HeaderView, id: u8, payload: Seq<u8>)
    requires
        header.fits(),
        length_fits(payload.len() as int),
    ensures
        header.with_extension(id, payload) matches Ok(changed) ==> changed.fits(),
{
    lemma_extension_position(header.extensions, id);
}

proof fn lemma_extension_position(extensions: Seq<ExtensionView>, id: u8)
    ensures
        match extension_position(extensions, id) {
            Some(i) => 0 <= i < extensions.len() && extensions[i].id == id && forall|j: int|
                0 <= j < i ==> (#[trigger] extensions[j]).id != id,
            None => forall|j: int| 0 <= j < extensions.len() ==> (#[trigger] extensions[j]).id != id,
        },
    decreases extensions.len(),
{
    if extensions.len() > 0 && extensions[0].id != id {
        let rest = extensions.drop_first();
        lemma_extension_position(rest, id);
        assert forall|j: int| 1 <= j < extensions.len() implies extensions[j] == rest[j - 1] by {}
    }
}

/// An extension that was set can be read back: the first element with its id has
/// the payload that was set.
pub proof fn law_extension_is_read_back(header: HeaderView, id: u8, payload: Seq<u8>)
    requires
        header.extension || extension_position(header.extensions, id) is None,
    ensures
        header.with_extension(id, payload) matches Ok(changed) ==> (extension_position(
            changed.extensions,
            id,
        ) matches Some(i) && changed.extensions[i].payload == payload),
{
    lemma_extension_position(header.extensions, id);
    if let Ok(changed) = header.with_extension(id, payload) {
        lemma_extension_position(changed.extensions, id);
        match extension_position(header.extensions, id) {
            Some(i) => {
                assert(changed.extensions[i].id == id);
                assert forall|j: int| 0 <= j < i implies (#[trigger] changed.extensions[j]).id
                    != id by {
                    assert(header.extensions[j].id != id);
                }
            },
            None => {
                let last = changed.extensions.len() - 1;
                assert(changed.extensions[last].id == id);
                assert forall|j: int| 0 <= j < last implies (#[trigger] changed.extensions[j]).id
                    != id by {
                    assert(header.extensions[j].id != id);
                }
            },
        }
    }
}

/// Why a buffer is not an RTP packet.
#[derive(Debug, Clone, Copy, PartialEq, Eq, Structural)]
pub enum PacketError {
    /// The header does not end within the buffer.
    HeaderSize,
    /// The header extension does not end within the buffer.
    ExtensionSize,
    /// The padding at the end is longer than the payload.
    ShortPacket,
}

/// The packet that a buffer holds, as `rtp::packet::Packet::unmarshal` reads it,
/// or why it holds none.
pub uninterp spec fn unmarshaled(raw: Seq<u8>) -> Result<PacketView, PacketError>;

/// Whether the one-byte extension elements from `at` up to `end` lie within the
/// buffer.
pub open spec fn one_byte_elements_in_bounds(raw: Seq<u8>, at: int, end: int) -> bool
    decreases
            if at < end {
                end - at
            } else {
                0
            },
{
    if at >= end {
        true
    } else if !(0 <= at < raw.len()) {
        false
    } else if raw[at] == 0 {
        one_byte_elements_in_bounds(raw, at + 1, end)
    } else if raw[at] >> 4 == 15 {
        true
    } else {
        let next = at + 2 + (raw[at] & 0x0F);
        next <= raw.len() && one_byte_elements_in_bounds(raw, next, end)
    }
}

/// Whether the two-byte extension elements from `at` up to `end` lie within the
/// buffer.
pub open spec fn two_byte_elements_in_bounds(raw: Seq<u8>, at: int, end: int) -> bool
    decreases
            if at < end {
                end - at
            } else {
                0
            },
{
    if at >= end {
        true
    } else if !(0 <= at < raw.len()) {
        false
    } else if raw[at] == 0 {
        two_byte_elements_in_bounds(raw, at + 1, end)
    } else {
        &&& at + 1 < raw.len()
        &&& at + 2 + raw[at + 1] <= raw.len()
        &&& two_byte_elements_in_bounds(raw, at + 2 + raw[at + 1], end)
    }
}

/// A big-endian 16-bit number in a buffer.
pub open spec fn be16(raw: Seq<u8>, at: int) -> int {
    raw[at] * 0x100 + raw[at + 1]
}

/// Whether every extension element of the packet in a buffer lies within the
/// buffer. A buffer that is too short for the extension as a whole is refused
/// before its elements are read.
pub open spec fn elements_in_bounds(raw: Seq<u8>) -> bool {
    let extension_at = 12 + 4 * (raw[0] & 0x0F);
    if raw.len() < 4 || raw.len() < extension_at + 4 || (raw[0] >> 4) & 1 == 0 {
        true
    } else {
        let at = extension_at + 4;
        let end = at + 4 * be16(raw, extension_at + 2);
        if raw.len() < end {
            true
        } else if be16(raw, extension_at) == EXTENSION_PROFILE_ONE_BYTE {
            one_byte_elements_in_bounds(raw, at, end)
        } else if be16(raw, extension_at) == EXTENSION_PROFILE_TWO_BYTE {
            two_byte_elements_in_bounds(raw, at, end)
        } else {
            true
        }
    }
}

/// Whether every extension element of the packet in a buffer lies within the
/// buffer.
pub fn extension_elements_in_bounds(raw: &[u8]) -> (in_bounds: bool)
    ensures
        in_bounds == elements_in_bounds(raw@),
{
    let len = raw.len();
    if len < 4 {
        return true;
    }
    let extension_at: usize = 12 + 4 * (raw[0] & 0x0F) as usize;
    if len < extension_at + 4 || (raw[0] >> 4) & 1 == 0 {
        return true;
    }
    let profile: usize = raw[extension_at] as usize * 0x100 + raw[extension_at + 1] as usize;
    let words: usize = raw[extension_at + 2] as usize * 0x100 + raw[extension_at + 3] as usize;
    let mut at: usize = extension_at + 4;
    let end: usize = at + 4 * words;
    if len < end {
        return true;
    }
    if profile == EXTENSION_PROFILE_ONE_BYTE as usize {
        while at < end
            invariant
                len == raw@.len(),
                end <= len,
                elements_in_bounds(raw@) == one_byte_elements_in_bounds(
                    raw@,
                    at as int,
                    end as int,
                ),
            decreases
                    if at < end {
                        end - at
                    } else {
                        0
                    },
        {
            let b = raw[at];
            if b == 0 {
                at = at + 1;
            } else if b >> 4 == 15 {
                return true;
            } else {
                let taken: usize = 2 + (b & 0x0F) as usize;
                if len - at < taken {
                    return false;
                }
                at = at + taken;
            }
        }
        true
    } else if profile == EXTENSION_PROFILE_TWO_BYTE as usize {
        while at < end
            invariant
                len == raw@.len(),
                end <= len,
                elements_in_bounds(raw@) == two_byte_elements_in_bounds(
                    raw@,
                    at as int,
                    end as int,
                ),
            decreases
                    if at < end {
                        end - at
                    } else {
                        0
                    },
        {
            if raw[at] == 0 {
                at = at + 1;
            } else {
                if len - at < 2 {
                    return false;
                }
                let taken: usize = 2 + raw[at + 1] as usize;
                if len - at < taken {
                    return false;
                }
                at = at + taken;
            }
        }
        true
    } else {
        true
    }
}

/// Calls `rtp::packet::Packet::unmarshal`. The packet, or the error, is a
/// function of the bytes alone. No length in the packet is above that of the
/// buffer, and nothing of the buffer is left over, which is what the number beside
/// the packet says. The call panics where an extension element runs past the end of the
/// buffer, so such buffers are left out.
#[verifier::external_body]
pub(crate) fn unmarshal(raw: &[u8]) -> (result: Result<(Packet, usize), PacketError>)
    requires
        elements_in_bounds(raw@),
    ensures
        match result {
            Ok((packet, left)) => left == 0 && unmarshaled(raw@) == Ok::<PacketView, PacketError>(
                packet@,
            ),
            Err(error) => unmarshaled(raw@) == Err::<PacketView, PacketError>(error),
        },
        result matches Ok((packet, _)) ==> packet@.header.extensions_padding <= raw@.len() && forall|
            i: int,
        |
            0 <= i < packet@.header.extensions.len() ==> (
            #[trigger] packet@.header.extensions[i]).payload.len() <= raw@.len(),
{
    let mut rest = raw;
    let p = rtp::packet::Packet::unmarshal(&mut rest).map_err(|e| match e.downcast_ref() {
        Some(RtpError::ErrHeaderSizeInsufficient) => PacketError::HeaderSize,
        Some(RtpError::ErrHeaderSizeInsufficientForExtension) => PacketError::ExtensionSize,
        _ => PacketError::ShortPacket,
    })?;
    let outside::Header { version, padding, extension, marker, payload_type, sequence_number, timestamp, ssrc, csrc, extension_profile, extensions, extensions_padding } = p.header;
    let extensions = extensions.into_iter().map(|e| Extension { id: e.id, payload: e.payload }).collect();
    Ok((Packet { header: Header { version, padding, extension, marker, payload_type, sequence_number, timestamp, ssrc, csrc, extension_profile, extensions, extensions_padding }, payload: p.payload }, rest.len()))
}

/// The value of a packet holds what its fields hold.
pub proof fn law_value_is_that_of_the_fields(packet: Packet)
    ensures
        packet@.header.version == packet.header.version,
        packet@.header.padding == packet.header.padding,
        packet@.header.extension == packet.header.extension,
        packet@.header.marker == packet.header.marker,
        packet@.header.payload_type == packet.header.payload_type,
        packet@.header.sequence_number == packet.header.sequence_number,
        packet@.header.timestamp == packet.header.timestamp,
        packet@.header.ssrc == packet.header.ssrc,
        packet@.header.csrc == packet.header.csrc@,
        packet@.header.extension_profile == packet.header.extension_profile,
        packet@.header.extensions_padding == packet.header.extensions_padding,
        packet@.header.extensions.len() == packet.header.extensions@.len(),
        forall|i: int|
            0 <= i < packet.header.extensions@.len() ==> (
            #[trigger] packet@.header.extensions[i]).id == packet.header.extensions@[i].id
                && packet@.header.extensions[i].payload == octets(
                packet.header.extensions@[i].payload,
            ),
        packet@.payload == octets(packet.payload),
{
}

/// Whether looking for an id among extension elements gives the payload: the first
/// element with the id has it.
pub open spec fn reads(extensions: Seq<ExtensionView>, id: u8, payload: Seq<u8>) -> bool {
    exists|k: int|
        0 <= k < extensions.len() && (#[trigger] extensions[k]).id == id && extensions[k].payload
            == payload && forall|j: int| 0 <= j < k ==> (#[trigger] extensions[j]).id != id
}

/// Whether some extension element has the id.
pub open spec fn has_id(extensions: Seq<ExtensionView>, id: u8) -> bool {
    exists|k: int| 0 <= k < extensions.len() && (#[trigger] extensions[k]).id == id
}

/// Setting an extension makes its payload what is read under its id, leaves what is
/// read under every other id, adds no other id, and touches nothing of the header but
/// what describes the extensions.
pub proof fn law_setting_one_extension(
    header: HeaderView,
    id: u8,
    payload: Seq<u8>,
    other: u8,
    other_payload: Seq<u8>,
)
    requires
        header.extension || header.extensions.len() == 0,
    ensures
        header.with_extension(id, payload) matches Ok(changed) ==> {
            &&& changed.extension
            &&& reads(changed.extensions, id, payload)
            &&& other != id ==> reads(changed.extensions, other, other_payload) == reads(
                header.extensions,
                other,
                other_payload,
            )
            &&& has_id(changed.extensions, other) == (other == id || has_id(
                header.extensions,
                other,
            ))
            &&& changed.version == header.version
            &&& changed.padding == header.padding
            &&& changed.marker == header.marker
            &&& changed.payload_type == header.payload_type
            &&& changed.sequence_number == header.sequence_number
            &&& changed.timestamp == header.timestamp
            &&& changed.ssrc == header.ssrc
            &&& changed.csrc == header.csrc
        },
{
    lemma_extension_position(header.extensions, id);
    if let Ok(changed) = header.with_extension(id, payload) {
        let (before, after) = (header.extensions, changed.extensions);
        let at = match extension_position(before, id) {
            Some(i) => if header.extension {
                i
            } else {
                before.len() as int
            },
            None => before.len() as int,
        };
        assert(after[at].id == id && after[at].payload == payload);
        assert(forall|j: int|
            0 <= j < before.len() && j != at ==> #[trigger] after[j] == before[j]);
        assert forall|j: int| 0 <= j < at implies (#[trigger] after[j]).id != id by {
            assert(before[j].id != id);
        }
        assert(reads(after, id, payload));
        if other != id {
            if reads(before, other, other_payload) {
                let k = choose|k: int|
                    0 <= k < before.len() && (#[trigger] before[k]).id == other
                        && before[k].payload == other_payload && forall|j: int|
                        0 <= j < k ==> (#[trigger] before[j]).id != other;
                assert(after[k] == before[k]);
                assert forall|j: int| 0 <= j < k implies (#[trigger] after[j]).id != other by {
                    assert(before[j].id != other);
                }
            }
            if reads(after, other, other_payload) {
                let k = choose|k: int|
                    0 <= k < after.len() && (#[trigger] after[k]).id == other && after[k].payload
                        == other_payload && forall|j: int|
                        0 <= j < k ==> (#[trigger] after[j]).id != other;
                assert(after[k] == before[k]);
                assert forall|j: int| 0 <= j < k implies (#[trigger] before[j]).id != other by {
                    assert(after[j].id != other);
                }
            }
            if has_id(before, other) {
                let k = choose|k: int| 0 <= k < before.len() && (#[trigger] before[k]).id == other;
                assert(after[k].id == other);
            }
            if has_id(after, other) {
                let k = choose|k: int| 0 <= k < after.len() && (#[trigger] after[k]).id == other;
                assert(before[k].id == other);
            }
        }
    }
}

/// An extension with an id from 1 to 14 and at most 16 bytes is accepted by a header
/// without extensions and by one with one-byte extensions, which it then has.
pub proof fn law_small_extension_is_accepted(header: HeaderView, id: u8, payload: Seq<u8>)
    requires
        !header.extension || header.extension_profile == 0xBEDE,
        1 <= id <= 14,
        payload.len() <= 16,
    ensures
        header.with_extension(id, payload) matches Ok(changed) && changed.extension
            && changed.extension_profile == 0xBEDE,
{
}

/// Lengths below a gigabyte fit.
pub proof fn law_ordinary_lengths_fit(length: int)
    requires
        length <= 0x3fff_ffff,
    ensures
        length_fits(length),
{
}

/// A header whose padding and extensions are shorter than a gigabyte fits.
pub proof fn law_ordinary_headers_fit(header: HeaderView)
    requires
        header.extensions_padding <= 0x3fff_ffff,
        forall|i: int|
            0 <= i < header.extensions.len() ==> (#[trigger] header.extensions[i]).payload.len()
                <= 0x3fff_ffff,
    ensures
        header.fits(),
{
}

/// A buffer that has no room for an extension, or whose extension bit is not set, has no
/// element out of bounds.
pub proof fn law_plain_buffers_are_in_bounds(raw: Seq<u8>)
    requires
        raw.len() < 4 || (raw[0] >> 4) & 1 == 0,
    ensures
        elements_in_bounds(raw),
{
}

proof fn lemma_one_byte_elements_reach(raw: Seq<u8>, at: int, end: int)
    requires
        0 <= at,
        end + 16 <= raw.len(),
    ensures
        one_byte_elements_in_bounds(raw, at, end),
    decreases
            if at < end {
                end - at
            } else {
                0
            },
{
    if at < end {
        let b = raw[at];
        assert(b & 0x0F <= 15) by (bit_vector);
        if b == 0 {
            lemma_one_byte_elements_reach(raw, at + 1, end);
        } else {
            lemma_one_byte_elements_reach(raw, at + 2 + (b & 0x0F), end);
        }
    }
}

proof fn lemma_two_byte_elements_reach(raw: Seq<u8>, at: int, end: int)
    requires
        0 <= at,
        end + 256 <= raw.len(),
    ensures
        two_byte_elements_in_bounds(raw, at, end),
    decreases
            if at < end {
                end - at
            } else {
                0
            },
{
    if at < end {
        if raw[at] == 0 {
            lemma_two_byte_elements_reach(raw, at + 1, end);
        } else {
            lemma_two_byte_elements_reach(raw, at + 2 + raw[at + 1], end);
        }
    }
}

/// No element runs past a buffer that goes on for 256 bytes behind its extension: none is
/// longer.
pub proof fn law_long_buffers_are_in_bounds(raw: Seq<u8>)
    requires
        raw.len() >= 4,
        ({
            let at = 12 + 4 * (raw[0] & 0x0F);
            at + 4 + 4 * (raw[at + 2] * 0x100 + raw[at + 3]) + 256 <= raw.len()
        }),
    ensures
        elements_in_bounds(raw),
{
    let b = raw[0];
    assert(0 <= b & 0x0F <= 15) by (bit_vector);
    let at = 12 + 4 * (raw[0] & 0x0F);
    let end = at + 4 + 4 * be16(raw, at + 2);
    lemma_one_byte_elements_reach(raw, at + 4, end);
    lemma_two_byte_elements_reach(raw, at + 4, end);
}

} // verus!
