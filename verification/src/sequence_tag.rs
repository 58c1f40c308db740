//! A tag in a payload, followed by a sequence number: marks test traffic, so that
//! a receiver can tell which packet has arrived.
use vstd::prelude::*;

verus! {

/// The bytes of `WRSSEQ01`.
pub const TAG: [u8; 8] = [0x57, 0x52, 0x53, 0x53, 0x45, 0x51, 0x30, 0x31];

/// Whether the tag stands at place `at`.
pub open spec fn tag_at(payload: Seq<u8>, at: int) -> bool {
    &&& 0 <= at
    &&& at + 8 <= payload.len()
    &&& payload.subrange(at, at + 8) == TAG@
}

/// The first place from `from` on at which the tag stands.
pub open spec fn first_tag(payload: Seq<u8>, from: int) -> Option<int>
    decreases payload.len() - from,
{
    if from + 8 > payload.len() {
        None
    } else if tag_at(payload, from) {
        Some(from)
    } else {
        first_tag(payload, from + 1)
    }
}

/// A big-endian 32-bit number.
pub open spec fn be32(payload: Seq<u8>, at: int) -> u32 {
    (payload[at] * 0x100_0000 + payload[at + 1] * 0x1_0000 + payload[at + 2] * 0x100 + payload[at
        + 3]) as u32
}

/// The number after the first tag, if there is one and the number is all there.
pub open spec fn tagged_sequence(payload: Seq<u8>) -> Option<u32> {
    match first_tag(payload, 0) {
        Some(at) => if at + 12 <= payload.len() {
            Some(be32(payload, at + 8))
        } else {
            None
        },
        None => None,
    }
}

/// The bytes of a number, most significant first.
pub open spec fn be32_bytes(number: u32) -> Seq<u8> {
    seq![
        (number / 0x100_0000) as u8,
        ((number / 0x1_0000) % 0x100) as u8,
        ((number / 0x100) % 0x100) as u8,
        (number % 0x100) as u8,
    ]
}

/// Looks for the tag in a payload and reads the number after it.
pub fn extract_seq_from_payload(payload: &[u8]) -> (sequence: Option<u32>)
    ensures
        sequence == tagged_sequence(payload@),
{
    let len = payload.len();
    let mut at: usize = 0;
    while len - at >= 8
        invariant
            len == payload@.len(),
            at <= len,
            first_tag(payload@, 0) == first_tag(payload@, at as int),
        decreases len - at,
    {
        let mut i: usize = 0;
        while i < 8 && payload[at + i] == TAG[i]
            invariant
                len == payload@.len(),
                at + 8 <= len,
                i <= 8,
                forall|j: int| 0 <= j < i ==> payload@[at + j] == #[trigger] TAG@[j],
            decreases 8 - i,
        {
            i = i + 1;
        }
        if i == 8 {
            assert(payload@.subrange(at as int, at + 8) =~= TAG@);
            if len - at < 12 {
                return None;
            }
            return Some(
                payload[at + 8] as u32 * 0x100_0000 + payload[at + 9] as u32 * 0x1_0000
                    + payload[at + 10] as u32 * 0x100 + payload[at + 11] as u32,
            );
        }
        assert(payload@.subrange(at as int, at + 8)[i as int] != TAG@[i as int]);
        at = at + 1;
    }
    None
}

/// The number of a payload that begins with the tag and a number is that number,
/// whatever follows.
pub proof fn law_tagged_number_is_extracted(number: u32, filler: Seq<u8>)
    ensures
        tagged_sequence(TAG@ + be32_bytes(number) + filler) == Some(number),
{
    let payload = TAG@ + be32_bytes(number) + filler;
    assert(payload.subrange(0, 8) =~= TAG@);
    assert(payload.subrange(8, 12) =~= be32_bytes(number));
    assert(payload[8] == be32_bytes(number)[0]);
    assert(payload[9] == be32_bytes(number)[1]);
    assert(payload[10] == be32_bytes(number)[2]);
    assert(payload[11] == be32_bytes(number)[3]);
}

/// A payload in which the tag stands nowhere gives no number.
pub proof fn law_untagged_payload_gives_nothing(payload: Seq<u8>)
    requires
        forall|at: int| !tag_at(payload, at),
    ensures
        tagged_sequence(payload) == None::<u32>,
{
    lemma_no_tag(payload, 0);
}

proof fn lemma_no_tag(payload: Seq<u8>, from: int)
    requires
        forall|at: int| !tag_at(payload, at),
    ensures
        first_tag(payload, from) is None,
    decreases payload.len() - from,
{
    if from + 8 <= payload.len() {
        lemma_no_tag(payload, from + 1);
    }
}

/// The number is read from the four bytes, most significant first, behind the first place
/// at which the eight bytes of the tag stand.
pub proof fn law_first_tag_counts(payload: Seq<u8>, at: int)
    requires
        0 <= at,
        at + 12 <= payload.len(),
        payload.subrange(at, at + 8) == TAG@,
        forall|before: int|
            0 <= before < at ==> #[trigger] payload.subrange(before, before + 8) != TAG@,
    ensures
        tagged_sequence(payload) matches Some(number) && number == payload[at + 8] * 0x100_0000
            + payload[at + 9] * 0x1_0000 + payload[at + 10] * 0x100 + payload[at + 11],
{
    lemma_first_tag(payload, 0, at);
}

/// A tag whose number is cut off gives nothing, whatever follows.
pub proof fn law_cut_off_number_gives_nothing(payload: Seq<u8>, at: int)
    requires
        0 <= at,
        at + 8 <= payload.len() < at + 12,
        payload.subrange(at, at + 8) == TAG@,
        forall|before: int|
            0 <= before < at ==> #[trigger] payload.subrange(before, before + 8) != TAG@,
    ensures
        tagged_sequence(payload) is None,
{
    lemma_first_tag(payload, 0, at);
}

proof fn lemma_first_tag(payload: Seq<u8>, from: int, at: int)
    requires
        0 <= from <= at,
        at + 8 <= payload.len(),
        payload.subrange(at, at + 8) == TAG@,
        forall|before: int|
            from <= before < at ==> #[trigger] payload.subrange(before, before + 8) != TAG@,
    ensures
        first_tag(payload, from) == Some(at),
    decreases at - from,
{
    if from < at {
        assert(payload.subrange(from, from + 8) != TAG@);
        lemma_first_tag(payload, from + 1, at);
    }
}

} // verus!
