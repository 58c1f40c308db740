//! Packets kept for retransmission, in a ring of slots chosen by sequence number.
use crate::clock::{instant_now, nanos_between, nanos_since};
use crate::packet::Packet;
use crate::track_state::{seq_add, seq_sub};
use arc_swap::ArcSwapOption;
use crossbeam_utils::CachePadded;
use std::sync::Arc;
use std::time::Instant;
use vstd::arithmetic::div_mod::{
    lemma_fundamental_div_mod, lemma_mod_bound, lemma_mod_multiples_vanish, lemma_small_mod,
};
use vstd::arithmetic::power::pow;
use vstd::arithmetic::power2::{
    is_pow2, is_pow2_equiv, lemma2_to64, lemma_pow2_adds, lemma_pow2_pos,
    lemma_pow2_strictly_increases, pow2,
};
use vstd::bits::{lemma_usize_low_bits_mask_is_mod, low_bits_mask};
use vstd::prelude::*;

verus! {

/// A packet as it came from the source, and when it was first sent on.
#[derive(Debug)]
pub struct PCache {
    pub rtp: Packet,
    pub first_sent_at: Instant,
}

/// A packet as it came from the source, and when it was first sent on.
#[derive(Debug)]
pub struct PCache2 {
    pub rtp: Packet,
    pub first_sent_at: Instant,
}

/// The slot of a sequence number in a ring of the given capacity.
pub open spec fn slot_of(seq: u16, capacity: nat) -> int {
    seq as int % capacity as int
}

/// One slot of the ring: an `arc_swap::ArcSwapOption` on a cache line of its own.
#[verifier::external_body]
#[derive(Debug)]
pub struct Slot {
    cell: CachePadded<ArcSwapOption<PCache>>,
}

/// What a slot holds.
pub uninterp spec fn slot_entry(slot: Slot) -> Option<PCache>;

/// Calls `arc_swap::ArcSwapOption::from` on `None`, and
/// `crossbeam_utils::CachePadded::new`: a slot that holds nothing.
#[verifier::external_body]
fn empty_slot() -> (slot: Slot)
    ensures
        slot_entry(slot) == None::<PCache>,
{
    Slot { cell: CachePadded::new(ArcSwapOption::from(None)) }
}

/// Calls `arc_swap::ArcSwapOption::store`: the slot then holds the entry, whatever
/// it held before.
#[verifier::external_body]
fn store_in_slot(slot: &mut Slot, entry: Arc<PCache>)
    ensures
        slot_entry(*final(slot)) == Some(*entry),
{
    slot.cell.store(Some(entry));
}

/// Calls `arc_swap::ArcSwapOption::load_full`: what the slot holds.
#[verifier::external_body]
fn load_from_slot(slot: &Slot) -> (entry: Option<Arc<PCache>>)
    ensures
        match entry {
            Some(entry) => slot_entry(*slot) == Some(*entry),
            None => slot_entry(*slot) == None::<PCache>,
        },
{
    slot.cell.load_full()
}

/// The mathematical value of a `PCacheBuffer` or a `PCacheBuffer2`.
#[verifier::ext_equal]
pub struct CacheView {
    pub ttl_nanos: u128,
    pub slots: Seq<Option<PCache>>,
}

impl CacheView {
    /// The entry of a sequence number, unless another number has taken its slot.
    pub open spec fn entry(self, seq: u16) -> Option<PCache> {
        match self.slots[slot_of(seq, self.slots.len())] {
            Some(entry) => if entry.rtp.header.sequence_number == seq {
                Some(entry)
            } else {
                None
            },
            None => None,
        }
    }

    /// The entry of a sequence number, unless it is older than allowed.
    pub open spec fn entry_at_age(self, seq: u16, age_nanos: u128) -> Option<PCache> {
        if age_nanos > self.ttl_nanos {
            None
        } else {
            self.entry(seq)
        }
    }

    /// The entry of a sequence number, unless at time `now` it was first sent on longer
    /// ago than allowed.
    pub open spec fn entry_at(self, seq: u16, now: Instant) -> Option<PCache> {
        match self.entry(seq) {
            Some(entry) => self.entry_at_age(seq, nanos_since(now, entry.first_sent_at)),
            None => None,
        }
    }

    /// The cache with one more entry, in the place of whatever shared its slot.
    pub open spec fn with_entry(self, entry: PCache) -> CacheView {
        CacheView {
            slots: self.slots.update(
                slot_of(entry.rtp.header.sequence_number, self.slots.len()),
                Some(entry),
            ),
            ..self
        }
    }
}

/// A cache whose entries are shared, not copied.
#[derive(Debug)]
pub struct PCacheBuffer {
    ttl_nanos: u128,
    /// The capacity less one.
    mask: usize,
    slots: Vec<Slot>,
}

impl View for PCacheBuffer {
    type V = CacheView;

    closed spec fn view(&self) -> CacheView {
        CacheView {
            ttl_nanos: self.ttl_nanos,
            slots: self.slots@.map_values(|slot: Slot| slot_entry(slot)),
        }
    }
}

/// The low bits of a number below a power of two are its remainder.
proof fn lemma_mask_is_remainder(seq: u16, capacity: usize)
    requires
        is_pow2(capacity as int),
    ensures
        ((seq as usize) & ((capacity - 1) as usize)) as int == slot_of(seq, capacity as nat),
        0 <= slot_of(seq, capacity as nat) < capacity,
{
    is_pow2_equiv(capacity as int);
    let n = choose|n: nat| pow(2, n) == capacity as int;
    assert(pow2(n) == capacity);
    lemma_pow2_pos(n);
    lemma2_to64();
    if n > usize::BITS {
        lemma_pow2_strictly_increases(usize::BITS as nat, n);
    }
    lemma_usize_low_bits_mask_is_mod(seq as usize, n);
    assert(low_bits_mask(n) == capacity - 1);
}

impl PCacheBuffer {
    /// The slots are a power of two in number, and the mask picks one of them.
    pub closed spec fn wf(self) -> bool {
        &&& is_pow2(self.slots@.len() as int)
        &&& self.mask == self.slots@.len() - 1
    }

    /// An empty cache that keeps an entry for so many nanoseconds.
    pub fn new(ttl_nanos: u128, capacity_pow2: usize) -> (cache: PCacheBuffer)
        requires
            is_pow2(capacity_pow2 as int),
        ensures
            cache.wf(),
            cache@.ttl_nanos == ttl_nanos,
            cache@.slots == Seq::new(capacity_pow2 as nat, |i: int| None::<PCache>),
    {
        let mut slots: Vec<Slot> = Vec::new();
        for i in 0..capacity_pow2
            invariant
                slots@.len() == i,
                forall|j: int| 0 <= j < i ==> slot_entry(#[trigger] slots@[j]) == None::<PCache>,
        {
            slots.push(empty_slot());
        }
        proof {
            lemma_mask_is_remainder(0, capacity_pow2);
        }
        let cache = PCacheBuffer { ttl_nanos, mask: capacity_pow2 - 1, slots };
        assert(cache@.slots =~= Seq::new(capacity_pow2 as nat, |i: int| None::<PCache>));
        cache
    }

    /// The slot of a sequence number.
    fn idx(&self, seq: u16) -> (slot: usize)
        requires
            self.wf(),
        ensures
            slot == slot_of(seq, self@.slots.len()),
            slot < self.slots@.len(),
    {
        proof {
            lemma_mask_is_remainder(seq, self.slots.len());
        }
        (seq as usize) & self.mask
    }

    /// Keeps an entry, in the place of whatever shared its slot.
    pub fn put(&mut self, entry: Arc<PCache>)
        requires
            old(self).wf(),
        ensures
            final(self).wf(),
            final(self)@ == old(self)@.with_entry(*entry),
            final(self)@.slots.len() == old(self)@.slots.len(),
    {
        let slot = self.idx(entry.rtp.header.sequence_number);
        store_in_slot(&mut self.slots[slot], entry);
        assert(self@.slots =~= old(self)@.with_entry(*entry).slots);
    }

    /// The entry of a sequence number, unless another number has taken its slot.
    fn find(&self, seq: u16) -> (entry: Option<Arc<PCache>>)
        requires
            self.wf(),
        ensures
            match entry {
                Some(entry) => self@.entry(seq) == Some(*entry),
                None => self@.entry(seq) == None::<PCache>,
            },
    {
        let slot = self.idx(seq);
        match load_from_slot(&self.slots[slot]) {
            Some(entry) => {
                if entry.rtp.header.sequence_number != seq {
                    None
                } else {
                    Some(entry)
                }
            },
            None => None,
        }
    }

    /// The entry of a sequence number, given its age in nanoseconds.
    pub fn get_arc_at_age(&self, seq: u16, age_nanos: u128) -> (entry: Option<Arc<PCache>>)
        requires
            self.wf(),
        ensures
            match entry {
                Some(entry) => self@.entry_at_age(seq, age_nanos) == Some(*entry),
                None => self@.entry_at_age(seq, age_nanos) == None::<PCache>,
            },
    {
        if age_nanos > self.ttl_nanos {
            None
        } else {
            self.find(seq)
        }
    }

    /// The entry of a sequence number, unless another number has taken its slot or
    /// the entry has become too old by now. Where no age is too old, the entry is found.
    pub fn get_arc(&self, seq: u16) -> (entry: Option<Arc<PCache>>)
        requires
            self.wf(),
        ensures
            self@.entry(seq) is None ==> entry is None,
            entry matches Some(entry) ==> self@.entry(seq) == Some(*entry),
            self@.ttl_nanos == u128::MAX && self@.entry(seq) is Some ==> entry is Some,
            exists|now: Instant|
                match entry {
                    Some(entry) => #[trigger] self@.entry_at(seq, now) == Some(*entry),
                    None => self@.entry_at(seq, now) == None::<PCache>,
                },
    {
        self.get_arc_at(seq, instant_now())
    }

    /// The entry of a sequence number, unless another number has taken its slot or
    /// the entry has become too old at time `now`.
    pub fn get_arc_at(&self, seq: u16, now: Instant) -> (entry: Option<Arc<PCache>>)
        requires
            self.wf(),
        ensures
            match entry {
                Some(entry) => self@.entry_at(seq, now) == Some(*entry),
                None => self@.entry_at(seq, now) == None::<PCache>,
            },
    {
        match self.find(seq) {
            Some(entry) => {
                let age_nanos: u128 = nanos_between(&now, &entry.first_sent_at);
                self.get_arc_at_age(seq, age_nanos)
            },
            None => None,
        }
    }

    /// A copy of the packet with a sequence number, unless another number has taken
    /// its slot or the packet has become too old by now. Where no age is too old, the
    /// packet is found.
    pub fn get(&self, seq: u16) -> (packet: Option<Packet>)
        requires
            self.wf(),
        ensures
            self@.entry(seq) is None ==> packet is None,
            packet matches Some(packet) ==> (self@.entry(seq) matches Some(entry) && packet@
                == entry.rtp@),
            self@.ttl_nanos == u128::MAX && self@.entry(seq) is Some ==> packet is Some,
            exists|now: Instant|
                (#[trigger] self@.entry_at(seq, now) is Some) == (packet is Some),
    {
        match self.get_arc(seq) {
            Some(entry) => Some(entry.rtp.clone()),
            None => None,
        }
    }
}

/// A cache that owns its packets and copies them out.
#[derive(Debug)]
pub struct PCacheBuffer2 {
    ttl_nanos: u128,
    /// The capacity less one.
    mask: usize,
    slots: Vec<Option<PCache>>,
}

impl View for PCacheBuffer2 {
    type V = CacheView;

    closed spec fn view(&self) -> CacheView {
        CacheView { ttl_nanos: self.ttl_nanos, slots: self.slots@ }
    }
}

impl PCacheBuffer2 {
    /// The slots are a power of two in number, and the mask picks one of them.
    pub closed spec fn wf(self) -> bool {
        &&& is_pow2(self.slots@.len() as int)
        &&& self.mask == self.slots@.len() - 1
    }

    /// An empty cache that keeps a packet for so many nanoseconds.
    pub fn new(ttl_nanos: u128, capacity_pow2: usize) -> (cache: PCacheBuffer2)
        requires
            is_pow2(capacity_pow2 as int),
        ensures
            cache.wf(),
            cache@.ttl_nanos == ttl_nanos,
            cache@.slots == Seq::new(capacity_pow2 as nat, |i: int| None::<PCache>),
    {
        let mut slots: Vec<Option<PCache>> = Vec::new();
        for i in 0..capacity_pow2
            invariant
                slots@.len() == i,
                forall|j: int| 0 <= j < i ==> #[trigger] slots@[j] is None,
        {
            slots.push(None);
        }
        proof {
            lemma_mask_is_remainder(0, capacity_pow2);
        }
        let cache = PCacheBuffer2 { ttl_nanos, mask: capacity_pow2 - 1, slots };
        assert(cache@.slots =~= Seq::new(capacity_pow2 as nat, |i: int| None::<PCache>));
        cache
    }

    /// The slot of a sequence number.
    fn idx(&self, seq: u16) -> (slot: usize)
        requires
            self.wf(),
        ensures
            slot == slot_of(seq, self@.slots.len()),
            slot < self.slots@.len(),
    {
        proof {
            lemma_mask_is_remainder(seq, self.slots.len());
        }
        (seq as usize) & self.mask
    }

    /// Keeps a packet that is first sent on now, in the place of whatever shared
    /// its slot.
    pub fn put(&mut self, rtp: Packet)
        requires
            old(self).wf(),
        ensures
            final(self).wf(),
            exists|first_sent_at: Instant|
                final(self)@ == #[trigger] old(self)@.with_entry((PCache { rtp, first_sent_at })),
            final(self)@.slots.len() == old(self)@.slots.len(),
    {
        self.put_at(rtp, instant_now());
    }

    /// Keeps a packet that was first sent on at the given time, in the place of
    /// whatever shared its slot.
    pub fn put_at(&mut self, rtp: Packet, first_sent_at: Instant)
        requires
            old(self).wf(),
        ensures
            final(self).wf(),
            final(self)@ == old(self)@.with_entry((PCache { rtp, first_sent_at })),
            final(self)@.slots.len() == old(self)@.slots.len(),
    {
        let slot = self.idx(rtp.header.sequence_number);
        self.slots[slot] = Some(PCache { rtp, first_sent_at });
        assert(self@.slots =~= old(self)@.with_entry(PCache { rtp, first_sent_at }).slots);
    }

    /// The entry of a sequence number, unless another number has taken its slot.
    fn find(&self, seq: u16) -> (entry: Option<&PCache>)
        requires
            self.wf(),
        ensures
            match entry {
                Some(entry) => self@.entry(seq) == Some(*entry),
                None => self@.entry(seq) == None::<PCache>,
            },
    {
        match &self.slots[self.idx(seq)] {
            Some(entry) => {
                if entry.rtp.header.sequence_number != seq {
                    None
                } else {
                    Some(entry)
                }
            },
            None => None,
        }
    }

    /// A copy of the packet with a sequence number, given its age in nanoseconds.
    pub fn get_at_age(&self, seq: u16, age_nanos: u128) -> (packet: Option<Packet>)
        requires
            self.wf(),
        ensures
            match packet {
                Some(packet) => self@.entry_at_age(seq, age_nanos) matches Some(entry) && packet@
                    == entry.rtp@,
                None => self@.entry_at_age(seq, age_nanos) == None::<PCache>,
            },
    {
        if age_nanos > self.ttl_nanos {
            return None;
        }
        match self.find(seq) {
            Some(entry) => Some(entry.rtp.clone()),
            None => None,
        }
    }

    /// A copy of the packet with a sequence number, unless another number has taken
    /// its slot or the packet has become too old by now. Where no age is too old, the
    /// packet is found.
    pub fn get(&self, seq: u16) -> (packet: Option<Packet>)
        requires
            self.wf(),
        ensures
            self@.entry(seq) is None ==> packet is None,
            packet matches Some(packet) ==> (self@.entry(seq) matches Some(entry) && packet@
                == entry.rtp@),
            self@.ttl_nanos == u128::MAX && self@.entry(seq) is Some ==> packet is Some,
            exists|now: Instant|
                (#[trigger] self@.entry_at(seq, now) is Some) == (packet is Some),
    {
        self.get_at(seq, instant_now())
    }

    /// A copy of the packet with a sequence number, unless another number has taken
    /// its slot or the packet has become too old at time `now`.
    pub fn get_at(&self, seq: u16, now: Instant) -> (packet: Option<Packet>)
        requires
            self.wf(),
        ensures
            match packet {
                Some(packet) => self@.entry_at(seq, now) matches Some(entry) && packet@
                    == entry.rtp@,
                None => self@.entry_at(seq, now) == None::<PCache>,
            },
    {
        match self.find(seq) {
            Some(entry) => {
                let age_nanos: u128 = nanos_between(&now, &entry.first_sent_at);
                self.get_at_age(seq, age_nanos)
            },
            None => None,
        }
    }
}

proof fn lemma_slot_in_range(seq: u16, capacity: nat)
    requires
        is_pow2(capacity as int),
    ensures
        0 <= slot_of(seq, capacity) < capacity,
{
    reveal(is_pow2);
    lemma_mod_bound(seq as int, capacity as int);
}

/// A well-formed cache has a power of two of slots.
pub proof fn law_capacity_is_a_power_of_two(cache: PCacheBuffer)
    requires
        cache.wf(),
    ensures
        is_pow2(cache@.slots.len() as int),
        cache@.slots.len() > 0,
{
    lemma_slot_in_range(0, cache@.slots.len());
}

/// The same of the cache that owns its packets.
pub proof fn law_owning_capacity_is_a_power_of_two(cache: PCacheBuffer2)
    requires
        cache.wf(),
    ensures
        is_pow2(cache@.slots.len() as int),
        cache@.slots.len() > 0,
{
    lemma_slot_in_range(0, cache@.slots.len());
}

/// An entry that was just put is found, as long as it is no older than allowed,
/// and not beyond that. The age counts from the time in the entry.
pub proof fn law_put_is_read_back(cache: PCacheBuffer, entry: PCache, now: Instant)
    requires
        cache.wf(),
    ensures
        cache@.with_entry(entry).entry_at(entry.rtp.header.sequence_number, now) == if nanos_since(
            now,
            entry.first_sent_at,
        ) <= cache@.ttl_nanos {
            Some(entry)
        } else {
            None
        },
{
    lemma_slot_in_range(entry.rtp.header.sequence_number, cache@.slots.len());
}

/// The same of the cache that owns its packets: the age counts from the time that was
/// put with the packet, whatever shared its slot before.
pub proof fn law_put_is_copied_back(cache: PCacheBuffer2, entry: PCache, now: Instant)
    requires
        cache.wf(),
    ensures
        cache@.with_entry(entry).entry_at(entry.rtp.header.sequence_number, now) == if nanos_since(
            now,
            entry.first_sent_at,
        ) <= cache@.ttl_nanos {
            Some(entry)
        } else {
            None
        },
{
    lemma_slot_in_range(entry.rtp.header.sequence_number, cache@.slots.len());
}

/// Putting an entry takes away at most the one that shared its slot: every other
/// number is answered as before, and the number that shared the slot no more.
pub proof fn law_put_displaces_one_slot(cache: PCacheBuffer, entry: PCache, seq: u16)
    requires
        cache.wf(),
        seq != entry.rtp.header.sequence_number,
    ensures
        ({
            let capacity = cache@.slots.len();
            let same_slot = slot_of(seq, capacity) == slot_of(
                entry.rtp.header.sequence_number,
                capacity,
            );
            cache@.with_entry(entry).entry(seq) == if same_slot {
                None
            } else {
                cache@.entry(seq)
            }
        }),
{
    lemma_slot_in_range(seq, cache@.slots.len());
    lemma_slot_in_range(entry.rtp.header.sequence_number, cache@.slots.len());
}

/// What is found under a sequence number always carries that number.
pub proof fn law_found_entry_has_the_number(cache: PCacheBuffer, seq: u16, age_nanos: u128)
    requires
        cache.wf(),
    ensures
        cache@.entry_at_age(seq, age_nanos) matches Some(entry)
            ==> entry.rtp.header.sequence_number == seq,
{
}

/// A power of two up to the number of sequence numbers divides that number.
proof fn lemma_capacity_divides_circle(capacity: int) -> (turns: int)
    requires
        is_pow2(capacity),
        capacity <= 0x1_0000,
    ensures
        0x1_0000 == capacity * turns,
        capacity > 0,
{
    is_pow2_equiv(capacity);
    let n = choose|n: nat| pow(2, n) == capacity;
    lemma_pow2_pos(n);
    lemma2_to64();
    if n > 16 {
        lemma_pow2_strictly_increases(16, n);
    }
    reveal(is_pow2);
    assert(pow2(n) == capacity);
    lemma_pow2_adds(n, (16 - n) as nat);
    pow2((16 - n) as nat) as int
}

/// Numbers that follow each other share no slot, up to as many as there are slots.
proof fn lemma_run_shares_no_slot(first: u16, i: u16, j: u16, capacity: int)
    requires
        is_pow2(capacity),
        i < j < capacity,
    ensures
        slot_of(seq_add(first, i), capacity as nat) != slot_of(seq_add(first, j), capacity as nat),
{
    if capacity > 0x1_0000 {
        lemma_small_mod(seq_add(first, i) as nat, capacity as nat);
        lemma_small_mod(seq_add(first, j) as nat, capacity as nat);
    } else {
        let turns = lemma_capacity_divides_circle(capacity);
        lemma_around_circle(first, i, capacity, turns);
        lemma_around_circle(first, j, capacity, turns);
        let (a, b) = (first + i, first + j);
        lemma_fundamental_div_mod(a, capacity);
        lemma_fundamental_div_mod(b, capacity);
        if a % capacity == b % capacity {
            let d = b / capacity - a / capacity;
            assert(b - a == capacity * d) by (nonlinear_arith)
                requires
                    a == capacity * (a / capacity) + a % capacity,
                    b == capacity * (b / capacity) + b % capacity,
                    a % capacity == b % capacity,
                    d == b / capacity - a / capacity,
            ;
            assert(false) by (nonlinear_arith)
                requires
                    0 < b - a < capacity,
                    b - a == capacity * d,
            ;
        }
    }
}

proof fn lemma_around_circle(first: u16, i: u16, capacity: int, turns: int)
    requires
        capacity > 0,
        0x1_0000 == capacity * turns,
    ensures
        seq_add(first, i) as int % capacity == (first + i) % capacity,
{
    if first + i >= 0x1_0000 {
        lemma_mod_multiples_vanish(turns, first + i - 0x1_0000, capacity);
        assert(turns * capacity == capacity * turns) by (nonlinear_arith);
    }
}

impl CacheView {
    /// The cache after the entries have been put one after another.
    pub open spec fn with_entries(self, entries: Seq<PCache>) -> CacheView
        decreases entries.len(),
    {
        if entries.len() == 0 {
            self
        } else {
            self.with_entries(entries.drop_last()).with_entry(entries.last())
        }
    }
}

proof fn lemma_run(cache: CacheView, entries: Seq<PCache>, first: u16, i: int)
    requires
        is_pow2(cache.slots.len() as int),
        entries.len() <= cache.slots.len(),
        entries.len() <= 0x1_0000,
        forall|k: int|
            0 <= k < entries.len() ==> (#[trigger] entries[k]).rtp.header.sequence_number
                == seq_add(first, k as u16),
        0 <= i < entries.len(),
    ensures
        cache.with_entries(entries).slots.len() == cache.slots.len(),
        cache.with_entries(entries).entry(entries[i].rtp.header.sequence_number) == Some(
            entries[i],
        ),
    decreases entries.len(),
{
    reveal_with_fuel(CacheView::with_entries, 2);
    let before = entries.drop_last();
    let capacity = cache.slots.len();
    let last = entries.last();
    if before.len() > 0 {
        lemma_run(
            cache,
            before,
            first,
            if i < before.len() {
                i
            } else {
                0
            },
        );
    }
    lemma_slot_in_range(last.rtp.header.sequence_number, capacity);
    lemma_slot_in_range(entries[i].rtp.header.sequence_number, capacity);
    if i < before.len() {
        assert(entries[before.len() as int] == last);
        lemma_run_shares_no_slot(first, i as u16, before.len() as u16, capacity as int);
    }
}

/// Of packets that follow each other in number, as many as there are slots can
/// all be had back, whatever the cache held before.
pub proof fn law_latest_run_is_kept(cache: PCacheBuffer, entries: Seq<PCache>, first: u16)
    requires
        cache.wf(),
        entries.len() <= cache@.slots.len(),
        entries.len() <= 0x1_0000,
        forall|k: int|
            0 <= k < entries.len() ==> (#[trigger] entries[k]).rtp.header.sequence_number
                == seq_add(first, k as u16),
    ensures
        forall|i: int|
            0 <= i < entries.len() ==> cache@.with_entries(entries).entry(
                (#[trigger] entries[i]).rtp.header.sequence_number,
            ) == Some(entries[i]),
{
    assert forall|i: int| 0 <= i < entries.len() implies cache@.with_entries(entries).entry(
        (#[trigger] entries[i]).rtp.header.sequence_number,
    ) == Some(entries[i]) by {
        lemma_run(cache@, entries, first, i);
    }
}

/// An entry is found at time `now` just where it is the one of its number and was first
/// sent on no longer ago than allowed.
pub proof fn law_found_is_fresh(cache: CacheView, seq: u16, now: Instant)
    ensures
        match cache.entry_at(seq, now) {
            Some(entry) => {
                &&& cache.entry(seq) == Some(entry)
                &&& entry.rtp.header.sequence_number == seq
                &&& nanos_since(now, entry.first_sent_at) <= cache.ttl_nanos
            },
            None => cache.entry(seq) matches Some(entry) ==> nanos_since(now, entry.first_sent_at)
                > cache.ttl_nanos,
        },
{
}

/// Looking up by age gives the entry of the number up to the allowed age, and none beyond.
pub proof fn law_age_limits_the_lookup(cache: CacheView, seq: u16, age_nanos: u128)
    ensures
        age_nanos <= cache.ttl_nanos ==> cache.entry_at_age(seq, age_nanos) == cache.entry(seq),
        age_nanos > cache.ttl_nanos ==> cache.entry_at_age(seq, age_nanos) is None,
{
}

/// An entry that is put is found under its number; a number fewer steps away than there
/// are slots, to either side, is answered as before. The allowed age and the number of slots stay.
#[verifier::rlimit(50)]
pub proof fn law_put_touches_no_near_number(
    cache: PCacheBuffer,
    entry: PCache,
    steps: u16,
)
    requires
        cache.wf(),
        0 < steps < cache@.slots.len(),
    ensures
        ({
            let after = cache@.with_entry(entry);
            let number = entry.rtp.header.sequence_number;
            let near = ((number + steps) % 0x1_0000) as u16;
            let behind = ((number - steps) % 0x1_0000) as u16;
            &&& after.entry(number) == Some(entry)
            &&& after.entry(near) == cache@.entry(near)
            &&& after.entry(behind) == cache@.entry(behind)
            &&& after.ttl_nanos == cache@.ttl_nanos
            &&& after.slots.len() == cache@.slots.len()
        }),
{
    let number = entry.rtp.header.sequence_number;
    let capacity = cache@.slots.len();
    let near = seq_add(number, steps);
    lemma_slot_in_range(number, capacity);
    lemma_slot_in_range(near, capacity);
    lemma_run_shares_no_slot(number, 0, steps, capacity as int);
    assert(seq_add(number, 0) == number);
    assert(((number + steps) % 0x1_0000) as u16 == near);
    let behind = seq_sub(number, steps);
    lemma_slot_in_range(behind, capacity);
    lemma_run_shares_no_slot(behind, 0, steps, capacity as int);
    assert(seq_add(behind, 0) == behind);
    assert(seq_add(behind, steps) == number);
    assert(((number - steps) % 0x1_0000) as u16 == behind);
}

/// Two numbers that differ by a multiple of the capacity share a slot: of their entries
/// only the later can be had.
pub proof fn law_numbers_a_capacity_apart_displace_each_other(
    cache: PCacheBuffer,
    entry: PCache,
    seq: u16,
)
    requires
        cache.wf(),
        seq != entry.rtp.header.sequence_number,
        (seq - entry.rtp.header.sequence_number) % (cache@.slots.len() as int) == 0,
    ensures
        cache@.with_entry(entry).entry(seq) is None,
{
    let capacity = cache@.slots.len();
    let number = entry.rtp.header.sequence_number;
    lemma_slot_in_range(seq, capacity);
    lemma_slot_in_range(number, capacity);
    let n = capacity as int;
    lemma_fundamental_div_mod(seq - number, n);
    lemma_mod_multiples_vanish((seq - number) / n, number as int, n);
    assert(((seq - number) / n) * n + number == seq) by (nonlinear_arith)
        requires
            seq - number == n * ((seq - number) / n) + 0,
    ;
}

} // verus!
