//! Reassembly of fragmented IP datagrams.
//!
//! Fragments are grouped by (source address, destination address,
//! identification). For each group the cache tracks the block ranges still
//! missing, the body bytes received so far in ascending offset order, and
//! the header captured from the offset-zero fragment. A group lives for at
//! most sixty seconds from its first fragment; the budget is never renewed.
//! Overlapping fragments are hostile and flush the whole group.

use vstd::prelude::*;

use crate::assoc::{assoc_map, lemma_assoc_map_dom, lemma_assoc_map_index,
    lemma_assoc_map_insert_at, lemma_assoc_map_push, lemma_assoc_map_remove,
    lemma_seq_insert_contains, lemma_seq_remove_contains, unique_keys};
use crate::ip::{IpAddr, IpVersion};
use crate::packet::Packet;
use crate::time::Instant;
use crate::timer::{TimerId, TimerSchedule};
use crate::wire::{checksum16, internet_checksum};

verus! {

/// The reassembly budget, measured from receipt of the first fragment of a
/// group (whatever its offset): sixty seconds.
pub const REASSEMBLY_TIMEOUT_MS: u64 = 60000;

/// Number of bytes per fragment block for IPv4 and IPv6 (RFC 791 section
/// 3.1; RFC 8200 section 4.5).
pub const FRAGMENT_BLOCK_SIZE: u8 = 8;

/// Maximum number of fragment blocks a packet can have: both families'
/// fragment offset fields are 13 bits wide.
pub const MAX_FRAGMENT_BLOCKS: u16 = 8191;

/// Identifies the datagram a fragment belongs to: the packet's source
/// address, destination address and fragment identification value.
/// Addresses are stored widened to 128 bits; one cache never mixes
/// families, so the widening is injective.
#[derive(Clone, Copy, Debug, PartialEq, Eq, Structural)]
pub struct FragmentCacheKey(pub u128, pub u128, pub u32);

impl FragmentCacheKey {
    pub fn new(src_ip: IpAddr, dst_ip: IpAddr, fragment_id: u32) -> (r: FragmentCacheKey)
        ensures
            r == FragmentCacheKey(src_ip.bits_spec(), dst_ip.bits_spec(), fragment_id),
    {
        FragmentCacheKey(src_ip.bits(), dst_ip.bits(), fragment_id)
    }
}

/// Possible return values of [`IpLayerFragmentCache::process_fragment`].
pub enum FragmentProcessingState {
    /// The packet is not fragmented; it is returned unmodified.
    NotNeeded(Packet),
    /// The fragment is malformed (non-terminal body not a whole number of
    /// blocks, block range beyond the offset space, or overlapping blocks
    /// already received) and was not accepted. An out-of-range or
    /// overlapping fragment also discards any state held for its key.
    InvalidFragment,
    /// The fragment was accepted; more are needed.
    NeedMoreFragments,
    /// The fragment was accepted and completed the group. The caller must
    /// allocate a buffer of exactly `packet_len` bytes and hand it to
    /// `reassemble_packet` together with `key`.
    Ready { key: FragmentCacheKey, packet_len: usize },
}

/// Possible errors when attempting to reassemble a packet.
#[derive(Clone, Copy, Debug, PartialEq, Eq, Structural)]
pub enum FragmentReassemblyError {
    /// At least one fragment of the group has not arrived.
    MissingFragments,
    /// The key has no live group: none was ever created, or it timed out,
    /// or it was flushed.
    InvalidKey,
    /// The reassembled datagram cannot be a well-formed packet (its length
    /// exceeds what an IPv4 total-length field can carry).
    PacketParsingError,
}

/// A fragment of a packet's body: the fragment offset in blocks, and the
/// body bytes. The cache keeps these sorted by ascending offset.
pub struct PacketBodyFragment(pub u16, pub Vec<u8>);

impl PacketBodyFragment {
    /// Construct a new body fragment.
    pub fn new(offset: u16, data: Vec<u8>) -> (r: PacketBodyFragment)
        ensures
            r.0 == offset,
            r.1 == data,
    {
        PacketBodyFragment(offset, data)
    }
}

/// The mathematical content of one group's reassembly state.
#[verifier::ext_equal]
pub ghost struct FragEntry {
    /// Inclusive block ranges still awaited, ascending and separated.
    pub gaps: Seq<(u16, u16)>,
    /// Received (offset, body) pairs, ascending by offset.
    pub frags: Seq<(u16, Seq<u8>)>,
    /// The header captured from the offset-zero fragment, if received.
    pub header: Option<Seq<u8>>,
    /// Total bytes of header plus all bodies.
    pub total: int,
}

/// Per-group reassembly state.
pub struct FragmentCacheData {
    /// Inclusive ranges of fragment blocks still required, kept ascending.
    pub missing_blocks: Vec<(u16, u16)>,
    /// Received body fragments, kept in ascending offset order.
    pub body_fragments: Vec<PacketBodyFragment>,
    /// The header of the reassembled packet, from the offset-zero fragment.
    pub header: Option<Vec<u8>>,
    /// Total number of bytes in the reassembled packet.
    pub total_size: usize,
}

impl View for FragmentCacheData {
    type V = FragEntry;

    open spec fn view(&self) -> FragEntry {
        FragEntry {
            gaps: self.missing_blocks@,
            frags: self.body_fragments@.map_values(|f: PacketBodyFragment| (f.0, f.1@)),
            header: match self.header {
                Some(h) => Some(h@),
                None => None,
            },
            total: self.total_size as int,
        }
    }
}

/// Number of blocks a body of `len` bytes occupies (the terminal fragment
/// may fill its last block only partly).
pub open spec fn num_blocks_of(len: int) -> int {
    (len + 7) / 8
}

/// Last block occupied by a fragment at `offset` with a body of `len` bytes.
pub open spec fn frag_end(offset: u16, len: int) -> int {
    offset + num_blocks_of(len) - 1
}

/// Gap ranges are inclusive, ascending and separated by at least one block
/// (adjacent gaps would have been one gap).
pub open spec fn gaps_wf(gaps: Seq<(u16, u16)>) -> bool {
    &&& forall|i: int| 0 <= i < gaps.len() ==> (#[trigger] gaps[i]).0 <= gaps[i].1
    &&& forall|i: int|
        0 <= i && i + 1 < gaps.len() ==> (#[trigger] gaps[i]).1 + 1 < gaps[i + 1].0
}

/// Separation of neighbouring gaps extends to any two gaps.
pub proof fn lemma_gaps_pairwise(gaps: Seq<(u16, u16)>, i: int, j: int)
    requires
        gaps_wf(gaps),
        0 <= i < j < gaps.len(),
    ensures
        gaps[i].1 + 1 < gaps[j].0,
    decreases j - i,
{
    if j > i + 1 {
        lemma_gaps_pairwise(gaps, i, j - 1);
    }
}

/// Fragments are non-empty, lie within the 13-bit block space, and are
/// ascending with pairwise-disjoint block ranges.
pub open spec fn frags_wf(frags: Seq<(u16, Seq<u8>)>) -> bool {
    &&& forall|i: int|
        0 <= i < frags.len() ==> (#[trigger] frags[i]).1.len() > 0 && frag_end(
            frags[i].0,
            frags[i].1.len() as int,
        ) <= MAX_FRAGMENT_BLOCKS
    &&& forall|i: int|
        0 <= i && i + 1 < frags.len() ==> frag_end(
            (#[trigger] frags[i]).0,
            frags[i].1.len() as int,
        ) < frags[i + 1].0
}

/// Ascending order of neighbouring fragments extends to any two fragments.
pub proof fn lemma_frags_pairwise(frags: Seq<(u16, Seq<u8>)>, i: int, j: int)
    requires
        frags_wf(frags),
        0 <= i < j < frags.len(),
    ensures
        frag_end(frags[i].0, frags[i].1.len() as int) < frags[j].0,
    decreases j - i,
{
    if j > i + 1 {
        lemma_frags_pairwise(frags, i, j - 1);
    }
}

/// Whether block `b` lies in some gap.
pub open spec fn block_in_gaps(gaps: Seq<(u16, u16)>, b: int) -> bool {
    exists|i: int| 0 <= i < gaps.len() && (#[trigger] gaps[i]).0 <= b <= gaps[i].1
}

/// Whether block `b` is covered by some received fragment.
pub open spec fn block_covered(frags: Seq<(u16, Seq<u8>)>, b: int) -> bool {
    exists|i: int|
        0 <= i < frags.len() && (#[trigger] frags[i]).0 <= b <= frag_end(
            frags[i].0,
            frags[i].1.len() as int,
        )
}

/// Byte length of an optional header.
pub open spec fn header_len(h: Option<Seq<u8>>) -> int {
    match h {
        Some(b) => b.len() as int,
        None => 0,
    }
}

/// Total byte length of all received bodies.
pub open spec fn sum_body_lens(frags: Seq<(u16, Seq<u8>)>) -> int
    decreases frags.len(),
{
    if frags.len() == 0 {
        0
    } else {
        sum_body_lens(frags.drop_last()) + frags.last().1.len()
    }
}

/// The invariant of one group's state.
#[verifier::opaque]
pub open spec fn entry_wf(e: FragEntry) -> bool {
    &&& gaps_wf(e.gaps)
    &&& frags_wf(e.frags)
    &&& forall|b: int| block_in_gaps(e.gaps, b) ==> !block_covered(e.frags, b)
    &&& block_in_gaps(e.gaps, 0) || block_covered(e.frags, 0)
    &&& (e.header is Some <==> block_covered(e.frags, 0))
    &&& e.total == header_len(e.header) + sum_body_lens(e.frags)
    &&& header_len(e.header) + 0x10000 <= usize::MAX
}

/// The state of a group no fragment has arrived for: everything is missing.
pub open spec fn fresh_entry() -> FragEntry {
    FragEntry { gaps: seq![(0u16, 65535u16)], frags: Seq::empty(), header: None, total: 0 }
}

/// A body of `len` bytes fits in `num_blocks_of(len)` blocks.
pub proof fn lemma_len_le_blocks(len: int)
    requires
        len >= 1,
    ensures
        len <= 8 * num_blocks_of(len),
        1 <= num_blocks_of(len),
{
    vstd::arithmetic::div_mod::lemma_fundamental_div_mod(len + 7, 8);
}

/// Body lengths sum to a non-negative number.
pub proof fn lemma_sum_nonneg(frags: Seq<(u16, Seq<u8>)>)
    ensures
        sum_body_lens(frags) >= 0,
    decreases frags.len(),
{
    if frags.len() > 0 {
        lemma_sum_nonneg(frags.drop_last());
    }
}

/// Inserting a fragment adds its body length to the sum.
pub proof fn lemma_sum_insert(frags: Seq<(u16, Seq<u8>)>, p: int, f: (u16, Seq<u8>))
    requires
        0 <= p <= frags.len(),
    ensures
        sum_body_lens(frags.insert(p, f)) == sum_body_lens(frags) + f.1.len(),
    decreases frags.len(),
{
    if p == frags.len() {
        assert(frags.insert(p, f).drop_last() =~= frags);
        assert(frags.insert(p, f).last() == f);
    } else {
        let t = frags.drop_last();
        lemma_sum_insert(t, p, f);
        assert(frags.insert(p, f).drop_last() =~= t.insert(p, f));
        assert(frags.insert(p, f).last() == frags.last());
    }
}

/// Disjoint ascending fragments within the 13-bit block space cannot carry
/// more than one byte per block position: at most 64 KiB in all.
pub proof fn lemma_sum_bound(frags: Seq<(u16, Seq<u8>)>)
    requires
        frags_wf(frags),
    ensures
        sum_body_lens(frags) <= 0x10000,
        frags.len() > 0 ==> sum_body_lens(frags) <= 8 * (frag_end(
            frags.last().0,
            frags.last().1.len() as int,
        ) + 1),
    decreases frags.len(),
{
    if frags.len() == 0 {
    } else {
        let t = frags.drop_last();
        let last = frags.last();
        assert forall|i: int| 0 <= i < t.len() implies (#[trigger] t[i]).1.len() > 0 && frag_end(
            t[i].0,
            t[i].1.len() as int,
        ) <= MAX_FRAGMENT_BLOCKS by {
            assert(frags[i].1.len() > 0 && frag_end(frags[i].0, frags[i].1.len() as int)
                <= MAX_FRAGMENT_BLOCKS);
        }
        assert forall|i: int| 0 <= i && i + 1 < t.len() implies frag_end(
            (#[trigger] t[i]).0,
            t[i].1.len() as int,
        ) < t[i + 1].0 by {
            assert(frag_end(frags[i].0, frags[i].1.len() as int) < frags[i + 1].0);
        }
        lemma_sum_bound(t);
        lemma_len_le_blocks(last.1.len() as int);
        assert(last.1.len() <= 8 * (frag_end(last.0, last.1.len() as int) + 1 - last.0));
        if t.len() > 0 {
            assert(frag_end(frags[frags.len() - 2].0, frags[frags.len() - 2].1.len() as int)
                < frags[frags.len() - 1].0);
            assert(t.last() == frags[frags.len() - 2]);
            assert(sum_body_lens(t) <= 8 * last.0);
        }
    }
}

/// A packet needs no reassembly: it has no fragment header, or it is the
/// only fragment of its datagram.
pub open spec fn pf_not_needed(p: Packet) -> bool {
    match p.fragment {
        None => true,
        Some(f) => f.offset == 0 && !f.m_flag,
    }
}

/// The cache key of a fragmented packet.
pub open spec fn key_of(p: Packet) -> FragmentCacheKey {
    FragmentCacheKey(
        p.src_ip.bits_spec(),
        p.dst_ip.bits_spec(),
        match p.fragment {
            Some(f) => f.id,
            None => 0,
        },
    )
}

/// A fragmented packet with an empty body: accepted as a defensive no-op.
pub open spec fn pf_empty_body(p: Packet) -> bool {
    !pf_not_needed(p) && p.body@.len() == 0
}

/// A non-terminal fragment whose body is not a whole number of blocks.
pub open spec fn pf_misaligned(p: Packet) -> bool {
    match p.fragment {
        Some(f) => !pf_not_needed(p) && p.body@.len() > 0 && f.m_flag && p.body@.len() % 8 != 0,
        None => false,
    }
}

/// A fragment whose block range would not fit the 13-bit offset space.
pub open spec fn pf_out_of_range(p: Packet) -> bool {
    match p.fragment {
        Some(f) => !pf_not_needed(p) && p.body@.len() > 0 && !pf_misaligned(p) && frag_end(
            f.offset,
            p.body@.len() as int,
        ) > MAX_FRAGMENT_BLOCKS,
        None => false,
    }
}

/// A fragment that passes every size rule and reaches the gap algorithm.
pub open spec fn pf_keyed(p: Packet) -> bool {
    match p.fragment {
        Some(f) => !pf_not_needed(p) && p.body@.len() > 0 && !pf_misaligned(p) && !pf_out_of_range(
            p,
        ),
        None => false,
    }
}

/// Whether the gap `g` contains the whole block range `[o, end]`.
pub open spec fn gap_contains(g: (u16, u16), o: int, end: int) -> bool {
    g.0 <= o && end <= g.1
}

/// A terminal fragment must reach the end of the gap it lands in, unless
/// that gap is the unbounded tail gap. Any other input contradicts the
/// fragment's own claim to be last and is a protocol violation the caller
/// must not hand in.
pub open spec fn pf_terminal_ok(cache: Map<FragmentCacheKey, FragEntry>, p: Packet) -> bool {
    match p.fragment {
        Some(f) => pf_keyed(p) && !f.m_flag && cache.contains_key(key_of(p)) ==> {
            let e = cache[key_of(p)];
            let end = frag_end(f.offset, p.body@.len() as int);
            forall|g: (u16, u16)|
                e.gaps.contains(g) && gap_contains(g, f.offset as int, end) ==> (g.1 == end || g.1
                    == 65535)
        },
        None => true,
    }
}

/// The offset-zero fragment's header must leave room for the bodies in the
/// byte counter.
pub open spec fn pf_header_ok(p: Packet) -> bool {
    match p.fragment {
        Some(f) => f.offset == 0 ==> p.header@.len() + 0x10000 <= usize::MAX,
        None => true,
    }
}

/// The group state a fragment for `key` meets: the live one, or a fresh one
/// about to be created.
pub open spec fn entry_before(
    cache: Map<FragmentCacheKey, FragEntry>,
    key: FragmentCacheKey,
) -> FragEntry {
    if cache.contains_key(key) {
        cache[key]
    } else {
        fresh_entry()
    }
}

/// The group state the fragment of `p` meets.
pub open spec fn pf_entry_before(cache: Map<FragmentCacheKey, FragEntry>, p: Packet) -> FragEntry {
    entry_before(cache, key_of(p))
}

/// The fragment offset of a fragmented packet.
pub open spec fn offset_of(p: Packet) -> u16 {
    match p.fragment {
        Some(f) => f.offset,
        None => 0,
    }
}

/// The more-fragments flag of a fragmented packet.
pub open spec fn m_flag_of(p: Packet) -> bool {
    match p.fragment {
        Some(f) => f.m_flag,
        None => false,
    }
}

/// The last block the body of `p` would cover.
pub open spec fn end_of(p: Packet) -> int {
    frag_end(offset_of(p), p.body@.len() as int)
}

/// Whether some gap of the group can hold a fragment at `o` reaching block
/// `end` entirely.
pub open spec fn entry_fits(e: FragEntry, o: u16, end: int) -> bool {
    exists|g: (u16, u16)| e.gaps.contains(g) && gap_contains(g, o as int, end)
}

/// Whether some gap of the group can hold the fragment of `p` entirely.
pub open spec fn pf_fits(cache: Map<FragmentCacheKey, FragEntry>, p: Packet) -> bool {
    entry_fits(pf_entry_before(cache, p), offset_of(p), end_of(p))
}

/// What the gaps of a group contain after a fragment filling `[o, end]` of
/// gap `g` is recorded: `g` is replaced by what remains of it on each side
/// (no right-hand remainder is kept for a terminal fragment).
pub open spec fn gap_split_contains(
    gaps: Seq<(u16, u16)>,
    g: (u16, u16),
    o: u16,
    end: int,
    m_flag: bool,
    x: (u16, u16),
) -> bool {
    ||| (gaps.contains(x) && x != g)
    ||| (g.0 < o && x == (g.0, (o - 1) as u16))
    ||| (m_flag && g.1 > end && x == ((end + 1) as u16, g.1))
}

/// How recording one fragment (offset and more-flag from `f`, header bytes
/// `hdr`, body bytes `body`) carries a group from `e` to `e2`, where `g` is
/// the gap the fragment landed in.
#[verifier::opaque]
pub open spec fn entry_step(
    e: FragEntry,
    e2: FragEntry,
    o: u16,
    m_flag: bool,
    hdr: Seq<u8>,
    body: Seq<u8>,
    g: (u16, u16),
) -> bool {
    let end = frag_end(o, body.len() as int);
    &&& e.gaps.contains(g)
    &&& gap_contains(g, o as int, end)
    &&& forall|x: (u16, u16)|
        e2.gaps.contains(x) <==> gap_split_contains(e.gaps, g, o, end, m_flag, x)
    &&& gaps_wf(e2.gaps)
    &&& frags_wf(e2.frags)
    &&& assoc_map(e2.frags) == assoc_map(e.frags).insert(o, body)
    &&& e2.header == (if o == 0 {
        Some(hdr)
    } else {
        e.header
    })
    &&& e2.total == e.total + body.len() + (if o == 0 {
        hdr.len() as int
    } else {
        0
    })
}

impl FragmentCacheData {
    /// Create a new group state with all fragments marked as missing.
    pub fn new() -> (r: FragmentCacheData)
        ensures
            r@ == fresh_entry(),
            entry_wf(r@),
    {
        let mut missing_blocks: Vec<(u16, u16)> = Vec::new();
        missing_blocks.push((0, 65535));
        let r = FragmentCacheData {
            missing_blocks,
            body_fragments: Vec::new(),
            header: None,
            total_size: 0,
        };
        proof {
            reveal(entry_wf);
            assert(r@.gaps =~= fresh_entry().gaps);
            assert(r@.frags =~= fresh_entry().frags);
            assert(block_in_gaps(r@.gaps, 0)) by {
                assert(r@.gaps[0].0 <= 0 <= r@.gaps[0].1);
            }
            assert(!block_covered(r@.frags, 0));
        }
        r
    }
}

/// One address family's reassembly cache: per-group state keyed by
/// fragment cache key, with pairwise-distinct keys.
pub struct IpLayerFragmentCache {
    /// Which family this cache serves.
    pub version: IpVersion,
    /// The live groups.
    pub cache: Vec<(FragmentCacheKey, FragmentCacheData)>,
}

impl View for IpLayerFragmentCache {
    type V = Map<FragmentCacheKey, FragEntry>;

    open spec fn view(&self) -> Map<FragmentCacheKey, FragEntry> {
        assoc_map(self.entries())
    }
}

impl IpLayerFragmentCache {
    /// The stored groups with their mathematical content.
    pub open spec fn entries(&self) -> Seq<(FragmentCacheKey, FragEntry)> {
        self.cache@.map_values(|p: (FragmentCacheKey, FragmentCacheData)| (p.0, p.1@))
    }

    /// Keys are distinct and every group satisfies its invariant.
    pub open spec fn wf(&self) -> bool {
        &&& unique_keys(self.entries())
        &&& forall|i: int| 0 <= i < self.entries().len() ==> entry_wf((#[trigger] self.entries()[i]).1)
    }

    /// The reassembly timer id of one group of this cache.
    pub open spec fn timer_id(&self, key: FragmentCacheKey) -> TimerId {
        TimerId::ReassemblyTimeout(self.version, key)
    }

    /// A group is live exactly when its reassembly timer is pending.
    pub open spec fn timer_sync(&self, sched: Map<TimerId, Instant>) -> bool {
        forall|k: FragmentCacheKey|
            #![trigger self@.contains_key(k)]
            #![trigger sched.contains_key(TimerId::ReassemblyTimeout(self.version, k))]
            self@.contains_key(k) <==> sched.contains_key(
                TimerId::ReassemblyTimeout(self.version, k),
            )
    }

    /// Create a new, empty cache for one family.
    pub fn new(version: IpVersion) -> (r: IpLayerFragmentCache)
        ensures
            r.wf(),
            r.version == version,
            r@ == Map::<FragmentCacheKey, FragEntry>::empty(),
    {
        let r = IpLayerFragmentCache { version, cache: Vec::new() };
        proof {
            assert(r.entries() =~= Seq::<(FragmentCacheKey, FragEntry)>::empty());
        }
        r
    }

    /// Index of `key` in the backing vector, if its group is live.
    fn find_index(&self, key: &FragmentCacheKey) -> (r: Option<usize>)
        ensures
            match r {
                Some(i) => i < self.cache@.len() && self.cache@[i as int].0 == *key,
                None => forall|i: int|
                    0 <= i < self.cache@.len() ==> (#[trigger] self.cache@[i]).0 != *key,
            },
    {
        let mut i: usize = 0;
        while i < self.cache.len()
            invariant
                i <= self.cache@.len(),
                forall|j: int| 0 <= j < i ==> (#[trigger] self.cache@[j]).0 != *key,
            decreases self.cache@.len() - i,
        {
            if self.cache[i].0 == *key {
                return Some(i);
            }
            i = i + 1;
        }
        None
    }

    /// Create the group for `key` if none is live, scheduling its
    /// reassembly timer to fire one timeout from `now`. An existing group
    /// and its running timer are left untouched.
    pub fn get_or_create(
        &mut self,
        sched: &mut TimerSchedule,
        key: &FragmentCacheKey,
        now: Instant,
    )
        requires
            old(self).wf(),
            old(sched).wf(),
            old(self).timer_sync(old(sched)@),
            now.millis + REASSEMBLY_TIMEOUT_MS <= u64::MAX,
        ensures
            final(self).wf(),
            final(sched).wf(),
            final(self).timer_sync(final(sched)@),
            final(self).version == old(self).version,
            if old(self)@.contains_key(*key) {
                final(self)@ == old(self)@ && final(sched)@ == old(sched)@
            } else {
                final(self)@ == old(self)@.insert(*key, fresh_entry()) && final(sched)@ == old(sched)@.insert(
                    old(self).timer_id(*key),
                    (Instant { millis: (now.millis + REASSEMBLY_TIMEOUT_MS) as u64 }),
                )
            },
    {
        proof {
            lemma_assoc_map_dom(self.entries(), *key);
        }
        match self.find_index(key) {
            Some(i) => {
                proof {
                    assert(self.entries()[i as int].0 == *key);
                }
            },
            None => {
                let data = FragmentCacheData::new();
                proof {
                    assert forall|i: int| 0 <= i < self.entries().len() implies (
                    #[trigger] self.entries()[i]).0 != *key by {
                        assert(self.cache@[i].0 != *key);
                    }
                    assert(!self@.contains_key(*key));
                    lemma_assoc_map_push(self.entries(), *key, data@);
                }
                let ghost pre = self.entries();
                self.cache.push((*key, data));
                proof {
                    assert(self.entries() =~= pre.push((*key, fresh_entry())));
                }
                sched.schedule_timer(now, REASSEMBLY_TIMEOUT_MS, TimerId::ReassemblyTimeout(self.version, *key));
            },
        }
    }

    /// Attempts to process a packet fragment.
    ///
    /// An unfragmented packet is returned untouched. A non-terminal
    /// fragment whose body is not a whole number of blocks is rejected
    /// without touching the group. A fragment whose blocks would not fit
    /// the 13-bit offset space, or that overlaps data already received, is
    /// a per-key reset: any state for its key is discarded and its timer
    /// cancelled. Otherwise the fragment's blocks must lie entirely within
    /// one awaited gap: the gap is split around them, the body is recorded
    /// in offset order, and the offset-zero fragment's header is captured.
    /// The first fragment of a group starts its sixty-second reassembly
    /// timer; later fragments never refresh it.
    #[verifier::rlimit(100)]
    #[verifier::spinoff_prover]
    pub fn process_fragment(
        &mut self,
        sched: &mut TimerSchedule,
        now: Instant,
        packet: Packet,
    ) -> (r: FragmentProcessingState)
        requires
            old(self).wf(),
            old(sched).wf(),
            old(self).timer_sync(old(sched)@),
            now.millis + REASSEMBLY_TIMEOUT_MS <= u64::MAX,
            pf_terminal_ok(old(self)@, packet),
            pf_header_ok(packet),
        ensures
            final(self).wf(),
            final(sched).wf(),
            final(self).timer_sync(final(sched)@),
            final(self).version == old(self).version,
            pf_not_needed(packet) ==> (match r {
                FragmentProcessingState::NotNeeded(q) => q == packet,
                _ => false,
            }) && final(self)@ == old(self)@ && final(sched)@ == old(sched)@,
            pf_empty_body(packet) ==> r is NeedMoreFragments && final(self)@ == old(self)@
                && final(sched)@ == old(sched)@,
            pf_misaligned(packet) ==> r is InvalidFragment && final(self)@ == old(self)@
                && final(sched)@ == old(sched)@,
            pf_out_of_range(packet) ==> r is InvalidFragment && final(self)@ == old(self)@.remove(
                key_of(packet),
            ) && final(sched)@ == old(sched)@.remove(old(self).timer_id(key_of(packet))),
            pf_keyed(packet) && pf_fits(old(self)@, packet) ==> final(self)@.contains_key(
                key_of(packet),
            ),
            pf_keyed(packet) && pf_fits(old(self)@, packet) ==> final(self)@ == old(self)@.insert(key_of(packet), final(self)@[key_of(packet)]),
            pf_keyed(packet) && pf_fits(old(self)@, packet) ==> entry_wf(
                final(self)@[key_of(packet)],
            ),
            pf_keyed(packet) && pf_fits(old(self)@, packet) ==> (exists|g: (u16, u16)|
                entry_step(
                    pf_entry_before(old(self)@, packet),
                    final(self)@[key_of(packet)],
                    offset_of(packet),
                    m_flag_of(packet),
                    packet.header@,
                    packet.body@,
                    g,
                )),
            pf_keyed(packet) && pf_fits(old(self)@, packet) ==> final(sched)@ == (if old(self)@.contains_key(key_of(packet)) {
                old(sched)@
            } else {
                old(sched)@.insert(
                    old(self).timer_id(key_of(packet)),
                    (Instant { millis: (now.millis + REASSEMBLY_TIMEOUT_MS) as u64 }),
                )
            }),
            pf_keyed(packet) && pf_fits(old(self)@, packet) ==> (match r {
                FragmentProcessingState::Ready { key: k2, packet_len } => final(self)@[key_of(packet)].gaps.len() == 0 && k2 == key_of(packet) && packet_len == final(self)@[key_of(packet)].total,
                FragmentProcessingState::NeedMoreFragments => final(self)@[key_of(packet)].gaps.len() != 0,
                _ => false,
            }),
            pf_keyed(packet) && !pf_fits(old(self)@, packet) ==> r is InvalidFragment && final(self)@ == old(self)@.remove(key_of(packet)) && final(sched)@ == old(sched)@.remove(
                old(self).timer_id(key_of(packet)),
            ),
    {
        // Get the fragment data; an unfragmented packet needs no work.
        let (id, offset, m_flag) = match packet.fragment_data() {
            None => {
                return FragmentProcessingState::NotNeeded(packet);
            },
            Some(x) => x,
        };

        // The first fragment being the only fragment means a full packet.
        if offset == 0 && !m_flag {
            return FragmentProcessingState::NotNeeded(packet);
        }

        // A fragmented packet with no body should never happen; accept it
        // as a no-op rather than flushing anything.
        if packet.body.len() == 0 {
            return FragmentProcessingState::NeedMoreFragments;
        }

        // Every fragment but the terminal one must be a whole number of
        // blocks.
        if m_flag && (packet.body.len() % (FRAGMENT_BLOCK_SIZE as usize) != 0) {
            return FragmentProcessingState::InvalidFragment;
        }

        let key = FragmentCacheKey::new(packet.src_ip, packet.dst_ip, id);
        proof {
            assert(key == key_of(packet));
            assert(offset == offset_of(packet) && m_flag == m_flag_of(packet));
        }
        self.add_fragment(sched, now, key, offset, m_flag, packet.header, packet.body)
    }

    /// Record one fragment that passed the basic shape checks, creating the
    /// group on first contact. A fragment beyond the 13-bit offset space is
    /// a per-key reset: it discards any state for its key and creates none.
    fn add_fragment(
        &mut self,
        sched: &mut TimerSchedule,
        now: Instant,
        key: FragmentCacheKey,
        offset: u16,
        m_flag: bool,
        header: Vec<u8>,
        body: Vec<u8>,
    ) -> (r: FragmentProcessingState)
        requires
            old(self).wf(),
            old(sched).wf(),
            old(self).timer_sync(old(sched)@),
            now.millis + REASSEMBLY_TIMEOUT_MS <= u64::MAX,
            body@.len() > 0,
            offset == 0 ==> header@.len() + 0x10000 <= usize::MAX,
            (!m_flag && old(self)@.contains_key(key) && frag_end(offset, body@.len() as int)
                <= MAX_FRAGMENT_BLOCKS) ==> (forall|g: (u16, u16)|
                old(self)@[key].gaps.contains(g) && gap_contains(
                    g,
                    offset as int,
                    frag_end(offset, body@.len() as int),
                ) ==> (g.1 as int == frag_end(offset, body@.len() as int) || g.1 == 65535)),
        ensures
            final(self).wf(),
            final(sched).wf(),
            final(self).timer_sync(final(sched)@),
            final(self).version == old(self).version,
            frag_end(offset, body@.len() as int) > MAX_FRAGMENT_BLOCKS ==> r is InvalidFragment
                && final(self)@ == old(self)@.remove(key) && final(sched)@ == old(sched)@.remove(
                old(self).timer_id(key),
            ),
            ({
                let end = frag_end(offset, body@.len() as int);
                let e0 = entry_before(old(self)@, key);
                end <= MAX_FRAGMENT_BLOCKS && entry_fits(e0, offset, end) ==> {
                    &&& final(self)@.contains_key(key)
                    &&& final(self)@ == old(self)@.insert(key, final(self)@[key])
                    &&& entry_wf(final(self)@[key])
                    &&& (exists|g: (u16, u16)|
                        entry_step(
                            e0,
                            final(self)@[key],
                            offset,
                            m_flag,
                            header@,
                            body@,
                            g,
                        ))
                    &&& final(sched)@ == (if old(self)@.contains_key(key) {
                        old(sched)@
                    } else {
                        old(sched)@.insert(
                            old(self).timer_id(key),
                            (Instant { millis: (now.millis + REASSEMBLY_TIMEOUT_MS) as u64 }),
                        )
                    })
                    &&& (match r {
                        FragmentProcessingState::Ready { key: k2, packet_len } => final(self)@[key].gaps.len() == 0
                            && k2 == key && packet_len == final(self)@[key].total,
                        FragmentProcessingState::NeedMoreFragments => final(self)@[key].gaps.len() != 0,
                        _ => false,
                    })
                }
            }),
            ({
                let end = frag_end(offset, body@.len() as int);
                let e0 = entry_before(old(self)@, key);
                end <= MAX_FRAGMENT_BLOCKS && !entry_fits(e0, offset, end) ==> r is InvalidFragment
                    && final(self)@ == old(self)@.remove(key) && final(sched)@ == old(sched)@.remove(old(self).timer_id(key))
            }),
    {
        let ghost e0: FragEntry = entry_before(old(self)@, key);

        // The number of blocks this fragment covers, counting a partial
        // final block.
        let num_fragment_blocks = 1 + ((body.len() - 1) / (FRAGMENT_BLOCK_SIZE as usize));
        proof {
            vstd::arithmetic::div_mod::lemma_fundamental_div_mod(body@.len() as int - 1, 8);
            vstd::arithmetic::div_mod::lemma_fundamental_div_mod_converse(
                body@.len() as int + 7,
                8,
                (body@.len() as int - 1) / 8 + 1,
                (body@.len() as int - 1) % 8,
            );
        }
        assert(num_fragment_blocks == num_blocks_of(body@.len() as int));

        // The whole range must fit the 13-bit offset space. A fragment
        // beyond it is invalid: any state for its key is discarded, its
        // timer cancelled, and none is created.
        let offset_end = (offset as usize) + num_fragment_blocks - 1;
        if offset_end > (MAX_FRAGMENT_BLOCKS as usize) {
            proof {
                lemma_assoc_map_dom(self.entries(), key);
            }
            match self.find_index(&key) {
                Some(i) => {
                    proof {
                        assert(self.entries()[i as int].0 == key);
                    }
                    self.remove_entry(sched, &key);
                },
                None => {
                    proof {
                        assert forall|j: int| 0 <= j < self.entries().len() implies (
                        #[trigger] self.entries()[j]).0 != key by {
                            assert(self.cache@[j].0 != key);
                        }
                        assert(!self@.contains_key(key));
                        assert(self@.remove(key) =~= self@);
                        assert(sched@.remove(self.timer_id(key)) =~= sched@);
                    }
                },
            }
            return FragmentProcessingState::InvalidFragment;
        }
        let fragment_blocks_range = (offset, offset_end as u16);
        let ghost end = frag_end(offset, body@.len() as int);
        assert(fragment_blocks_range.1 as int == end);

        // Get (or create) the reassembly state; a new group's timer starts
        // running now.
        self.get_or_create(sched, &key, now);

        let r = self.add_to_group(sched, key, offset, fragment_blocks_range.1, m_flag, header, body);
        proof {
            if !old(self)@.contains_key(key) {
                let v = final(self)@[key];
                assert(old(self)@.insert(key, fresh_entry()).insert(key, v) =~= old(self)@.insert(
                    key,
                    v,
                ));
                assert(old(self)@.insert(key, fresh_entry()).remove(key) =~= old(self)@.remove(
                    key,
                ));
                let id = old(self).timer_id(key);
                let d = Instant { millis: (now.millis + REASSEMBLY_TIMEOUT_MS) as u64 };
                assert(old(sched)@.insert(id, d).remove(id) =~= old(sched)@.remove(id));
            }
        }
        r
    }

    /// Record one in-range fragment in its live group: the gap algorithm
    /// proper.
    fn add_to_group(
        &mut self,
        sched: &mut TimerSchedule,
        key: FragmentCacheKey,
        offset: u16,
        range_end: u16,
        m_flag: bool,
        header: Vec<u8>,
        body: Vec<u8>,
    ) -> (r: FragmentProcessingState)
        requires
            old(self).wf(),
            old(sched).wf(),
            old(self).timer_sync(old(sched)@),
            old(self)@.contains_key(key),
            body@.len() > 0,
            range_end as int == frag_end(offset, body@.len() as int),
            frag_end(offset, body@.len() as int) <= MAX_FRAGMENT_BLOCKS,
            offset == 0 ==> header@.len() + 0x10000 <= usize::MAX,
            !m_flag ==> (forall|g: (u16, u16)|
                old(self)@[key].gaps.contains(g) && gap_contains(
                    g,
                    offset as int,
                    frag_end(offset, body@.len() as int),
                ) ==> (g.1 as int == frag_end(offset, body@.len() as int) || g.1 == 65535)),
        ensures
            final(self).wf(),
            final(sched).wf(),
            final(self).timer_sync(final(sched)@),
            final(self).version == old(self).version,
            entry_fits(old(self)@[key], offset, frag_end(offset, body@.len() as int)) ==> {
                &&& final(self)@.contains_key(key)
                &&& final(self)@ == old(self)@.insert(key, final(self)@[key])
                &&& entry_wf(final(self)@[key])
                &&& (exists|g: (u16, u16)|
                    entry_step(
                        old(self)@[key],
                        final(self)@[key],
                        offset,
                        m_flag,
                        header@,
                        body@,
                        g,
                    ))
                &&& final(sched)@ == old(sched)@
                &&& (match r {
                    FragmentProcessingState::Ready { key: k2, packet_len } => final(self)@[key].gaps.len() == 0
                        && k2 == key && packet_len == final(self)@[key].total,
                    FragmentProcessingState::NeedMoreFragments => final(self)@[key].gaps.len() != 0,
                    _ => false,
                })
            },
            !entry_fits(old(self)@[key], offset, frag_end(offset, body@.len() as int)) ==> r is InvalidFragment
                && final(self)@ == old(self)@.remove(key) && final(sched)@ == old(sched)@.remove(
                old(self).timer_id(key),
            ),
    {
        let ghost e0: FragEntry = old(self)@[key];
        let ghost end = frag_end(offset, body@.len() as int);
        let fragment_blocks_range = (offset, range_end);
        let i = match self.find_index(&key) {
            Some(i) => i,
            None => {
                proof {
                    lemma_assoc_map_dom(self.entries(), key);
                    let j = choose|j: int|
                        0 <= j < self.entries().len() && (#[trigger] self.entries()[j]).0 == key;
                    assert(self.cache@[j].0 == key);
                    assert(false);
                }
                0
            },
        };
        let ghost entries_before = self.entries();
        let (_, mut fragment_data) = self.cache.remove(i);
        proof {
            assert(self.entries() =~= entries_before.remove(i as int));
            lemma_assoc_map_index(entries_before, i as int);
            lemma_assoc_map_remove(entries_before, i as int);
            assert(fragment_data@ == e0);
            reveal(entry_wf);
        }

        let found = match find_gap_at(&fragment_data.missing_blocks, fragment_blocks_range) {
            None => {
                // Some of this fragment's blocks were already received:
                // flush the whole group (RFC 8200 section 4.5; RFC 5722)
                // and cancel its timer.
                proof {
                    assert forall|g: (u16, u16)|
                        !(e0.gaps.contains(g) && gap_contains(g, offset as int, end)) by {
                        if e0.gaps.contains(g) {
                            let j = choose|j: int| 0 <= j < e0.gaps.len() && e0.gaps[j] == g;
                            assert(!(e0.gaps[j].0 <= fragment_blocks_range.0
                                && fragment_blocks_range.1 <= e0.gaps[j].1));
                        }
                    }
                }
                let cancelled = sched.cancel_timer(TimerId::ReassemblyTimeout(self.version, key));
                assert(cancelled is Some);
                return FragmentProcessingState::InvalidFragment;
            },
            Some(gi) => gi,
        };
        let found_gap = fragment_data.missing_blocks[found];
        proof {
            assert(e0.gaps.contains(found_gap)) by {
                assert(e0.gaps[found as int] == found_gap);
            }
            if !m_flag {
                assert(found_gap.1 as int == end || found_gap.1 == 65535);
            }
        }
        apply_fragment(
            &mut fragment_data,
            found,
            offset,
            fragment_blocks_range.1,
            m_flag,
            header,
            body,
        );

        let ready = fragment_data.missing_blocks.len() == 0;
        let total = fragment_data.total_size;
        self.reinsert_entry(i, key, fragment_data, Ghost(entries_before));
        proof {
            assert(self@[key].gaps.len() == 0 <==> ready);
            assert(entry_fits(e0, offset, end)) by {
                assert(e0.gaps.contains(found_gap) && gap_contains(found_gap, offset as int, end));
            }
            assert(exists|g: (u16, u16)|
                entry_step(e0, self@[key], offset, m_flag, header@, body@, g)) by {
                assert(entry_step(e0, self@[key], offset, m_flag, header@, body@, found_gap));
            }
        }

        if ready {
            FragmentProcessingState::Ready { key, packet_len: total }
        } else {
            FragmentProcessingState::NeedMoreFragments
        }
    }

    /// Put a group's updated state back at its place in the backing vector.
    fn reinsert_entry(
        &mut self,
        i: usize,
        key: FragmentCacheKey,
        fragment_data: FragmentCacheData,
        entries_before: Ghost<Seq<(FragmentCacheKey, FragEntry)>>,
    )
        requires
            i <= old(self).cache@.len(),
            unique_keys(entries_before@),
            i < entries_before@.len(),
            entries_before@[i as int].0 == key,
            forall|j: int|
                0 <= j < old(self).entries().len() ==> entry_wf(
                    (#[trigger] old(self).entries()[j]).1,
                ),
            old(self).entries() == entries_before@.remove(i as int),
            entry_wf(fragment_data@),
        ensures
            final(self).wf(),
            final(self).version == old(self).version,
            final(self)@ == assoc_map(entries_before@).insert(key, fragment_data@),
            final(self)@.contains_key(key),
            final(self)@[key] == fragment_data@,
            final(self)@ == assoc_map(entries_before@).insert(key, final(self)@[key]),
    {
        let ghost entries_mid = self.entries();
        let ghost fd = fragment_data@;
        proof {
            assert forall|j: int| 0 <= j < entries_mid.len() implies (
            #[trigger] entries_mid[j]).0 != key by {
                if j < i {
                    assert(entries_mid[j] == entries_before@[j]);
                    assert(entries_before@[j].0 != entries_before@[i as int].0);
                } else {
                    assert(entries_mid[j] == entries_before@[j + 1]);
                    assert(entries_before@[j + 1].0 != entries_before@[i as int].0);
                }
            }
            lemma_assoc_map_insert_at(entries_mid, i as int, key, fd);
            lemma_assoc_map_remove(entries_before@, i as int);
        }
        self.cache.insert(i, (key, fragment_data));
        proof {
            assert(self.entries() =~= entries_mid.insert(i as int, (key, fd)));
            assert(self@ == assoc_map(entries_mid).insert(key, fd));
            assert(assoc_map(entries_before@).insert(key, fd) =~= assoc_map(
                entries_mid,
            ).insert(key, fd));
        }
    }

    /// Handle a reassembly timeout: the group's sixty seconds are over, so
    /// its state is dropped and its fired timer retired. The caller is the
    /// host's timer loop; the group must be live.
    pub fn handle_reassembly_timeout(&mut self, sched: &mut TimerSchedule, key: FragmentCacheKey)
        requires
            old(self).wf(),
            old(sched).wf(),
            old(self).timer_sync(old(sched)@),
            old(self)@.contains_key(key),
        ensures
            final(self).wf(),
            final(sched).wf(),
            final(self).timer_sync(final(sched)@),
            final(self).version == old(self).version,
            final(self)@ == old(self)@.remove(key),
            final(sched)@ == old(sched)@.remove(old(self).timer_id(key)),
    {
        self.remove_entry(sched, &key);
    }

    /// Attempts to reassemble the complete group for `key` into `buffer`.
    ///
    /// The caller allocates `buffer` with exactly the byte count announced
    /// by `Ready`. On success the buffer holds the header followed by the
    /// bodies in ascending offset order, with the IPv4 header rewrite
    /// applied, and the group and its timer are gone. A missing group or
    /// missing fragments leave everything untouched; a datagram too long
    /// for an IPv4 total-length field still consumes the group.
    pub fn reassemble_packet(
        &mut self,
        sched: &mut TimerSchedule,
        key: &FragmentCacheKey,
        buffer: &mut Vec<u8>,
    ) -> (r: Result<(), FragmentReassemblyError>)
        requires
            old(self).wf(),
            old(sched).wf(),
            old(self).timer_sync(old(sched)@),
            old(self)@.contains_key(*key) && old(self)@[*key].gaps.len() == 0 ==> old(buffer)@.len() == old(self)@[*key].total,
            (old(self)@.contains_key(*key) && old(self)@[*key].gaps.len() == 0 && old(
                self,
            ).version == IpVersion::V4 && old(self)@[*key].total <= 0xFFFF) ==> header_len(
                old(self)@[*key].header,
            ) >= 20,
        ensures
            final(self).wf(),
            final(sched).wf(),
            final(self).timer_sync(final(sched)@),
            final(self).version == old(self).version,
            final(buffer)@.len() == old(buffer)@.len(),
            !old(self)@.contains_key(*key) ==> r == Err::<(), FragmentReassemblyError>(
                FragmentReassemblyError::InvalidKey,
            ) && final(self)@ == old(self)@ && final(sched)@ == old(sched)@ && final(buffer)@
                == old(buffer)@,
            old(self)@.contains_key(*key) && old(self)@[*key].gaps.len() != 0 ==> r == Err::<
                (),
                FragmentReassemblyError,
            >(FragmentReassemblyError::MissingFragments) && final(self)@ == old(self)@ && final(sched)@ == old(sched)@ && final(buffer)@ == old(buffer)@,
            (old(self)@.contains_key(*key) && old(self)@[*key].gaps.len() == 0 && old(
                self,
            ).version == IpVersion::V4 && old(self)@[*key].total > 0xFFFF) ==> r == Err::<
                (),
                FragmentReassemblyError,
            >(FragmentReassemblyError::PacketParsingError) && final(self)@ == old(self)@.remove(
                *key,
            ) && final(sched)@ == old(sched)@.remove(old(self).timer_id(*key)) && final(buffer)@
                == old(buffer)@,
            (old(self)@.contains_key(*key) && old(self)@[*key].gaps.len() == 0 && (old(
                self,
            ).version != IpVersion::V4 || old(self)@[*key].total <= 0xFFFF)) ==> r == Ok::<
                (),
                FragmentReassemblyError,
            >(()) && final(self)@ == old(self)@.remove(*key) && final(sched)@ == old(sched)@.remove(old(self).timer_id(*key)) && final(buffer)@ == assembled_bytes(
                old(self).version,
                old(self)@[*key],
            ),
    {
        // Find the group; a timed-out or flushed group is simply gone.
        let i = match self.find_index(key) {
            None => {
                proof {
                    lemma_assoc_map_dom(self.entries(), *key);
                    if self@.contains_key(*key) {
                        let j = choose|j: int|
                            0 <= j < self.entries().len() && (#[trigger] self.entries()[j]).0
                                == *key;
                        assert(self.cache@[j].0 == *key);
                    }
                }
                return Err(FragmentReassemblyError::InvalidKey);
            },
            Some(i) => i,
        };
        proof {
            assert(self.entries()[i as int] == (*key, self.cache@[i as int].1@));
            lemma_assoc_map_index(self.entries(), i as int);
        }
        let ghost e = self@[*key];

        // Make sure no fragment is still missing.
        if self.cache[i].1.missing_blocks.len() != 0 {
            return Err(FragmentReassemblyError::MissingFragments);
        }

        // A complete group has its header: block zero is covered.
        proof {
            reveal(entry_wf);
            assert(entry_wf(e));
            assert(!block_in_gaps(e.gaps, 0));
            assert(e.header is Some);
            assert(e.total == header_len(e.header) + sum_body_lens(e.frags));
            lemma_sum_nonneg(e.frags);
            lemma_concat_len(e.frags);
        }

        let total = self.cache[i].1.total_size;
        let is_v4 = match self.version {
            IpVersion::V4 => true,
            IpVersion::V6 => false,
        };

        // A datagram too long for the IPv4 total-length field cannot be a
        // packet; the group is still spent.
        if is_v4 && total > 0xFFFF {
            self.remove_entry(sched, key);
            return Err(FragmentReassemblyError::PacketParsingError);
        }

        // Copy the header, then each body in ascending offset order.
        let hlen = write_assembled(&self.cache[i].1, buffer);

        // For IPv4, rewrite the header in place: total length, cleared
        // fragmentation fields, fresh header checksum.
        if is_v4 {
            proof {
                lemma_sum_nonneg(e.frags);
                lemma_concat_len(e.frags);
            }
            apply_v4_fixup(buffer, hlen);
        }

        // The group is spent: drop it and retire its timer.
        self.remove_entry(sched, key);
        Ok(())
    }

    /// Drop the live group for `key` and retire its pending timer.
    #[verifier::rlimit(100)]
    fn remove_entry(&mut self, sched: &mut TimerSchedule, key: &FragmentCacheKey)
        requires
            old(self).wf(),
            old(sched).wf(),
            old(self).timer_sync(old(sched)@),
            old(self)@.contains_key(*key),
        ensures
            final(self).wf(),
            final(sched).wf(),
            final(self).timer_sync(final(sched)@),
            final(self).version == old(self).version,
            final(self)@ == old(self)@.remove(*key),
            final(sched)@ == old(sched)@.remove(old(self).timer_id(*key)),
    {
        proof {
            lemma_assoc_map_dom(self.entries(), *key);
        }
        match self.find_index(key) {
            Some(i) => {
                proof {
                    lemma_assoc_map_remove(self.entries(), i as int);
                }
                let ghost pre = self.entries();
                let _ = self.cache.remove(i);
                proof {
                    assert(self.entries() =~= pre.remove(i as int));
                }
                let cancelled = sched.cancel_timer(TimerId::ReassemblyTimeout(self.version, *key));
                // The group was live, so its timer was pending.
                assert(cancelled is Some);
            },
            None => {
                proof {
                    let j = choose|j: int|
                        0 <= j < self.entries().len() && (#[trigger] self.entries()[j]).0 == *key;
                    assert(self.cache@[j].0 == *key);
                    assert(false);
                }
            },
        }
    }
}

/// The gap list after a fragment filling `[o, range_end]` of the gap at
/// index `gi` is recorded: that gap goes, and what it does not fill comes
/// back on each side (no right-hand remainder is kept for a terminal
/// fragment).
pub open spec fn split_gaps(
    gaps: Seq<(u16, u16)>,
    gi: int,
    o: u16,
    range_end: u16,
    m_flag: bool,
) -> Seq<(u16, u16)> {
    let g = gaps[gi];
    let removed = gaps.remove(gi);
    let with_left = if g.0 < o {
        removed.insert(gi, (g.0, (o - 1) as u16))
    } else {
        removed
    };
    let at2 = if g.0 < o {
        gi + 1
    } else {
        gi
    };
    if m_flag && g.1 > range_end {
        with_left.insert(at2, ((range_end + 1) as u16, g.1))
    } else {
        with_left
    }
}

/// Splitting a gap keeps the list ascending and separated, and its contents
/// are exactly the split of the old contents.
#[verifier::rlimit(100)]
proof fn lemma_split_gaps(gaps: Seq<(u16, u16)>, gi: int, o: u16, range_end: u16, m_flag: bool)
    requires
        gaps_wf(gaps),
        0 <= gi < gaps.len(),
        o <= range_end,
        gap_contains(gaps[gi], o as int, range_end as int),
    ensures
        gaps_wf(split_gaps(gaps, gi, o, range_end, m_flag)),
{
    let g = gaps[gi];
    let out = split_gaps(gaps, gi, o, range_end, m_flag);
    let removed = gaps.remove(gi);
    let left = (g.0, (o - 1) as u16);
    let right = ((range_end + 1) as u16, g.1);
    let has_left = g.0 < o;
    let has_right = m_flag && g.1 > range_end;
    let with_left = if has_left {
        removed.insert(gi, left)
    } else {
        removed
    };
    let at2: int = if has_left {
        gi + 1
    } else {
        gi
    };

    assert forall|a: int, b: int| 0 <= a < b < gaps.len() implies gaps[a] != gaps[b] by {
        lemma_gaps_pairwise(gaps, a, b);
    }
    lemma_seq_remove_contains(gaps, gi);
    if has_left {
        lemma_seq_insert_contains(removed, gi, left);
    }
    if has_right {
        lemma_seq_insert_contains(with_left, at2, right);
    }

    // Ascending order: translate indices of the new list back to the old
    // one around the edit window.
    assert forall|j: int| 0 <= j < out.len() implies (#[trigger] out[j]).0 <= out[j].1 by {
        if has_left && has_right {
            if j > gi + 1 {
                assert(out[j] == gaps[j - 1]);
            }
        } else if has_left || has_right {
            if j != gi {
                assert(out[j] == gaps[j]);
            }
        } else {
            if j >= gi {
                assert(out[j] == gaps[j + 1]);
            }
        }
    }
    assert forall|j: int| 0 <= j && j + 1 < out.len() implies (#[trigger] out[j]).1 + 1 < out[j
        + 1].0 by {
        if has_left && has_right {
            if j + 1 < gi {
                assert(out[j] == gaps[j] && out[j + 1] == gaps[j + 1]);
            } else if j + 1 == gi {
                assert(out[j] == gaps[j] && out[j + 1] == left);
            } else if j == gi {
                assert(out[j] == left && out[j + 1] == right);
            } else if j == gi + 1 {
                assert(out[j] == right && out[j + 1] == gaps[gi + 1]);
            } else {
                assert(out[j] == gaps[j - 1] && out[j + 1] == gaps[j]);
            }
        } else if has_left {
            if j + 1 == gi {
                assert(out[j] == gaps[j] && out[j + 1] == left);
            } else if j == gi {
                // Nothing kept behind the fragment: it reaches the gap's
                // end or the gap runs to the end of the block space.
                assert(out[j] == left && out[j + 1] == gaps[gi + 1]);
            } else {
                assert(out[j] == gaps[j] && out[j + 1] == gaps[j + 1]);
            }
        } else if has_right {
            if j + 1 == gi {
                assert(out[j] == gaps[j] && out[j + 1] == right);
            } else if j == gi {
                assert(out[j] == right && out[j + 1] == gaps[gi + 1]);
            } else {
                assert(out[j] == gaps[j] && out[j + 1] == gaps[j + 1]);
            }
        } else {
            if j + 1 < gi {
                assert(out[j] == gaps[j] && out[j + 1] == gaps[j + 1]);
            } else if j + 1 == gi {
                assert(out[j] == gaps[j] && out[j + 1] == gaps[gi + 1]);
                lemma_gaps_pairwise(gaps, j, gi + 1);
            } else {
                assert(out[j] == gaps[j + 1] && out[j + 1] == gaps[j + 2]);
            }
        }
    }

}

/// The contents of a split gap list are exactly the split of the old
/// contents.
proof fn lemma_split_gaps_contains(
    gaps: Seq<(u16, u16)>,
    gi: int,
    o: u16,
    range_end: u16,
    m_flag: bool,
)
    requires
        gaps_wf(gaps),
        0 <= gi < gaps.len(),
        o <= range_end,
        gap_contains(gaps[gi], o as int, range_end as int),
    ensures
        forall|x: (u16, u16)|
            split_gaps(gaps, gi, o, range_end, m_flag).contains(x) <==> gap_split_contains(
                gaps,
                gaps[gi],
                o,
                range_end as int,
                m_flag,
                x,
            ),
{
    let g = gaps[gi];
    let out = split_gaps(gaps, gi, o, range_end, m_flag);
    let removed = gaps.remove(gi);
    let left = (g.0, (o - 1) as u16);
    let right = ((range_end + 1) as u16, g.1);
    let has_left = g.0 < o;
    let has_right = m_flag && g.1 > range_end;
    let with_left = if has_left {
        removed.insert(gi, left)
    } else {
        removed
    };
    let at2: int = if has_left {
        gi + 1
    } else {
        gi
    };
    assert forall|a: int, b: int| 0 <= a < b < gaps.len() implies gaps[a] != gaps[b] by {
        lemma_gaps_pairwise(gaps, a, b);
    }
    lemma_seq_remove_contains(gaps, gi);
    if has_left {
        lemma_seq_insert_contains(removed, gi, left);
    }
    if has_right {
        lemma_seq_insert_contains(with_left, at2, right);
    }
    // Chain the three edit steps into one characterization of the result.
    assert forall|x: (u16, u16)| out.contains(x) <==> gap_split_contains(
        gaps,
        g,
        o,
        range_end as int,
        m_flag,
        x,
    ) by {
        if has_right {
            assert(out.contains(x) <==> with_left.contains(x) || x == right);
        } else {
            assert(out == with_left);
        }
        if has_left {
            assert(with_left.contains(x) <==> removed.contains(x) || x == left);
        } else {
            assert(with_left == removed);
        }
        assert(removed.contains(x) <==> gaps.contains(x) && x != g);
    }
}

/// Filing one body fragment at its sorted position keeps the fragment list
/// well formed, inserts its binding, adds its length to the byte sum, and
/// extends coverage by exactly its block range.
#[verifier::rlimit(100)]
proof fn lemma_insert_frag(frags: Seq<(u16, Seq<u8>)>, p: int, o: u16, body: Seq<u8>)
    requires
        frags_wf(frags),
        body.len() > 0,
        frag_end(o, body.len() as int) <= MAX_FRAGMENT_BLOCKS,
        0 <= p <= frags.len(),
        forall|j: int|
            0 <= j < frags.len() ==> (frag_end((#[trigger] frags[j]).0, frags[j].1.len() as int)
                < o || frags[j].0 > frag_end(o, body.len() as int)),
        forall|j: int| 0 <= j < p ==> (#[trigger] frags[j]).0 < o,
        p < frags.len() ==> frags[p].0 >= o,
    ensures
        frags_wf(frags.insert(p, (o, body))),
        assoc_map(frags.insert(p, (o, body))) == assoc_map(frags).insert(o, body),
        sum_body_lens(frags.insert(p, (o, body))) == sum_body_lens(frags) + body.len(),
        sum_body_lens(frags.insert(p, (o, body))) <= 0x10000,
        sum_body_lens(frags) >= 0,
        forall|b: int|
            block_covered(frags.insert(p, (o, body)), b) <==> block_covered(frags, b) || (o <= b
                <= frag_end(o, body.len() as int)),
{
    let ins = frags.insert(p, (o, body));
    let end = frag_end(o, body.len() as int);
    lemma_len_le_blocks(body.len() as int);

    assert forall|j: int| 0 <= j < frags.len() implies (#[trigger] frags[j]).0 != o by {
        lemma_len_le_blocks(frags[j].1.len() as int);
    }
    assert forall|a: int, b: int| 0 <= a < b < frags.len() implies (#[trigger] frags[a]).0 != (
    #[trigger] frags[b]).0 by {
        lemma_frags_pairwise(frags, a, b);
        lemma_len_le_blocks(frags[a].1.len() as int);
    }
    lemma_assoc_map_insert_at(frags, p, o, body);
    lemma_sum_insert(frags, p, (o, body));
    lemma_sum_nonneg(frags);

    if p > 0 {
        assert(frag_end(frags[p - 1].0, frags[p - 1].1.len() as int) < o) by {
            lemma_len_le_blocks(frags[p - 1].1.len() as int);
        }
    }
    if p < frags.len() {
        assert(frags[p].0 > end) by {
            lemma_len_le_blocks(frags[p].1.len() as int);
        }
    }
    lemma_insert_frag_wf(frags, p, o, body);
    lemma_sum_bound(ins);

    lemma_insert_frag_covered(frags, p, o, body);
}


/// Filing one body fragment at its sorted position keeps the fragment list
/// ascending and disjoint.
proof fn lemma_insert_frag_wf(frags: Seq<(u16, Seq<u8>)>, p: int, o: u16, body: Seq<u8>)
    requires
        frags_wf(frags),
        body.len() > 0,
        frag_end(o, body.len() as int) <= MAX_FRAGMENT_BLOCKS,
        0 <= p <= frags.len(),
        p > 0 ==> frag_end(frags[p - 1].0, frags[p - 1].1.len() as int) < o,
        p < frags.len() ==> frags[p].0 > frag_end(o, body.len() as int),
    ensures
        frags_wf(frags.insert(p, (o, body))),
{
    let ins = frags.insert(p, (o, body));
    assert forall|j: int| 0 <= j < ins.len() implies (#[trigger] ins[j]).1.len() > 0
        && frag_end(ins[j].0, ins[j].1.len() as int) <= MAX_FRAGMENT_BLOCKS by {
        if j < p {
            assert(ins[j] == frags[j]);
        } else if j > p {
            assert(ins[j] == frags[j - 1]);
        }
    }
    assert forall|j: int| 0 <= j && j + 1 < ins.len() implies frag_end(
        (#[trigger] ins[j]).0,
        ins[j].1.len() as int,
    ) < ins[j + 1].0 by {
        if j + 1 < p {
            assert(ins[j] == frags[j] && ins[j + 1] == frags[j + 1]);
        } else if j + 1 == p {
            assert(ins[j] == frags[j] && ins[j + 1] == (o, body));
            lemma_len_le_blocks(frags[j].1.len() as int);
        } else if j == p {
            assert(ins[j + 1] == frags[j]);
        } else {
            assert(ins[j] == frags[j - 1] && ins[j + 1] == frags[j]);
        }
    }
}

/// Filing one body fragment extends coverage by exactly its block range.
proof fn lemma_insert_frag_covered(frags: Seq<(u16, Seq<u8>)>, p: int, o: u16, body: Seq<u8>)
    requires
        0 <= p <= frags.len(),
    ensures
        forall|b: int|
            block_covered(frags.insert(p, (o, body)), b) <==> block_covered(frags, b) || (o <= b
                <= frag_end(o, body.len() as int)),
{
    let ins = frags.insert(p, (o, body));
    let end = frag_end(o, body.len() as int);
    assert forall|b: int| block_covered(ins, b) <==> block_covered(frags, b) || (o <= b
        <= end) by {
        if block_covered(ins, b) {
            let j = choose|j: int|
                0 <= j < ins.len() && (#[trigger] ins[j]).0 <= b <= frag_end(
                    ins[j].0,
                    ins[j].1.len() as int,
                );
            if j < p {
                assert(frags[j].0 <= b <= frag_end(frags[j].0, frags[j].1.len() as int));
                assert(block_covered(frags, b));
            } else if j > p {
                assert(frags[j - 1].0 <= b <= frag_end(
                    frags[j - 1].0,
                    frags[j - 1].1.len() as int,
                ));
                assert(block_covered(frags, b));
            }
        }
        if block_covered(frags, b) {
            let j = choose|j: int|
                0 <= j < frags.len() && (#[trigger] frags[j]).0 <= b <= frag_end(
                    frags[j].0,
                    frags[j].1.len() as int,
                );
            if j < p {
                assert(ins[j].0 <= b <= frag_end(ins[j].0, ins[j].1.len() as int));
            } else {
                assert(ins[j + 1].0 <= b <= frag_end(ins[j + 1].0, ins[j + 1].1.len() as int));
            }
            assert(block_covered(ins, b));
        }
        if o <= b <= end {
            assert(ins[p].0 <= b <= frag_end(ins[p].0, ins[p].1.len() as int));
            assert(block_covered(ins, b));
        }
    }
}

/// Recording a fragment keeps the whole group invariant: the new gaps avoid
/// everything now covered, block zero stays accounted for, and the header
/// and byte counter match the fragments held.
proof fn lemma_entry_wf_after(
    e0: FragEntry,
    e2: FragEntry,
    o: u16,
    m_flag: bool,
    hdr: Seq<u8>,
    body: Seq<u8>,
    gi: int,
)
    requires
        entry_wf(e0),
        0 <= gi < e0.gaps.len(),
        body.len() > 0,
        frag_end(o, body.len() as int) <= MAX_FRAGMENT_BLOCKS,
        gap_contains(e0.gaps[gi], o as int, frag_end(o, body.len() as int)),
        o == 0 ==> hdr.len() + 0x10000 <= usize::MAX,
        gaps_wf(e2.gaps),
        frags_wf(e2.frags),
        forall|x: (u16, u16)|
            e2.gaps.contains(x) <==> gap_split_contains(
                e0.gaps,
                e0.gaps[gi],
                o,
                frag_end(o, body.len() as int),
                m_flag,
                x,
            ),
        forall|b: int|
            block_covered(e2.frags, b) <==> block_covered(e0.frags, b) || (o <= b <= frag_end(
                o,
                body.len() as int,
            )),
        sum_body_lens(e2.frags) == sum_body_lens(e0.frags) + body.len(),
        e2.header == (if o == 0 {
            Some(hdr)
        } else {
            e0.header
        }),
        e2.total == e0.total + body.len() + (if o == 0 {
            hdr.len() as int
        } else {
            0
        }),
    ensures
        entry_wf(e2),
        o == 0 ==> e0.header is None,
{
    reveal(entry_wf);
    let g = e0.gaps[gi];
    let end = frag_end(o, body.len() as int);
    let left = (g.0, (o - 1) as u16);
    let right = ((end + 1) as u16, g.1);

    // Every block of the fragment's range was awaited in the found gap.
    assert forall|b: int| o <= b <= end implies block_in_gaps(e0.gaps, b) by {
        assert(e0.gaps[gi].0 <= b <= e0.gaps[gi].1);
    }
    if o == 0 {
        assert(block_in_gaps(e0.gaps, 0));
        assert(!block_covered(e0.frags, 0));
        assert(e0.header is None);
    }

    // The new gaps avoid everything covered.
    assert forall|b: int| block_in_gaps(e2.gaps, b) implies !block_covered(e2.frags, b) by {
        let j = choose|j: int| 0 <= j < e2.gaps.len() && (#[trigger] e2.gaps[j]).0 <= b <= e2.gaps[j].1;
        let x = e2.gaps[j];
        assert(e2.gaps.contains(x));
        if e0.gaps.contains(x) && x != g {
            let jx = choose|jx: int| 0 <= jx < e0.gaps.len() && e0.gaps[jx] == x;
            assert(block_in_gaps(e0.gaps, b)) by {
                assert(e0.gaps[jx].0 <= b <= e0.gaps[jx].1);
            }
            // Distinct gaps are disjoint, so `b` avoids the fragment range.
            if jx < gi {
                lemma_gaps_pairwise(e0.gaps, jx, gi);
            } else if jx > gi {
                lemma_gaps_pairwise(e0.gaps, gi, jx);
            }
            assert(!(o <= b <= end));
        } else if g.0 < o && x == left {
            assert(block_in_gaps(e0.gaps, b)) by {
                assert(e0.gaps[gi].0 <= b <= e0.gaps[gi].1);
            }
            assert(!(o <= b <= end));
        } else {
            assert(m_flag && g.1 > end && x == right);
            assert(block_in_gaps(e0.gaps, b)) by {
                assert(e0.gaps[gi].0 <= b <= e0.gaps[gi].1);
            }
            assert(!(o <= b <= end));
        }
    }

    // Block zero stays awaited or covered.
    if block_covered(e0.frags, 0) {
        assert(block_covered(e2.frags, 0));
    } else {
        let j = choose|j: int| 0 <= j < e0.gaps.len() && (#[trigger] e0.gaps[j]).0 <= 0 <= e0.gaps[j].1;
        if j == gi {
            if o == 0 {
                assert(block_covered(e2.frags, 0));
            } else {
                assert(g.0 == 0);
                assert(e2.gaps.contains(left));
                let jl = choose|jl: int| 0 <= jl < e2.gaps.len() && e2.gaps[jl] == left;
                assert(block_in_gaps(e2.gaps, 0)) by {
                    assert(e2.gaps[jl].0 <= 0 <= e2.gaps[jl].1);
                }
            }
        } else {
            assert(e0.gaps[j] != g) by {
                if j < gi {
                    lemma_gaps_pairwise(e0.gaps, j, gi);
                } else {
                    lemma_gaps_pairwise(e0.gaps, gi, j);
                }
            }
            assert(e2.gaps.contains(e0.gaps[j]));
            let jn = choose|jn: int| 0 <= jn < e2.gaps.len() && e2.gaps[jn] == e0.gaps[j];
            assert(block_in_gaps(e2.gaps, 0)) by {
                assert(e2.gaps[jn].0 <= 0 <= e2.gaps[jn].1);
            }
        }
    }

    // The header is held exactly when block zero is covered.
    assert(e2.header is Some <==> block_covered(e2.frags, 0));
}

/// A fragment that lands in a gap shares no block with any received
/// fragment: gap blocks are never covered.
proof fn lemma_range_disjoint(
    gaps: Seq<(u16, u16)>,
    frags: Seq<(u16, Seq<u8>)>,
    gi: int,
    o: u16,
    end: int,
)
    requires
        frags_wf(frags),
        forall|b: int| block_in_gaps(gaps, b) ==> !block_covered(frags, b),
        0 <= gi < gaps.len(),
        gap_contains(gaps[gi], o as int, end),
        o as int <= end,
    ensures
        forall|j: int|
            0 <= j < frags.len() ==> (frag_end((#[trigger] frags[j]).0, frags[j].1.len() as int)
                < o || frags[j].0 > end),
{
    assert forall|j: int| 0 <= j < frags.len() implies (frag_end(
        (#[trigger] frags[j]).0,
        frags[j].1.len() as int,
    ) < o || frags[j].0 > end) by {
        let oj = frags[j].0;
        let ej = frag_end(oj, frags[j].1.len() as int);
        if !(ej < o || oj > end) {
            lemma_len_le_blocks(frags[j].1.len() as int);
            let b: int = if oj >= o {
                oj as int
            } else {
                o as int
            };
            assert(oj <= b <= ej);
            assert(block_covered(frags, b));
            assert(block_in_gaps(gaps, b)) by {
                assert(gaps[gi].0 <= b <= gaps[gi].1);
            }
            assert(false);
        }
    }
}


/// Replace the gap at `gi` by what a fragment filling `[offset, range_end]`
/// of it leaves over.
fn split_gap_vec(v: &mut Vec<(u16, u16)>, gi: usize, offset: u16, range_end: u16, m_flag: bool)
    requires
        gi < old(v)@.len(),
        old(v)@[gi as int].0 <= offset,
        offset <= range_end,
        range_end <= old(v)@[gi as int].1,
    ensures
        final(v)@ == split_gaps(old(v)@, gi as int, offset, range_end, m_flag),
{
    let found_gap = v[gi];
    let n0 = v.len();
    v.remove(gi);

    // What remains of the gap in front of the fragment's first block.
    let mut insert_at = gi;
    if found_gap.0 < offset {
        v.insert(insert_at, (found_gap.0, offset - 1));
        assert(insert_at < n0);
        insert_at = insert_at + 1;
    }

    // What remains of it behind the fragment's last block; a terminal
    // fragment leaves nothing more to wait for there.
    if m_flag && found_gap.1 > range_end {
        v.insert(insert_at, (range_end + 1, found_gap.1));
    }
}

/// File a body fragment at its place in ascending offset order, returning
/// the index it was given.
fn insert_body_fragment(v: &mut Vec<PacketBodyFragment>, offset: u16, body: Vec<u8>) -> (p: usize)
    ensures
        p <= old(v)@.len(),
        forall|j: int| 0 <= j < p ==> (#[trigger] old(v)@[j]).0 < offset,
        p < old(v)@.len() ==> old(v)@[p as int].0 >= offset,
        final(v)@ == old(v)@.insert(p as int, (PacketBodyFragment(offset, body))),
{
    let mut p: usize = 0;
    while p < v.len() && v[p].0 < offset
        invariant
            p <= v@.len(),
            v@ == old(v)@,
            forall|j: int| 0 <= j < p ==> (#[trigger] v@[j]).0 < offset,
        decreases v@.len() - p,
    {
        p = p + 1;
    }
    v.insert(p, PacketBodyFragment::new(offset, body));
    p
}

/// Record one accepted fragment in a group's state: split the gap at index
/// `gi` around the fragment's blocks, file the body in offset order, and
/// capture the header when the fragment is the offset-zero one.
#[verifier::rlimit(100)]
fn apply_fragment(
    data: &mut FragmentCacheData,
    gi: usize,
    offset: u16,
    range_end: u16,
    m_flag: bool,
    header: Vec<u8>,
    body: Vec<u8>,
)
    requires
        entry_wf(old(data)@),
        body@.len() > 0,
        frag_end(offset, body@.len() as int) <= MAX_FRAGMENT_BLOCKS,
        range_end as int == frag_end(offset, body@.len() as int),
        gi < old(data).missing_blocks@.len(),
        gap_contains(
            old(data).missing_blocks@[gi as int],
            offset as int,
            frag_end(offset, body@.len() as int),
        ),
        !m_flag ==> (old(data).missing_blocks@[gi as int].1 == range_end || old(
            data,
        ).missing_blocks@[gi as int].1 == 65535),
        offset == 0 ==> header@.len() + 0x10000 <= usize::MAX,
    ensures
        entry_wf(final(data)@),
        entry_step(
            old(data)@,
            final(data)@,
            offset,
            m_flag,
            header@,
            body@,
            old(data).missing_blocks@[gi as int],
        ),
{
    let ghost e0 = data@;
    let ghost end = frag_end(offset, body@.len() as int);
    let ghost gaps0 = data.missing_blocks@;
    let ghost frags0 = e0.frags;
    proof {
        // Spell out the group invariant's parts once, then reason from
        // them.
        assert(gaps_wf(gaps0) && frags_wf(frags0) && (forall|b: int|
            block_in_gaps(gaps0, b) ==> !block_covered(frags0, b)) && (block_in_gaps(gaps0, 0)
            || block_covered(frags0, 0)) && (e0.header is Some <==> block_covered(frags0, 0))
            && e0.total == header_len(e0.header) + sum_body_lens(frags0) && header_len(e0.header)
            + 0x10000 <= usize::MAX) by {
            reveal(entry_wf);
        }
        lemma_len_le_blocks(body@.len() as int);
        lemma_split_gaps(gaps0, gi as int, offset, range_end, m_flag);
        lemma_split_gaps_contains(gaps0, gi as int, offset, range_end, m_flag);
        lemma_range_disjoint(gaps0, frags0, gi as int, offset, end);
        lemma_sum_bound(frags0);
        lemma_sum_nonneg(frags0);
    }
    let ghost found_gap = gaps0[gi as int];

    // Split the gap the fragment landed in around its blocks.
    split_gap_vec(&mut data.missing_blocks, gi, offset, range_end, m_flag);

    // File the body at its place in ascending offset order.
    let ghost bodyv = body@;
    let blen = body.len();
    let p = insert_body_fragment(&mut data.body_fragments, offset, body);
    let ghost frags1 = frags0.insert(p as int, (offset, bodyv));
    proof {
        assert(data@.frags =~= frags1);
        assert forall|j: int| 0 <= j < p implies (#[trigger] frags0[j]).0 < offset by {
            assert(old(data).body_fragments@[j].0 < offset);
        }
        if (p as int) < frags0.len() {
            assert(frags0[p as int].0 >= offset);
        }
        lemma_insert_frag(frags0, p as int, offset, bodyv);
    }

    // Capture the header of the offset-zero fragment; the group cannot
    // already hold one, since block zero was still in a gap.
    if offset == 0 {
        proof {
            assert(block_in_gaps(gaps0, 0)) by {
                assert(gaps0[gi as int].0 <= 0 <= gaps0[gi as int].1);
            }
            assert(!block_covered(frags0, 0));
            assert(data.header is None);
            assert(header_len(e0.header) == 0);
        }
        let hl = header.len();
        data.header = Some(header);
        assert(data.total_size + hl <= usize::MAX) by {
            assert(data.total_size == sum_body_lens(frags0));
        }
        data.total_size = data.total_size + hl;
    }
    assert(data.total_size + blen <= usize::MAX) by {
        assert(sum_body_lens(frags0) + blen == sum_body_lens(frags1) <= 0x10000);
    }
    data.total_size = data.total_size + blen;

    proof {
        assert(data@.frags =~= frags1);
        lemma_entry_wf_after(e0, data@, offset, m_flag, header@, bodyv, gi as int);
        assert(e0.gaps.contains(found_gap)) by {
            assert(e0.gaps[gi as int] == found_gap);
        }
        assert(entry_step(e0, data@, offset, m_flag, header@, bodyv, found_gap)) by {
            reveal(entry_step);
        }
    }
}


/// The received bodies in ascending offset order, concatenated.
pub open spec fn concat_bodies(frags: Seq<(u16, Seq<u8>)>) -> Seq<u8>
    decreases frags.len(),
{
    if frags.len() == 0 {
        Seq::empty()
    } else {
        concat_bodies(frags.drop_last()) + frags.last().1
    }
}

/// The concatenated bodies hold exactly the counted bytes.
pub proof fn lemma_concat_len(frags: Seq<(u16, Seq<u8>)>)
    ensures
        concat_bodies(frags).len() == sum_body_lens(frags),
    decreases frags.len(),
{
    if frags.len() > 0 {
        lemma_concat_len(frags.drop_last());
    }
}

/// Splitting the fragment list splits its byte sum.
pub proof fn lemma_sum_split(frags: Seq<(u16, Seq<u8>)>, k: int)
    requires
        0 <= k <= frags.len(),
    ensures
        sum_body_lens(frags) == sum_body_lens(frags.subrange(0, k)) + sum_body_lens(
            frags.subrange(k, frags.len() as int),
        ),
    decreases frags.len() - k,
{
    if k == frags.len() {
        assert(frags.subrange(0, k) =~= frags);
    } else {
        lemma_sum_split(frags, k + 1);
        let a = frags.subrange(0, k + 1);
        assert(a.drop_last() =~= frags.subrange(0, k));
        assert(a.last() == frags[k]);
        let b = frags.subrange(k, frags.len() as int);
        let c = frags.subrange(k + 1, frags.len() as int);
        lemma_sum_suffix(frags, k);
    }
}

/// Peeling the first fragment off a suffix peels its length off the sum.
proof fn lemma_sum_suffix(frags: Seq<(u16, Seq<u8>)>, k: int)
    requires
        0 <= k < frags.len(),
    ensures
        sum_body_lens(frags.subrange(k, frags.len() as int)) == frags[k].1.len() as int
            + sum_body_lens(frags.subrange(k + 1, frags.len() as int)),
    decreases frags.len() - k,
{
    let b = frags.subrange(k, frags.len() as int);
    if b.len() == 1 {
        assert(b.drop_last() =~= frags.subrange(k + 1, frags.len() as int));
    } else {
        lemma_sum_suffix(frags.drop_last(), k);
        assert(b.drop_last() =~= frags.drop_last().subrange(k, frags.len() - 1));
        assert(frags.subrange(k + 1, frags.len() as int).drop_last() =~= frags.drop_last().subrange(
            k + 1,
            frags.len() - 1,
        ));
        assert(frags.drop_last()[k] == frags[k]);
        assert(b.last() == frags.subrange(k + 1, frags.len() as int).last());
    }
}

/// The raw reassembled byte stream of a complete group: the header followed
/// by the bodies in ascending offset order.
pub open spec fn raw_assembled(e: FragEntry) -> Seq<u8> {
    match e.header {
        Some(h) => h + concat_bodies(e.frags),
        None => concat_bodies(e.frags),
    }
}

/// The IPv4 header rewrite applied to an assembled stream `a` whose header
/// occupies `hlen` bytes: the total-length field becomes the stream length,
/// the fragmentation fields are zeroed, and the header checksum is
/// recomputed over the header bytes excluding the checksum field itself.
pub open spec fn v4_fixup(a: Seq<u8>, hlen: int) -> Seq<u8> {
    let b1 = a.update(2, ((a.len() as int / 256) as u8)).update(
        3,
        ((a.len() as int % 256) as u8),
    ).update(4, 0u8).update(5, 0u8).update(6, 0u8).update(7, 0u8);
    let c = checksum16(b1.subrange(0, 10) + b1.subrange(12, hlen));
    b1.update(10, ((c / 256) as u8)).update(11, ((c % 256) as u8))
}

/// The bytes `reassemble_packet` hands back for a complete group.
pub open spec fn assembled_bytes(version: IpVersion, e: FragEntry) -> Seq<u8> {
    if version == IpVersion::V4 {
        v4_fixup(raw_assembled(e), header_len(e.header))
    } else {
        raw_assembled(e)
    }
}




/// Write a complete group's header and bodies, in ascending offset order,
/// into `buffer`; returns the header length.
fn write_assembled(data: &FragmentCacheData, buffer: &mut Vec<u8>) -> (hlen: usize)
    requires
        entry_wf(data@),
        data@.header is Some,
        old(buffer)@.len() == data@.total,
    ensures
        final(buffer)@ == raw_assembled(data@),
        final(buffer)@.len() == old(buffer)@.len(),
        hlen as int == header_len(data@.header),
{
    let ghost e = data@;
    let ghost frs = e.frags;
    proof {
        assert(e.total == header_len(e.header) + sum_body_lens(e.frags)) by {
            reveal(entry_wf);
        }
        lemma_sum_nonneg(e.frags);
        lemma_concat_len(e.frags);
    }
    let hlen: usize;
    match &data.header {
        Some(h) => {
            hlen = h.len();
            copy_into(buffer, 0, h);
        },
        None => {
            proof {
                assert(false);
            }
            hlen = 0;
        },
    }
    proof {
        assert(buffer@.subrange(0, hlen as int) =~= raw_assembled(e).subrange(0, hlen as int));
        assert(frs.subrange(0, 0) =~= Seq::<(u16, Seq<u8>)>::empty());
    }
    let mut written: usize = hlen;
    let mut fi: usize = 0;
    let nf = data.body_fragments.len();
    while fi < nf
        invariant
            e == data@,
            entry_wf(e),
            e.header is Some,
            frs == e.frags,
            nf == frs.len(),
            fi <= nf,
            buffer@.len() == e.total,
            hlen as int == header_len(e.header),
            e.total == hlen + sum_body_lens(frs),
            written == hlen + sum_body_lens(frs.subrange(0, fi as int)),
            buffer@.subrange(0, written as int) =~= raw_assembled(e).subrange(0, written as int),
        decreases nf - fi,
    {
        proof {
            lemma_sum_split(frs, fi as int);
            lemma_sum_suffix(frs, fi as int);
            lemma_sum_nonneg(frs.subrange(fi + 1, frs.len() as int));
            lemma_sum_nonneg(frs.subrange(0, fi as int));
        }
        let ghost w0 = written as int;
        let body = &data.body_fragments[fi].1;
        proof {
            assert(frs[fi as int] == (data.body_fragments@[fi as int].0, body@));
        }
        let ghost pre_buf = buffer@;
        copy_into(buffer, written, body);
        written = written + body.len();
        fi = fi + 1;
        proof {
            let fi0 = fi - 1;
            let raw = raw_assembled(e);
            assert(frs.subrange(0, fi as int).drop_last() =~= frs.subrange(0, fi0));
            assert(frs.subrange(0, fi as int).last() == frs[fi0]);
            lemma_concat_len(frs.subrange(0, fi0));
            lemma_concat_len(frs.subrange(0, fi as int));
            lemma_concat_len(frs);
            lemma_concat_prefix(e, fi0);
            lemma_concat_prefix(e, fi as int);
            assert forall|k: int| 0 <= k < written as int implies buffer@[k] == raw[k] by {
                if k < w0 {
                    assert(pre_buf.subrange(0, w0)[k] == raw.subrange(0, w0)[k]);
                } else {
                    assert(raw.subrange(0, written as int)[k] == raw[k]);
                    assert(buffer@[k] == frs[fi0].1[k - w0]);
                }
            }
            assert(buffer@.subrange(0, written as int) =~= raw.subrange(0, written as int));
        }
    }
    proof {
        assert(frs.subrange(0, nf as int) =~= frs);
        lemma_concat_len(frs);
        assert forall|k: int| 0 <= k < buffer@.len() implies buffer@[k] == raw_assembled(e)[k] by {
            assert(buffer@.subrange(0, written as int)[k] == raw_assembled(e).subrange(
                0,
                written as int,
            )[k]);
        }
        assert(buffer@ =~= raw_assembled(e));
    }
    hlen
}

/// Rewrite an assembled IPv4 datagram's header in place: set the
/// total-length field, zero the fragmentation fields, and recompute the
/// header checksum over the header bytes excluding the checksum field.
fn apply_v4_fixup(buffer: &mut Vec<u8>, hlen: usize)
    requires
        20 <= hlen <= old(buffer)@.len(),
        old(buffer)@.len() <= 0xFFFF,
    ensures
        final(buffer)@ == v4_fixup(old(buffer)@, hlen as int),
        final(buffer)@.len() == old(buffer)@.len(),
{
    let ghost raw = buffer@;
    let blen = buffer.len();
    buffer.set(2, (blen / 256) as u8);
    buffer.set(3, (blen % 256) as u8);
    buffer.set(4, 0);
    buffer.set(5, 0);
    buffer.set(6, 0);
    buffer.set(7, 0);
    let ghost b1 = raw.update(2, ((raw.len() as int / 256) as u8)).update(
        3,
        ((raw.len() as int % 256) as u8),
    ).update(4, 0u8).update(5, 0u8).update(6, 0u8).update(7, 0u8);
    proof {
        assert(buffer@ =~= b1);
    }

    // The checksum covers the header bytes except its own field.
    let mut temp: Vec<u8> = Vec::new();
    let mut j: usize = 0;
    while j < 10
        invariant
            j <= 10,
            buffer@.len() >= 20,
            temp@ =~= buffer@.subrange(0, j as int),
        decreases 10 - j,
    {
        temp.push(buffer[j]);
        j = j + 1;
    }
    let mut k: usize = 12;
    while k < hlen
        invariant
            12 <= k <= hlen <= buffer@.len(),
            buffer@.len() <= 0xFFFF,
            temp@ =~= buffer@.subrange(0, 10) + buffer@.subrange(12, k as int),
        decreases hlen - k,
    {
        temp.push(buffer[k]);
        k = k + 1;
    }
    proof {
        assert(temp@ =~= b1.subrange(0, 10) + b1.subrange(12, hlen as int));
    }
    let c = internet_checksum(&temp);
    proof {
        crate::wire::lemma_sum16_bound(temp@);
        crate::wire::lemma_oc_fold_range(crate::wire::sum16(temp@));
    }
    buffer.set(10, (c / 256) as u8);
    buffer.set(11, (c % 256) as u8);
    proof {
        assert(buffer@ =~= v4_fixup(raw, hlen as int));
    }
}

/// Overwrite `buffer[at..at + src.len()]` with `src`.
fn copy_into(buffer: &mut Vec<u8>, at: usize, src: &Vec<u8>)
    requires
        at + src@.len() <= old(buffer)@.len(),
    ensures
        final(buffer)@.len() == old(buffer)@.len(),
        forall|k: int|
            0 <= k < final(buffer)@.len() ==> final(buffer)@[k] == (if at <= k < at + src@.len() {
                src@[k - at]
            } else {
                old(buffer)@[k]
            }),
{
    let n = buffer.len();
    assert(at + src@.len() <= n);
    let mut j: usize = 0;
    while j < src.len()
        invariant
            j <= src@.len(),
            n == buffer@.len(),
            at + src@.len() <= n,
            buffer@.len() == old(buffer)@.len(),
            forall|k: int|
                0 <= k < buffer@.len() ==> buffer@[k] == (if at <= k < at + j {
                    src@[k - at]
                } else {
                    old(buffer)@[k]
                }),
        decreases src@.len() - j,
    {
        buffer.set(at + j, src[j]);
        j = j + 1;
    }
}

/// Splitting the fragment list splits the concatenation of its bodies.
proof fn lemma_concat_split(frags: Seq<(u16, Seq<u8>)>, k: int)
    requires
        0 <= k <= frags.len(),
    ensures
        concat_bodies(frags) == concat_bodies(frags.subrange(0, k)) + concat_bodies(
            frags.subrange(k, frags.len() as int),
        ),
    decreases frags.len(),
{
    if k == frags.len() {
        assert(frags.subrange(0, k) =~= frags);
        assert(concat_bodies(frags) =~= concat_bodies(frags.subrange(0, k)) + concat_bodies(
            frags.subrange(k, frags.len() as int),
        ));
    } else {
        let t = frags.drop_last();
        lemma_concat_split(t, k);
        assert(t.subrange(0, k) =~= frags.subrange(0, k));
        let b = frags.subrange(k, frags.len() as int);
        assert(b.drop_last() =~= t.subrange(k, t.len() as int));
        assert(b.last() == frags.last());
        assert((concat_bodies(frags.subrange(0, k)) + concat_bodies(
            t.subrange(k, t.len() as int),
        )) + frags.last().1 =~= concat_bodies(frags.subrange(0, k)) + (concat_bodies(
            t.subrange(k, t.len() as int),
        ) + frags.last().1));
    }
}

/// The assembled prefix covering the first `fi` bodies is the header
/// followed by exactly those bodies.
proof fn lemma_concat_prefix(e: FragEntry, fi: int)
    requires
        0 <= fi <= e.frags.len(),
        e.header is Some,
    ensures
        raw_assembled(e).subrange(
            0,
            header_len(e.header) + sum_body_lens(e.frags.subrange(0, fi)),
        ) =~= (match e.header {
            Some(h) => h + concat_bodies(e.frags.subrange(0, fi)),
            None => concat_bodies(e.frags.subrange(0, fi)),
        }),
{
    lemma_concat_split(e.frags, fi);
    lemma_concat_len(e.frags.subrange(0, fi));
    lemma_sum_nonneg(e.frags.subrange(0, fi));
    lemma_concat_len(e.frags.subrange(fi, e.frags.len() as int));
    lemma_sum_nonneg(e.frags.subrange(fi, e.frags.len() as int));
}

/// Attempts to find the gap that contains `fragment_blocks_range` entirely.
///
/// Returns `Some(o)` where `o` is that gap's range, or `None` when the
/// incoming range overlaps blocks already received (or strays outside every
/// gap): fragments from well-behaved senders always land entirely within
/// one gap.
pub fn find_gap(missing_blocks: &Vec<(u16, u16)>, fragment_blocks_range: (u16, u16)) -> (r: Option<
    (u16, u16),
>)
    requires
        gaps_wf(missing_blocks@),
        fragment_blocks_range.0 <= fragment_blocks_range.1,
    ensures
        match r {
            Some(g) => missing_blocks@.contains(g) && g.0 <= fragment_blocks_range.0
                && fragment_blocks_range.1 <= g.1,
            None => forall|i: int|
                0 <= i < missing_blocks@.len() ==> !((#[trigger] missing_blocks@[i]).0
                    <= fragment_blocks_range.0 && fragment_blocks_range.1
                    <= missing_blocks@[i].1),
        },
{
    match find_gap_at(missing_blocks, fragment_blocks_range) {
        Some(i) => {
            proof {
                assert(missing_blocks@.contains(missing_blocks@[i as int]));
            }
            Some(missing_blocks[i])
        },
        None => None,
    }
}

/// As [`find_gap`], but returning the index of the containing gap.
fn find_gap_at(missing_blocks: &Vec<(u16, u16)>, fragment_blocks_range: (u16, u16)) -> (r: Option<
    usize,
>)
    requires
        gaps_wf(missing_blocks@),
        fragment_blocks_range.0 <= fragment_blocks_range.1,
    ensures
        match r {
            Some(i) => i < missing_blocks@.len() && missing_blocks@[i as int].0
                <= fragment_blocks_range.0 && fragment_blocks_range.1
                <= missing_blocks@[i as int].1,
            None => forall|i: int|
                0 <= i < missing_blocks@.len() ==> !((#[trigger] missing_blocks@[i]).0
                    <= fragment_blocks_range.0 && fragment_blocks_range.1
                    <= missing_blocks@[i].1),
        },
{
    let mut i: usize = 0;
    while i < missing_blocks.len()
        invariant
            gaps_wf(missing_blocks@),
            fragment_blocks_range.0 <= fragment_blocks_range.1,
            i <= missing_blocks@.len(),
            forall|j: int|
                0 <= j < i ==> !((#[trigger] missing_blocks@[j]).0 <= fragment_blocks_range.0
                    && fragment_blocks_range.1 <= missing_blocks@[j].1),
        decreases missing_blocks@.len() - i,
    {
        let potential_gap = missing_blocks[i];
        if fragment_blocks_range.1 < potential_gap.0 {
            // The range ends before this gap; with gaps ascending, it ends
            // before every later gap too.
            proof {
                assert forall|j: int|
                    i <= j < missing_blocks@.len() implies !((#[trigger] missing_blocks@[j]).0
                    <= fragment_blocks_range.0 && fragment_blocks_range.1
                    <= missing_blocks@[j].1) by {
                    if j > i {
                        lemma_gaps_pairwise(missing_blocks@, i as int, j);
                    }
                }
            }
            return None;
        }
        if fragment_blocks_range.0 > potential_gap.1 {
            // The range starts after this gap; move on.
            i = i + 1;
            continue;
        }
        // The range touches this gap. Either it lies entirely inside it, or
        // it overlaps received blocks and no gap can contain it.
        if fragment_blocks_range.0 < potential_gap.0 || fragment_blocks_range.1
            > potential_gap.1 {
            proof {
                assert forall|j: int|
                    0 <= j < missing_blocks@.len() implies !((#[trigger] missing_blocks@[j]).0
                    <= fragment_blocks_range.0 && fragment_blocks_range.1
                    <= missing_blocks@[j].1) by {
                    if j > i {
                        lemma_gaps_pairwise(missing_blocks@, i as int, j);
                    } else if j < i {
                        lemma_gaps_pairwise(missing_blocks@, j, i as int);
                    }
                }
            }
            return None;
        }
        return Some(i);
    }
    None
}


/// Well-formed fragment lists are canonical: two ascending disjoint lists
/// holding the same (offset, body) bindings are the same list.
/// Fragment offsets are pairwise distinct in a well-formed list.
proof fn lemma_frags_unique(a: Seq<(u16, Seq<u8>)>)
    requires
        frags_wf(a),
    ensures
        unique_keys(a),
{
    assert forall|x: int, y: int| 0 <= x < y < a.len() implies (#[trigger] a[x]).0 != (
    #[trigger] a[y]).0 by {
        lemma_frags_pairwise(a, x, y);
        lemma_len_le_blocks(a[x].1.len() as int);
    }
}

/// Two well-formed fragment lists with the same bindings end alike.
proof fn lemma_frags_last_eq(a: Seq<(u16, Seq<u8>)>, b: Seq<(u16, Seq<u8>)>)
    requires
        frags_wf(a),
        frags_wf(b),
        assoc_map(a) == assoc_map(b),
        a.len() > 0,
        b.len() > 0,
    ensures
        a.last() == b.last(),
{
    lemma_frags_unique(a);
    lemma_frags_unique(b);
    let ka = a.last().0;
    let kb = b.last().0;
    lemma_assoc_map_index(a, a.len() - 1);
    lemma_assoc_map_index(b, b.len() - 1);
    lemma_assoc_map_dom(a, kb);
    lemma_assoc_map_dom(b, ka);
    let ia = choose|ia: int| 0 <= ia < a.len() && (#[trigger] a[ia]).0 == kb;
    let ib = choose|ib: int| 0 <= ib < b.len() && (#[trigger] b[ib]).0 == ka;
    if ka != kb {
        assert(ia < a.len() - 1 && ib < b.len() - 1);
        lemma_frags_pairwise(a, ia, a.len() - 1);
        lemma_len_le_blocks(a[ia].1.len() as int);
        lemma_frags_pairwise(b, ib, b.len() - 1);
        lemma_len_le_blocks(b[ib].1.len() as int);
    }
    assert(a.last().1 == assoc_map(a)[ka] && b.last().1 == assoc_map(b)[ka]);
}

#[verifier::rlimit(100)]
#[verifier::spinoff_prover]
pub proof fn lemma_frags_canonical(a: Seq<(u16, Seq<u8>)>, b: Seq<(u16, Seq<u8>)>)
    requires
        frags_wf(a),
        frags_wf(b),
        assoc_map(a) == assoc_map(b),
    ensures
        a == b,
    decreases a.len(),
{
    lemma_frags_unique(a);
    lemma_frags_unique(b);
    if a.len() == 0 {
        if b.len() > 0 {
            lemma_assoc_map_index(b, b.len() - 1);
            lemma_assoc_map_dom(a, b.last().0);
        }
        assert(a =~= b);
    } else if b.len() == 0 {
        lemma_assoc_map_index(a, a.len() - 1);
        lemma_assoc_map_dom(b, a.last().0);
    } else {
        lemma_frags_last_eq(a, b);
        let k = a.last().0;
        lemma_assoc_map_remove(a, a.len() - 1);
        lemma_assoc_map_remove(b, b.len() - 1);
        assert(a.remove(a.len() - 1) =~= a.drop_last());
        assert(b.remove(b.len() - 1) =~= b.drop_last());
        lemma_frags_wf_drop_last(a);
        lemma_frags_wf_drop_last(b);
        lemma_frags_canonical(a.drop_last(), b.drop_last());
        assert forall|x: int| 0 <= x < a.len() implies a[x] == b[x] by {
            if x < a.len() - 1 {
                assert(a.drop_last()[x] == b.drop_last()[x]);
            } else {
                assert(a.last() == b.last());
            }
        }
        assert(a =~= b);
    }
}

/// Dropping the last fragment keeps the list well formed.
proof fn lemma_frags_wf_drop_last(a: Seq<(u16, Seq<u8>)>)
    requires
        frags_wf(a),
        a.len() > 0,
    ensures
        frags_wf(a.drop_last()),
{
    let t = a.drop_last();
    assert forall|i: int| 0 <= i < t.len() implies (#[trigger] t[i]).1.len() > 0 && frag_end(
        t[i].0,
        t[i].1.len() as int,
    ) <= MAX_FRAGMENT_BLOCKS by {
        assert(a[i].1.len() > 0 && frag_end(a[i].0, a[i].1.len() as int) <= MAX_FRAGMENT_BLOCKS);
    }
    assert forall|i: int| 0 <= i && i + 1 < t.len() implies frag_end(
        (#[trigger] t[i]).0,
        t[i].1.len() as int,
    ) < t[i + 1].0 by {
        assert(frag_end(a[i].0, a[i].1.len() as int) < a[i + 1].0);
    }
}

/// Order independence of reassembly: the reassembled byte stream of a
/// group depends only on which header and which (offset, body) fragments
/// it holds, never on the order they arrived in, since arrival order can
/// at most permute the recorded bindings.
pub proof fn lemma_reassembly_order_independent(ea: FragEntry, eb: FragEntry, version: IpVersion)
    requires
        entry_wf(ea),
        entry_wf(eb),
        ea.header == eb.header,
        assoc_map(ea.frags) == assoc_map(eb.frags),
    ensures
        ea.frags == eb.frags,
        ea.total == eb.total,
        assembled_bytes(version, ea) == assembled_bytes(version, eb),
{
    reveal(entry_wf);
    lemma_frags_canonical(ea.frags, eb.frags);
}

/// Timeout law: once a group's reassembly timer has fired and removed it,
/// the key has no live group, so a reassembly attempt is told the key is
/// invalid, and a later fragment for the same key meets a fresh group,
/// starting a fresh sixty-second budget.
pub proof fn lemma_timeout_clears_group(m: Map<FragmentCacheKey, FragEntry>, key: FragmentCacheKey)
    ensures
        !m.remove(key).contains_key(key),
        entry_before(m.remove(key), key) == fresh_entry(),
{
}

/// Overlap rejection: a fragment sharing any block with data a group
/// already holds fits no gap, so `process_fragment` flushes the group, and
/// a later reassembly attempt for its key is told the key is invalid.
pub proof fn lemma_overlap_rejected(e: FragEntry, o: u16, end: int, b: int)
    requires
        entry_wf(e),
        block_covered(e.frags, b),
        o <= b <= end,
    ensures
        !entry_fits(e, o, end),
{
    reveal(entry_wf);
    assert forall|g: (u16, u16)| !(e.gaps.contains(g) && gap_contains(g, o as int, end)) by {
        if e.gaps.contains(g) && gap_contains(g, o as int, end) {
            let j = choose|j: int| 0 <= j < e.gaps.len() && e.gaps[j] == g;
            assert(block_in_gaps(e.gaps, b)) by {
                assert(e.gaps[j].0 <= b <= e.gaps[j].1);
            }
        }
    }
}


/// Two distinct gaps of a well-formed list occupy disjoint block ranges.
proof fn lemma_gaps_disjoint_values(gaps: Seq<(u16, u16)>, x: (u16, u16), y: (u16, u16))
    requires
        gaps_wf(gaps),
        gaps.contains(x),
        gaps.contains(y),
        x != y,
    ensures
        x.1 < y.0 || y.1 < x.0,
{
    let i = choose|i: int| 0 <= i < gaps.len() && gaps[i] == x;
    let j = choose|j: int| 0 <= j < gaps.len() && gaps[j] == y;
    if i < j {
        lemma_gaps_pairwise(gaps, i, j);
    } else if j < i {
        lemma_gaps_pairwise(gaps, j, i);
    }
}

/// Well-formed gap lists are canonical: two ascending separated lists with
/// the same contents are the same list.
#[verifier::rlimit(100)]
proof fn lemma_gaps_canonical(a: Seq<(u16, u16)>, b: Seq<(u16, u16)>)
    requires
        gaps_wf(a),
        gaps_wf(b),
        forall|x: (u16, u16)| a.contains(x) <==> b.contains(x),
    ensures
        a == b,
    decreases a.len(),
{
    assert forall|p: int, q: int| 0 <= p < q < a.len() implies a[p] != a[q] by {
        lemma_gaps_pairwise(a, p, q);
    }
    assert forall|p: int, q: int| 0 <= p < q < b.len() implies b[p] != b[q] by {
        lemma_gaps_pairwise(b, p, q);
    }
    if a.len() == 0 {
        if b.len() > 0 {
            assert(b.contains(b.last()));
        }
        assert(a =~= b);
    } else if b.len() == 0 {
        assert(a.contains(a.last()));
    } else {
        // Each list ends with its greatest range, and the contents agree,
        // so the last elements agree.
        assert(a.contains(a.last()) && b.contains(b.last()));
        let ia = choose|ia: int| 0 <= ia < a.len() && a[ia] == b.last();
        let ib = choose|ib: int| 0 <= ib < b.len() && b[ib] == a.last();
        if a.last() != b.last() {
            assert(ia < a.len() - 1 && ib < b.len() - 1);
            lemma_gaps_pairwise(a, ia, a.len() - 1);
            lemma_gaps_pairwise(b, ib, b.len() - 1);
        }
        assert(a.last() == b.last());
        lemma_seq_remove_contains(a, a.len() - 1);
        lemma_seq_remove_contains(b, b.len() - 1);
        assert(a.remove(a.len() - 1) =~= a.drop_last());
        assert(b.remove(b.len() - 1) =~= b.drop_last());
        lemma_gaps_wf_drop_last(a);
        lemma_gaps_wf_drop_last(b);
        assert forall|x: (u16, u16)| a.drop_last().contains(x) <==> b.drop_last().contains(
            x,
        ) by {
            assert(a.remove(a.len() - 1).contains(x) <==> (a.contains(x) && x != a[a.len() - 1]));
            assert(b.remove(b.len() - 1).contains(x) <==> (b.contains(x) && x != b[b.len() - 1]));
        }
        lemma_gaps_canonical(a.drop_last(), b.drop_last());
        assert forall|p: int| 0 <= p < a.len() implies a[p] == b[p] by {
            if p < a.len() - 1 {
                assert(a.drop_last()[p] == b.drop_last()[p]);
            }
        }
        assert(a =~= b);
    }
}

/// Dropping the last gap keeps the list well formed.
proof fn lemma_gaps_wf_drop_last(a: Seq<(u16, u16)>)
    requires
        gaps_wf(a),
        a.len() > 0,
    ensures
        gaps_wf(a.drop_last()),
{
    let t = a.drop_last();
    assert forall|i: int| 0 <= i < t.len() implies (#[trigger] t[i]).0 <= t[i].1 by {
        assert(a[i].0 <= a[i].1);
    }
    assert forall|i: int| 0 <= i && i + 1 < t.len() implies (#[trigger] t[i]).1 + 1 < t[i + 1].0 by {
        assert(a[i].1 + 1 < a[i + 1].0);
    }
}

/// Recording two fragments that landed in the same gap, the nearer one
/// first, leaves the same gaps in either order.
#[verifier::rlimit(100)]
#[verifier::spinoff_prover]
proof fn lemma_same_gap_commute(
    e0gaps: Seq<(u16, u16)>,
    a1gaps: Seq<(u16, u16)>,
    a12gaps: Seq<(u16, u16)>,
    b1gaps: Seq<(u16, u16)>,
    b12gaps: Seq<(u16, u16)>,
    g: (u16, u16),
    ga2: (u16, u16),
    gb1: (u16, u16),
    o1: u16,
    end1: int,
    m1: bool,
    o2: u16,
    end2: int,
    m2: bool,
)
    requires
        gaps_wf(e0gaps),
        e0gaps.contains(g),
        gap_contains(g, o1 as int, end1),
        gap_contains(g, o2 as int, end2),
        o1 <= end1 < o2 <= end2,
        forall|x: (u16, u16)|
            #![trigger a1gaps.contains(x)]
            a1gaps.contains(x) <==> gap_split_contains(e0gaps, g, o1, end1, m1, x),
        a1gaps.contains(ga2),
        gap_contains(ga2, o2 as int, end2),
        forall|x: (u16, u16)|
            #![trigger a12gaps.contains(x)]
            a12gaps.contains(x) <==> gap_split_contains(a1gaps, ga2, o2, end2, m2, x),
        forall|x: (u16, u16)|
            #![trigger b1gaps.contains(x)]
            b1gaps.contains(x) <==> gap_split_contains(e0gaps, g, o2, end2, m2, x),
        b1gaps.contains(gb1),
        gap_contains(gb1, o1 as int, end1),
        forall|x: (u16, u16)|
            #![trigger b12gaps.contains(x)]
            b12gaps.contains(x) <==> gap_split_contains(b1gaps, gb1, o1, end1, m1, x),
    ensures
        forall|x: (u16, u16)| a12gaps.contains(x) <==> b12gaps.contains(x),
{
    let r1 = ((end1 + 1) as u16, g.1);
    let l1b = (g.0, (o2 - 1) as u16);

    // Recorded first, the nearer fragment leaves the farther one's blocks
    // in the right-hand remainder of the shared gap, so that remainder
    // exists.
    assert(a1gaps.contains(ga2));
    if e0gaps.contains(ga2) && ga2 != g {
        lemma_gaps_disjoint_values(e0gaps, ga2, g);
        assert(false);
    }
    assert(m1 && g.1 > end1 && ga2 == r1);

    // Recorded first, the farther fragment leaves the nearer one's blocks
    // in the left-hand remainder.
    assert(b1gaps.contains(gb1));
    if e0gaps.contains(gb1) && gb1 != g {
        lemma_gaps_disjoint_values(e0gaps, gb1, g);
        assert(false);
    }
    assert(g.0 < o2 && gb1 == l1b);

    // Both orders leave: the other gaps, what precedes the nearer
    // fragment, what lies between the two, and what follows the farther.
    assert forall|x: (u16, u16)| a12gaps.contains(x) <==> b12gaps.contains(x) by {
        assert(a12gaps.contains(x) <==> gap_split_contains(a1gaps, ga2, o2, end2, m2, x));
        assert(b12gaps.contains(x) <==> gap_split_contains(b1gaps, gb1, o1, end1, m1, x));
        if e0gaps.contains(x) && x != g {
            lemma_gaps_disjoint_values(e0gaps, x, g);
        }
        if e0gaps.contains(r1) && r1 != g {
            lemma_gaps_disjoint_values(e0gaps, r1, g);
        }
        if e0gaps.contains(l1b) && l1b != g {
            lemma_gaps_disjoint_values(e0gaps, l1b, g);
        }
        if g.0 < o1 && e0gaps.contains((g.0, (o1 - 1) as u16)) && (g.0, (o1 - 1) as u16) != g {
            lemma_gaps_disjoint_values(e0gaps, (g.0, (o1 - 1) as u16), g);
        }
        if m2 && g.1 > end2 && e0gaps.contains(((end2 + 1) as u16, g.1)) && ((end2 + 1) as u16, g.1)
            != g {
            lemma_gaps_disjoint_values(e0gaps, ((end2 + 1) as u16, g.1), g);
        }
        if end1 + 1 < o2 && e0gaps.contains(((end1 + 1) as u16, (o2 - 1) as u16)) && (
        (end1 + 1) as u16, (o2 - 1) as u16) != g {
            lemma_gaps_disjoint_values(e0gaps, ((end1 + 1) as u16, (o2 - 1) as u16), g);
        }
    }
}

/// Recording two fragments that landed in different gaps leaves the same
/// gaps in either order.
#[verifier::rlimit(100)]
#[verifier::spinoff_prover]
proof fn lemma_diff_gap_commute(
    e0gaps: Seq<(u16, u16)>,
    a1gaps: Seq<(u16, u16)>,
    a12gaps: Seq<(u16, u16)>,
    b1gaps: Seq<(u16, u16)>,
    b12gaps: Seq<(u16, u16)>,
    g1: (u16, u16),
    ga2: (u16, u16),
    g2: (u16, u16),
    gb1: (u16, u16),
    o1: u16,
    end1: int,
    m1: bool,
    o2: u16,
    end2: int,
    m2: bool,
)
    requires
        gaps_wf(e0gaps),
        e0gaps.contains(g1),
        e0gaps.contains(g2),
        g1 != g2,
        gap_contains(g1, o1 as int, end1),
        gap_contains(g2, o2 as int, end2),
        o1 <= end1,
        o2 <= end2,
        forall|x: (u16, u16)|
            #![trigger a1gaps.contains(x)]
            a1gaps.contains(x) <==> gap_split_contains(e0gaps, g1, o1, end1, m1, x),
        a1gaps.contains(ga2),
        gap_contains(ga2, o2 as int, end2),
        forall|x: (u16, u16)|
            #![trigger a12gaps.contains(x)]
            a12gaps.contains(x) <==> gap_split_contains(a1gaps, ga2, o2, end2, m2, x),
        forall|x: (u16, u16)|
            #![trigger b1gaps.contains(x)]
            b1gaps.contains(x) <==> gap_split_contains(e0gaps, g2, o2, end2, m2, x),
        b1gaps.contains(gb1),
        gap_contains(gb1, o1 as int, end1),
        forall|x: (u16, u16)|
            #![trigger b12gaps.contains(x)]
            b12gaps.contains(x) <==> gap_split_contains(b1gaps, gb1, o1, end1, m1, x),
    ensures
        forall|x: (u16, u16)| a12gaps.contains(x) <==> b12gaps.contains(x),
{
    lemma_gaps_disjoint_values(e0gaps, g1, g2);

    // Each fragment lands in its own original gap, whichever went first.
    assert(a1gaps.contains(ga2));
    if e0gaps.contains(ga2) && ga2 != g1 && ga2 != g2 {
        lemma_gaps_disjoint_values(e0gaps, ga2, g2);
    }
    assert(ga2 == g2);
    assert(b1gaps.contains(gb1));
    if e0gaps.contains(gb1) && gb1 != g2 && gb1 != g1 {
        lemma_gaps_disjoint_values(e0gaps, gb1, g1);
    }
    assert(gb1 == g1);

    // The split pieces of one gap never coincide with the other gap, so
    // both orders leave the same pieces beside the untouched gaps.
    assert forall|x: (u16, u16)| a12gaps.contains(x) <==> b12gaps.contains(x) by {
        assert(a12gaps.contains(x) <==> gap_split_contains(a1gaps, ga2, o2, end2, m2, x));
        assert(b12gaps.contains(x) <==> gap_split_contains(b1gaps, gb1, o1, end1, m1, x));
        if e0gaps.contains(x) && x != g1 && x != g2 {
            lemma_gaps_disjoint_values(e0gaps, x, g1);
            lemma_gaps_disjoint_values(e0gaps, x, g2);
        }
    }
}

/// What one recording step says, without opening its definition at the
/// use site.
proof fn lemma_step_parts(
    e: FragEntry,
    e2: FragEntry,
    o: u16,
    m_flag: bool,
    hdr: Seq<u8>,
    body: Seq<u8>,
    g: (u16, u16),
)
    requires
        entry_step(e, e2, o, m_flag, hdr, body, g),
    ensures
        e.gaps.contains(g),
        gap_contains(g, o as int, frag_end(o, body.len() as int)),
        forall|x: (u16, u16)|
            e2.gaps.contains(x) <==> gap_split_contains(
                e.gaps,
                g,
                o,
                frag_end(o, body.len() as int),
                m_flag,
                x,
            ),
        assoc_map(e2.frags) == assoc_map(e.frags).insert(o, body),
        e2.header == (if o == 0 {
            Some(hdr)
        } else {
            e.header
        }),
        e2.total == e.total + body.len() + (if o == 0 {
            hdr.len() as int
        } else {
            0
        }),
{
    reveal(entry_step);
}

/// The parts of the group invariant the order argument needs.
proof fn lemma_wf_parts(e: FragEntry)
    requires
        entry_wf(e),
    ensures
        gaps_wf(e.gaps),
        frags_wf(e.frags),
        forall|b: int| block_in_gaps(e.gaps, b) ==> !block_covered(e.frags, b),
{
    reveal(entry_wf);
}

/// Order independence of recording: two fragments recorded in either order
/// leave the group in the same state — the same gaps, the same fragment
/// records, the same header and byte counter — and hence with the same
/// reassembled byte stream. `a1`/`a12` are the states after recording
/// fragment one then fragment two; `b1`/`b12` after recording them the
/// other way around.
#[verifier::rlimit(100)]
#[verifier::spinoff_prover]
pub proof fn lemma_record_order_irrelevant(
    e0: FragEntry,
    a1: FragEntry,
    a12: FragEntry,
    b1: FragEntry,
    b12: FragEntry,
    o1: u16,
    m1: bool,
    h1: Seq<u8>,
    body1: Seq<u8>,
    ga1: (u16, u16),
    ga2: (u16, u16),
    o2: u16,
    m2: bool,
    h2: Seq<u8>,
    body2: Seq<u8>,
    gb1: (u16, u16),
    gb2: (u16, u16),
)
    requires
        entry_wf(e0),
        entry_wf(a1),
        entry_wf(a12),
        entry_wf(b1),
        entry_wf(b12),
        body1.len() > 0,
        body2.len() > 0,
        entry_step(e0, a1, o1, m1, h1, body1, ga1),
        entry_step(a1, a12, o2, m2, h2, body2, ga2),
        entry_step(e0, b1, o2, m2, h2, body2, gb2),
        entry_step(b1, b12, o1, m1, h1, body1, gb1),
    ensures
        o1 != o2,
        a12 == b12,
        raw_assembled(a12) == raw_assembled(b12),
{
    lemma_step_parts(e0, a1, o1, m1, h1, body1, ga1);
    lemma_step_parts(a1, a12, o2, m2, h2, body2, ga2);
    lemma_step_parts(e0, b1, o2, m2, h2, body2, gb2);
    lemma_step_parts(b1, b12, o1, m1, h1, body1, gb1);
    lemma_wf_parts(e0);
    lemma_wf_parts(a1);
    lemma_wf_parts(a12);
    lemma_wf_parts(b1);
    lemma_wf_parts(b12);
    let end1 = frag_end(o1, body1.len() as int);
    let end2 = frag_end(o2, body2.len() as int);
    lemma_len_le_blocks(body1.len() as int);
    lemma_len_le_blocks(body2.len() as int);

    // The second fragment lands in a gap of the intermediate state, and
    // gap blocks are never covered; the first fragment's offset is
    // covered there, so the offsets differ.
    lemma_assoc_map_dom(a1.frags, o1);
    assert(assoc_map(a1.frags).contains_key(o1));
    let i = choose|i: int| 0 <= i < a1.frags.len() && (#[trigger] a1.frags[i]).0 == o1;
    assert(block_covered(a1.frags, o1 as int)) by {
        lemma_len_le_blocks(a1.frags[i].1.len() as int);
        assert(a1.frags[i].0 <= o1 as int <= frag_end(a1.frags[i].0, a1.frags[i].1.len() as int));
    }
    assert(block_in_gaps(a1.gaps, o2 as int)) by {
        let j = choose|j: int| 0 <= j < a1.gaps.len() && a1.gaps[j] == ga2;
        lemma_len_le_blocks(body2.len() as int);
        assert(a1.gaps[j].0 <= o2 as int <= a1.gaps[j].1);
    }
    assert(o1 != o2);

    // The recorded bindings commute, so the canonical record lists agree.
    assert(assoc_map(a12.frags) =~= assoc_map(b12.frags));
    lemma_frags_canonical(a12.frags, b12.frags);

    // The header comes from the offset-zero fragment, whichever it is.
    assert(a12.header == b12.header);
    assert(a12.total == b12.total);

    // The gaps agree too: the ranges the two fragments fill are disjoint,
    // since the gap the second landed in avoids everything the first
    // filled, so the two splits commute.
    if e0.gaps.contains(ga2) && ga2 != ga1 {
        lemma_gaps_disjoint_values(e0.gaps, ga2, ga1);
    }
    assert(end2 < o1 || end1 < o2);
    if ga1 == gb2 {
        if end1 < o2 {
            lemma_same_gap_commute(
                e0.gaps,
                a1.gaps,
                a12.gaps,
                b1.gaps,
                b12.gaps,
                ga1,
                ga2,
                gb1,
                o1,
                end1,
                m1,
                o2,
                end2,
                m2,
            );
        } else {
            lemma_same_gap_commute(
                e0.gaps,
                b1.gaps,
                b12.gaps,
                a1.gaps,
                a12.gaps,
                ga1,
                gb1,
                ga2,
                o2,
                end2,
                m2,
                o1,
                end1,
                m1,
            );
        }
    } else {
        lemma_diff_gap_commute(
            e0.gaps,
            a1.gaps,
            a12.gaps,
            b1.gaps,
            b12.gaps,
            ga1,
            ga2,
            gb2,
            gb1,
            o1,
            end1,
            m1,
            o2,
            end2,
            m2,
        );
    }
    lemma_gaps_canonical(a12.gaps, b12.gaps);
    assert(a12 =~= b12);
}


} // verus!
