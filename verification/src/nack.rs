//! Tracking of received sequence numbers, gap detection and the NACK packet
//! that asks for the missing ones.
use crate::clock::{micros_since, now};
use crate::le::{push_u32, read_u32_io};
use crate::protocol::u32_field;
use std::collections::HashSet;
use std::time::Instant;
use vstd::bytes::*;
use vstd::prelude::*;

verus! {

broadcast use vstd::std_specs::hash::group_hash_axioms;

/// NACKs are sent at most once per this many milliseconds.
pub const NACK_INTERVAL_MS: u64 = 5;

/// The NACK interval in microseconds.
pub const NACK_INTERVAL_MICROS: u128 = 5000;

/// Maximum gap tracked beyond the lowest pending sequence number.
pub const MAX_GAP: u32 = 1024;

/// The sequence numbers in `lo..=hi` that are not in `received`, in
/// increasing order.
pub open spec fn gaps(received: Set<u32>, lo: int, hi: int) -> Seq<u32>
    decreases hi - lo + 1,
{
    if hi < lo {
        Seq::empty()
    } else if received.contains(hi as u32) {
        gaps(received, lo, hi - 1)
    } else {
        gaps(received, lo, hi - 1).push(hi as u32)
    }
}

/// The first sequence number at or above `lo` that is not in `received`
/// (`u32::MAX + 1` when there is none).
pub open spec fn first_gap(received: Set<u32>, lo: int) -> int
    decreases u32::MAX + 1 - lo,
{
    if lo > u32::MAX || lo < 0 {
        lo
    } else if received.contains(lo as u32) {
        first_gap(received, lo + 1)
    } else {
        lo
    }
}

/// The little-endian encoding of each number of `s`, concatenated.
pub open spec fn u32_list_bytes(s: Seq<u32>) -> Seq<u8>
    decreases s.len(),
{
    if s.len() == 0 {
        Seq::empty()
    } else {
        u32_list_bytes(s.drop_last()) + spec_u32_to_le_bytes(s.last())
    }
}

/// A NACK packet: the count, then each missing sequence number.
pub open spec fn nack_bytes(s: Seq<u32>) -> Seq<u8> {
    spec_u32_to_le_bytes(s.len() as u32) + u32_list_bytes(s)
}

/// What a NACK packet decodes to: the count, then that many sequence
/// numbers; `None` when the packet ends before them.
pub open spec fn spec_parse_nack(data: Seq<u8>) -> Option<Seq<u32>> {
    if data.len() < 4 {
        None
    } else {
        let count = u32_field(data, 0);
        if (data.len() - 4) / 4 < count {
            None
        } else {
            Some(Seq::new(count as nat, |i: int| u32_field(data, 4 + 4 * i)))
        }
    }
}

/// Tracks received sequence numbers and detects gaps for NACK generation.
#[derive(Debug)]
pub struct NackTracker {
    /// Sequence numbers received and not yet passed by the watermark.
    received: HashSet<u32>,
    /// The highest sequence number seen.
    highest_seq: u32,
    /// The lowest sequence number still awaited.
    lowest_pending: u32,
    /// When the last NACK was built.
    last_nack_time: Instant,
    /// How often NACKs may be sent, in microseconds.
    nack_interval_micros: u128,
    /// Sequence numbers already NACKed.
    nacked: HashSet<u32>,
}

impl NackTracker {
    /// Received sequence numbers the watermark has not passed yet.
    pub closed spec fn received_set(self) -> Set<u32> {
        self.received@
    }

    /// Sequence numbers that have been NACKed and not yet passed.
    pub closed spec fn nacked_set(self) -> Set<u32> {
        self.nacked@
    }

    /// The highest sequence number seen.
    pub closed spec fn highest(self) -> u32 {
        self.highest_seq
    }

    /// The lowest sequence number still awaited.
    pub closed spec fn lowest(self) -> u32 {
        self.lowest_pending
    }

    /// The NACK interval, in microseconds.
    pub closed spec fn interval(self) -> u128 {
        self.nack_interval_micros
    }

    /// The last sequence number examined for gaps.
    pub open spec fn gap_limit(self) -> int {
        if self.highest() <= self.lowest() + MAX_GAP {
            self.highest() as int
        } else {
            self.lowest() + MAX_GAP
        }
    }

    /// The missing sequence numbers: those from the lowest pending one up to
    /// the highest seen (looking at most `MAX_GAP` beyond the lowest pending)
    /// that have not been received.
    pub open spec fn missing(self) -> Seq<u32> {
        gaps(self.received_set(), self.lowest() as int, self.gap_limit())
    }

    /// Looking for gaps does not overflow a `u32`.
    pub open spec fn gap_scan_fits(self) -> bool {
        self.lowest() + MAX_GAP <= u32::MAX
    }

    /// Recording `seq` would move the watermark past `u32::MAX`.
    pub open spec fn record_overflows(self, seq: u32) -> bool {
        first_gap(self.received_set().insert(seq), self.lowest() as int) > u32::MAX
    }

    /// The tracker reflects having recorded exactly the sequence numbers of
    /// `recorded`: the watermark is the least one never recorded, every
    /// number at or above it counts as received exactly when it was
    /// recorded, and none recorded exceeds the highest seen.
    pub open spec fn tracks(self, recorded: Set<u32>) -> bool {
        &&& forall|k: u32| k < self.lowest() ==> #[trigger] recorded.contains(k)
        &&& !recorded.contains(self.lowest())
        &&& forall|k: u32|
            k >= self.lowest() ==> (#[trigger] self.received_set().contains(k) <==> recorded.contains(k))
        &&& forall|k: u32| #[trigger] recorded.contains(k) ==> k <= self.highest()
    }

    /// A tracker that has seen nothing and waits for sequence number 0.
    pub fn new() -> (t: Self)
        ensures
            t.received_set() == Set::<u32>::empty(),
            t.nacked_set() == Set::<u32>::empty(),
            t.highest() == 0,
            t.lowest() == 0,
            t.interval() == NACK_INTERVAL_MICROS,
    {
        NackTracker {
            received: HashSet::with_capacity(2048),
            highest_seq: 0,
            lowest_pending: 0,
            last_nack_time: now(),
            nack_interval_micros: NACK_INTERVAL_MICROS,
            nacked: HashSet::with_capacity(256),
        }
    }

    /// Records that a packet with sequence number `seq` arrived, and advances
    /// the watermark past every sequence number received without a gap.
    pub fn record_received(&mut self, seq: u32)
        requires
            !old(self).record_overflows(seq),
        ensures
            ({
                let all = old(self).received_set().insert(seq);
                let lo = old(self).lowest() as int;
                let new_lo = first_gap(all, lo);
                &&& final(self).lowest() as int == new_lo
                &&& final(self).highest() == if seq > old(self).highest() {
                    seq
                } else {
                    old(self).highest()
                }
                &&& final(self).received_set() == all.filter(|k: u32| !(lo <= k < new_lo))
                &&& final(self).nacked_set() == old(self).nacked_set().filter(
                    |k: u32| !(lo <= k < new_lo),
                )
                &&& !final(self).received_set().contains(final(self).lowest())
                &&& forall|k: int| lo <= k < new_lo ==> #[trigger] all.contains(k as u32)
            }),
            final(self).interval() == old(self).interval(),
    {
        let ghost all = old(self).received@.insert(seq);
        let ghost lo = old(self).lowest_pending as int;
        self.received.insert(seq);
        if seq > self.highest_seq {
            self.highest_seq = seq;
        }
        proof {
            lemma_first_gap_bounds(all, lo);
        }
        while self.received.contains(&self.lowest_pending)
            invariant
                lo <= self.lowest_pending,
                first_gap(all, lo) <= u32::MAX,
                first_gap(all, self.lowest_pending as int) == first_gap(all, lo),
                forall|k: int| lo <= k < self.lowest_pending ==> #[trigger] all.contains(k as u32),
                self.received@ == all.filter(|k: u32| !(lo <= k < self.lowest_pending)),
                self.nacked@ == old(self).nacked@.filter(|k: u32| !(lo <= k < self.lowest_pending)),
                self.nack_interval_micros == old(self).nack_interval_micros,
                self.highest_seq == if seq > old(self).highest_seq {
                    seq
                } else {
                    old(self).highest_seq
                },
            decreases u32::MAX - self.lowest_pending,
        {
            let ghost cur = self.lowest_pending as int;
            assert(all.contains(cur as u32));
            assert(first_gap(all, cur) == first_gap(all, cur + 1));
            proof {
                lemma_first_gap_bounds(all, cur + 1);
            }
            let lp = self.lowest_pending;
            self.received.remove(&lp);
            self.nacked.remove(&lp);
            self.lowest_pending = lp + 1;
            assert(self.received@ =~= all.filter(|k: u32| !(lo <= k < self.lowest_pending)));
            assert(self.nacked@ =~= old(self).nacked@.filter(
                |k: u32| !(lo <= k < self.lowest_pending),
            ));
        }
        proof {
            let cur = self.lowest_pending as int;
            if all.contains(cur as u32) {
                assert(self.received@.contains(cur as u32));
            }
            assert(first_gap(all, cur) == cur);
        }
    }

    /// Whether [`NackTracker::record_received`] would run the watermark past
    /// `u32::MAX` on `seq`.
    pub fn record_would_overflow(&self, seq: u32) -> (r: bool)
        ensures
            r == self.record_overflows(seq),
    {
        let ghost all = self.received@.insert(seq);
        let ghost lo = self.lowest_pending as int;
        let mut k: u64 = self.lowest_pending as u64;
        proof {
            lemma_first_gap_bounds(all, lo);
        }
        while k <= u32::MAX as u64 && (k as u32 == seq || self.received.contains(&(k as u32)))
            invariant
                lo <= k <= u32::MAX + 1,
                all == self.received@.insert(seq),
                first_gap(all, k as int) == first_gap(all, lo),
            decreases u32::MAX + 1 - k,
        {
            k = k + 1;
        }
        k > u32::MAX as u64
    }

    /// The missing sequence numbers, in increasing order.
    pub fn get_missing(&self) -> (missing: Vec<u32>)
        requires
            self.gap_scan_fits(),
        ensures
            missing@ == self.missing(),
    {
        let mut missing: Vec<u32> = Vec::new();
        let limit = self.lowest_pending + MAX_GAP;
        let upper_bound = if self.highest_seq < limit {
            self.highest_seq
        } else {
            limit
        };
        let mut seq: u64 = self.lowest_pending as u64;
        while seq <= upper_bound as u64
            invariant
                self.lowest_pending <= seq,
                seq <= upper_bound as u64 + 1 || seq == self.lowest_pending as u64,
                upper_bound as int == self.gap_limit(),
                missing@ == gaps(self.received@, self.lowest_pending as int, seq - 1),
            decreases upper_bound as u64 + 1 - seq,
        {
            if !self.received.contains(&(seq as u32)) {
                missing.push(seq as u32);
            }
            seq = seq + 1;
        }
        assert(gaps(self.received@, self.lowest_pending as int, seq - 1) == gaps(
            self.received@,
            self.lowest_pending as int,
            upper_bound as int,
        ));
        missing
    }

    /// Whether a NACK is due after `elapsed_micros` microseconds since the
    /// last one: the interval has passed and some sequence number is missing.
    pub fn nack_due(&self, elapsed_micros: u128) -> (r: bool)
        requires
            elapsed_micros >= self.interval() ==> self.gap_scan_fits(),
        ensures
            r == (elapsed_micros >= self.interval() && self.missing().len() > 0),
    {
        elapsed_micros >= self.nack_interval_micros && self.get_missing().len() > 0
    }

    /// Whether enough time has passed since the last NACK and a sequence
    /// number is missing.
    pub fn should_send_nack(&self) -> (r: bool)
        requires
            self.gap_scan_fits(),
        ensures
            r ==> self.missing().len() > 0,
    {
        let elapsed = micros_since(&self.last_nack_time);
        self.nack_due(elapsed)
    }

    /// Builds the NACK packet listing the missing sequence numbers, records
    /// them as NACKed and restarts the NACK timer.
    ///
    /// Format: `[count: u32] [seq1: u32] [seq2: u32] ...`, little-endian.
    pub fn build_nack_packet(&mut self) -> (buf: Vec<u8>)
        requires
            old(self).gap_scan_fits(),
        ensures
            buf@ == nack_bytes(old(self).missing()),
            final(self).nacked_set() == old(self).nacked_set() + old(self).missing().to_set(),
            final(self).received_set() == old(self).received_set(),
            final(self).lowest() == old(self).lowest(),
            final(self).highest() == old(self).highest(),
            final(self).interval() == old(self).interval(),
    {
        let missing = self.get_missing();
        proof {
            lemma_gaps_len(self.received@, self.lowest_pending as int, self.gap_limit());
        }
        let mut buf: Vec<u8> = Vec::with_capacity(4 + missing.len() * 4);
        push_u32(&mut buf, missing.len() as u32);
        let ghost header = buf@;
        let mut i: usize = 0;
        while i < missing.len()
            invariant
                i <= missing@.len(),
                buf@ == header + u32_list_bytes(missing@.subrange(0, i as int)),
                self.nacked@ == old(self).nacked@ + missing@.subrange(0, i as int).to_set(),
                self.received@ == old(self).received@,
                self.lowest_pending == old(self).lowest_pending,
                self.highest_seq == old(self).highest_seq,
                self.nack_interval_micros == old(self).nack_interval_micros,
            decreases missing@.len() - i,
        {
            let seq = missing[i];
            push_u32(&mut buf, seq);
            self.nacked.insert(seq);
            proof {
                assert(missing@.subrange(0, i + 1).drop_last() =~= missing@.subrange(0, i as int));
                assert(missing@.subrange(0, i + 1) =~= missing@.subrange(0, i as int).push(seq));
                missing@.subrange(0, i as int).lemma_push_to_set_commute(seq);
                assert(self.nacked@ =~= old(self).nacked@ + missing@.subrange(0, i + 1).to_set());
            }
            i = i + 1;
        }
        assert(missing@.subrange(0, i as int) =~= missing@);
        self.last_nack_time = now();
        buf
    }

    /// Parses a received NACK packet into its list of sequence numbers. Fails
    /// with the I/O error of the first read that runs past the end of the
    /// packet: the count, or one of the numbers it announces.
    pub fn parse_nack_packet(data: &[u8]) -> (r: Result<Vec<u32>, std::io::Error>)
        ensures
            match r {
                Ok(v) => spec_parse_nack(data@) == Some(v@),
                Err(_) => spec_parse_nack(data@) is None,
            },
    {
        let count = match read_u32_io(data, 0) {
            Ok(c) => c,
            Err(e) => {
                return Err(e);
            },
        };
        let dlen = data.len();
        let avail = (dlen - 4) / 4;
        let cap = if (count as usize) < avail {
            count as usize
        } else {
            avail
        };
        let mut seqs: Vec<u32> = Vec::with_capacity(cap);
        let mut i: u32 = 0;
        while i < count
            invariant
                i <= count,
                count == u32_field(data@, 0),
                dlen == data@.len(),
                dlen >= 4,
                avail == (dlen - 4) / 4,
                i <= avail,
                seqs@.len() == i,
                forall|j: int| 0 <= j < i ==> #[trigger] seqs@[j] == u32_field(data@, 4 + 4 * j),
            decreases count - i,
        {
            let pos = 4 + 4 * (i as usize);
            match read_u32_io(data, pos) {
                Ok(v) => {
                    seqs.push(v);
                },
                Err(e) => {
                    return Err(e);
                },
            }
            i = i + 1;
        }
        assert(seqs@ =~= Seq::new(count as nat, |j: int| u32_field(data@, 4 + 4 * j)));
        Ok(seqs)
    }

    /// Number of sequence numbers currently missing.
    pub fn missing_count(&self) -> (n: usize)
        requires
            self.gap_scan_fits(),
        ensures
            n == self.missing().len(),
    {
        self.get_missing().len()
    }

    /// `(lowest_pending, highest_seen)`, for diagnostics.
    pub fn window(&self) -> (w: (u32, u32))
        ensures
            w == (self.lowest(), self.highest()),
    {
        (self.lowest_pending, self.highest_seq)
    }
}

impl Default for NackTracker {
    fn default() -> (t: Self)
        ensures
            t.received_set() == Set::<u32>::empty(),
            t.nacked_set() == Set::<u32>::empty(),
            t.highest() == 0,
            t.lowest() == 0,
            t.interval() == NACK_INTERVAL_MICROS,
    {
        Self::new()
    }
}

/// A new tracker has recorded nothing.
pub proof fn lemma_new_tracks_nothing(t: NackTracker)
    requires
        t.received_set() == Set::<u32>::empty(),
        t.highest() == 0,
        t.lowest() == 0,
    ensures
        t.tracks(Set::<u32>::empty()),
{
}

/// The watermark is the least sequence number never recorded, over any
/// series of calls: recording `seq` on a tracker that reflects the numbers
/// `recorded` gives one that reflects `recorded` with `seq`, its highest
/// number is the larger of the old highest and `seq`, and recording a number
/// already recorded changes neither the watermark, the highest number nor
/// the missing list.
pub proof fn lemma_record_keeps_tracking(
    before: NackTracker,
    after: NackTracker,
    recorded: Set<u32>,
    seq: u32,
)
    requires
        before.tracks(recorded),
        !before.record_overflows(seq),
        ({
            let all = before.received_set().insert(seq);
            let lo = before.lowest() as int;
            let new_lo = first_gap(all, lo);
            &&& after.lowest() as int == new_lo
            &&& after.highest() == if seq > before.highest() {
                seq
            } else {
                before.highest()
            }
            &&& after.received_set() == all.filter(|k: u32| !(lo <= k < new_lo))
            &&& !after.received_set().contains(after.lowest())
            &&& forall|k: int| lo <= k < new_lo ==> #[trigger] all.contains(k as u32)
        }),
    ensures
        after.tracks(recorded.insert(seq)),
        recorded.contains(seq) ==> {
            &&& after.lowest() == before.lowest()
            &&& after.highest() == before.highest()
            &&& after.missing() == before.missing()
        },
{
    let all = before.received_set().insert(seq);
    let lo = before.lowest() as int;
    let r2 = recorded.insert(seq);
    lemma_first_gap_bounds(all, lo);
    assert forall|k: u32| k < after.lowest() implies #[trigger] r2.contains(k) by {
        if k >= before.lowest() {
            assert(all.contains(k as int as u32));
        }
    }
    assert forall|k: u32| k >= after.lowest() implies (#[trigger] after.received_set().contains(k)
        <==> r2.contains(k)) by {
        assert(after.received_set().contains(k) == all.contains(k));
    }
    assert(!r2.contains(after.lowest())) by {
        assert(after.received_set().contains(after.lowest()) == all.contains(after.lowest()));
    }
    if recorded.contains(seq) {
        assert(before.received_set().contains(before.lowest()) == false);
        assert(!all.contains(before.lowest()));
        assert(after.lowest() == before.lowest());
        lemma_gaps_agree(after.received_set(), before.received_set(), lo, after.gap_limit());
    }
}

/// The gaps of a range depend only on which numbers of the range were
/// received.
proof fn lemma_gaps_agree(a: Set<u32>, b: Set<u32>, lo: int, hi: int)
    requires
        0 <= lo,
        hi <= u32::MAX,
        forall|k: u32| lo <= k <= hi ==> (#[trigger] a.contains(k) <==> b.contains(k)),
    ensures
        gaps(a, lo, hi) == gaps(b, lo, hi),
    decreases hi - lo + 1,
{
    if hi >= lo {
        lemma_gaps_agree(a, b, lo, hi - 1);
        assert(a.contains(hi as u32) == b.contains(hi as u32));
    }
}

/// The watermark stops at the first sequence number not received: when `k`
/// (at or above `lo`) is missing from `received`, the first gap is at most `k`.
pub proof fn lemma_first_gap_at_most(received: Set<u32>, lo: int, k: u32)
    requires
        0 <= lo <= k,
        !received.contains(k),
    ensures
        lo <= first_gap(received, lo) <= k,
    decreases k - lo,
{
    lemma_first_gap_bounds(received, lo);
    if lo < k && received.contains(lo as u32) {
        lemma_first_gap_at_most(received, lo + 1, k);
    }
}

proof fn lemma_first_gap_bounds(received: Set<u32>, lo: int)
    requires
        0 <= lo,
    ensures
        lo <= first_gap(received, lo),
        lo <= u32::MAX && !received.contains(lo as u32) ==> first_gap(received, lo) == lo,
        lo <= u32::MAX && received.contains(lo as u32) ==> first_gap(received, lo) == first_gap(
            received,
            lo + 1,
        ),
    decreases u32::MAX + 1 - lo,
{
    if lo <= u32::MAX && received.contains(lo as u32) {
        lemma_first_gap_bounds(received, lo + 1);
    }
}

/// At most one number per step of the range is missing.
proof fn lemma_gaps_len(received: Set<u32>, lo: int, hi: int)
    ensures
        gaps(received, lo, hi).len() <= if hi < lo {
            0
        } else {
            hi - lo + 1
        },
    decreases hi - lo + 1,
{
    if hi >= lo {
        lemma_gaps_len(received, lo, hi - 1);
    }
}

/// The missing list holds exactly the numbers of the range that were not
/// received, each once and in increasing order.
pub proof fn lemma_gaps(received: Set<u32>, lo: int, hi: int)
    requires
        0 <= lo,
        hi <= u32::MAX,
    ensures
        forall|k: u32| #[trigger]
            gaps(received, lo, hi).contains(k) <==> (lo <= k <= hi && !received.contains(k)),
        forall|i: int, j: int|
            0 <= i < j < gaps(received, lo, hi).len() ==> gaps(received, lo, hi)[i] < gaps(
                received,
                lo,
                hi,
            )[j],
        forall|i: int|
            0 <= i < gaps(received, lo, hi).len() ==> lo <= #[trigger] gaps(received, lo, hi)[i]
                <= hi,
    decreases hi - lo + 1,
{
    if hi >= lo {
        lemma_gaps(received, lo, hi - 1);
        let g = gaps(received, lo, hi - 1);
        assert forall|k: u32| #[trigger]
            gaps(received, lo, hi).contains(k) <==> (lo <= k <= hi && !received.contains(k)) by {
            assert(g.contains(k) <==> (lo <= k <= hi - 1 && !received.contains(k)));
            if !received.contains(hi as u32) {
                let gg = g.push(hi as u32);
                assert(gaps(received, lo, hi) == gg);
                if gg.contains(k) && k != hi as u32 {
                    let idx = choose|idx: int| 0 <= idx < gg.len() && gg[idx] == k;
                    assert(g[idx] == k);
                }
                if g.contains(k) {
                    let idx = choose|idx: int| 0 <= idx < g.len() && g[idx] == k;
                    assert(gg[idx] == k);
                }
                if k == hi {
                    assert(gg[g.len() as int] == k);
                }
            }
        }
    }
}

/// A NACK packet decodes to the list it was built from.
pub proof fn lemma_nack_roundtrip(s: Seq<u32>)
    requires
        s.len() <= u32::MAX,
    ensures
        spec_parse_nack(nack_bytes(s)) == Some(s),
{
    lemma_auto_spec_u32_to_from_le_bytes();
    lemma_u32_list_bytes(s);
    let data = nack_bytes(s);
    assert(data.subrange(0, 4) =~= spec_u32_to_le_bytes(s.len() as u32));
    assert(u32_field(data, 0) == s.len() as u32);
    assert forall|i: int| 0 <= i < s.len() implies #[trigger] u32_field(data, 4 + 4 * i) == s[i] by {
        assert(data.subrange(4 + 4 * i, 4 + 4 * i + 4) =~= u32_list_bytes(s).subrange(
            4 * i,
            4 * i + 4,
        ));
    }
    assert(Seq::new(s.len(), |i: int| u32_field(data, 4 + 4 * i)) =~= s);
}

/// The encoding of a list has four bytes per number, each number at its place.
proof fn lemma_u32_list_bytes(s: Seq<u32>)
    ensures
        u32_list_bytes(s).len() == 4 * s.len(),
        forall|i: int|
            0 <= i < s.len() ==> #[trigger] u32_list_bytes(s).subrange(4 * i, 4 * i + 4)
                == spec_u32_to_le_bytes(s[i]),
    decreases s.len(),
{
    lemma_auto_spec_u32_to_from_le_bytes();
    if s.len() > 0 {
        let p = s.drop_last();
        lemma_u32_list_bytes(p);
        let b = u32_list_bytes(s);
        assert forall|i: int| 0 <= i < s.len() implies #[trigger] b.subrange(4 * i, 4 * i + 4)
            == spec_u32_to_le_bytes(s[i]) by {
            if i < p.len() {
                assert(b.subrange(4 * i, 4 * i + 4) =~= u32_list_bytes(p).subrange(4 * i, 4 * i + 4));
                assert(p[i] == s[i]);
            } else {
                assert(b.subrange(4 * i, 4 * i + 4) =~= spec_u32_to_le_bytes(s.last()));
            }
        }
    }
}

} // verus!
