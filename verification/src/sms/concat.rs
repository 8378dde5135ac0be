//! Concatenated SMS reassembly.
//!
//! Maintains an in-flight table of partial multi-part messages.
//! When all parts arrive, the group is assembled and returned.
//!
//! Group ages are measured in nanoseconds on a monotonic clock started with the
//! reassembler; `feed_at` takes the current reading, `feed` reads the clock itself.

use super::codec::{SmsPdu, SpecSmsPdu};
use crate::strutil::{str_eq, to_owned_string};
use vstd::prelude::*;

verus! {

/// The monotonic clock of the standard library.
#[verifier::external_type_specification]
#[verifier::external_body]
pub struct ExInstant(std::time::Instant);

/// Starts a monotonic clock (`Instant::now`).
#[verifier::external_body]
pub(crate) fn clock_start() -> (r: std::time::Instant) {
    std::time::Instant::now()
}

/// Time elapsed on the monotonic clock since `start` (`Instant::elapsed`). Nothing is
/// stated of the reading: it is the time.
#[verifier::external_body]
pub(crate) fn elapsed_since(start: &std::time::Instant) -> (r: core::time::Duration) {
    start.elapsed()
}

/// Length of a duration in nanoseconds (`Duration::as_nanos`). Nothing is stated of it:
/// it only measures waits.
#[verifier::external_body]
pub(crate) fn duration_as_nanos(d: core::time::Duration) -> (r: u128) {
    d.as_nanos()
}

/// `n` as a `u64`, saturated.
pub fn saturate_u64(n: u128) -> (r: u64)
    ensures
        r == (if n > 0xFFFF_FFFF_FFFF_FFFFu128 { 0xFFFF_FFFF_FFFF_FFFFu64 } else { n as u64 }),
{
    if n > 0xFFFF_FFFF_FFFF_FFFFu128 {
        0xFFFF_FFFF_FFFF_FFFFu64
    } else {
        n as u64
    }
}

/// Nanoseconds elapsed on the monotonic clock since `start`, saturated to `u64`.
pub(crate) fn nanos_since(start: &std::time::Instant) -> (r: u64) {
    saturate_u64(duration_as_nanos(elapsed_since(start)))
}

/// Maximum in-flight concatenation groups at once.
pub const MAX_GROUPS: usize = 8;

/// How long to keep an incomplete group before discarding it (24 h, in nanoseconds).
pub const GROUP_TTL_NANOS: u64 = 86_400_000_000_000;

/// An in-progress multi-part SMS.
struct Group {
    sender: String,
    ref_num: u16,
    total: u8,
    parts: Vec<Option<String>>,
    received: usize,
    first_seen: u64,
    timestamp: String,
}

/// Mathematical model of an in-progress multi-part SMS.
pub struct SpecGroup {
    pub sender: Seq<char>,
    pub ref_num: u16,
    pub total: u8,
    pub parts: Seq<Option<Seq<char>>>,
    pub received: int,
    pub first_seen: u64,
    pub timestamp: Seq<char>,
}

/// The model of an optional part.
pub open spec fn part_view(p: Option<String>) -> Option<Seq<char>> {
    match p {
        Some(s) => Some(s@),
        None => None,
    }
}

impl View for Group {
    type V = SpecGroup;

    closed spec fn view(&self) -> SpecGroup {
        SpecGroup {
            sender: self.sender@,
            ref_num: self.ref_num,
            total: self.total,
            parts: self.parts@.map_values(|p: Option<String>| part_view(p)),
            received: self.received as int,
            first_seen: self.first_seen,
            timestamp: self.timestamp@,
        }
    }
}

/// Number of filled parts.
pub open spec fn filled_count(parts: Seq<Option<Seq<char>>>) -> int
    decreases parts.len(),
{
    if parts.len() == 0 {
        0
    } else {
        filled_count(parts.drop_last()) + if parts.last() is Some { 1int } else { 0int }
    }
}

/// A group's part table has one slot per part and counts its filled slots.
pub open spec fn group_wf(g: SpecGroup) -> bool {
    g.parts.len() == g.total && g.received == filled_count(g.parts)
}

/// The parts received so far, concatenated in part order.
pub open spec fn assemble_parts(parts: Seq<Option<Seq<char>>>) -> Seq<char>
    decreases parts.len(),
{
    if parts.len() == 0 {
        Seq::empty()
    } else {
        assemble_parts(parts.drop_last()) + match parts.last() {
            Some(s) => s,
            None => Seq::empty(),
        }
    }
}

/// A fresh group for the first part seen.
pub open spec fn new_group(sender: Seq<char>, ref_num: u16, total: u8, timestamp: Seq<char>, now: u64) -> SpecGroup {
    SpecGroup {
        sender,
        ref_num,
        total,
        parts: Seq::new(total as nat, |i: int| None),
        received: 0,
        first_seen: now,
        timestamp,
    }
}

/// The group after part `part_num` arrives: stored when its slot is empty; a repeated
/// part is ignored.
pub open spec fn group_insert(g: SpecGroup, part_num: u8, content: Seq<char>) -> SpecGroup {
    let idx = if part_num == 0 { 0int } else { part_num - 1 };
    if idx >= g.parts.len() || g.parts[idx] is Some {
        g
    } else {
        SpecGroup { parts: g.parts.update(idx, Some(content)), received: g.received + 1, ..g }
    }
}

/// A group is expired once older than the time-to-live.
pub open spec fn is_expired(g: SpecGroup, now: u64) -> bool {
    now - g.first_seen > GROUP_TTL_NANOS
}

proof fn lemma_filled_update(parts: Seq<Option<Seq<char>>>, idx: int, v: Seq<char>)
    requires
        0 <= idx < parts.len(),
        parts[idx] is None,
    ensures
        filled_count(parts.update(idx, Some(v))) == filled_count(parts) + 1,
    decreases parts.len(),
{
    let u = parts.update(idx, Some(v));
    if idx < parts.len() - 1 {
        assert(u.drop_last() =~= parts.drop_last().update(idx, Some(v)));
        lemma_filled_update(parts.drop_last(), idx, v);
    } else {
        assert(u.drop_last() =~= parts.drop_last());
    }
}

proof fn lemma_filled_bound(parts: Seq<Option<Seq<char>>>)
    ensures
        0 <= filled_count(parts) <= parts.len(),
    decreases parts.len(),
{
    if parts.len() > 0 {
        lemma_filled_bound(parts.drop_last());
    }
}

proof fn lemma_filled_none(n: nat)
    ensures
        filled_count(Seq::new(n, |i: int| None::<Seq<char>>)) == 0,
    decreases n,
{
    if n > 0 {
        let s = Seq::new(n, |i: int| None::<Seq<char>>);
        assert(s.drop_last() =~= Seq::new((n - 1) as nat, |i: int| None::<Seq<char>>));
        lemma_filled_none((n - 1) as nat);
    }
}

impl Group {
    fn new(sender: &str, ref_num: u16, total: u8, timestamp: &str, now: u64) -> (g: Group)
        ensures
            g@ == new_group(sender@, ref_num, total, timestamp@, now),
            group_wf(g@),
    {
        let mut parts: Vec<Option<String>> = Vec::new();
        let mut i: u8 = 0;
        while i < total
            invariant
                i <= total,
                parts@.map_values(|p: Option<String>| part_view(p)) == Seq::new(i as nat, |k: int| None::<Seq<char>>),
            decreases total - i,
        {
            let ghost before = parts@.map_values(|p: Option<String>| part_view(p));
            parts.push(None);
            assert(parts@.map_values(|p: Option<String>| part_view(p)) =~= before.push(part_view(None::<String>)));
            assert(part_view(None::<String>) == None::<Seq<char>>);
            i = i + 1;
            assert(parts@.map_values(|p: Option<String>| part_view(p)) =~= Seq::new(i as nat, |k: int| None::<Seq<char>>));
        }
        proof {
            lemma_filled_none(total as nat);
        }
        let g = Group {
            sender: to_owned_string(sender),
            ref_num,
            total,
            parts,
            received: 0,
            first_seen: now,
            timestamp: to_owned_string(timestamp),
        };
        assert(g@.parts =~= Seq::new(total as nat, |k: int| None::<Seq<char>>));
        g
    }

    fn insert(&mut self, part_num: u8, content: String) -> (complete: bool)
        requires
            group_wf(old(self)@),
        ensures
            final(self)@ == group_insert(old(self)@, part_num, content@),
            group_wf(final(self)@),
            complete == (final(self)@.received == final(self)@.total),
    {
        let idx: usize = if part_num == 0 { 0 } else { (part_num - 1) as usize };
        let ghost pv = self.parts@.map_values(|p: Option<String>| part_view(p));
        if idx >= self.parts.len() {
            return self.received == self.total as usize;
        }
        assert(pv[idx as int] == part_view(self.parts@[idx as int]));
        if self.parts[idx].is_none() {
            proof {
                lemma_filled_update(pv, idx as int, content@);
                lemma_filled_bound(pv);
            }
            self.parts.set(idx, Some(content));
            self.received = self.received + 1;
            assert(self.parts@.map_values(|p: Option<String>| part_view(p)) =~= pv.update(
                idx as int,
                Some(self.parts@[idx as int]->0@),
            ));
        }
        self.received == self.total as usize
    }

    fn assemble(&self) -> (s: String)
        ensures
            s@ == assemble_parts(self@.parts),
    {
        let ghost pv = self.parts@.map_values(|p: Option<String>| part_view(p));
        let mut out = crate::strutil::new_string();
        let mut i: usize = 0;
        while i < self.parts.len()
            invariant
                i <= self.parts@.len(),
                pv == self.parts@.map_values(|p: Option<String>| part_view(p)),
                out@ == assemble_parts(pv.take(i as int)),
            decreases self.parts@.len() - i,
        {
            assert(pv[i as int] == part_view(self.parts@[i as int]));
            match &self.parts[i] {
                Some(p) => crate::strutil::push_str(&mut out, p.as_str()),
                None => {},
            }
            i = i + 1;
            assert(pv.take(i as int).drop_last() =~= pv.take(i - 1));
            assert(out@ =~= assemble_parts(pv.take(i as int)));
        }
        assert(pv.take(self.parts@.len() as int) =~= pv);
        out
    }
}

/// Completed message assembled from concatenated SMS parts.
#[derive(Debug)]
pub struct CompletedSms {
    pub sender: String,
    pub content: String,
    pub timestamp: String,
}

/// Mathematical model of a completed message.
pub struct SpecCompletedSms {
    pub sender: Seq<char>,
    pub content: Seq<char>,
    pub timestamp: Seq<char>,
}

impl View for CompletedSms {
    type V = SpecCompletedSms;

    open spec fn view(&self) -> SpecCompletedSms {
        SpecCompletedSms { sender: self.sender@, content: self.content@, timestamp: self.timestamp@ }
    }
}

/// Groups that are not expired, in order.
pub open spec fn retain_fresh(gs: Seq<SpecGroup>, now: u64) -> Seq<SpecGroup>
    decreases gs.len(),
{
    if gs.len() == 0 {
        Seq::empty()
    } else if is_expired(gs.last(), now) {
        retain_fresh(gs.drop_last(), now)
    } else {
        retain_fresh(gs.drop_last(), now).push(gs.last())
    }
}

/// Index of the first group of the message (same sender, reference and total), or -1.
pub open spec fn find_group(gs: Seq<SpecGroup>, sender: Seq<char>, ref_num: u16, total: u8, from: int) -> int
    decreases gs.len() - from,
{
    if from < 0 || from >= gs.len() {
        -1
    } else if gs[from].sender == sender && gs[from].ref_num == ref_num && gs[from].total == total {
        from
    } else {
        find_group(gs, sender, ref_num, total, from + 1)
    }
}

/// Index of the oldest group; the first one among equally old ones.
pub open spec fn oldest_group(gs: Seq<SpecGroup>) -> int
    decreases gs.len(),
{
    if gs.len() <= 1 {
        0
    } else {
        let p = oldest_group(gs.drop_last());
        if gs.last().first_seen < gs[p].first_seen { gs.len() - 1 } else { p }
    }
}

/// A PDU that claims to be part of a concatenated message but whose part numbers are
/// impossible.
pub open spec fn malformed_concat(pdu: SpecSmsPdu) -> bool {
    pdu.concat_total == 0 || pdu.concat_part == 0 || pdu.concat_part > pdu.concat_total
}

/// The table after expiry, lookup and (when needed) eviction and creation, and the index
/// of the message's group in it.
pub open spec fn table_with_group(gs: Seq<SpecGroup>, pdu: SpecSmsPdu, now: u64) -> (Seq<SpecGroup>, int) {
    let fresh = retain_fresh(gs, now);
    let i = find_group(fresh, pdu.sender, pdu.concat_ref, pdu.concat_total, 0);
    if i >= 0 {
        (fresh, i)
    } else {
        let room = if fresh.len() >= MAX_GROUPS { fresh.remove(oldest_group(fresh)) } else { fresh };
        (room.push(new_group(pdu.sender, pdu.concat_ref, pdu.concat_total, pdu.timestamp, now)), room.len() as int)
    }
}

/// One step of the reassembler: the new group table and the completed message, if the
/// PDU completed one.
pub open spec fn spec_feed(gs: Seq<SpecGroup>, pdu: SpecSmsPdu, now: u64) -> (Seq<SpecGroup>, Option<SpecCompletedSms>) {
    if !pdu.is_concatenated || malformed_concat(pdu) {
        (gs, None)
    } else {
        let (t, i) = table_with_group(gs, pdu, now);
        let g = group_insert(t[i], pdu.concat_part, pdu.content);
        if g.received == g.total {
            (t.remove(i), Some(SpecCompletedSms { sender: g.sender, content: assemble_parts(g.parts), timestamp: g.timestamp }))
        } else {
            (t.update(i, g), None)
        }
    }
}

/// Manages in-flight concatenated SMS groups.
pub struct ConcatReassembler {
    groups: Vec<Group>,
    epoch: std::time::Instant,
}

impl ConcatReassembler {
    /// The in-flight groups.
    pub closed spec fn table(&self) -> Seq<SpecGroup> {
        self.groups@.map_values(|g: Group| g@)
    }

    /// Every group is well formed and the table is within capacity.
    pub closed spec fn wf(&self) -> bool {
        &&& forall|i: int| 0 <= i < self.groups@.len() ==> group_wf(#[trigger] self.groups@[i]@)
        &&& self.groups@.len() <= MAX_GROUPS
    }

    /// An empty reassembler.
    pub fn new() -> (r: Self)
        ensures
            r.wf(),
            r.table() == Seq::<SpecGroup>::empty(),
    {
        let r = ConcatReassembler { groups: Vec::new(), epoch: clock_start() };
        assert(r.table() =~= Seq::<SpecGroup>::empty());
        r
    }

    fn drop_expired(&mut self, now: u64)
        requires
            old(self).wf(),
        ensures
            final(self).wf(),
            final(self).table() == retain_fresh(old(self).table(), now),
            final(self).epoch == old(self).epoch,
    {
        let mut rest: Vec<Group> = Vec::new();
        std::mem::swap(&mut rest, &mut self.groups);
        let ghost orig = rest@.map_values(|g: Group| g@);
        let ghost orig_groups = rest@;
        let ghost n = orig.len();
        let mut k: usize = 0;
        assert(orig.take(0) =~= Seq::<SpecGroup>::empty());
        assert(self.groups@.map_values(|g: Group| g@) =~= Seq::<SpecGroup>::empty());
        while rest.len() > 0
            invariant
                k <= n,
                n == orig.len(),
                n <= MAX_GROUPS,
                orig == orig_groups.map_values(|g: Group| g@),
                rest@ == orig_groups.skip(k as int),
                forall|i: int| 0 <= i < orig_groups.len() ==> group_wf(#[trigger] orig_groups[i]@),
                forall|i: int| 0 <= i < self.groups@.len() ==> group_wf(#[trigger] self.groups@[i]@),
                self.groups@.len() <= k,
                self.groups@.map_values(|g: Group| g@) == retain_fresh(orig.take(k as int), now),
                self.epoch == old(self).epoch,
            decreases rest@.len(),
        {
            let g = rest.remove(0);
            assert(g == orig_groups[k as int]);
            let ghost before = self.groups@.map_values(|g: Group| g@);
            let expired = now > g.first_seen && now - g.first_seen > GROUP_TTL_NANOS;
            assert(orig.take(k + 1).drop_last() =~= orig.take(k as int));
            assert(orig.take(k + 1).last() == g@);
            if !expired {
                self.groups.push(g);
                assert(self.groups@.map_values(|g: Group| g@) =~= before.push(g@));
            }
            k = k + 1;
            assert(rest@ =~= orig_groups.skip(k as int));
        }
        assert(k == n);
        assert(orig.take(n as int) =~= orig);
    }

    fn find_group_index(&self, sender: &str, ref_num: u16, total: u8) -> (r: Option<usize>)
        ensures
            match r {
                Some(i) => i as int == find_group(self.table(), sender@, ref_num, total, 0) && i < self.table().len(),
                None => find_group(self.table(), sender@, ref_num, total, 0) == -1,
            },
    {
        let ghost t = self.table();
        let mut i: usize = 0;
        while i < self.groups.len()
            invariant
                i <= self.groups@.len(),
                t == self.table(),
                find_group(t, sender@, ref_num, total, 0) == find_group(t, sender@, ref_num, total, i as int),
            decreases self.groups@.len() - i,
        {
            assert(t[i as int] == self.groups@[i as int]@);
            if str_eq(self.groups[i].sender.as_str(), sender) && self.groups[i].ref_num == ref_num
                && self.groups[i].total == total {
                return Some(i);
            }
            i = i + 1;
        }
        None
    }

    fn oldest_index(&self) -> (r: usize)
        requires
            self.table().len() > 0,
        ensures
            r as int == oldest_group(self.table()),
            r < self.table().len(),
    {
        let ghost t = self.table();
        let mut best: usize = 0;
        let mut i: usize = 1;
        assert(t.take(1).len() == 1);
        while i < self.groups.len()
            invariant
                1 <= i <= self.groups@.len(),
                t == self.table(),
                best < i,
                best as int == oldest_group(t.take(i as int)),
            decreases self.groups@.len() - i,
        {
            assert(t[i as int] == self.groups@[i as int]@);
            assert(t[best as int] == self.groups@[best as int]@);
            assert(t.take(i + 1).drop_last() =~= t.take(i as int));
            assert(t.take(i as int)[best as int] == t[best as int]);
            if self.groups[i].first_seen < self.groups[best].first_seen {
                best = i;
            }
            i = i + 1;
        }
        assert(t.take(self.groups@.len() as int) =~= t);
        best
    }

    /// Feed a parsed PDU received at `now` (nanoseconds on the reassembler's clock).
    /// Returns the completed message when all parts have arrived.
    pub fn feed_at(&mut self, pdu: &SmsPdu, now: u64) -> (r: Option<CompletedSms>)
        requires
            old(self).wf(),
        ensures
            final(self).wf(),
            final(self).table().len() <= MAX_GROUPS,
            spec_feed(old(self).table(), pdu@, now).0 == final(self).table(),
            match spec_feed(old(self).table(), pdu@, now).1 {
                Some(c) => r matches Some(x) && x@ == c,
                None => r is None,
            },
    {
        if !pdu.is_concatenated {
            return None;
        }
        if pdu.concat_total == 0 || pdu.concat_part == 0 || pdu.concat_part > pdu.concat_total {
            return None;
        }
        self.drop_expired(now);
        let ghost fresh = self.table();
        let idx = match self.find_group_index(pdu.sender.as_str(), pdu.concat_ref, pdu.concat_total) {
            Some(i) => i,
            None => {
                if self.groups.len() >= MAX_GROUPS {
                    let oldest = self.oldest_index();
                    let ghost before = self.groups@;
                    self.groups.remove(oldest);
                    assert(self.table() =~= fresh.remove(oldest as int));
                }
                let ghost room = self.table();
                let g = Group::new(
                    pdu.sender.as_str(),
                    pdu.concat_ref,
                    pdu.concat_total,
                    pdu.timestamp.as_str(),
                    now,
                );
                self.groups.push(g);
                assert(self.table() =~= room.push(new_group(pdu@.sender, pdu.concat_ref, pdu.concat_total, pdu@.timestamp, now)));
                self.groups.len() - 1
            },
        };
        let ghost t = self.table();
        assert(t == table_with_group(old(self).table(), pdu@, now).0);
        let mut g = self.groups.remove(idx);
        assert(g@ == t[idx as int]);
        let complete = g.insert(pdu.concat_part, pdu.content.clone());
        if complete {
            let content = g.assemble();
            assert(self.table() =~= t.remove(idx as int));
            Some(CompletedSms { sender: g.sender, content, timestamp: g.timestamp })
        } else {
            self.groups.insert(idx, g);
            assert(self.table() =~= t.update(idx as int, g@));
            None
        }
    }

    /// Feed a parsed PDU, reading the clock. Returns the completed message when all parts
    /// have arrived.
    pub fn feed(&mut self, pdu: &SmsPdu) -> (r: Option<CompletedSms>)
        requires
            old(self).wf(),
        ensures
            final(self).wf(),
            final(self).table().len() <= MAX_GROUPS,
            exists|now: u64| {
                &&& #[trigger] spec_feed(old(self).table(), pdu@, now).0 == final(self).table()
                &&& match spec_feed(old(self).table(), pdu@, now).1 {
                    Some(c) => r matches Some(x) && x@ == c,
                    None => r is None,
                }
            },
    {
        let now = nanos_since(&self.epoch);
        self.feed_at(pdu, now)
    }

    /// Number of in-progress groups.
    pub fn group_count(&self) -> (n: usize)
        ensures
            n == self.table().len(),
    {
        self.groups.len()
    }
}

impl Default for ConcatReassembler {
    fn default() -> (r: Self)
        ensures
            r.wf(),
            r.table() == Seq::<SpecGroup>::empty(),
    {
        Self::new()
    }
}

/// The total length of the texts of the first `k` parts (missing parts count as empty).
pub open spec fn text_len_before(parts: Seq<Option<Seq<char>>>, k: int) -> int
    decreases k,
{
    if k <= 0 {
        0
    } else {
        text_len_before(parts, k - 1) + match parts[k - 1] {
            Some(s) => s.len() as int,
            None => 0int,
        }
    }
}

proof fn lemma_text_len_prefix(parts: Seq<Option<Seq<char>>>, k: int)
    requires
        0 <= k <= parts.len() - 1,
    ensures
        text_len_before(parts.drop_last(), k) == text_len_before(parts, k),
        0 <= text_len_before(parts, k),
    decreases k,
{
    if k > 0 {
        lemma_text_len_prefix(parts, k - 1);
        assert(parts.drop_last()[k - 1] == parts[k - 1]);
    }
}

/// Parts are joined in part order: the joined text is as long as all parts together,
/// and part `k` (0-based) stands at the offset given by the parts before it, so part 1
/// comes first and part `total` last.
pub proof fn lemma_assemble_in_part_order(parts: Seq<Option<Seq<char>>>)
    ensures
        assemble_parts(parts).len() == text_len_before(parts, parts.len() as int),
        forall|k: int|
            0 <= k < parts.len() && #[trigger] parts[k] is Some ==> assemble_parts(parts).subrange(
                text_len_before(parts, k),
                text_len_before(parts, k) + parts[k]->0.len(),
            ) == parts[k]->0,
    decreases parts.len(),
{
    if parts.len() > 0 {
        let q = parts.drop_last();
        let n = parts.len() - 1;
        lemma_assemble_in_part_order(q);
        lemma_text_len_prefix(parts, n);
        let a = assemble_parts(q);
        let last = match parts.last() {
            Some(s) => s,
            None => Seq::<char>::empty(),
        };
        assert(assemble_parts(parts) == a + last);
        assert(parts[n] == parts.last());
        assert forall|k: int|
            0 <= k < parts.len() && #[trigger] parts[k] is Some implies assemble_parts(parts).subrange(
                text_len_before(parts, k),
                text_len_before(parts, k) + parts[k]->0.len(),
            ) == parts[k]->0 by {
            if k < n {
                lemma_text_len_prefix(parts, k);
                assert(q[k] == parts[k]);
                lemma_text_len_before_mono(q, k + 1, n);
                assert((a + last).subrange(text_len_before(q, k), text_len_before(q, k) + q[k]->0.len()) =~= a.subrange(
                    text_len_before(q, k),
                    text_len_before(q, k) + q[k]->0.len(),
                ));
            } else {
                assert((a + last).subrange(a.len() as int, (a.len() + last.len()) as int) =~= last);
            }
        }
    }
}

proof fn lemma_text_len_before_mono(parts: Seq<Option<Seq<char>>>, i: int, j: int)
    requires
        0 <= i <= j <= parts.len(),
    ensures
        text_len_before(parts, i) <= text_len_before(parts, j),
    decreases j - i,
{
    if i < j {
        lemma_text_len_before_mono(parts, i, j - 1);
    }
}

/// A completed message is its parts in part order: when the last missing part of a
/// group arrives, the completed text holds part 1's text at its start, and each part
/// `k`'s text right after the texts of parts 1 to `k - 1`.
pub proof fn lemma_completed_in_part_order(gs: Seq<SpecGroup>, pdu: SpecSmsPdu, now: u64)
    requires
        spec_feed(gs, pdu, now).1 is Some,
    ensures
        ({
            let (t, i) = table_with_group(gs, pdu, now);
            let g = group_insert(t[i], pdu.concat_part, pdu.content);
            let c = spec_feed(gs, pdu, now).1->0;
            &&& c.content.len() == text_len_before(g.parts, g.parts.len() as int)
            &&& forall|k: int|
                0 <= k < g.parts.len() && #[trigger] g.parts[k] is Some ==> c.content.subrange(
                    text_len_before(g.parts, k),
                    text_len_before(g.parts, k) + g.parts[k]->0.len(),
                ) == g.parts[k]->0
        }),
{
    let (t, i) = table_with_group(gs, pdu, now);
    let g = group_insert(t[i], pdu.concat_part, pdu.content);
    lemma_assemble_in_part_order(g.parts);
}

/// Part number `p` of a group goes into its `p`-th slot (counting from 1) when that slot
/// is still empty, and no other slot changes; a repeated part changes nothing.
pub proof fn lemma_part_goes_to_its_slot(g: SpecGroup, part_num: u8, content: Seq<char>)
    requires
        1 <= part_num <= g.parts.len(),
    ensures
        g.parts[part_num - 1] is None ==> group_insert(g, part_num, content).parts[part_num - 1] == Some(content)
            && group_insert(g, part_num, content).received == g.received + 1,
        g.parts[part_num - 1] is Some ==> group_insert(g, part_num, content) == g,
        group_insert(g, part_num, content).parts.len() == g.parts.len(),
        forall|j: int|
            0 <= j < g.parts.len() && j != part_num - 1 ==> #[trigger] group_insert(g, part_num, content).parts[j]
                == g.parts[j],
{
}

proof fn lemma_filled_all(parts: Seq<Option<Seq<char>>>)
    ensures
        filled_count(parts) == parts.len() <==> forall|k: int| 0 <= k < parts.len() ==> (#[trigger] parts[k]) is Some,
    decreases parts.len(),
{
    if parts.len() > 0 {
        let q = parts.drop_last();
        lemma_filled_all(q);
        lemma_filled_bound(q);
        if forall|k: int| 0 <= k < parts.len() ==> (#[trigger] parts[k]) is Some {
            assert forall|k: int| 0 <= k < q.len() implies (#[trigger] q[k]) is Some by {
                assert(q[k] == parts[k]);
            }
            assert(parts[parts.len() - 1] == parts.last());
        }
        if filled_count(parts) == parts.len() {
            assert(parts.last() is Some);
            assert forall|k: int| 0 <= k < parts.len() implies (#[trigger] parts[k]) is Some by {
                if k < q.len() {
                    assert(q[k] == parts[k]);
                }
            }
        }
    }
}

proof fn lemma_retain_fresh_members(gs: Seq<SpecGroup>, now: u64)
    ensures
        forall|j: int| 0 <= j < retain_fresh(gs, now).len() ==> gs.contains(#[trigger] retain_fresh(gs, now)[j]),
    decreases gs.len(),
{
    if gs.len() > 0 {
        lemma_retain_fresh_members(gs.drop_last(), now);
        let r = retain_fresh(gs.drop_last(), now);
        assert forall|j: int| 0 <= j < retain_fresh(gs, now).len() implies gs.contains(#[trigger] retain_fresh(gs, now)[j]) by {
            if j < r.len() {
                assert(retain_fresh(gs, now)[j] == r[j]);
                let i = choose|i: int| 0 <= i < gs.drop_last().len() && gs.drop_last()[i] == r[j];
                assert(gs[i] == gs.drop_last()[i]);
            } else {
                assert(gs[gs.len() - 1] == gs.last());
            }
        }
    }
}

/// A message is completed only when every part has arrived: the group it completes has
/// one slot per announced part, and no slot is left empty.
pub proof fn lemma_completed_has_every_part(gs: Seq<SpecGroup>, pdu: SpecSmsPdu, now: u64)
    requires
        forall|j: int| 0 <= j < gs.len() ==> group_wf(#[trigger] gs[j]),
        spec_feed(gs, pdu, now).1 is Some,
    ensures
        ({
            let (t, i) = table_with_group(gs, pdu, now);
            let g = group_insert(t[i], pdu.concat_part, pdu.content);
            &&& g.parts.len() == pdu.concat_total
            &&& forall|k: int| 0 <= k < g.parts.len() ==> (#[trigger] g.parts[k]) is Some
        }),
{
    let fresh = retain_fresh(gs, now);
    lemma_retain_fresh_members(gs, now);
    let (t, i) = table_with_group(gs, pdu, now);
    let g0 = t[i];
    lemma_find_group_matches(fresh, pdu.sender, pdu.concat_ref, pdu.concat_total, 0);
    if find_group(fresh, pdu.sender, pdu.concat_ref, pdu.concat_total, 0) >= 0 {
        assert(gs.contains(fresh[i]));
        let j = choose|j: int| 0 <= j < gs.len() && gs[j] == fresh[i];
        assert(group_wf(gs[j]));
    } else {
        lemma_filled_none(pdu.concat_total as nat);
    }
    assert(group_wf(g0));
    assert(g0.total == pdu.concat_total);
    let g = group_insert(g0, pdu.concat_part, pdu.content);
    let idx = pdu.concat_part - 1;
    if g0.parts[idx] is None {
        lemma_filled_update(g0.parts, idx, pdu.content);
    }
    lemma_filled_all(g.parts);
    lemma_filled_all(g0.parts);
}

proof fn lemma_find_group_matches(gs: Seq<SpecGroup>, sender: Seq<char>, ref_num: u16, total: u8, from: int)
    requires
        0 <= from,
    ensures
        find_group(gs, sender, ref_num, total, from) >= 0 ==> ({
            let i = find_group(gs, sender, ref_num, total, from);
            &&& from <= i < gs.len()
            &&& gs[i].sender == sender && gs[i].ref_num == ref_num && gs[i].total == total
        }),
    decreases gs.len() - from,
{
    if from < gs.len() && !(gs[from].sender == sender && gs[from].ref_num == ref_num && gs[from].total == total) {
        lemma_find_group_matches(gs, sender, ref_num, total, from + 1);
    }
}

} // verus!
