//! Bounded duplicate suppression.
//!
//! A [`MessageTracker`] keeps an insertion-ordered set of 64-bit message
//! fingerprints.  Membership test and insertion are O(1); when the bound is
//! exceeded the single oldest surviving entry is evicted (true FIFO — a
//! fingerprint never changes position when seen again, because duplicates
//! short-circuit before insertion).

use vstd::prelude::*;

use indexmap::IndexSet;
use siphasher::sip::SipHasher;
use std::collections::hash_map::RandomState;
use std::hash::Hasher;

verus! {

/// Maximum number of fingerprints a tracker built by [`MessageTracker::new`]
/// keeps resident.
pub const MAX_SEEN_MESSAGES: usize = 40_000;

#[verifier::external_type_specification]
#[verifier::external_body]
#[verifier::reject_recursive_types(T)]
#[verifier::reject_recursive_types(S)]
pub struct ExIndexSet<T, S>(IndexSet<T, S>);

/// The values an `IndexSet` holds, in insertion order.
pub uninterp spec fn index_set_elems(s: IndexSet<u64, RandomState>) -> Seq<u64>;

/// Relies on indexmap's `IndexSet::with_capacity`: a new set holds nothing.
#[verifier::external_body]
fn fp_set_new(capacity: usize) -> (s: IndexSet<u64, RandomState>)
    ensures
        index_set_elems(s) == Seq::<u64>::empty(),
{
    IndexSet::with_capacity(capacity)
}

/// Relies on indexmap's `IndexSet::contains`: membership among the held values.
#[verifier::external_body]
fn fp_set_contains(s: &IndexSet<u64, RandomState>, value: u64) -> (present: bool)
    ensures
        present == index_set_elems(*s).contains(value),
{
    s.contains(&value)
}

/// Relies on indexmap's `IndexSet::insert`: a missing value is appended at the
/// newest position and `true` is returned; a present value is left in place,
/// its insertion order unchanged, and `false` is returned.
#[verifier::external_body]
fn fp_set_insert(s: &mut IndexSet<u64, RandomState>, value: u64) -> (added: bool)
    ensures
        added == !index_set_elems(*old(s)).contains(value),
        added ==> index_set_elems(*final(s)) == index_set_elems(*old(s)).push(value),
        !added ==> index_set_elems(*final(s)) == index_set_elems(*old(s)),
{
    s.insert(value)
}

/// Relies on indexmap's `IndexSet::len`.
#[verifier::external_body]
fn fp_set_len(s: &IndexSet<u64, RandomState>) -> (n: usize)
    ensures
        n == index_set_elems(*s).len(),
{
    s.len()
}

/// Relies on indexmap's `IndexSet::shift_remove_index` at index 0: the oldest
/// value is removed and the rest shift down, keeping their relative order; on
/// an empty set nothing happens and `None` is returned.
#[verifier::external_body]
fn fp_set_remove_oldest(s: &mut IndexSet<u64, RandomState>) -> (removed: Option<u64>)
    ensures
        index_set_elems(*old(s)).len() == 0 ==> removed is None && index_set_elems(
            *final(s),
        ) == index_set_elems(*old(s)),
        index_set_elems(*old(s)).len() > 0 ==> removed == Some(
            index_set_elems(*old(s))[0],
        ) && index_set_elems(*final(s)) == index_set_elems(*old(s)).drop_first(),
{
    s.shift_remove_index(0)
}

/// Relies on indexmap's `IndexSet::clear`.
#[verifier::external_body]
fn fp_set_clear(s: &mut IndexSet<u64, RandomState>)
    ensures
        index_set_elems(*final(s)) == Seq::<u64>::empty(),
{
    s.clear()
}

/// The digest SipHash-2-4 with a zero key assigns to a byte sequence.
pub uninterp spec fn sip_hash_of(data: Seq<u8>) -> u64;

/// Relies on siphasher's `SipHasher` (SipHash-2-4, keyed with zeros): the
/// digest is a function of the written bytes alone, the same in every process.
#[verifier::external_body]
pub(crate) fn sip_hash_bytes(data: &[u8]) -> (digest: u64)
    ensures
        digest == sip_hash_of(data@),
{
    let mut hasher = SipHasher::new();
    hasher.write(data);
    hasher.finish()
}

/// Hashes a binary message into the 64-bit fingerprint used for duplicate
/// detection.
pub fn hash_binary_message(data: &[u8]) -> (fingerprint: u64)
    ensures
        fingerprint == sip_hash_of(data@),
{
    sip_hash_bytes(data)
}

/// One check-and-record step of a tracker holding `s`, capacity `cap`: a
/// resident fingerprint leaves the contents unchanged; a fresh one is appended
/// and, if the capacity would be exceeded, the oldest entry is evicted.
pub open spec fn tracker_step(s: Seq<u64>, fp: u64, cap: nat) -> Seq<u64> {
    if s.contains(fp) {
        s
    } else if s.len() + 1 > cap {
        s.push(fp).drop_first()
    } else {
        s.push(fp)
    }
}

/// `tracker_step` folded over a sequence of fingerprints, oldest first.
pub open spec fn tracker_run(s: Seq<u64>, fps: Seq<u64>, cap: nat) -> Seq<u64>
    decreases fps.len(),
{
    if fps.len() == 0 {
        s
    } else {
        tracker_run(tracker_step(s, fps[0], cap), fps.drop_first(), cap)
    }
}

/// Tracks message fingerprints to detect duplicates using a fixed-size FIFO
/// buffer.
pub struct MessageTracker {
    seen: IndexSet<u64, RandomState>,
    limit: usize,
}

impl View for MessageTracker {
    type V = Seq<u64>;

    closed spec fn view(&self) -> Seq<u64> {
        index_set_elems(self.seen)
    }
}

impl MessageTracker {
    /// The bound on how many fingerprints stay resident.
    pub closed spec fn capacity(&self) -> nat {
        self.limit as nat
    }

    /// The tracker's contents are distinct and within its capacity.
    pub open spec fn wf(&self) -> bool {
        self@.no_duplicates() && self@.len() <= self.capacity()
    }

    /// Creates a new tracker bounded by [`MAX_SEEN_MESSAGES`].
    pub fn new() -> (tracker: Self)
        ensures
            tracker@ == Seq::<u64>::empty(),
            tracker.capacity() == MAX_SEEN_MESSAGES,
            tracker.wf(),
    {
        Self::with_limit(MAX_SEEN_MESSAGES)
    }

    /// Creates a new tracker that keeps at most `limit` fingerprints resident.
    pub fn with_limit(limit: usize) -> (tracker: Self)
        ensures
            tracker@ == Seq::<u64>::empty(),
            tracker.capacity() == limit,
            tracker.wf(),
    {
        MessageTracker { seen: fp_set_new(limit), limit }
    }

    /// Checks if a message is a duplicate and records it if it was not already
    /// present.  Returns true if the message was already seen.  A fresh
    /// fingerprint is recorded at the newest position, evicting the oldest
    /// entry when the capacity would be exceeded; a resident one is neither
    /// re-recorded nor moved.
    pub fn is_duplicate(&mut self, message_hash: u64) -> (dup: bool)
        requires
            old(self).wf(),
        ensures
            final(self).wf(),
            final(self).capacity() == old(self).capacity(),
            dup == old(self)@.contains(message_hash),
            final(self)@ == tracker_step(old(self)@, message_hash, old(self).capacity()),
    {
        if fp_set_contains(&self.seen, message_hash) {
            return true;
        }
        let ghost before = index_set_elems(self.seen);
        fp_set_insert(&mut self.seen, message_hash);
        proof {
            lemma_push_fresh_no_duplicates(before, message_hash);
        }
        if fp_set_len(&self.seen) > self.limit {
            let ghost pushed = index_set_elems(self.seen);
            fp_set_remove_oldest(&mut self.seen);
            proof {
                lemma_drop_first_no_duplicates(pushed);
            }
        }
        false
    }

    /// Reports whether a fingerprint is currently resident, without recording
    /// anything.
    pub fn contains(&self, message_hash: u64) -> (present: bool)
        ensures
            present == self@.contains(message_hash),
    {
        fp_set_contains(&self.seen, message_hash)
    }

    /// Returns the number of currently tracked message fingerprints.
    pub fn tracked_count(&self) -> (count: usize)
        ensures
            count == self@.len(),
    {
        fp_set_len(&self.seen)
    }

    /// Clears all tracked message fingerprints.
    pub fn clear(&mut self)
        ensures
            final(self)@ == Seq::<u64>::empty(),
            final(self).capacity() == old(self).capacity(),
            final(self).wf(),
    {
        fp_set_clear(&mut self.seen);
    }
}

proof fn lemma_push_fresh_no_duplicates(s: Seq<u64>, fp: u64)
    requires
        s.no_duplicates(),
        !s.contains(fp),
    ensures
        s.push(fp).no_duplicates(),
{
    let t = s.push(fp);
    assert forall|i: int, j: int| 0 <= i < t.len() && 0 <= j < t.len() && i != j implies t[i]
        != t[j] by {
        if i < s.len() && j < s.len() {
        } else if i == s.len() {
            assert(s[j] != fp);
        } else {
            assert(s[i] != fp);
        }
    }
}

proof fn lemma_drop_first_no_duplicates(s: Seq<u64>)
    requires
        s.no_duplicates(),
        s.len() > 0,
    ensures
        s.drop_first().no_duplicates(),
{
    let t = s.drop_first();
    assert forall|i: int, j: int| 0 <= i < t.len() && 0 <= j < t.len() && i != j implies t[i]
        != t[j] by {
        assert(t[i] == s[i + 1]);
        assert(t[j] == s[j + 1]);
    }
}

/// A fresh fingerprint is not reported as a duplicate, but recording it puts
/// it at the newest position, so an immediate repeat is; a resident one is
/// reported and leaves the tracker unchanged.
pub proof fn lemma_fresh_then_duplicate(s: Seq<u64>, fp: u64, cap: nat)
    requires
        cap >= 1,
        s.len() <= cap,
    ensures
        !s.contains(fp) ==> tracker_step(s, fp, cap).contains(fp) && tracker_step(s, fp, cap).last()
            == fp,
        s.contains(fp) ==> tracker_step(s, fp, cap) == s,
{
    if !s.contains(fp) {
        let t = tracker_step(s, fp, cap);
        if s.len() + 1 > cap {
            assert(t == s.push(fp).drop_first());
            assert(t.len() == s.len());
            assert(t[t.len() - 1] == s.push(fp)[s.len() as int]);
        } else {
            assert(t.last() == fp);
        }
    }
}

/// Strict FIFO eviction: feeding `cap + k` distinct fingerprints into a fresh
/// tracker leaves exactly the `cap` most recent resident, in arrival order;
/// the `k` oldest have been evicted and are no longer reported as duplicates.
pub proof fn lemma_fifo_eviction(fps: Seq<u64>, cap: nat)
    requires
        fps.no_duplicates(),
        fps.len() >= cap,
    ensures
        tracker_run(Seq::<u64>::empty(), fps, cap) == fps.skip(fps.len() - cap),
        forall|i: int|
            fps.len() - cap <= i < fps.len() ==> tracker_run(Seq::<u64>::empty(), fps, cap)
                .contains(fps[i]),
        forall|i: int|
            0 <= i < fps.len() - cap ==> !tracker_run(Seq::<u64>::empty(), fps, cap).contains(
                fps[i],
            ),
    decreases fps.len(),
{
    lemma_tracker_run_disjoint(Seq::<u64>::empty(), fps, cap);
    let result = tracker_run(Seq::<u64>::empty(), fps, cap);
    assert(Seq::<u64>::empty() + fps =~= fps);
    assert forall|i: int| fps.len() - cap <= i < fps.len() implies result.contains(fps[i]) by {
        assert(result[i - (fps.len() - cap)] == fps[i]);
    }
    assert forall|i: int| 0 <= i < fps.len() - cap implies !result.contains(fps[i]) by {
        if result.contains(fps[i]) {
            let j = choose|j: int| 0 <= j < result.len() && result[j] == fps[i];
            assert(fps[j + fps.len() - cap] == fps[i]);
        }
    }
}

/// Running distinct, unseen fingerprints through a tracker appends them in
/// order and evicts from the front whatever exceeds the capacity.
proof fn lemma_tracker_run_disjoint(s: Seq<u64>, fps: Seq<u64>, cap: nat)
    requires
        s.no_duplicates(),
        s.len() <= cap,
        fps.no_duplicates(),
        forall|i: int| 0 <= i < fps.len() ==> !s.contains(#[trigger] fps[i]),
        s.len() + fps.len() >= cap,
    ensures
        tracker_run(s, fps, cap) == (s + fps).skip(s.len() + fps.len() - cap),
    decreases fps.len(),
{
    if fps.len() == 0 {
        assert(s.len() == cap);
        assert((s + fps) =~= s);
        assert((s + fps).skip(s.len() + fps.len() - cap) =~= s);
    } else {
        let fp = fps[0];
        assert(!s.contains(fp));
        let s2 = tracker_step(s, fp, cap);
        let rest = fps.drop_first();
        if s.len() + 1 > cap {
            assert(s2 == s.push(fp).drop_first());
            lemma_push_fresh_no_duplicates(s, fp);
            lemma_drop_first_no_duplicates(s.push(fp));
            assert(s2.len() == s.len());
            assert forall|i: int| 0 <= i < rest.len() implies !s2.contains(#[trigger] rest[i]) by {
                if s2.contains(rest[i]) {
                    let j = choose|j: int| 0 <= j < s2.len() && s2[j] == rest[i];
                    assert(s2[j] == s.push(fp)[j + 1]);
                    if j + 1 < s.len() {
                        assert(s.contains(rest[i]));
                        assert(!s.contains(fps[i + 1]));
                    } else {
                        assert(rest[i] == fp);
                        assert(fps[i + 1] == fps[0]);
                    }
                }
            };
            lemma_tracker_run_disjoint(s2, rest, cap);
            assert((s2 + rest) =~= (s + fps).drop_first());
            assert(tracker_run(s, fps, cap) == tracker_run(s2, rest, cap));
            assert((s2 + rest).skip(s2.len() + rest.len() - cap) =~= (s + fps).skip(
                s.len() + fps.len() - cap,
            ));
        } else {
            assert(s2 == s.push(fp));
            lemma_push_fresh_no_duplicates(s, fp);
            assert forall|i: int| 0 <= i < rest.len() implies !s2.contains(#[trigger] rest[i]) by {
                if s2.contains(rest[i]) {
                    let j = choose|j: int| 0 <= j < s2.len() && s2[j] == rest[i];
                    if j < s.len() {
                        assert(s.contains(rest[i]));
                        assert(!s.contains(fps[i + 1]));
                    } else {
                        assert(rest[i] == fp);
                        assert(fps[i + 1] == fps[0]);
                    }
                }
            };
            lemma_tracker_run_disjoint(s2, rest, cap);
            assert((s2 + rest) =~= (s + fps));
            assert(tracker_run(s, fps, cap) == tracker_run(s2, rest, cap));
            assert((s2 + rest).skip(s2.len() + rest.len() - cap) =~= (s + fps).skip(
                s.len() + fps.len() - cap,
            ));
        }
    }
}

} // verus!
