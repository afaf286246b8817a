//! Playback ordering and scheduling.
//!
//! Precomputed text frames are played in ascending order of their frame
//! index: the integer spelled by the file name's substring before the first
//! `.`. A name whose stem is not a decimal integer that fits in 32 bits gets
//! index 0. The display cadence is fixed; deadlines are scheduled against an
//! absolute start time, so the time one frame takes never delays the ones
//! after it.

use vstd::prelude::*;

verus! {

/// ASCII '.'
pub const DOT_BYTE: u8 = 46;

/// One frame of precomputed terminal text, as read back from storage.
pub struct FrameFile {
    pub name: Vec<u8>,
    pub data: Vec<u8>,
}

/// Length of the name's stem: the prefix before the first `.`, scanned from
/// position `i`.
pub open spec fn stem_len_from(name: Seq<u8>, i: int) -> int
    decreases name.len() - i,
{
    if i >= name.len() {
        name.len() as int
    } else if name[i] == DOT_BYTE {
        i
    } else {
        stem_len_from(name, i + 1)
    }
}

/// Is this byte an ASCII decimal digit?
pub open spec fn is_digit(b: u8) -> bool {
    48 <= b <= 57
}

/// Every byte of the sequence is an ASCII decimal digit.
pub open spec fn all_digits(s: Seq<u8>) -> bool {
    forall|i: int| 0 <= i < s.len() ==> is_digit(s[i])
}

/// The number spelled by a sequence of decimal digits, most significant
/// first.
pub open spec fn digits_value(s: Seq<u8>) -> int
    decreases s.len(),
{
    if s.len() == 0 {
        0
    } else {
        digits_value(s.drop_last()) * 10 + (s.last() - 48)
    }
}

/// The frame index of a file name: the value of its stem when that is a
/// nonempty string of digits whose value fits in a `u32`, and 0 otherwise.
pub open spec fn frame_index_of(name: Seq<u8>) -> int {
    let stem = name.subrange(0, stem_len_from(name, 0));
    if stem.len() >= 1 && all_digits(stem) && digits_value(stem) <= u32::MAX {
        digits_value(stem)
    } else {
        0
    }
}

/// A digit string's value never goes down when digits are appended.
proof fn lemma_digits_value_nonneg(s: Seq<u8>)
    requires
        all_digits(s),
    ensures
        digits_value(s) >= 0,
    decreases s.len(),
{
    if s.len() > 0 {
        assert(all_digits(s.drop_last()));
        lemma_digits_value_nonneg(s.drop_last());
    }
}

/// See `lemma_digits_value_nonneg`: the value of a prefix is a lower bound
/// for the value of the whole digit string.
proof fn lemma_digits_value_prefix_le(s: Seq<u8>, k: int)
    requires
        all_digits(s),
        0 <= k <= s.len(),
    ensures
        digits_value(s.subrange(0, k)) <= digits_value(s),
    decreases s.len() - k,
{
    if k == s.len() {
        assert(s.subrange(0, k) =~= s);
    } else {
        lemma_digits_value_prefix_le(s, k + 1);
        let p = s.subrange(0, k + 1);
        assert(p.drop_last() =~= s.subrange(0, k));
        assert(all_digits(s.subrange(0, k)));
        lemma_digits_value_nonneg(s.subrange(0, k));
        assert(digits_value(s.subrange(0, k)) <= digits_value(p));
    }
}

/// The frame index of a file name, read from its bytes: the number before
/// the first `.`, or 0 when the stem is empty, holds a non-digit, or
/// overflows a `u32`.
pub fn frame_index(name: &[u8]) -> (idx: u32)
    ensures
        idx == frame_index_of(name@),
{
    let n = name.len();
    let mut end: usize = 0;
    while end < n && name[end] != DOT_BYTE
        invariant
            n == name@.len(),
            0 <= end <= n,
            stem_len_from(name@, 0) == stem_len_from(name@, end as int),
        decreases n - end,
    {
        end = end + 1;
    }
    let ghost stem = name@.subrange(0, end as int);
    proof {
        assert(stem_len_from(name@, end as int) == end);
    }
    if end == 0 {
        return 0;
    }
    let mut val: u64 = 0;
    let mut k: usize = 0;
    while k < end
        invariant
            n == name@.len(),
            1 <= end <= n,
            stem_len_from(name@, 0) == end,
            stem == name@.subrange(0, end as int),
            stem.len() == end,
            0 <= k <= end,
            all_digits(stem.subrange(0, k as int)),
            val == digits_value(stem.subrange(0, k as int)),
            val <= u32::MAX,
        decreases end - k,
    {
        let b = name[k];
        assert(stem[k as int] == name@[k as int]);
        if b < 48 || 57 < b {
            assert(!all_digits(stem));
            return 0;
        }
        let v2 = val * 10 + ((b - 48) as u64);
        proof {
            let p = stem.subrange(0, k + 1);
            assert(p.drop_last() =~= stem.subrange(0, k as int));
            assert(p.last() == stem[k as int]);
            assert(all_digits(p));
            assert(v2 == digits_value(p));
        }
        if v2 > 0xffff_ffffu64 {
            proof {
                if all_digits(stem) {
                    lemma_digits_value_prefix_le(stem, k + 1);
                }
            }
            return 0;
        }
        val = v2;
        k = k + 1;
    }
    proof {
        assert(stem.subrange(0, end as int) =~= stem);
    }
    val as u32
}

/// The frame index each file sorts by.
pub open spec fn file_index(f: FrameFile) -> int {
    frame_index_of(f.name@)
}

/// Ascending by frame index.
pub open spec fn sorted_by_index(s: Seq<FrameFile>) -> bool {
    forall|i: int, j: int|
        0 <= i < j < s.len() ==> file_index(s[i]) <= file_index(s[j])
}

/// Order the frames for playback: ascending by frame index. The result is a
/// rearrangement of the input; ties may come out in any order.
pub fn sort_frames(frames: Vec<FrameFile>) -> (sorted: Vec<FrameFile>)
    ensures
        sorted@.to_multiset() == frames@.to_multiset(),
        sorted_by_index(sorted@),
{
    broadcast use vstd::seq_lib::group_to_multiset_ensures;
    broadcast use vstd::multiset::group_multiset_axioms;

    let mut v = frames;
    let mut i: usize = 1;
    while i < v.len()
        invariant
            v@.to_multiset() == frames@.to_multiset(),
            forall|a: int, b: int| 0 <= a < b < i ==> file_index(v@[a]) <= file_index(v@[b]),
        decreases v.len() - i,
    {
        let key_i = frame_index(v[i].name.as_slice());
        let mut j: usize = 0;
        loop
            invariant_except_break
                i < v.len(),
                0 <= j <= i,
                key_i == file_index(v@[i as int]),
                forall|a: int, b: int| 0 <= a < b < i ==> file_index(v@[a]) <= file_index(
                v@[b]),
                forall|k: int| 0 <= k < j ==> file_index(v@[k]) <= key_i,
            ensures
                0 <= j <= i < v.len(),
                key_i == file_index(v@[i as int]),
                forall|a: int, b: int| 0 <= a < b < i ==> file_index(v@[a]) <= file_index(
                v@[b]),
                forall|k: int| 0 <= k < j ==> file_index(v@[k]) <= key_i,
                forall|k: int| j <= k < i ==> file_index(v@[k]) > key_i,
            decreases i - j,
        {
            if j == i {
                break;
            }
            let key_j = frame_index(v[j].name.as_slice());
            if key_j > key_i {
                assert forall|k: int| j <= k < i implies file_index(v@[k]) > key_i by {
                    if k > j {
                        assert(file_index(v@[j as int]) <= file_index(v@[k]));
                    }
                }
                break;
            }
            j = j + 1;
        }
        let ghost old_v = v@;
        let item = v.remove(i);
        v.insert(j, item);
        proof {
            assert(v@ == old_v.remove(i as int).insert(j as int, item));
            assert(old_v.contains(item)) by {
                assert(old_v[i as int] == item);
            }
            vstd::seq_lib::to_multiset_remove(old_v, i as int);
            vstd::seq_lib::to_multiset_insert(old_v.remove(i as int), j as int, item);
            vstd::seq_lib::to_multiset_contains(old_v, item);
            assert(old_v.to_multiset().count(item) > 0);
            assert(v@.to_multiset() =~= old_v.to_multiset());
            assert forall|p: int| 0 <= p < j implies v@[p] == old_v[p] by {}
            assert(v@[j as int] == item);
            assert forall|p: int| j < p <= i implies v@[p] == old_v[p - 1] by {}
            assert forall|a: int, b: int| 0 <= a < b < i + 1 implies file_index(v@[a])
                <= file_index(v@[b]) by {
                if b < j {
                } else if b == j {
                    assert(file_index(old_v[a]) <= key_i);
                } else if a == j {
                    assert(file_index(old_v[b - 1]) > key_i);
                } else if a < j {
                    if b - 1 < j {
                        assert(file_index(old_v[a]) <= file_index(old_v[b - 1]));
                    } else {
                        assert(file_index(old_v[b - 1]) > key_i);
                        assert(file_index(old_v[a]) <= key_i);
                    }
                } else {
                    assert(file_index(old_v[a - 1]) <= file_index(old_v[b - 1]));
                }
            }
        }
        i = i + 1;
    }
    v
}

/// Nanoseconds between frames at 30 frames per second (1/30 s, rounded to
/// the nearest nanosecond).
pub const FRAME_INTERVAL_NS: u64 = 33_333_333;

/// A fixed-cadence schedule of absolute deadlines. The next deadline never
/// depends on when the previous frame actually finished, so per-frame
/// processing jitter cannot accumulate.
pub struct Schedule {
    pub interval_ns: u64,
    pub next_ns: u64,
}

impl Schedule {
    /// Start a schedule: the first deadline is one interval from `now_ns`.
    pub fn new(now_ns: u64, interval_ns: u64) -> (s: Schedule)
        requires
            now_ns + interval_ns <= u64::MAX,
        ensures
            s.interval_ns == interval_ns,
            s.next_ns == now_ns + interval_ns,
    {
        Schedule { interval_ns, next_ns: now_ns + interval_ns }
    }

    /// How long to block before the next frame: until the deadline, or not at
    /// all if the deadline has already passed.
    pub fn wait_ns(&self, now_ns: u64) -> (wait: u64)
        ensures
            wait == if now_ns <= self.next_ns {
                self.next_ns - now_ns
            } else {
                0
            },
    {
        if now_ns <= self.next_ns {
            self.next_ns - now_ns
        } else {
            0
        }
    }

    /// Advance to the next deadline. The new deadline is exactly one interval
    /// after the old one, whatever the current time is.
    pub fn advance(&mut self)
        requires
            old(self).next_ns + old(self).interval_ns <= u64::MAX,
        ensures
            final(self).interval_ns == old(self).interval_ns,
            final(self).next_ns == old(self).next_ns + old(self).interval_ns,
    {
        self.next_ns = self.next_ns + self.interval_ns;
    }
}

/// The deadline for frame `n` of a schedule started at `start`: deadline 0 is
/// one interval after the start, and each advance adds one interval.
pub open spec fn deadline_after(start: int, interval: int, n: nat) -> int
    decreases n,
{
    if n == 0 {
        start + interval
    } else {
        deadline_after(start, interval, (n - 1) as nat) + interval
    }
}

/// The schedule has no cumulative drift: the deadline for frame `n` is exactly
/// `start + (n + 1) * interval` — within one interval of `start + n * interval`
/// — regardless of how long earlier frames took.
pub proof fn lemma_no_drift(start: int, interval: int, n: nat)
    ensures
        deadline_after(start, interval, n) == start + n * interval + interval,
    decreases n,
{
    if n > 0 {
        let m = (n - 1) as nat;
        lemma_no_drift(start, interval, m);
        assert(m * interval + interval == n * interval) by (nonlinear_arith)
            requires
                m == n - 1,
        ;
    } else {
        assert(n * interval == 0) by (nonlinear_arith)
            requires
                n == 0,
        ;
    }
}

} // verus!
