use crate::fix::scanner::{
    all_digits, decimal_value, find_from, is_digit, lemma_decimal_prefix, lemma_find_from,
    spec_parse_decimal, EQ, SOH,
};
use vstd::prelude::*;

verus! {

const MAX_FIX_BODY_LEN: usize = 65535;

const FIX_HEADER_MIN: usize = 14;

const FIX_TRAILER_LEN: usize = 7;

const TAG_9_MAX_DIGITS: usize = 6;

/// More unframed bytes than this, with no message start among them, are dropped.
const MAX_UNFRAMED: usize = 1048576;

#[derive(Debug, Clone, Copy, PartialEq, Eq, Structural)]
pub enum ScanStatus {
    Complete(usize),
    Incomplete,
    Invalid,
}

/// A byte ring with lookahead: bytes are appended at the tail, read at any offset from
/// the head, and consumed from the head.
pub struct LookaheadRingBuffer {
    buf: Vec<u8>,
    head: usize,
    tail: usize,
    len: usize,
    capacity: usize,
    mark: usize,
}

/// `x` brought back into `[0, cap)` for `x` in `[0, 2 cap]`.
pub open spec fn wrap(x: int, cap: int) -> int {
    if x < cap {
        x
    } else if x < 2 * cap {
        x - cap
    } else {
        0
    }
}

/// The `n` bytes of the ring `raw` (of capacity `cap`) from position `start` on.
pub open spec fn window(raw: Seq<u8>, start: int, n: nat, cap: int) -> Seq<u8> {
    Seq::new(n, |i: int| raw[wrap(start + i, cap)])
}

proof fn lemma_wrap(x: int, cap: int)
    requires
        cap > 0,
        0 <= x <= 2 * cap,
    ensures
        x % cap == wrap(x, cap),
        0 <= wrap(x, cap) < cap,
{
    if x < cap {
        assert(x % cap == x) by (nonlinear_arith)
            requires
                0 <= x < cap,
        ;
    } else if x < 2 * cap {
        assert(x % cap == x - cap) by (nonlinear_arith)
            requires
                cap <= x < 2 * cap,
        ;
    } else {
        assert(x % cap == 0) by (nonlinear_arith)
            requires
                x == 2 * cap,
                cap > 0,
        ;
    }
}

/// `8=FIX`, the start of every message.
pub open spec fn begin_marker() -> Seq<u8> {
    seq![56u8, 61u8, 70u8, 73u8, 88u8]
}

/// The first offset at or after `i` where `s` holds `8=FIX`.
pub open spec fn marker_from(s: Seq<u8>, i: int) -> Option<int>
    decreases s.len() - i,
{
    if i < 0 || i + 5 > s.len() {
        None
    } else if s.subrange(i, i + 5) == begin_marker() {
        Some(i)
    } else {
        marker_from(s, i + 1)
    }
}

pub proof fn lemma_marker_from(s: Seq<u8>, i: int)
    requires
        0 <= i,
    ensures
        marker_from(s, i) matches Some(j) ==> i <= j && j + 5 <= s.len() && s.subrange(j, j + 5)
            == begin_marker(),
    decreases s.len() - i,
{
    if i + 5 <= s.len() && s.subrange(i, i + 5) != begin_marker() {
        lemma_marker_from(s, i + 1);
    }
}

/// Where a skip from offset `from` leaves `s`: `Some(k)` keeps it from the next message
/// start `k` on, `None` empties it.
pub open spec fn skip_result(s: Seq<u8>, from: int) -> Option<int> {
    if from >= s.len() {
        None
    } else {
        marker_from(s, from)
    }
}

/// The body length that the field `s[pos..soh)` declares: `None` when it is not a field
/// of tag 9, `Some(Some(n))` for a length of one to six digits up to 65535, and
/// `Some(None)` for any other value of tag 9.
pub open spec fn body_length_field(s: Seq<u8>, pos: int, soh: int) -> Option<Option<nat>> {
    match find_from(s, EQ, pos) {
        None => None,
        Some(eq) => if eq < soh && 0 < eq - pos <= 5 && spec_parse_decimal(
            s.subrange(pos, eq),
            u32::MAX as nat,
        ) == Some(9nat) {
            let value = s.subrange(eq + 1, soh);
            if value.len() == 0 || value.len() > 6 {
                Some(None)
            } else {
                match spec_parse_decimal(value, usize::MAX as nat) {
                    Some(n) => if n <= 65535 {
                        Some(Some(n))
                    } else {
                        Some(None)
                    },
                    None => Some(None),
                }
            }
        } else {
            None
        },
    }
}

/// How framing a message that starts at offset 0 of `s` ends.
pub enum Framing {
    /// The whole message, trailer included, is buffered and this long.
    Complete(nat),
    Incomplete,
    /// The header is bad; the search for the next message starts at this offset.
    Invalid(int),
}

/// Walks the fields of `s` from `pos` (`count` fields seen, at most 3 counted, and
/// `bl` the body length found so far): once three fields are seen and the body length is
/// known, the message ends the length past the field separator, plus seven bytes of
/// trailer.
pub open spec fn frame_walk(s: Seq<u8>, cap: nat, pos: int, count: nat, bl: Option<nat>) -> Framing
    decreases s.len() - pos,
{
    if pos < 0 || pos >= s.len() {
        Framing::Incomplete
    } else {
        match find_from(s, SOH, pos) {
            None => Framing::Incomplete,
            Some(soh) => {
                let f = if bl is None {
                    body_length_field(s, pos, soh)
                } else {
                    None
                };
                if f == Some(None::<nat>) {
                    Framing::Invalid(soh + 1)
                } else {
                    let bl2 = match f {
                        Some(n) => n,
                        None => bl,
                    };
                    let c2: nat = if count < 3 {
                        count + 1
                    } else {
                        count
                    };
                    let next = soh + 1;
                    if c2 >= 3 && bl2 is Some {
                        let total = next + bl2.unwrap() + 7;
                        if total > cap {
                            Framing::Invalid(next)
                        } else if total <= s.len() {
                            Framing::Complete(total as nat)
                        } else {
                            Framing::Incomplete
                        }
                    } else {
                        proof {
                            lemma_find_from(s, SOH, pos);
                        }
                        frame_walk(s, cap, next, c2, bl2)
                    }
                }
            },
        }
    }
}

/// What framing the buffered bytes `s` of a buffer of capacity `cap` gives: the status,
/// and `Some(k)` where the buffer then holds `s` from offset `k` on, `None` where it is
/// emptied.
pub open spec fn extract_outcome(s: Seq<u8>, cap: nat) -> (ScanStatus, Option<int>) {
    if s.len() < 14 {
        (ScanStatus::Incomplete, Some(0))
    } else {
        match marker_from(s, 0) {
            None => if s.len() > 1048576 {
                (ScanStatus::Invalid, None)
            } else {
                (ScanStatus::Incomplete, Some(0))
            },
            Some(p) => {
                let w = s.skip(p);
                if w.len() < 14 {
                    (ScanStatus::Incomplete, Some(p))
                } else {
                    match frame_walk(w, cap, 0, 0, None) {
                        Framing::Complete(n) => (ScanStatus::Complete(n as usize), Some(p)),
                        Framing::Incomplete => (ScanStatus::Incomplete, Some(p)),
                        Framing::Invalid(k) => (
                            ScanStatus::Invalid,
                            match skip_result(w, k) {
                                Some(j) => Some(p + j),
                                None => None,
                            },
                        ),
                    }
                }
            },
        }
    }
}

proof fn lemma_skip_twice(v: Seq<u8>, p: int, from: int)
    requires
        0 <= p <= v.len(),
        0 <= from,
    ensures
        skip_result(v.skip(p), from) matches Some(k) ==> v.skip(p).skip(k) == v.skip(p + k),
{
    lemma_marker_from(v.skip(p), from);
    if skip_result(v.skip(p), from) is Some {
        let k = skip_result(v.skip(p), from).unwrap();
        assert(v.skip(p).skip(k) =~= v.skip(p + k));
    }
}

/// A complete message lies within the bytes walked and within the capacity.
pub proof fn lemma_frame_walk_bound(s: Seq<u8>, cap: nat, pos: int, count: nat, bl: Option<nat>)
    ensures
        frame_walk(s, cap, pos, count, bl) matches Framing::Complete(n) ==> n <= s.len() && n
            <= cap,
    decreases s.len() - pos,
{
    if 0 <= pos < s.len() {
        lemma_find_from(s, SOH, pos);
        match find_from(s, SOH, pos) {
            None => {},
            Some(soh) => {
                let f = if bl is None {
                    body_length_field(s, pos, soh)
                } else {
                    None
                };
                let bl2 = match f {
                    Some(n) => n,
                    None => bl,
                };
                let c2: nat = if count < 3 {
                    count + 1
                } else {
                    count
                };
                lemma_frame_walk_bound(s, cap, soh + 1, c2, bl2);
            },
        }
    }
}

/// Where framing finds a whole message, the buffer keeps it from a message start on,
/// and it is there in full.
pub proof fn lemma_extract_complete(s: Seq<u8>, cap: nat)
    ensures
        extract_outcome(s, cap).0 matches ScanStatus::Complete(n) ==> {
            &&& extract_outcome(s, cap).1 matches Some(p)
            &&& 0 <= p <= s.len()
            &&& n as int <= s.len() - p
            &&& n <= cap
        },
{
    lemma_marker_from(s, 0);
    match marker_from(s, 0) {
        Some(p) => {
            lemma_frame_walk_bound(s.skip(p), cap, 0, 0, None);
        },
        None => {},
    }
}

/// Framing again what framing kept gives the same answer: where a message start was
/// found and the bytes before it dropped, the buffer now begins with it, and a complete
/// or incomplete message is reported again as it was.
pub proof fn lemma_extract_stable(s: Seq<u8>, cap: nat)
    requires
        extract_outcome(s, cap).0 !is Invalid,
    ensures
        extract_outcome(s, cap).1 matches Some(p) && extract_outcome(s.skip(p), cap) == (
            extract_outcome(s, cap).0,
            Some(0int),
        ),
{
    lemma_marker_from(s, 0);
    assert(s.skip(0) =~= s);
    match marker_from(s, 0) {
        Some(p) => {
            let w = s.skip(p);
            if s.len() >= 14 {
                assert(w.subrange(0, 5) =~= s.subrange(p, p + 5));
                assert(marker_from(w, 0) == Some(0int));
                assert(w.skip(0) =~= w);
            }
        },
        None => {},
    }
}

proof fn lemma_find_from_append(s: Seq<u8>, t: Seq<u8>, b: u8, i: int)
    requires
        0 <= i,
    ensures
        find_from(s, b, i) matches Some(j) ==> find_from(s + t, b, i) == Some(j),
        find_from(s, b, i) is None ==> (find_from(s + t, b, i) is None || find_from(s + t, b, i)->0
            >= s.len()),
    decreases s.len() - i,
{
    lemma_find_from(s + t, b, i);
    if i < s.len() {
        assert((s + t)[i] == s[i]);
        if s[i] != b {
            lemma_find_from_append(s, t, b, i + 1);
        }
    }
}

proof fn lemma_marker_from_append(s: Seq<u8>, t: Seq<u8>, i: int)
    requires
        0 <= i,
        marker_from(s, i) is Some,
    ensures
        marker_from(s + t, i) == marker_from(s, i),
    decreases s.len() - i,
{
    assert((s + t).subrange(i, i + 5) =~= s.subrange(i, i + 5));
    if s.subrange(i, i + 5) != begin_marker() {
        lemma_marker_from_append(s, t, i + 1);
    }
}

proof fn lemma_walk_append(s: Seq<u8>, t: Seq<u8>, cap: nat, pos: int, count: nat, bl: Option<nat>)
    requires
        frame_walk(s, cap, pos, count, bl) is Complete,
    ensures
        frame_walk(s + t, cap, pos, count, bl) == frame_walk(s, cap, pos, count, bl),
    decreases s.len() - pos,
{
    lemma_find_from(s, SOH, pos);
    lemma_find_from_append(s, t, SOH, pos);
    let soh = find_from(s, SOH, pos)->0;
    lemma_find_from(s, EQ, pos);
    lemma_find_from_append(s, t, EQ, pos);
    if bl is None {
        match find_from(s, EQ, pos) {
            Some(eq) => {
                if eq < soh {
                    assert((s + t).subrange(pos, eq) =~= s.subrange(pos, eq));
                    assert((s + t).subrange(eq + 1, soh) =~= s.subrange(eq + 1, soh));
                }
            },
            None => {},
        }
        assert(body_length_field(s + t, pos, soh) == body_length_field(s, pos, soh));
    }
    let f = if bl is None {
        body_length_field(s, pos, soh)
    } else {
        None
    };
    let bl2 = match f {
        Some(n) => n,
        None => bl,
    };
    let c2: nat = if count < 3 {
        count + 1
    } else {
        count
    };
    if !(c2 >= 3 && bl2 is Some) {
        lemma_walk_append(s, t, cap, soh + 1, c2, bl2);
    }
}

/// More bytes arriving do not change a complete message: what frames as complete frames
/// the same way with anything appended.
pub proof fn lemma_extract_complete_append(s: Seq<u8>, t: Seq<u8>, cap: nat)
    requires
        extract_outcome(s, cap).0 is Complete,
    ensures
        extract_outcome(s + t, cap) == extract_outcome(s, cap),
{
    lemma_marker_from(s, 0);
    let p = marker_from(s, 0)->0;
    lemma_marker_from_append(s, t, 0);
    assert((s + t).skip(p) =~= s.skip(p) + t);
    lemma_walk_append(s.skip(p), t, cap, 0, 0, None);
}

impl View for LookaheadRingBuffer {
    type V = Seq<u8>;

    /// The buffered bytes, oldest first.
    closed spec fn view(&self) -> Seq<u8> {
        window(self.buf@, self.head as int, self.len as nat, self.capacity as int)
    }
}

impl LookaheadRingBuffer {
    pub closed spec fn wf(&self) -> bool {
        &&& self.buf@.len() == self.capacity
        &&& self.capacity <= isize::MAX
        &&& self.len <= self.capacity
        &&& self.capacity == 0 ==> self.head == 0 && self.tail == 0 && self.mark == 0
        &&& self.capacity > 0 ==> {
            &&& self.head < self.capacity
            &&& self.tail <= self.capacity
            &&& self.mark < self.capacity
            &&& wrap(self.tail as int, self.capacity as int) == wrap(
                self.head + self.len,
                self.capacity as int,
            )
        }
    }

    pub closed spec fn spec_capacity(&self) -> nat {
        self.capacity as nat
    }

    /// The whole storage, buffered or not.
    pub closed spec fn raw(&self) -> Seq<u8> {
        self.buf@
    }

    /// Where the buffered bytes start in the storage.
    pub closed spec fn head_pos(&self) -> int {
        self.head as int
    }

    /// Where the next appended byte goes (the capacity stands for position 0).
    pub closed spec fn tail_pos(&self) -> int {
        self.tail as int
    }

    /// The head position saved by `mark`.
    pub closed spec fn mark_pos(&self) -> int {
        self.mark as int
    }

    pub proof fn lemma_wf(&self)
        requires
            self.wf(),
        ensures
            self@.len() <= self.spec_capacity(),
            self.spec_capacity() <= isize::MAX,
            self@ == window(self.raw(), self.head_pos(), self@.len(), self.spec_capacity() as int),
            self.raw().len() == self.spec_capacity(),
            self.spec_capacity() > 0 ==> 0 <= self.mark_pos() < self.spec_capacity() && 0
                <= self.head_pos() < self.spec_capacity() && 0 <= self.tail_pos()
                <= self.spec_capacity(),
    {
    }

    /// An empty buffer of `capacity` bytes.
    pub fn new(capacity: usize) -> (r: Self)
        requires
            capacity <= isize::MAX,
        ensures
            r.wf(),
            r@ == Seq::<u8>::empty(),
            r.spec_capacity() == capacity,
            r.head_pos() == 0 && r.tail_pos() == 0 && r.mark_pos() == 0,
    {
        let mut buf: Vec<u8> = Vec::new();
        let mut i: usize = 0;
        while i < capacity
            invariant
                i <= capacity,
                buf@.len() == i,
            decreases capacity - i,
        {
            buf.push(0u8);
            i += 1;
        }
        let r = LookaheadRingBuffer { buf, head: 0, tail: 0, len: 0, capacity, mark: 0 };
        proof {
            assert(r@ =~= Seq::<u8>::empty());
        }
        r
    }

    pub fn capacity(&self) -> (r: usize)
        ensures
            r == self.spec_capacity(),
    {
        self.capacity
    }

    pub fn len(&self) -> (r: usize)
        ensures
            r == self@.len(),
    {
        self.len
    }

    pub fn is_empty(&self) -> (r: bool)
        ensures
            r == (self@.len() == 0),
    {
        self.len == 0
    }

    /// Free room, in bytes.
    pub fn available(&self) -> (r: usize)
        requires
            self.wf(),
        ensures
            r == self.spec_capacity() - self@.len(),
    {
        self.capacity - self.len
    }

    /// The storage index of offset `offset` from the head.
    fn idx(&self, offset: usize) -> (r: usize)
        requires
            self.wf(),
            offset < self.capacity,
        ensures
            r == wrap(self.head + offset, self.capacity as int),
            r < self.capacity,
    {
        proof {
            lemma_wrap(self.head + offset, self.capacity as int);
        }
        (self.head + offset) % self.capacity
    }

    /// Appends as much of `data` as there is room for; returns how much that was.
    pub fn extend_from_slice(&mut self, data: &[u8]) -> (n: usize)
        requires
            old(self).wf(),
        ensures
            final(self).wf(),
            n == (if data@.len() <= old(self).spec_capacity() - old(self)@.len() {
                data@.len()
            } else {
                (old(self).spec_capacity() - old(self)@.len()) as nat
            }),
            final(self)@ == old(self)@ + data@.take(n as int),
            final(self).spec_capacity() == old(self).spec_capacity(),
            final(self).head_pos() == old(self).head_pos(),
            final(self).mark_pos() == old(self).mark_pos(),
    {
        let avail = self.capacity - self.len;
        let n = if data.len() < avail {
            data.len()
        } else {
            avail
        };
        if n == 0 {
            proof {
                assert(data@.take(0) =~= Seq::<u8>::empty());
                assert(old(self)@ + data@.take(0) =~= old(self)@);
            }
            return 0;
        }
        let ghost v0 = self@;
        let ghost cap = self.capacity as int;
        let ghost t0 = wrap(self.tail as int, cap);
        proof {
            lemma_wrap(self.tail as int, cap);
        }
        let mut i: usize = 0;
        while i < n
            invariant
                self.wf(),
                self.len == v0.len(),
                self.capacity == cap,
                cap > 0,
                self.tail == old(self).tail,
                self.head == old(self).head,
                self.mark == old(self).mark,
                t0 == wrap(self.tail as int, cap),
                t0 == wrap(self.head + self.len, cap),
                0 <= t0 < cap,
                i <= n,
                n <= data@.len(),
                n + self.len <= cap,
                self@ == v0,
                forall|j: int| 0 <= j < i ==> #[trigger] self.buf@[wrap(t0 + j, cap)] == data@[j],
            decreases n - i,
        {
            proof {
                lemma_wrap(self.tail + i, cap);
                lemma_wrap(t0 + i, cap);
                assert(wrap(self.tail + i, cap) == wrap(t0 + i, cap));
            }
            let idx = (self.tail + i) % self.capacity;
            let ghost before = self.buf@;
            self.buf.set(idx, data[i]);
            proof {
                assert forall|k: int| 0 <= k < self.len implies #[trigger] before[wrap(self.head + k, cap)]
                    == self.buf@[wrap(self.head + k, cap)] by {
                    lemma_wrap(self.head + k, cap);
                    lemma_wrap(self.head + self.len, cap);
                    lemma_wrap(t0 + i, cap);
                }
                assert(self@ =~= v0);
                assert forall|j: int| 0 <= j < i + 1 implies #[trigger] self.buf@[wrap(t0 + j, cap)]
                    == data@[j] by {
                    lemma_wrap(t0 + j, cap);
                    lemma_wrap(t0 + i, cap);
                }
            }
            i += 1;
        }
        proof {
            lemma_wrap(self.tail + n, cap);
            lemma_wrap(t0 + n, cap);
        }
        self.tail = (self.tail + n) % self.capacity;
        self.len = self.len + n;
        proof {
            lemma_wrap(self.head + self.len, cap);
            lemma_wrap(self.head + v0.len(), cap);
            assert forall|k: int| 0 <= k < self.len implies #[trigger] self@[k] == (v0 + data@.take(
                n as int,
            ))[k] by {
                lemma_wrap(self.head + k, cap);
                if k >= v0.len() {
                    let j = k - v0.len();
                    lemma_wrap(t0 + j, cap);
                    assert(wrap(self.head + k, cap) == wrap(t0 + j, cap));
                }
            }
            assert(self@ =~= v0 + data@.take(n as int));
        }
        n
    }

    /// The byte at `offset` from the head, if that many are buffered.
    pub fn peek(&self, offset: usize) -> (r: Option<u8>)
        requires
            self.wf(),
        ensures
            r == (if offset < self@.len() {
                Some(self@[offset as int])
            } else {
                None
            }),
    {
        if offset >= self.len {
            return None;
        }
        Some(self.buf[self.idx(offset)])
    }

    /// A copy of `length` bytes from `offset` on; `None` when fewer are buffered.
    pub fn peek_slice(&self, offset: usize, length: usize) -> (r: Option<Vec<u8>>)
        requires
            self.wf(),
        ensures
            length == 0 ==> (r matches Some(v) && v@ == Seq::<u8>::empty()),
            length > 0 && offset + length > self@.len() ==> r is None,
            length > 0 && offset + length <= self@.len() ==> (r matches Some(v) && v@
                == self@.subrange(offset as int, offset + length)),
    {
        if length == 0 {
            return Some(Vec::new());
        }
        if offset.checked_add(length).is_none() || offset + length > self.len {
            return None;
        }
        let mut result: Vec<u8> = Vec::new();
        let mut i: usize = 0;
        while i < length
            invariant
                self.wf(),
                offset + length <= self@.len(),
                i <= length,
                result@ == self@.subrange(offset as int, offset + i),
            decreases length - i,
        {
            let b = self.buf[self.idx(offset + i)];
            result.push(b);
            i += 1;
            proof {
                assert(result@ =~= self@.subrange(offset as int, offset + i));
            }
        }
        Some(result)
    }

    /// The offset of the first `needle` at or after `start`.
    pub fn memchr(&self, needle: u8, start: usize) -> (r: Option<usize>)
        requires
            self.wf(),
        ensures
            r == (match find_from(self@, needle, start as int) {
                Some(j) => Some(j as usize),
                None => None,
            }),
    {
        proof {
            lemma_find_from(self@, needle, start as int);
        }
        if start >= self.len {
            return None;
        }
        let mut i = start;
        while i < self.len
            invariant
                self.wf(),
                start <= i <= self@.len(),
                forall|k: int| start <= k < i ==> self@[k] != needle,
                find_from(self@, needle, start as int) == find_from(self@, needle, i as int),
            decreases self@.len() - i,
        {
            if self.buf[self.idx(i)] == needle {
                return Some(i);
            }
            i += 1;
        }
        None
    }

    /// The buffered bytes from `start` on begin with `pattern`.
    pub fn starts_with(&self, pattern: &[u8], start: usize) -> (r: bool)
        requires
            self.wf(),
        ensures
            r == (start + pattern@.len() <= self@.len() && self@.subrange(
                start as int,
                start + pattern@.len(),
            ) == pattern@),
    {
        if start.checked_add(pattern.len()).is_none() || start + pattern.len() > self.len {
            return false;
        }
        let mut i: usize = 0;
        while i < pattern.len()
            invariant
                self.wf(),
                start + pattern@.len() <= self@.len(),
                i <= pattern@.len(),
                forall|k: int| 0 <= k < i ==> self@[start + k] == pattern@[k],
            decreases pattern@.len() - i,
        {
            if self.buf[self.idx(start + i)] != pattern[i] {
                proof {
                    assert(self@.subrange(start as int, start + pattern@.len())[i as int]
                        != pattern@[i as int]);
                }
                return false;
            }
            i += 1;
        }
        proof {
            assert(self@.subrange(start as int, start + pattern@.len()) =~= pattern@);
        }
        true
    }

    /// Saves the head position.
    pub fn mark(&mut self)
        requires
            old(self).wf(),
        ensures
            final(self).wf(),
            final(self)@ == old(self)@,
            final(self).raw() == old(self).raw(),
            final(self).spec_capacity() == old(self).spec_capacity(),
            final(self).head_pos() == old(self).head_pos(),
            final(self).tail_pos() == old(self).tail_pos(),
            final(self).mark_pos() == old(self).head_pos(),
    {
        self.mark = self.head;
    }

    /// Moves the head back to the saved position: the buffered bytes are then those of
    /// the storage from the mark to the tail.
    pub fn reset_to_mark(&mut self)
        requires
            old(self).wf(),
            old(self).spec_capacity() > 0,
        ensures
            final(self).wf(),
            final(self)@ == window(
                old(self).raw(),
                old(self).mark_pos(),
                ((old(self).tail_pos() + old(self).spec_capacity() - old(self).mark_pos())
                    % (old(self).spec_capacity() as int)) as nat,
                old(self).spec_capacity() as int,
            ),
            final(self).raw() == old(self).raw(),
            final(self).spec_capacity() == old(self).spec_capacity(),
            final(self).head_pos() == old(self).mark_pos(),
            final(self).tail_pos() == old(self).tail_pos(),
            final(self).mark_pos() == old(self).mark_pos(),
    {
        let ghost cap = self.capacity as int;
        proof {
            lemma_wrap(self.tail + cap - self.mark, cap);
        }
        self.head = self.mark;
        self.len = (self.tail + self.capacity - self.head) % self.capacity;
        proof {
            lemma_wrap(self.tail as int, cap);
            lemma_wrap(self.head + self.len, cap);
        }
    }

    /// Drops the first `n` bytes; `false`, and nothing dropped, when fewer are buffered.
    pub fn consume(&mut self, n: usize) -> (r: bool)
        requires
            old(self).wf(),
            old(self).spec_capacity() > 0 || n > 0,
        ensures
            final(self).wf(),
            r == (n <= old(self)@.len()),
            r ==> final(self)@ == old(self)@.skip(n as int),
            !r ==> final(self)@ == old(self)@,
            final(self).raw() == old(self).raw(),
            final(self).spec_capacity() == old(self).spec_capacity(),
            final(self).tail_pos() == old(self).tail_pos(),
            final(self).mark_pos() == old(self).mark_pos(),
            r ==> final(self).head_pos() == wrap(
                old(self).head_pos() + n,
                old(self).spec_capacity() as int,
            ),
            !r ==> final(self).head_pos() == old(self).head_pos(),
    {
        if n > self.len {
            return false;
        }
        let ghost cap = self.capacity as int;
        let ghost v0 = self@;
        let ghost h0 = self.head as int;
        proof {
            lemma_wrap(self.head + n, cap);
        }
        self.head = (self.head + n) % self.capacity;
        self.len = self.len - n;
        proof {
            lemma_wrap(h0 + v0.len(), cap);
            lemma_wrap(self.head + self.len, cap);
            assert forall|k: int| 0 <= k < self.len implies #[trigger] self@[k] == v0.skip(
                n as int,
            )[k] by {
                lemma_wrap(self.head + k, cap);
                lemma_wrap(h0 + n + k, cap);
            }
            assert(self@ =~= v0.skip(n as int));
        }
        true
    }

    /// Empties the buffer and rewinds every position to the start of the storage.
    pub fn clear(&mut self)
        requires
            old(self).wf(),
        ensures
            final(self).wf(),
            final(self)@ == Seq::<u8>::empty(),
            final(self).raw() == old(self).raw(),
            final(self).spec_capacity() == old(self).spec_capacity(),
            final(self).head_pos() == 0 && final(self).tail_pos() == 0 && final(self).mark_pos()
                == 0,
    {
        self.head = 0;
        self.tail = 0;
        self.len = 0;
        self.mark = 0;
        proof {
            assert(self@ =~= Seq::<u8>::empty());
        }
    }

    /// Moves the buffered bytes to the start of the storage.
    pub fn compact(&mut self)
        requires
            old(self).wf(),
        ensures
            final(self).wf(),
            final(self)@ == old(self)@,
            final(self).spec_capacity() == old(self).spec_capacity(),
            final(self).mark_pos() == old(self).mark_pos(),
            final(self).head_pos() == 0,
            old(self)@.len() == 0 ==> final(self).tail_pos() == 0,
            old(self)@.len() == 0 ==> final(self).raw() == old(self).raw(),
            old(self)@.len() > 0 ==> final(self).tail_pos() == old(self)@.len(),
            old(self)@.len() > 0 ==> final(self).raw() == old(self)@ + old(self).raw().skip(
                old(self)@.len() as int,
            ),
    {
        if self.is_empty() {
            self.head = 0;
            self.tail = 0;
            proof {
                assert(self@ =~= old(self)@);
            }
            return;
        }
        let ghost v0 = self@;
        let ghost r0 = self.buf@;
        let mut tmp: Vec<u8> = Vec::new();
        let mut i: usize = 0;
        while i < self.len
            invariant
                self.wf(),
                self@ == v0,
                self.buf@ == r0,
                self.mark == old(self).mark,
                i <= self@.len(),
                tmp@ == v0.take(i as int),
            decreases self@.len() - i,
        {
            tmp.push(self.buf[self.idx(i)]);
            i += 1;
            proof {
                assert(tmp@ =~= v0.take(i as int));
            }
        }
        let mut j: usize = 0;
        while j < self.len
            invariant
                self.len == v0.len(),
                self.capacity == r0.len(),
                self.mark == old(self).mark,
                self.capacity <= isize::MAX,
                0 < self.capacity,
                self.mark < self.capacity,
                v0.len() <= r0.len(),
                tmp@ == v0,
                self.buf@.len() == r0.len(),
                j <= v0.len(),
                forall|k: int| 0 <= k < j ==> self.buf@[k] == v0[k],
                forall|k: int| v0.len() <= k < r0.len() ==> self.buf@[k] == r0[k],
            decreases v0.len() - j,
        {
            self.buf.set(j, tmp[j]);
            j += 1;
        }
        self.head = 0;
        self.tail = self.len;
        proof {
            let cap = self.capacity as int;
            assert(self.buf@ =~= v0 + r0.skip(v0.len() as int));
            lemma_wrap(self.tail as int, cap);
            assert forall|k: int| 0 <= k < self.len implies #[trigger] self@[k] == v0[k] by {
                lemma_wrap(k, cap);
            }
            assert(self@ =~= v0);
        }
    }

    /// The offset of the first `8=FIX` at or after `start`.
    pub fn find_next_message_start(&self, start: usize) -> (r: Option<usize>)
        requires
            self.wf(),
            start + 5 <= usize::MAX,
        ensures
            r == (match marker_from(self@, start as int) {
                Some(j) => Some(j as usize),
                None => None,
            }),
    {
        let pattern = [56u8, 61u8, 70u8, 73u8, 88u8];
        proof {
            assert(pattern@ =~= begin_marker());
        }
        if start + 5 > self.len {
            return None;
        }
        let mut i = start;
        while i + 5 <= self.len
            invariant
                self.wf(),
                start <= i,
                i + 5 <= usize::MAX,
                pattern@ == begin_marker(),
                marker_from(self@, start as int) == marker_from(self@, i as int),
            decreases self@.len() - i,
        {
            if self.starts_with(pattern.as_slice(), i) {
                return Some(i);
            }
            i += 1;
        }
        None
    }

    /// Drops everything before the next message start found from `search_from` on, or
    /// everything where there is none.
    fn skip_to_next_message(&mut self, search_from: usize)
        requires
            old(self).wf(),
            search_from <= old(self)@.len() + 1,
        ensures
            final(self).wf(),
            final(self).raw() == old(self).raw(),
            final(self).spec_capacity() == old(self).spec_capacity(),
            skip_result(old(self)@, search_from as int) matches Some(k) ==> final(self)@ == old(
                self,
            )@.skip(k) && final(self).tail_pos() == old(self).tail_pos() && final(self).mark_pos()
                == old(self).mark_pos(),
            skip_result(old(self)@, search_from as int) is None ==> final(self)@ == Seq::<
                u8,
            >::empty() && final(self).head_pos() == 0 && final(self).tail_pos() == 0
                && final(self).mark_pos() == 0,
    {
        if search_from >= self.len {
            self.clear();
            return ;
        }
        proof {
            lemma_marker_from(self@, search_from as int);
        }
        match self.find_next_message_start(search_from) {
            Some(next_start) => {
                self.consume(next_start);
            },
            None => {
                self.clear();
            },
        }
    }

    /// The tag written at offsets `start..eq_pos`, where they are all digits and it fits
    /// in 32 bits.
    fn parse_tag_safe(&self, start: usize, eq_pos: usize) -> (r: Option<u32>)
        requires
            self.wf(),
        ensures
            r == (if eq_pos <= start || eq_pos > self@.len() {
                None
            } else {
                match spec_parse_decimal(self@.subrange(start as int, eq_pos as int), u32::MAX as nat) {
                    Some(n) => Some(n as u32),
                    None => None,
                }
            }),
    {
        if eq_pos <= start || eq_pos > self.len {
            return None;
        }
        let ghost d = self@.subrange(start as int, eq_pos as int);
        let mut result: u32 = 0;
        let mut i = start;
        while i < eq_pos
            invariant
                self.wf(),
                start <= i <= eq_pos <= self@.len(),
                d == self@.subrange(start as int, eq_pos as int),
                all_digits(d.take(i - start)),
                result as nat == decimal_value(d.take(i - start)),
            decreases eq_pos - i,
        {
            let b = self.buf[self.idx(i)];
            proof {
                assert(b == d[i - start]);
                assert(d.take(i - start + 1).drop_last() =~= d.take(i - start));
            }
            if b < 48 || b > 57 {
                return None;
            }
            result = match result.checked_mul(10) {
                Some(r) => r,
                None => {
                    proof {
                        if all_digits(d) {
                            lemma_decimal_prefix(d, i - start + 1);
                        }
                    }
                    return None;
                },
            };
            result = match result.checked_add((b - 48) as u32) {
                Some(r) => r,
                None => {
                    proof {
                        if all_digits(d) {
                            lemma_decimal_prefix(d, i - start + 1);
                        }
                    }
                    return None;
                },
            };
            i += 1;
        }
        proof {
            assert(d.take(i - start) =~= d);
        }
        Some(result)
    }

    /// The number written at offsets `start..end`, where they are all digits and it fits
    /// in a `usize`.
    fn parse_usize_safe(&self, start: usize, end: usize) -> (r: Option<usize>)
        requires
            self.wf(),
        ensures
            r == (if end <= start || end > self@.len() {
                None
            } else {
                match spec_parse_decimal(self@.subrange(start as int, end as int), usize::MAX as nat) {
                    Some(n) => Some(n as usize),
                    None => None,
                }
            }),
    {
        if end <= start || end > self.len {
            return None;
        }
        let ghost d = self@.subrange(start as int, end as int);
        let mut result: usize = 0;
        let mut i = start;
        while i < end
            invariant
                self.wf(),
                start <= i <= end <= self@.len(),
                d == self@.subrange(start as int, end as int),
                all_digits(d.take(i - start)),
                result as nat == decimal_value(d.take(i - start)),
            decreases end - i,
        {
            let b = self.buf[self.idx(i)];
            proof {
                assert(b == d[i - start]);
                assert(d.take(i - start + 1).drop_last() =~= d.take(i - start));
            }
            if b < 48 || b > 57 {
                return None;
            }
            result = match result.checked_mul(10) {
                Some(r) => r,
                None => {
                    proof {
                        if all_digits(d) {
                            lemma_decimal_prefix(d, i - start + 1);
                        }
                    }
                    return None;
                },
            };
            result = match result.checked_add((b - 48) as usize) {
                Some(r) => r,
                None => {
                    proof {
                        if all_digits(d) {
                            lemma_decimal_prefix(d, i - start + 1);
                        }
                    }
                    return None;
                },
            };
            i += 1;
        }
        proof {
            assert(d.take(i - start) =~= d);
        }
        Some(result)
    }

    /// Frames the next message: drops bytes before its `8=FIX`, reads its body length
    /// (tag 9) and tells whether the whole message is buffered. A malformed or oversized
    /// header is skipped up to the next message start.
    #[verifier::rlimit(60)]
    pub fn extract_complete_message(&mut self) -> (r: ScanStatus)
        requires
            old(self).wf(),
        ensures
            ({
                let (st, out) = extract_outcome(old(self)@, old(self).spec_capacity());
                &&& r == st
                &&& final(self).wf()
                &&& final(self).raw() == old(self).raw()
                &&& final(self).spec_capacity() == old(self).spec_capacity()
                &&& out matches Some(k) ==> final(self)@ == old(self)@.skip(k)
                    && final(self).tail_pos() == old(self).tail_pos()
                    && final(self).mark_pos() == old(self).mark_pos()
                &&& out is None ==> final(self)@ == Seq::<u8>::empty() && final(self).head_pos()
                    == 0 && final(self).tail_pos() == 0 && final(self).mark_pos() == 0
            }),
    {
        let ghost v0 = self@;
        let ghost cap = self.capacity as nat;
        if self.len < FIX_HEADER_MIN {
            proof {
                assert(v0.skip(0) =~= v0);
            }
            return ScanStatus::Incomplete;
        }
        proof {
            lemma_marker_from(v0, 0);
        }
        let ghost p: int;
        match self.find_next_message_start(0) {
            Some(pos) => {
                proof {
                    p = pos as int;
                }
                if pos > 0 {
                    self.consume(pos);
                    if self.len < FIX_HEADER_MIN {
                        return ScanStatus::Incomplete;
                    }
                } else {
                    proof {
                        assert(v0.skip(0) =~= v0);
                    }
                }
            },
            None => {
                if self.len > MAX_UNFRAMED {
                    self.clear();
                    return ScanStatus::Invalid;
                }
                proof {
                    assert(v0.skip(0) =~= v0);
                }
                return ScanStatus::Incomplete;
            },
        }
        let ghost w = self@;
        let ghost t1 = self.tail;
        proof {
            assert(marker_from(v0, 0) == Some(p));
        }
        let ghost m1 = self.mark;
        proof {
            assert(w == v0.skip(p));
        }
        let mut scan_pos: usize = 0;
        let mut soh_count: u32 = 0;
        let mut body_len: Option<usize> = None;
        while scan_pos < self.len
            invariant
                self.wf(),
                self@ == w,
                w == v0.skip(p),
                0 <= p <= v0.len(),
                marker_from(v0, 0) == Some(p),
                w.len() >= 14,
                v0.len() >= 14,
                v0 == old(self)@,
                cap == old(self).capacity,
                self.tail == t1,
                self.mark == m1,
                t1 == old(self).tail,
                m1 == old(self).mark,
                self.buf@ == old(self).buf@,
                self.capacity == cap,
                scan_pos <= w.len(),
                soh_count <= 3,
                body_len matches Some(n) ==> n <= 65535,
                frame_walk(w, cap, 0, 0, None) == frame_walk(
                    w,
                    cap,
                    scan_pos as int,
                    soh_count as nat,
                    match body_len {
                        Some(n) => Some(n as nat),
                        None => None,
                    },
                ),
            decreases w.len() - scan_pos,
        {
            let ghost bl0: Option<nat> = match body_len {
                Some(n) => Some(n as nat),
                None => None,
            };
            proof {
                lemma_find_from(w, SOH, scan_pos as int);
                lemma_find_from(w, EQ, scan_pos as int);
            }
            let soh_pos = match self.memchr(SOH, scan_pos) {
                Some(pos) => pos,
                None => {
                    return ScanStatus::Incomplete;
                },
            };
            if soh_count < 3 {
                soh_count += 1;
            }
            let ghost f = if bl0 is None {
                body_length_field(w, scan_pos as int, soh_pos as int)
            } else {
                None
            };
            if body_len.is_none() {
                let eq_pos = self.memchr(EQ, scan_pos);
                match eq_pos {
                    Some(eq) => {
                        if eq < soh_pos {
                            let tag_digits = eq - scan_pos;
                            if tag_digits > 0 && tag_digits <= 5 {
                                match self.parse_tag_safe(scan_pos, eq) {
                                    Some(tag_val) => {
                                        if tag_val == 9 {
                                            let val_start = eq + 1;
                                            let val_len = soh_pos - val_start;
                                            if val_len == 0 || val_len > TAG_9_MAX_DIGITS {
                                                proof {
                                                    assert(f == Some(None::<nat>));
                                                }
                                                self.skip_to_next_message(soh_pos + 1);
                                                proof {
                                                    lemma_skip_twice(v0, p, soh_pos + 1);
                                                }
                                                return ScanStatus::Invalid;
                                            }
                                            match self.parse_usize_safe(val_start, soh_pos) {
                                                Some(bl) => {
                                                    if bl > MAX_FIX_BODY_LEN {
                                                        proof {
                                                            assert(f == Some(None::<nat>));
                                                        }
                                                        self.skip_to_next_message(soh_pos + 1);
                                                        proof {
                                                            lemma_skip_twice(v0, p, soh_pos + 1);
                                                        }
                                                        return ScanStatus::Invalid;
                                                    }
                                                    body_len = Some(bl);
                                                    proof {
                                                        assert(f == Some(Some(bl as nat)));
                                                    }
                                                },
                                                None => {
                                                    proof {
                                                        assert(f == Some(None::<nat>));
                                                    }
                                                    self.skip_to_next_message(soh_pos + 1);
                                                    proof {
                                                        lemma_skip_twice(v0, p, soh_pos + 1);
                                                    }
                                                    return ScanStatus::Invalid;
                                                },
                                            }
                                        } else {
                                            proof {
                                                assert(f is None);
                                            }
                                        }
                                    },
                                    None => {
                                        proof {
                                            assert(f is None);
                                        }
                                    },
                                }
                            } else {
                                proof {
                                    assert(f is None);
                                }
                            }
                        } else {
                            proof {
                                assert(f is None);
                            }
                        }
                    },
                    None => {
                        proof {
                            assert(f is None);
                        }
                    },
                }
            }
            scan_pos = soh_pos + 1;
            if soh_count >= 3 && body_len.is_some() {
                let bl = body_len.unwrap();
                let body_start = scan_pos;
                let msg_end = match body_start.checked_add(bl) {
                    Some(e) => e,
                    None => {
                        self.skip_to_next_message(scan_pos);
                        proof {
                            lemma_skip_twice(v0, p, scan_pos as int);
                        }
                        return ScanStatus::Invalid;
                    },
                };
                let total_needed = match msg_end.checked_add(FIX_TRAILER_LEN) {
                    Some(t) => t,
                    None => {
                        self.skip_to_next_message(scan_pos);
                        proof {
                            lemma_skip_twice(v0, p, scan_pos as int);
                        }
                        return ScanStatus::Invalid;
                    },
                };
                if total_needed > self.capacity {
                    self.skip_to_next_message(scan_pos);
                    proof {
                        lemma_skip_twice(v0, p, scan_pos as int);
                    }
                    return ScanStatus::Invalid;
                }
                if total_needed <= self.len {
                    return ScanStatus::Complete(total_needed);
                } else {
                    return ScanStatus::Incomplete;
                }
            }
        }
        ScanStatus::Incomplete
    }

    /// Mark, consume, reset: where the buffer was not full when `marked` took its mark at
    /// its head, a later state that kept the storage, tail and mark (consumption does)
    /// resets to exactly the bytes buffered at the mark.
    pub proof fn lemma_reset_restores(marked: &LookaheadRingBuffer, later: &LookaheadRingBuffer)
        requires
            marked.wf(),
            later.wf(),
            marked.spec_capacity() > 0,
            marked@.len() < marked.spec_capacity(),
            marked.mark_pos() == marked.head_pos(),
            later.spec_capacity() == marked.spec_capacity(),
            later.raw() == marked.raw(),
            later.tail_pos() == marked.tail_pos(),
            later.mark_pos() == marked.mark_pos(),
        ensures
            window(
                later.raw(),
                later.mark_pos(),
                ((later.tail_pos() + later.spec_capacity() - later.mark_pos()) % (
                later.spec_capacity() as int)) as nat,
                later.spec_capacity() as int,
            ) == marked@,
    {
        let cap = marked.capacity as int;
        let x = marked.tail + cap - marked.head;
        lemma_wrap(x, cap);
        lemma_wrap(marked.tail as int, cap);
        lemma_wrap(marked.head + marked.len, cap);
        assert(wrap(x, cap) == marked.len);
    }
}

} // verus!
