//! The ring buffer store and its claim / commit / drain algorithms.
//!
//! Three cursors count logical byte positions: `read` (bytes drained so far),
//! `written` (bytes whose content is complete and may be drained) and
//! `claimed` (bytes reserved by some writer). They are `usize` counters that
//! wrap modulo the usize width; the abstract view counts the same bytes
//! without wrapping. Logical position `p` (unwrapped) lives at physical
//! offset `p % capacity`; the ring keeps the physical offsets of `read` and
//! `claimed` beside the cursors, so writer and reader agree on them across a
//! wrap of the counters.
//!
//! A log call may be interrupted by a nested log call that runs to completion
//! before the first resumes. Such a call is split here into `claim` and
//! `commit`, and a nested call runs between the two. Outstanding claims form a
//! stack: the one committed is always the newest. The oldest outstanding claim
//! is the "first" one; it publishes, on committing, everything claimed up to
//! then, including what nested calls have copied meanwhile.

use vstd::prelude::*;
use vstd::arithmetic::div_mod::{lemma_small_mod, lemma_mod_add_multiples_vanish};

verus! {

/// The ring had no room for an entry.
#[derive(Debug, Clone, Copy, PartialEq, Eq, Structural)]
pub struct AtCapacity;

/// A reservation of `size` bytes from the claimed cursor `start` on, whose
/// first byte lives at physical offset `offset`.
///
/// `first` says whether no other claim was outstanding when it was made; the
/// first claim publishes on commit.
#[derive(Debug, Clone, Copy, PartialEq, Eq, Structural)]
pub struct Claim {
    pub start: usize,
    pub offset: usize,
    pub size: usize,
    pub first: bool,
}

/// The number of values of `usize`: the counters wrap at it.
pub open spec fn word() -> int {
    usize::MAX as int + 1
}

/// `x - y` modulo the usize width, as `wrapping_sub` computes it.
pub open spec fn wrapped_diff(x: usize, y: usize) -> int {
    if x >= y {
        x - y
    } else {
        x - y + word()
    }
}

/// The `usize` counter that stands for the unwrapped count `n`.
pub open spec fn cursor(n: int) -> usize {
    (n % word()) as usize
}

/// The abstract state of a ring buffer.
pub struct RingView {
    pub capacity: nat,
    /// The cursors, counted without wrapping.
    pub read: int,
    pub written: int,
    pub claimed: int,
    /// The bytes in `[read, written)`: published and not yet drained.
    pub pending: Seq<u8>,
    /// The bytes in `[written, claimed)`, as far as their writers have copied them.
    pub staged: Seq<u8>,
    /// Outstanding claims as `(start, size)`, oldest first; each has `size > 0`.
    pub claims: Seq<(int, int)>,
}

impl RingView {
    /// Free space, as the capacity check sees it.
    pub open spec fn room(self) -> int {
        self.capacity - (self.claimed - self.read)
    }

    /// Whether `claim` may be committed now: it is the newest outstanding
    /// claim, and it is first exactly when it is the only one.
    pub open spec fn can_commit(self, c: Claim) -> bool {
        if c.size == 0 {
            c.first ==> self.claims.len() == 0
        } else {
            &&& self.claims.len() > 0
            &&& self.claims.last().1 == c.size
            &&& c.start == cursor(self.claims.last().0)
            &&& c.offset as int == self.claims.last().0 % (self.capacity as int)
            &&& c.first == (self.claims.len() == 1)
        }
    }

    /// Whether an entry of `len` bytes can be claimed now: it fits in the
    /// free room.
    pub open spec fn fits(self, len: int) -> bool {
        len <= self.room()
    }

    /// The state after an entry of `bytes` is claimed, copied and committed
    /// without interruption. With no other claim outstanding the bytes become
    /// pending at once; inside another claim they are staged behind it.
    pub open spec fn enqueued(self, bytes: Seq<u8>) -> RingView {
        let claimed = self.claimed + bytes.len();
        if self.claims.len() == 0 {
            RingView {
                written: claimed,
                claimed,
                pending: self.pending + bytes,
                staged: Seq::empty(),
                ..self
            }
        } else {
            RingView { claimed, staged: self.staged + bytes, ..self }
        }
    }

    /// How many bytes a drain into a buffer of `len` bytes takes.
    pub open spec fn drain_count(self, len: int) -> int {
        if len < self.pending.len() {
            len
        } else {
            self.pending.len() as int
        }
    }

    /// The state after the first `n` pending bytes are drained.
    pub open spec fn drained(self, n: int) -> RingView {
        RingView { read: self.read + n, pending: self.pending.skip(n), ..self }
    }

    /// Offset of the newest outstanding claim within `staged`.
    pub open spec fn top_offset(self) -> int {
        self.claims.last().0 - self.written
    }
}

/// Whether logical position `p` lies in one of the outstanding `claims`.
pub open spec fn in_claims(claims: Seq<(int, int)>, p: int) -> bool {
    exists|k: int| 0 <= k < claims.len() && #[trigger] claims[k].0 <= p < claims[k].0 + claims[k].1
}

/// A fixed-capacity circular byte buffer with reentrancy-safe claims.
pub struct RingBuffer {
    storage: Vec<u8>,
    read: usize,
    written: usize,
    claimed: usize,
    /// Physical offsets of `read` and `claimed`.
    read_offset: usize,
    claim_offset: usize,
    /// The cursors, counted without wrapping.
    read_total: Ghost<nat>,
    written_total: Ghost<nat>,
    claimed_total: Ghost<nat>,
    pending: Ghost<Seq<u8>>,
    staged: Ghost<Seq<u8>>,
    claims: Ghost<Seq<(int, int)>>,
}

impl View for RingBuffer {
    type V = RingView;

    closed spec fn view(&self) -> RingView {
        RingView {
            capacity: self.storage@.len(),
            read: self.read_total@ as int,
            written: self.written_total@ as int,
            claimed: self.claimed_total@ as int,
            pending: self.pending@,
            staged: self.staged@,
            claims: self.claims@,
        }
    }
}

/// The physical offset of `start + j`, for `j < capacity`: `start % capacity + j`,
/// wrapped once past the end.
proof fn lemma_wrap_index(start: int, j: int, capacity: int)
    requires
        0 < capacity,
        0 <= start,
        0 <= j <= capacity,
    ensures
        (start + j) % capacity == if start % capacity + j < capacity {
            start % capacity + j
        } else {
            start % capacity + j - capacity
        },
{
    let d = start % capacity;
    assert(0 <= d < capacity) by {
        vstd::arithmetic::div_mod::lemma_mod_bound(start, capacity);
    }
    if j == capacity {
        lemma_mod_add_multiples_vanish(start, capacity);
        lemma_small_mod(d as nat, capacity as nat);
        return;
    }
    lemma_small_mod(j as nat, capacity as nat);
    vstd::arithmetic::div_mod::lemma_add_mod_noop(start, j, capacity);
    assert((d + j) % capacity == (start + j) % capacity);
    if d + j < capacity {
        lemma_small_mod((d + j) as nat, capacity as nat);
    } else {
        lemma_mod_add_multiples_vanish(d + j - capacity, capacity);
        lemma_small_mod((d + j - capacity) as nat, capacity as nat);
    }
}


/// How the remainders of two counts `b <= a` less than `m` apart differ.
proof fn lemma_mod_diff(a: int, b: int, m: int)
    requires
        0 < m,
        0 <= b <= a,
        a - b < m,
    ensures
        a % m >= b % m ==> a % m - b % m == a - b,
        a % m < b % m ==> a % m - b % m + m == a - b,
{
    vstd::arithmetic::div_mod::lemma_fundamental_div_mod(a, m);
    vstd::arithmetic::div_mod::lemma_fundamental_div_mod(b, m);
    vstd::arithmetic::div_mod::lemma_mod_bound(a, m);
    vstd::arithmetic::div_mod::lemma_mod_bound(b, m);
    let qa = a / m;
    let qb = b / m;
    let ra = a % m;
    let rb = b % m;
    let d = qa - qb;
    assert(a - b == m * d + (ra - rb)) by (nonlinear_arith)
        requires
            a == m * qa + ra,
            b == m * qb + rb,
            d == qa - qb,
    ;
    if ra >= rb {
        assert(d == 0) by (nonlinear_arith)
            requires
                m * d == (a - b) - (ra - rb),
                0 <= a - b < m,
                0 <= ra - rb < m,
                0 < m,
        ;
    } else {
        assert(d == 1) by (nonlinear_arith)
            requires
                m * d == (a - b) - (ra - rb),
                0 <= a - b < m,
                -m < ra - rb < 0,
                0 < m,
        ;
    }
}

/// The counter `x` for `a`, advanced by `s < word()`, is the counter for `a + s`.
proof fn lemma_cursor_advance(a: int, x: usize, s: int)
    requires
        0 <= a,
        0 <= s < word(),
        x as int == a % word(),
    ensures
        (x + s) % word() == (a + s) % word(),
{
    vstd::arithmetic::div_mod::lemma_add_mod_noop(a, s, word());
    lemma_small_mod(s as nat, word() as nat);
    vstd::arithmetic::div_mod::lemma_add_mod_noop(x as int, s, word());
    lemma_small_mod(x as nat, word() as nat);
}

/// `x + y`, wrapping modulo the usize width.
fn wrap_add(x: usize, y: usize) -> (r: usize)
    ensures
        r as int == (x + y) % word(),
{
    if y <= usize::MAX - x {
        proof {
            lemma_small_mod((x + y) as nat, word() as nat);
        }
        x + y
    } else {
        proof {
            lemma_mod_add_multiples_vanish(x + y - word(), word());
            lemma_small_mod((x + y - word()) as nat, word() as nat);
        }
        y - (usize::MAX - x) - 1
    }
}

/// `x - y`, wrapping modulo the usize width.
fn wrap_sub(x: usize, y: usize) -> (r: usize)
    ensures
        r as int == if x >= y { x - y } else { x - y + word() },
{
    if x >= y {
        x - y
    } else {
        usize::MAX - (y - x) + 1
    }
}

/// The difference of two counters that stand for counts `b <= a` less than a
/// word apart is the difference of the counts.
proof fn lemma_counter_diff(x: usize, y: usize, a: int, b: int)
    requires
        0 <= b <= a,
        a - b < word(),
        x as int == a % word(),
        y as int == b % word(),
    ensures
        (if x >= y { x - y } else { x - y + word() }) == a - b,
        (x == y) == (a == b),
{
    lemma_mod_diff(a, b, word());
}

/// Two positions less than `m` apart that share a physical offset are equal.
proof fn lemma_mod_distinct(a: int, b: int, m: int)
    requires
        0 < m,
        0 <= a,
        0 <= b,
        a - m < b < a + m,
        a % m == b % m,
    ensures
        a == b,
{
    vstd::arithmetic::div_mod::lemma_fundamental_div_mod(a, m);
    vstd::arithmetic::div_mod::lemma_fundamental_div_mod(b, m);
    let qa = a / m;
    let qb = b / m;
    assert(a - b == m * (qa - qb)) by (nonlinear_arith)
        requires
            a == m * qa + a % m,
            b == m * qb + b % m,
            a % m == b % m,
    ;
    assert(qa - qb == 0) by (nonlinear_arith)
        requires
            a - b == m * (qa - qb),
            -m < a - b < m,
            0 < m,
    ;
}

/// A position lies in the claims with `x` pushed exactly when it lies in the
/// claims before or in `x`.
proof fn lemma_in_claims_push(claims: Seq<(int, int)>, x: (int, int), p: int)
    ensures
        in_claims(claims.push(x), p) <==> (in_claims(claims, p) || (x.0 <= p < x.0 + x.1)),
{
    let s = claims.push(x);
    if in_claims(claims, p) {
        let k = choose|k: int| 0 <= k < claims.len() && #[trigger] claims[k].0 <= p < claims[k].0 + claims[k].1;
        assert(s[k] == claims[k]);
    }
    if x.0 <= p < x.0 + x.1 {
        assert(s[claims.len() as int] == x);
    }
    if in_claims(s, p) {
        let k = choose|k: int| 0 <= k < s.len() && #[trigger] s[k].0 <= p < s[k].0 + s[k].1;
        if k < claims.len() {
            assert(s[k] == claims[k]);
        }
    }
}

/// Copy `bytes` into `storage` at the physical offsets of logical positions
/// `start..start + bytes.len()`: from `start % capacity` up to the end of
/// `storage`, and the remainder from its front.
fn copy_in(storage: &mut Vec<u8>, dest: usize, Ghost(start): Ghost<int>, bytes: &[u8])
    requires
        old(storage)@.len() > 0,
        bytes@.len() <= old(storage)@.len(),
        0 <= start,
        dest as int == start % (old(storage)@.len() as int),
    ensures
        final(storage)@.len() == old(storage)@.len(),
        forall|j: int| 0 <= j < bytes@.len() ==>
            final(storage)@[(start + j) % (old(storage)@.len() as int)] == #[trigger] bytes@[j],
        forall|p: int|
            0 <= p && !(start <= p < start + bytes@.len())
                && start + bytes@.len() - old(storage)@.len() <= p < start + old(storage)@.len() ==>
            final(storage)@[#[trigger] (p % (old(storage)@.len() as int))]
                == old(storage)@[p % (old(storage)@.len() as int)],
{
    let cap = storage.len();
    let len = bytes.len();
    let mut j: usize = 0;
    while j < len
        invariant
            storage@.len() == cap,
            cap > 0,
            len == bytes@.len(),
            len <= cap,
            dest as int == start % (cap as int),
            0 <= start,
            j <= len,
            forall|i: int| 0 <= i < j ==> storage@[(start + i) % (cap as int)] == #[trigger] bytes@[i],
            forall|p: int|
                0 <= p && !(start <= p < start + j) && start + len - cap <= p < start + cap ==>
                storage@[#[trigger] (p % (cap as int))] == old(storage)@[p % (cap as int)],
        decreases len - j,
    {
        let idx = if j < cap - dest { dest + j } else { j - (cap - dest) };
        proof {
            lemma_wrap_index(start, j as int, cap as int);
            assert forall|i: int| #![trigger bytes@[i]] 0 <= i < j implies (start + i) % (cap as int) != idx by {
                if (start + i) % (cap as int) == idx {
                    lemma_mod_distinct(start + i, start + j, cap as int);
                }
            }
            assert forall|p: int|
                0 <= p && !(start <= p < start + j + 1) && start + len - cap <= p < start + cap
                implies #[trigger] (p % (cap as int)) != idx by {
                if p % (cap as int) == idx {
                    lemma_mod_distinct(p, start + j, cap as int);
                }
            }
        }
        storage.set(idx, bytes[j]);
        j = j + 1;
    }
}

/// Copy the bytes at the physical offsets of logical positions
/// `start..start + n` into the front of `buf`: from `start % capacity` up to
/// the end of `storage`, and the remainder from its front.
fn copy_out(storage: &Vec<u8>, src: usize, Ghost(start): Ghost<int>, buf: &mut [u8], n: usize)
    requires
        storage@.len() > 0,
        0 <= start,
        src as int == start % (storage@.len() as int),
        n <= old(buf)@.len(),
        n <= storage@.len(),
    ensures
        final(buf)@.len() == old(buf)@.len(),
        forall|j: int| 0 <= j < n ==>
            #[trigger] final(buf)@[j] == storage@[(start + j) % (storage@.len() as int)],
        forall|j: int| n <= j < old(buf)@.len() ==> #[trigger] final(buf)@[j] == old(buf)@[j],
{
    let cap = storage.len();
    let mut j: usize = 0;
    while j < n
        invariant
            storage@.len() == cap,
            cap > 0,
            n <= cap,
            n <= buf@.len(),
            buf@.len() == old(buf)@.len(),
            src as int == start % (cap as int),
            0 <= start,
            j <= n,
            forall|i: int| 0 <= i < j ==> #[trigger] buf@[i] == storage@[(start + i) % (cap as int)],
            forall|i: int| n <= i < buf@.len() ==> #[trigger] buf@[i] == old(buf)@[i],
        decreases n - j,
    {
        let idx = if j < cap - src { src + j } else { j - (cap - src) };
        proof {
            lemma_wrap_index(start, j as int, cap as int);
        }
        buf[j] = storage[idx];
        j = j + 1;
    }
}

impl RingBuffer {
    /// The internal invariant: cursor order, bounded occupancy, and the
    /// storage holding the pending and the settled staged bytes.
    pub closed spec fn wf(&self) -> bool {
        let v = self@;
        let cap = v.capacity as int;
        &&& 0 <= v.read <= v.written <= v.claimed
        &&& cap <= usize::MAX
        &&& self.read == cursor(v.read)
        &&& self.written == cursor(v.written)
        &&& self.claimed == cursor(v.claimed)
        &&& cap > 0 ==> self.read_offset as int == v.read % cap
        &&& cap > 0 ==> self.claim_offset as int == v.claimed % cap
        &&& v.claimed - v.read <= cap
        &&& v.pending.len() == v.written - v.read
        &&& v.staged.len() == v.claimed - v.written
        &&& (v.claims.len() == 0 ==> v.written == v.claimed)
        &&& (v.claims.len() > 0 ==> v.claims[0].0 == v.written)
        &&& forall|k: int| 0 <= k < v.claims.len() ==> #[trigger] v.claims[k].1 > 0
        &&& forall|k: int| 0 <= k < v.claims.len() ==> v.written <= #[trigger] v.claims[k].0
        &&& forall|k: int| 0 <= k < v.claims.len() ==>
            v.claims[k].0 + #[trigger] v.claims[k].1 <= v.claimed
        &&& forall|k: int| 0 < k < v.claims.len() ==>
            v.claims[k - 1].0 + v.claims[k - 1].1 <= #[trigger] v.claims[k].0
        &&& forall|i: int| 0 <= i < v.pending.len() ==>
            self.storage@[(v.read + i) % cap] == #[trigger] v.pending[i]
        &&& forall|i: int| 0 <= i < v.staged.len() && !in_claims(v.claims, v.written + i) ==>
            self.storage@[(v.written + i) % cap] == #[trigger] v.staged[i]
    }

    /// A ring of `capacity` bytes, with all cursors at zero.
    pub fn new(capacity: usize) -> (r: RingBuffer)
        ensures
            r.wf(),
            r@.capacity == capacity,
            r@.read == 0,
            r@.written == 0,
            r@.claimed == 0,
            r@.pending.len() == 0,
            r@.staged.len() == 0,
            r@.claims.len() == 0,
    {
        let r = RingBuffer {
            storage: vec![0u8; capacity],
            read: 0,
            written: 0,
            claimed: 0,
            read_offset: 0,
            claim_offset: 0,
            read_total: Ghost(0),
            written_total: Ghost(0),
            claimed_total: Ghost(0),
            pending: Ghost(Seq::empty()),
            staged: Ghost(Seq::empty()),
            claims: Ghost(Seq::empty()),
        };
        proof {
            lemma_small_mod(0, word() as nat);
            if capacity > 0 {
                lemma_small_mod(0, capacity as nat);
            }
        }
        r
    }

    /// Capacity of the ring in bytes.
    pub fn capacity(&self) -> (r: usize)
        ensures
            r == self@.capacity,
    {
        self.storage.len()
    }

    /// The read cursor: bytes drained so far, modulo the usize width.
    pub fn read(&self) -> (r: usize)
        ensures
            self.wf() ==> r == cursor(self@.read),
    {
        self.read
    }

    /// The written cursor: bytes published so far, modulo the usize width.
    pub fn written(&self) -> (r: usize)
        ensures
            self.wf() ==> r == cursor(self@.written),
    {
        self.written
    }

    /// The claimed cursor: bytes reserved so far, modulo the usize width.
    pub fn claimed(&self) -> (r: usize)
        ensures
            self.wf() ==> r == cursor(self@.claimed),
    {
        self.claimed
    }

    /// Reserve `size` bytes at the end of the claimed range, or fail when
    /// they do not fit. A failed claim changes nothing.
    pub fn claim(&mut self, size: usize) -> (r: Result<Claim, AtCapacity>)
        requires
            old(self).wf(),
        ensures
            final(self).wf(),
            (r is Err) <==> !old(self)@.fits(size as int),
            r is Err ==> final(self)@ == old(self)@,
            r is Ok ==> {
                let c = r->Ok_0;
                let o = old(self)@;
                let n = final(self)@;
                &&& c.start == cursor(o.claimed)
                &&& (o.capacity > 0 ==> c.offset as int == o.claimed % (o.capacity as int))
                &&& c.size == size
                &&& c.first == (o.claims.len() == 0)
                &&& n.capacity == o.capacity
                &&& n.read == o.read
                &&& n.written == o.written
                &&& n.claimed == o.claimed + size
                &&& n.pending == o.pending
                &&& n.staged == o.staged + Seq::new(size as nat, |i: int| 0u8)
                &&& n.claims == if size == 0 {
                    o.claims
                } else {
                    o.claims.push((o.claimed, size as int))
                }
            },
    {
        let capacity = self.storage.len();
        let start = self.claimed;
        let offset = self.claim_offset;
        let used = wrap_sub(start, self.read);
        let ghost ct = self.claimed_total@ as int;
        let ghost wt = self.written_total@ as int;
        proof {
            lemma_counter_diff(start, self.read, ct, self.read_total@ as int);
            lemma_counter_diff(start, self.written, ct, wt);
        }
        if size > capacity - used {
            return Err(AtCapacity);
        }
        self.claimed = wrap_add(start, size);
        if capacity > 0 {
            self.claim_offset = if size < capacity - offset {
                offset + size
            } else {
                size - (capacity - offset)
            };
        }
        let first = self.written == start;
        let ghost old_claims = self.claims@;
        let ghost old_staged = self.staged@;
        proof {
            lemma_cursor_advance(ct, start, size as int);
            if capacity > 0 {
                lemma_wrap_index(ct, size as int, capacity as int);
            }
            self.claimed_total = Ghost((ct + size) as nat);
            if old_claims.len() > 0 {
                assert(old_claims[0].1 > 0);
            }
            self.staged = Ghost(old_staged + Seq::new(size as nat, |i: int| 0u8));
            if size > 0 {
                self.claims = Ghost(old_claims.push((ct, size as int)));
                assert forall|p: int| !in_claims(self.claims@, p) implies !in_claims(old_claims, p) by {
                    lemma_in_claims_push(old_claims, (ct, size as int), p);
                }
                if old_claims.len() > 0 {
                    assert(old_claims[old_claims.len() - 1].0 + old_claims[old_claims.len() - 1].1
                        <= ct);
                }
            }
            assert forall|i: int| 0 <= i < old_staged.len() implies #[trigger] self.staged@[i] == old_staged[i] by {}
            let cap = capacity as int;
            assert forall|i: int| 0 <= i < self.staged@.len() && !in_claims(self.claims@, wt + i) implies
                self.storage@[(wt + i) % cap] == #[trigger] self.staged@[i] by {
                if size > 0 {
                    lemma_in_claims_push(old_claims, (ct, size as int), wt + i);
                }
                assert(self.staged@[i] == old_staged[i]);
            }
        }
        Ok(Claim { start, offset, size, first })
    }

    /// The staged bytes once `c`'s writer has copied `bytes` into its range.
    pub open spec fn staged_with(v: RingView, c: Claim, bytes: Seq<u8>) -> Seq<u8> {
        let at = v.top_offset();
        v.staged.subrange(0, at) + bytes + v.staged.subrange(at + c.size, v.staged.len() as int)
    }

    /// Copy `bytes` into the range of claim `c` and retire the claim. When `c`
    /// is first, everything claimed so far becomes pending, for the nested
    /// claims that completed meanwhile have been copied too.
    pub fn commit(&mut self, c: Claim, bytes: &[u8])
        requires
            old(self).wf(),
            old(self)@.can_commit(c),
            bytes@.len() == c.size,
        ensures
            final(self).wf(),
            ({
                let o = old(self)@;
                let n = final(self)@;
                let staged = Self::staged_with(o, c, bytes@);
                &&& n.capacity == o.capacity
                &&& n.read == o.read
                &&& n.claimed == o.claimed
                &&& if c.size == 0 {
                    n == o
                } else if c.first {
                    &&& n.claims.len() == 0
                    &&& n.written == o.claimed
                    &&& n.pending == o.pending + staged
                    &&& n.staged.len() == 0
                } else {
                    &&& n.claims == o.claims.drop_last()
                    &&& n.written == o.written
                    &&& n.pending == o.pending
                    &&& n.staged == staged
                }
            }),
    {
        if c.size == 0 {
            return;
        }
        let ghost o = self@;
        let ghost old_storage = self.storage@;
        let ghost top = o.claims.last();
        let ghost rest = o.claims.drop_last();
        proof {
            let k = o.claims.len() - 1;
            assert(o.claims[k] == top);
            assert(top.0 + top.1 <= o.claimed);
            assert(o.claims =~= rest.push(top));
        }
        copy_in(&mut self.storage, c.offset, Ghost(top.0), bytes);
        let ghost staged = Self::staged_with(o, c, bytes@);
        proof {
            let cap = o.capacity as int;
            let at = o.top_offset();
            assert(0 <= at && at + c.size <= o.staged.len());
            assert(staged.len() == o.staged.len());
            assert forall|i: int| 0 <= i < o.pending.len() implies
                self.storage@[(o.read + i) % cap] == #[trigger] o.pending[i] by {
                assert(self.storage@[(o.read + i) % cap] == old_storage[(o.read + i) % cap]);
            }
            assert forall|i: int| 0 <= i < staged.len() && !in_claims(rest, o.written + i) implies
                self.storage@[(o.written + i) % cap] == #[trigger] staged[i] by {
                lemma_in_claims_push(rest, top, o.written + i);
                if at <= i < at + c.size {
                    assert(staged[i] == bytes@[i - at]);
                    assert(o.written + i == top.0 + (i - at));
                } else {
                    assert(staged[i] == o.staged[i]);
                    assert(self.storage@[(o.written + i) % cap] == old_storage[(o.written + i) % cap]);
                }
            }
            self.claims = Ghost(rest);
        }
        if c.first {
            self.written = self.claimed;
            proof {
                self.written_total = Ghost(self.claimed_total@);
                let cap = o.capacity as int;
                let pending = o.pending + staged;
                assert(rest.len() == 0);
                assert forall|i: int| 0 <= i < pending.len() implies
                    self.storage@[(o.read + i) % cap] == #[trigger] pending[i] by {
                    if i >= o.pending.len() {
                        let q = i - o.pending.len();
                        assert(pending[i] == staged[q]);
                        assert(o.read + i == o.written + q);
                        assert(!in_claims(rest, o.written + q));
                    }
                }
                self.pending = Ghost(pending);
                self.staged = Ghost(Seq::empty());
            }
        } else {
            proof {
                self.staged = Ghost(staged);
            }
        }
    }

    /// Claim room for `bytes`, copy them in and commit: the whole enqueue of
    /// one entry, as run without interruption (possibly nested inside other
    /// outstanding claims). It fails, changing nothing, when they do not fit.
    pub fn try_enqueue(&mut self, bytes: &[u8]) -> (r: Result<(), AtCapacity>)
        requires
            old(self).wf(),
        ensures
            final(self).wf(),
            (r is Err) <==> !old(self)@.fits(bytes@.len() as int),
            r is Err ==> final(self)@ == old(self)@,
            r is Ok ==> final(self)@ == old(self)@.enqueued(bytes@),
    {
        let ghost o = self@;
        let c = match self.claim(bytes.len()) {
            Ok(c) => c,
            Err(e) => {
                return Err(e);
            },
        };
        let ghost m = self@;
        self.commit(c, bytes);
        proof {
            if c.size == 0 {
                assert(o.pending + bytes@ =~= o.pending);
                assert(o.staged + bytes@ =~= o.staged);
                assert(m.staged =~= o.staged);
            } else {
                let at = m.top_offset();
                assert(at == o.staged.len());
                assert(m.staged.subrange(0, at) =~= o.staged);
                assert(Self::staged_with(m, c, bytes@) =~= o.staged + bytes@);
                assert(m.claims.drop_last() =~= o.claims);
            }
            let e = o.enqueued(bytes@);
            assert(self@.pending =~= e.pending);
            assert(self@.staged =~= e.staged);
            assert(self@.claims =~= e.claims);
        }
        Ok(())
    }

    /// Copy unread bytes, as many as fit, to the front of `buf` and advance
    /// `read` past them; returns how many. The rest of `buf` is untouched.
    pub fn drain_into(&mut self, buf: &mut [u8]) -> (n: usize)
        requires
            old(self).wf(),
        ensures
            final(self).wf(),
            n as int == old(self)@.drain_count(old(buf)@.len() as int),
            final(self)@ == old(self)@.drained(n as int),
            final(buf)@.len() == old(buf)@.len(),
            final(buf)@.subrange(0, n as int) == old(self)@.pending.subrange(0, n as int),
            final(buf)@.subrange(n as int, old(buf)@.len() as int) == old(buf)@.subrange(
                n as int,
                old(buf)@.len() as int,
            ),
    {
        let capacity = self.storage.len();
        let read = self.read;
        let written = self.written;
        let ghost rt = self.read_total@ as int;
        proof {
            lemma_counter_diff(written, read, self.written_total@ as int, rt);
        }
        if capacity == 0 || buf.len() == 0 || written == read {
            proof {
                assert(old(buf)@.subrange(0, 0) =~= self.pending@.subrange(0, 0));
                assert(self.pending@.skip(0) =~= self.pending@);
            }
            return 0;
        }
        let unread = wrap_sub(written, read);
        let available = if buf.len() < unread { buf.len() } else { unread };
        let offset = self.read_offset;
        copy_out(&self.storage, offset, Ghost(rt), buf, available);
        self.read = wrap_add(read, available);
        self.read_offset = if available < capacity - offset {
            offset + available
        } else {
            available - (capacity - offset)
        };
        proof {
            lemma_cursor_advance(rt, read, available as int);
            lemma_wrap_index(rt, available as int, capacity as int);
            self.read_total = Ghost((rt + available) as nat);
        }
        proof {
            let o = self.pending@;
            let cap = capacity as int;
            assert(buf@.subrange(0, available as int) =~= o.subrange(0, available as int)) by {
                assert forall|j: int| 0 <= j < available implies #[trigger] buf@[j] == o[j] by {
                    assert(buf@[j] == self.storage@[(rt + j) % cap]);
                }
            }
            assert(buf@.subrange(available as int, buf@.len() as int) =~= old(buf)@.subrange(
                available as int,
                old(buf)@.len() as int,
            ));
            let rest = o.skip(available as int);
            assert forall|i: int| 0 <= i < rest.len() implies
                self.storage@[(rt + available + i) % cap] == #[trigger] rest[i] by {
                assert(rest[i] == o[available + i]);
            }
            self.pending = Ghost(rest);
        }
        available
    }
}


/// The entries of `msgs` laid end to end, in order.
pub open spec fn concat(msgs: Seq<Seq<u8>>) -> Seq<u8>
    decreases msgs.len(),
{
    if msgs.len() == 0 {
        Seq::empty()
    } else {
        concat(msgs.drop_last()) + msgs.last()
    }
}

/// The state after each entry of `msgs` is enqueued in turn, without interruption.
pub open spec fn enqueued_all(v: RingView, msgs: Seq<Seq<u8>>) -> RingView
    decreases msgs.len(),
{
    if msgs.len() == 0 {
        v
    } else {
        enqueued_all(v, msgs.drop_last()).enqueued(msgs.last())
    }
}

proof fn lemma_concat_prefix(msgs: Seq<Seq<u8>>, k: int)
    requires
        0 <= k <= msgs.len(),
    ensures
        concat(msgs.take(k)).len() <= concat(msgs).len(),
        k < msgs.len() ==> concat(msgs.take(k + 1)) == concat(msgs.take(k)) + msgs[k],
    decreases msgs.len(),
{
    if k < msgs.len() {
        assert(msgs.take(k + 1).drop_last() =~= msgs.take(k));
        assert(msgs.take(k + 1).last() == msgs[k]);
    }
    if k == msgs.len() {
        assert(msgs.take(k) =~= msgs);
    } else {
        lemma_concat_prefix(msgs.drop_last(), k);
        assert(msgs.drop_last().take(k) =~= msgs.take(k));
    }
}

proof fn lemma_enqueued_all(v: RingView, msgs: Seq<Seq<u8>>)
    requires
        v.claims.len() == 0,
    ensures
        ({
            let e = enqueued_all(v, msgs);
            &&& e.capacity == v.capacity
            &&& e.read == v.read
            &&& e.claimed == v.claimed + concat(msgs).len()
            &&& e.written == e.claimed || msgs.len() == 0
            &&& e.pending == v.pending + concat(msgs)
            &&& e.claims.len() == 0
        }),
    decreases msgs.len(),
{
    if msgs.len() == 0 {
        assert(v.pending + concat(msgs) =~= v.pending);
    } else {
        lemma_enqueued_all(v, msgs.drop_last());
        assert(v.pending + concat(msgs.drop_last()) + msgs.last() =~= v.pending + concat(msgs));
    }
}

/// Whatever a well-formed ring went through, `read <= written <= claimed`
/// and at most `capacity` bytes lie between `read` and `claimed`.
pub proof fn lemma_cursor_order(r: &RingBuffer)
    requires
        r.wf(),
    ensures
        0 <= r@.read <= r@.written <= r@.claimed,
        r@.claimed - r@.read <= r@.capacity,
        r@.pending.len() == r@.written - r@.read,
        r@.capacity <= usize::MAX,
        wrapped_diff(cursor(r@.written), cursor(r@.read)) == r@.written - r@.read,
        wrapped_diff(cursor(r@.claimed), cursor(r@.read)) == r@.claimed - r@.read,
{
    lemma_counter_diff(cursor(r@.written), cursor(r@.read), r@.written, r@.read);
    lemma_counter_diff(cursor(r@.claimed), cursor(r@.read), r@.claimed, r@.read);
}

/// With no claim outstanding, everything claimed has been published.
pub proof fn lemma_no_claims(r: &RingBuffer)
    requires
        r.wf(),
        r@.claims.len() == 0,
    ensures
        r@.written == r@.claimed,
        r@.staged.len() == 0,
{
}

/// Entries enqueued one after another into a ring with no claim outstanding
/// and room for all of them each succeed; a drain into a buffer at least as
/// long as all pending bytes then yields what was pending before, followed by
/// the entries in the order they were enqueued, and leaves nothing pending.
pub proof fn lemma_round_trip(r: &RingBuffer, msgs: Seq<Seq<u8>>, buf_len: int)
    requires
        r.wf(),
        r@.claims.len() == 0,
        concat(msgs).len() <= r@.room(),
        buf_len >= r@.pending.len() + concat(msgs).len(),
    ensures
        forall|k: int| 0 <= k < msgs.len() ==>
            #[trigger] enqueued_all(r@, msgs.take(k)).fits(msgs[k].len() as int),
        ({
            let e = enqueued_all(r@, msgs);
            let n = e.drain_count(buf_len);
            &&& n == r@.pending.len() + concat(msgs).len()
            &&& e.pending.subrange(0, n) == r@.pending + concat(msgs)
            &&& e.drained(n).pending.len() == 0
        }),
{
    let v = r@;
    assert forall|k: int| 0 <= k < msgs.len() implies
        #[trigger] enqueued_all(v, msgs.take(k)).fits(msgs[k].len() as int) by {
        lemma_enqueued_all(v, msgs.take(k));
        lemma_concat_prefix(msgs, k);
        lemma_concat_prefix(msgs, k + 1);
    }
    lemma_enqueued_all(v, msgs);
    let e = enqueued_all(v, msgs);
    assert(e.pending.subrange(0, e.pending.len() as int) =~= e.pending);
}

/// Draining a ring with nothing pending yields nothing and leaves it as it was.
pub proof fn lemma_drain_when_empty(r: &RingBuffer, buf_len: int)
    requires
        r.wf(),
        r@.pending.len() == 0,
        buf_len >= 0,
    ensures
        r@.drain_count(buf_len) == 0,
        r@.drained(0) == r@,
{
    assert(r@.pending.skip(0) =~= r@.pending);
}

} // verus!
