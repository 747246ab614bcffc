//! The deferred logger: one ring buffer, one render buffer, a renderer, a
//! flusher and usage counters, behind log / flush entry points.

use vstd::prelude::*;
use vstd::utf8::{valid_utf8, decode_utf8};
use crate::{Flusher, Renderer};
use crate::gate::Gate;
use crate::record::{Record, LevelFilter, immediate_target};
use crate::ring::{AtCapacity, RingBuffer, RingView, cursor};
use crate::render::DefaultRenderer;

verus! {

/// Usage counters of a logger.
#[derive(Clone, Copy, Debug, PartialEq, Eq, Structural)]
pub struct Statistics {
    /// Log calls that passed the level filter.
    pub attempts: usize,
    /// Log calls whose record was buffered or flushed at once.
    pub successes: usize,
    /// Flush calls.
    pub flushes: usize,
    /// Bytes drained so far.
    pub read: usize,
    /// Bytes published to the ring so far.
    pub written: usize,
}

/// A counter one step further, wrapping at `usize::MAX`.
pub open spec fn next(n: usize) -> usize {
    if n == usize::MAX {
        0
    } else {
        (n + 1) as usize
    }
}

fn bump(n: usize) -> (r: usize)
    ensures
        r == next(n),
{
    if n == usize::MAX {
        0
    } else {
        n + 1
    }
}

/// The text `String::from_utf8_lossy` makes of `bytes`: each invalid sequence
/// becomes a replacement character.
pub uninterp spec fn lossy_of(bytes: Seq<u8>) -> Seq<char>;

/// Counters wrap at this modulus.
pub open spec fn counter_modulus() -> int {
    usize::MAX as int + 1
}

/// A wrapping counter that stands for `total` keeps standing for it when both
/// take one step.
proof fn lemma_next_mod(n: usize, total: nat)
    requires
        n as int == total as int % counter_modulus(),
    ensures
        next(n) as int == (total + 1) as int % counter_modulus(),
{
    let m = counter_modulus();
    vstd::arithmetic::div_mod::lemma_add_mod_noop(total as int, 1, m);
    vstd::arithmetic::div_mod::lemma_small_mod(1, m as nat);
    if n < usize::MAX {
        vstd::arithmetic::div_mod::lemma_small_mod((n + 1) as nat, m as nat);
    } else {
        vstd::arithmetic::div_mod::lemma_mod_self_0(m);
    }
}

/// Relies on `String::from_utf8_lossy`: the text depends on the bytes alone,
/// and valid UTF-8 comes back as the text it encodes.
#[verifier::external_body]
fn lossy_text(bytes: &[u8]) -> (r: String)
    ensures
        r@ == lossy_of(bytes@),
        valid_utf8(bytes@) ==> r@ == decode_utf8(bytes@),
{
    String::from_utf8_lossy(bytes).into_owned()
}

/// A deferred logger.
pub struct Delogger<F: Flusher, R: Renderer> {
    flusher: F,
    renderer: R,
    level: LevelFilter,
    ring: RingBuffer,
    render_buffer: Vec<u8>,
    attempts: usize,
    successes: usize,
    flushes: usize,
    /// Every text handed to the flusher so far, oldest first.
    handed: Ghost<Seq<Seq<char>>>,
    /// How many times the renderer has been called.
    renders: Ghost<nat>,
    /// Unwrapped counts behind `attempts` and `successes`.
    total_attempts: Ghost<nat>,
    total_successes: Ghost<nat>,
}

impl<F: Flusher, R: Renderer> Delogger<F, R> {
    /// Well-formedness: the ring is well formed and no claim is outstanding
    /// between calls.
    pub closed spec fn wf(&self) -> bool {
        &&& self.ring.wf()
        &&& self.ring@.claims.len() == 0
        &&& self.total_successes@ <= self.total_attempts@
        &&& self.attempts as int == self.total_attempts@ as int % counter_modulus()
        &&& self.successes as int == self.total_successes@ as int % counter_modulus()
    }

    /// Every text handed to the flusher so far, oldest first.
    pub closed spec fn handed(&self) -> Seq<Seq<char>> {
        self.handed@
    }

    /// How many times the renderer has been called.
    pub closed spec fn renders(&self) -> nat {
        self.renders@
    }

    /// The renderer.
    pub closed spec fn renderer(&self) -> R {
        self.renderer
    }

    /// Log calls that passed the level filter, without wrapping.
    pub closed spec fn total_attempts(&self) -> nat {
        self.total_attempts@
    }

    /// Log calls that succeeded, without wrapping.
    pub closed spec fn total_successes(&self) -> nat {
        self.total_successes@
    }

    /// The state of the ring buffer.
    pub closed spec fn ring_view(&self) -> RingView {
        self.ring@
    }

    /// The level filter records must pass.
    pub closed spec fn max_level(&self) -> LevelFilter {
        self.level
    }

    /// Capacity of the render buffer in bytes.
    pub closed spec fn render_capacity(&self) -> nat {
        self.render_buffer@.len()
    }

    /// Log calls that passed the level filter, as a wrapping counter.
    pub closed spec fn attempts_count(&self) -> usize {
        self.attempts
    }

    /// Log calls that succeeded, as a wrapping counter.
    pub closed spec fn successes_count(&self) -> usize {
        self.successes
    }

    /// Flush calls, as a wrapping counter.
    pub closed spec fn flushes_count(&self) -> usize {
        self.flushes
    }

    /// The counters, with `read` and `written` the ring's cursors wrapped to
    /// `usize`.
    pub open spec fn stats(&self) -> Statistics {
        Statistics {
            attempts: self.attempts_count(),
            successes: self.successes_count(),
            flushes: self.flushes_count(),
            read: cursor(self.ring_view().read),
            written: cursor(self.ring_view().written),
        }
    }

    /// One log call of `record`, from `self` to `next`, that reports
    /// `accepted`. A record the level filter rejects changes nothing, is not
    /// rendered and is accepted. Otherwise `attempts` counts it and it is
    /// rendered once into the render buffer. An urgent record's rendered text
    /// goes to the flusher, the ring is left alone and it is accepted. Any
    /// other is accepted exactly when the ring has room for its rendered
    /// bytes, which are then enqueued; the flusher is not called.
    pub open spec fn log_step(&self, next: &Self, record: &Record, accepted: bool) -> bool {
        let admitted = self.max_level().admits(record.level);
        let text = self.renderer().rendered(record, self.render_capacity());
        &&& next.max_level() == self.max_level()
        &&& next.render_capacity() == self.render_capacity()
        &&& next.renderer() == self.renderer()
        &&& next.stats().flushes == self.stats().flushes
        &&& !admitted ==> {
            &&& accepted
            &&& next.ring_view() == self.ring_view()
            &&& next.stats() == self.stats()
            &&& next.handed() == self.handed()
            &&& next.renders() == self.renders()
        }
        &&& admitted ==> {
            &&& next.stats().attempts == crate::logger::next(self.stats().attempts)
            &&& next.renders() == self.renders() + 1
        }
        &&& admitted && record.target@ == immediate_target() ==> {
            &&& accepted
            &&& next.ring_view() == self.ring_view()
            &&& next.stats().successes == crate::logger::next(self.stats().successes)
            &&& next.handed() == self.handed().push(lossy_of(text))
            &&& valid_utf8(text) ==> next.handed().last() == decode_utf8(text)
        }
        &&& admitted && record.target@ != immediate_target() ==> {
            &&& next.handed() == self.handed()
            &&& (accepted <==> self.ring_view().fits(text.len() as int))
            &&& accepted ==> next.ring_view() == self.ring_view().enqueued(text)
                && next.stats().successes == crate::logger::next(self.stats().successes)
            &&& !accepted ==> next.ring_view() == self.ring_view() && next.stats().successes
                == self.stats().successes
        }
    }

    /// A logger with a ring of `capacity` bytes and a render buffer of
    /// `render_capacity` bytes, letting through records that `level` admits.
    pub fn new(level: LevelFilter, flusher: F, renderer: R, capacity: usize, render_capacity: usize) -> (r: Self)
        ensures
            r.wf(),
            r.max_level() == level,
            r.render_capacity() == render_capacity,
            r.ring_view().capacity == capacity,
            r.ring_view().read == 0,
            r.ring_view().written == 0,
            r.ring_view().claimed == 0,
            r.ring_view().pending.len() == 0,
            r.stats() == (Statistics { attempts: 0, successes: 0, flushes: 0, read: 0, written: 0 }),
            r.handed().len() == 0,
            r.renders() == 0,
            r.renderer() == renderer,
    {
        Delogger {
            flusher,
            renderer,
            level,
            ring: RingBuffer::new(capacity),
            render_buffer: vec![0u8; render_capacity],
            attempts: 0,
            successes: 0,
            flushes: 0,
            handed: Ghost(Seq::empty()),
            renders: Ghost(0),
            total_attempts: Ghost(0),
            total_successes: Ghost(0),
        }
    }

    /// Capacity of the ring buffer in bytes.
    pub fn capacity(&self) -> (r: usize)
        ensures
            r == self.ring_view().capacity,
    {
        self.ring.capacity()
    }

    /// A snapshot of the counters.
    pub fn statistics(&self) -> (r: Statistics)
        requires
            self.wf(),
        ensures
            r == self.stats(),
    {
        Statistics {
            attempts: self.attempts,
            successes: self.successes,
            flushes: self.flushes,
            read: self.ring.read(),
            written: self.ring.written(),
        }
    }

    /// Render `record` into the render buffer; returns the rendered length.
    fn render_record(&mut self, record: &Record) -> (n: usize)
        requires
            old(self).wf(),
        ensures
            final(self).wf(),
            n <= old(self).render_buffer@.len(),
            n == old(self).renderer.rendered(record, old(self).render_buffer@.len()).len(),
            final(self).render_buffer@.take(n as int) == old(self).renderer.rendered(
                record,
                old(self).render_buffer@.len(),
            ),
            final(self).render_buffer@.len() == old(self).render_buffer@.len(),
            final(self).renders@ == old(self).renders@ + 1,
            final(self).renderer == old(self).renderer,
            final(self).ring == old(self).ring,
            final(self).level == old(self).level,
            final(self).attempts == old(self).attempts,
            final(self).successes == old(self).successes,
            final(self).flushes == old(self).flushes,
            final(self).handed == old(self).handed,
            final(self).total_attempts == old(self).total_attempts,
            final(self).total_successes == old(self).total_successes,
    {
        proof {
            self.renders = Ghost(self.renders@ + 1);
        }
        self.renderer.render(self.render_buffer.as_mut_slice(), record)
    }

    /// Count one more attempt.
    fn count_attempt(&mut self)
        requires
            old(self).attempts as int == old(self).total_attempts@ as int % counter_modulus(),
        ensures
            final(self).attempts == next(old(self).attempts),
            final(self).total_attempts@ == old(self).total_attempts@ + 1,
            final(self).attempts as int == final(self).total_attempts@ as int % counter_modulus(),
            final(self).ring == old(self).ring,
            final(self).level == old(self).level,
            final(self).render_buffer == old(self).render_buffer,
            final(self).renderer == old(self).renderer,
            final(self).successes == old(self).successes,
            final(self).flushes == old(self).flushes,
            final(self).handed == old(self).handed,
            final(self).renders == old(self).renders,
            final(self).total_successes == old(self).total_successes,
    {
        proof {
            lemma_next_mod(self.attempts, self.total_attempts@);
            self.total_attempts = Ghost(self.total_attempts@ + 1);
        }
        self.attempts = bump(self.attempts);
    }

    /// Count one more success.
    fn count_success(&mut self)
        requires
            old(self).successes as int == old(self).total_successes@ as int % counter_modulus(),
        ensures
            final(self).successes == next(old(self).successes),
            final(self).total_successes@ == old(self).total_successes@ + 1,
            final(self).successes as int == final(self).total_successes@ as int % counter_modulus(),
            final(self).ring == old(self).ring,
            final(self).level == old(self).level,
            final(self).render_buffer == old(self).render_buffer,
            final(self).renderer == old(self).renderer,
            final(self).attempts == old(self).attempts,
            final(self).flushes == old(self).flushes,
            final(self).handed == old(self).handed,
            final(self).renders == old(self).renders,
            final(self).total_attempts == old(self).total_attempts,
    {
        proof {
            lemma_next_mod(self.successes, self.total_successes@);
            self.total_successes = Ghost(self.total_successes@ + 1);
        }
        self.successes = bump(self.successes);
    }

    /// Log `record` and say whether it was taken. A record the level filter
    /// rejects is dropped and counts nothing. Otherwise `attempts` counts it;
    /// an urgent record (target `"!"`) is rendered and handed to the flusher
    /// at once; any other is rendered and enqueued, or refused when the ring
    /// has no room for it, changing nothing but `attempts`.
    pub fn try_enqueue(&mut self, record: &Record) -> (r: Result<(), AtCapacity>)
        requires
            old(self).wf(),
        ensures
            final(self).wf(),
            old(self).log_step(final(self), record, r is Ok),
    {
        if !self.level.lets_through(record.level) {
            return Ok(());
        }
        self.count_attempt();
        let n = self.render_record(record);
        let rendered = &self.render_buffer.as_slice()[0..n];
        proof {
            assert(rendered@ =~= self.render_buffer@.take(n as int));
        }
        if record.is_immediate() {
            let text = lossy_text(rendered);
            proof {
                self.handed = Ghost(self.handed@.push(text@));
            }
            self.flusher.flush(text.as_str());
            self.count_success();
            return Ok(());
        }
        let result = self.ring.try_enqueue(rendered);
        if result.is_ok() {
            self.count_success();
        }
        result
    }

    /// Log `record`, dropping it silently when the ring has no room.
    pub fn enqueue(&mut self, record: &Record)
        requires
            old(self).wf(),
        ensures
            final(self).wf(),
            exists|accepted: bool| old(self).log_step(final(self), record, accepted),
    {
        let _ = self.try_enqueue(record);
    }

    /// Count a flush and drain as many pending bytes as fit into the front of
    /// `buf`; returns how many. The rest of `buf` is untouched.
    pub fn dequeue(&mut self, buf: &mut [u8]) -> (n: usize)
        requires
            old(self).wf(),
        ensures
            final(self).wf(),
            final(self).max_level() == old(self).max_level(),
            final(self).render_capacity() == old(self).render_capacity(),
            final(self).stats().attempts == old(self).stats().attempts,
            final(self).stats().successes == old(self).stats().successes,
            final(self).stats().flushes == next(old(self).stats().flushes),
            final(self).handed() == old(self).handed(),
            final(self).renders() == old(self).renders(),
            final(self).renderer() == old(self).renderer(),
            n as int == old(self).ring_view().drain_count(old(buf)@.len() as int),
            final(self).ring_view() == old(self).ring_view().drained(n as int),
            final(buf)@.len() == old(buf)@.len(),
            final(buf)@.subrange(0, n as int) == old(self).ring_view().pending.subrange(0, n as int),
            forall|i: int| n <= i < old(buf)@.len() ==> #[trigger] final(buf)@[i] == old(buf)@[i],
    {
        self.flushes = bump(self.flushes);
        let n = self.ring.drain_into(buf);
        proof {
            assert forall|i: int| n <= i < old(buf)@.len() implies #[trigger] buf@[i] == old(buf)@[i] by {
                assert(buf@.subrange(n as int, buf@.len() as int)[i - n] == buf@[i]);
            }
        }
        n
    }

    /// Drain everything pending and, when that is not empty, hand it to the
    /// flusher as text.
    pub fn flush(&mut self)
        requires
            old(self).wf(),
        ensures
            final(self).wf(),
            final(self).max_level() == old(self).max_level(),
            final(self).render_capacity() == old(self).render_capacity(),
            final(self).stats().attempts == old(self).stats().attempts,
            final(self).stats().successes == old(self).stats().successes,
            final(self).stats().flushes == next(old(self).stats().flushes),
            final(self).ring_view() == old(self).ring_view().drained(
                old(self).ring_view().pending.len() as int,
            ),
            final(self).handed() == if old(self).ring_view().pending.len() > 0 {
                old(self).handed().push(lossy_of(old(self).ring_view().pending))
            } else {
                old(self).handed()
            },
            old(self).ring_view().pending.len() > 0 && valid_utf8(old(self).ring_view().pending)
                ==> final(self).handed().last() == decode_utf8(old(self).ring_view().pending),
            final(self).renders() == old(self).renders(),
            final(self).renderer() == old(self).renderer(),
    {
        let capacity = self.ring.capacity();
        proof {
            crate::ring::lemma_cursor_order(&self.ring);
        }
        let mut buf = vec![0u8; capacity];
        let n = self.dequeue(buf.as_mut_slice());
        if n > 0 {
            let drained = &buf.as_slice()[0..n];
            let text = lossy_text(drained);
            proof {
                assert(drained@ =~= old(self).ring_view().pending);
                self.handed = Ghost(self.handed@.push(text@));
            }
            self.flusher.flush(text.as_str());
        }
    }
}



/// The one logger of a program: empty until the first initialization, which
/// alone succeeds; it then stays initialized.
pub struct LoggerSlot<F: Flusher, R: Renderer> {
    logger: Option<Delogger<F, R>>,
}

impl<F: Flusher, R: Renderer> LoggerSlot<F, R> {
    /// Whether a logger has been installed.
    pub closed spec fn initialized(&self) -> bool {
        self.logger is Some
    }

    /// The installed logger.
    pub closed spec fn logger(&self) -> Delogger<F, R>
        recommends
            self.initialized(),
    {
        self.logger->Some_0
    }

    pub closed spec fn wf(&self) -> bool {
        self.logger is Some ==> self.logger->Some_0.wf()
    }

    /// An empty slot.
    pub fn new() -> (r: Self)
        ensures
            r.wf(),
            !r.initialized(),
    {
        LoggerSlot { logger: None }
    }

    /// Install a logger built from these parts, unless one is installed
    /// already: then fail and change nothing.
    pub fn init(
        &mut self,
        level: LevelFilter,
        flusher: F,
        renderer: R,
        capacity: usize,
        render_capacity: usize,
    ) -> (r: Result<(), ()>)
        requires
            old(self).wf(),
        ensures
            final(self).wf(),
            (r is Ok) <==> !old(self).initialized(),
            final(self).initialized(),
            r is Err ==> *final(self) == *old(self),
            r is Ok ==> {
                let d = final(self).logger();
                &&& d.max_level() == level
                &&& d.render_capacity() == render_capacity
                &&& d.ring_view().capacity == capacity
                &&& d.ring_view().read == 0
                &&& d.ring_view().written == 0
                &&& d.ring_view().pending.len() == 0
                &&& d.stats() == (Statistics {
                    attempts: 0,
                    successes: 0,
                    flushes: 0,
                    read: 0,
                    written: 0,
                })
                &&& d.handed().len() == 0
                &&& d.renderer() == renderer
            },
    {
        if self.logger.is_some() {
            return Err(());
        }
        self.logger = Some(Delogger::new(level, flusher, renderer, capacity, render_capacity));
        Ok(())
    }

    /// Log `record` through the installed logger; fails when there is none
    /// or when it refuses the record.
    pub fn try_log(&mut self, record: &Record) -> (r: Result<(), ()>)
        requires
            old(self).wf(),
        ensures
            final(self).wf(),
            final(self).initialized() == old(self).initialized(),
            !old(self).initialized() ==> r is Err && *final(self) == *old(self),
            old(self).initialized() ==> old(self).logger().log_step(
                &final(self).logger(),
                record,
                r is Ok,
            ),
    {
        match &mut self.logger {
            Some(d) => d.try_log(record),
            None => Err(()),
        }
    }

    /// Log `record` from a library whose switches are `gate`: a record the
    /// gate closes on is dropped, changing nothing, and counts as logged.
    pub fn try_log_gated(&mut self, gate: &Gate, record: &Record) -> (r: Result<(), ()>)
        requires
            old(self).wf(),
        ensures
            final(self).wf(),
            !gate.opens(record.level) ==> r is Ok && *final(self) == *old(self),
            gate.opens(record.level) ==> {
                &&& final(self).initialized() == old(self).initialized()
                &&& !old(self).initialized() ==> r is Err && *final(self) == *old(self)
                &&& old(self).initialized() ==> old(self).logger().log_step(
                    &final(self).logger(),
                    record,
                    r is Ok,
                )
            },
    {
        if !gate.lets_through(record.level) {
            return Ok(());
        }
        self.try_log(record)
    }

    /// Flush the installed logger; without one, do nothing.
    pub fn flush(&mut self)
        requires
            old(self).wf(),
        ensures
            final(self).wf(),
            final(self).initialized() == old(self).initialized(),
            !old(self).initialized() ==> *final(self) == *old(self),
            old(self).initialized() ==> {
                let o = old(self).logger();
                let d = final(self).logger();
                &&& d.stats().flushes == next(o.stats().flushes)
                &&& d.ring_view() == o.ring_view().drained(o.ring_view().pending.len() as int)
                &&& d.handed() == if o.ring_view().pending.len() > 0 {
                    o.handed().push(lossy_of(o.ring_view().pending))
                } else {
                    o.handed()
                }
                &&& o.ring_view().pending.len() > 0 && valid_utf8(o.ring_view().pending)
                    ==> d.handed().last() == decode_utf8(o.ring_view().pending)
            },
    {
        match &mut self.logger {
            Some(d) => d.flush(),
            None => {},
        }
    }

    /// The installed logger's counters, if there is one.
    pub fn statistics(&self) -> (r: Option<Statistics>)
        requires
            self.wf(),
        ensures
            r is Some <==> self.initialized(),
            r is Some ==> r->Some_0 == self.logger().stats(),
    {
        match &self.logger {
            Some(d) => Some(d.statistics()),
            None => None,
        }
    }
}

impl<F: Flusher> LoggerSlot<F, DefaultRenderer> {
    /// `init` with the default renderer.
    pub fn init_default(
        &mut self,
        level: LevelFilter,
        flusher: F,
        capacity: usize,
        render_capacity: usize,
    ) -> (r: Result<(), ()>)
        requires
            old(self).wf(),
        ensures
            final(self).wf(),
            (r is Ok) <==> !old(self).initialized(),
            final(self).initialized(),
            r is Err ==> *final(self) == *old(self),
            r is Ok ==> {
                let d = final(self).logger();
                &&& d.max_level() == level
                &&& d.render_capacity() == render_capacity
                &&& d.ring_view().capacity == capacity
                &&& d.ring_view().read == 0
                &&& d.ring_view().written == 0
                &&& d.ring_view().pending.len() == 0
                &&& d.stats() == (Statistics {
                    attempts: 0,
                    successes: 0,
                    flushes: 0,
                    read: 0,
                    written: 0,
                })
                &&& d.handed().len() == 0
                &&& d.renderer() == (DefaultRenderer {})
            },
    {
        self.init(level, flusher, crate::render::default(), capacity, render_capacity)
    }
}

/// Counters and cursors of a logger.
pub trait State<T> {
    /// Log calls that passed the level filter.
    fn attempts(&self) -> T;
    /// Log calls whose record was buffered or flushed at once.
    fn successes(&self) -> T;
    /// Flush calls.
    fn flushes(&self) -> T;
    /// Bytes drained so far.
    fn read(&self) -> T;
    /// Bytes published to the ring so far.
    fn written(&self) -> T;
}

/// Fallible logging: the caller learns when a record could not be buffered.
pub trait TryLog {
    /// Whether the logger is in a state where it can be called.
    spec fn ready(&self) -> bool;

    /// Log `record`; fails when the buffer has no room for it.
    fn try_log(&mut self, record: &Record) -> (r: Result<(), ()>)
        requires
            old(self).ready(),
        ensures
            final(self).ready(),
    ;
}

/// Fallible logging with usage counters on top.
pub trait TryLogWithStatistics: TryLog + State<usize> {
    /// A snapshot of the counters.
    fn statistics(&self) -> Statistics
        requires
            self.ready(),
    ;
}

impl<F: Flusher, R: Renderer> State<usize> for Delogger<F, R> {
    fn attempts(&self) -> (r: usize)
        ensures
            r == self.stats().attempts,
    {
        self.attempts
    }

    fn successes(&self) -> (r: usize)
        ensures
            r == self.stats().successes,
    {
        self.successes
    }

    fn flushes(&self) -> (r: usize)
        ensures
            r == self.stats().flushes,
    {
        self.flushes
    }

    fn read(&self) -> (r: usize)
        ensures
            self.wf() ==> r == self.stats().read,
    {
        self.ring.read()
    }

    fn written(&self) -> (r: usize)
        ensures
            self.wf() ==> r == self.stats().written,
    {
        self.ring.written()
    }
}

impl<F: Flusher, R: Renderer> TryLog for Delogger<F, R> {
    open spec fn ready(&self) -> bool {
        self.wf()
    }

    fn try_log(&mut self, record: &Record) -> (r: Result<(), ()>)
        ensures
            old(self).log_step(final(self), record, r is Ok),
    {
        match self.try_enqueue(record) {
            Ok(()) => Ok(()),
            Err(_) => Err(()),
        }
    }
}

impl<F: Flusher, R: Renderer> TryLogWithStatistics for Delogger<F, R> {
    fn statistics(&self) -> (r: Statistics)
        ensures
            r == self.stats(),
    {
        Delogger::statistics(self)
    }
}

/// A well-formed logger has its cursors in order, no more than its capacity
/// between `read` and `written`, and no claim outstanding; no more calls
/// succeeded than were attempted, so that, until `attempts` wraps,
/// `successes <= attempts`.
pub proof fn lemma_logger_cursors<F: Flusher, R: Renderer>(d: &Delogger<F, R>)
    requires
        d.wf(),
    ensures
        0 <= d.ring_view().read <= d.ring_view().written,
        d.ring_view().written == d.ring_view().claimed,
        d.ring_view().claimed - d.ring_view().read <= d.ring_view().capacity,
        d.ring_view().pending.len() == d.ring_view().written - d.ring_view().read,
        d.ring_view().claims.len() == 0,
        d.total_successes() <= d.total_attempts(),
        d.stats().attempts as int == d.total_attempts() as int % counter_modulus(),
        d.stats().successes as int == d.total_successes() as int % counter_modulus(),
        d.total_attempts() <= usize::MAX ==> d.stats().successes <= d.stats().attempts,
        crate::ring::wrapped_diff(d.stats().written, d.stats().read) == d.ring_view().written
            - d.ring_view().read,
        crate::ring::wrapped_diff(d.stats().written, d.stats().read) <= d.ring_view().capacity,
{
    if d.total_attempts() <= usize::MAX {
        vstd::arithmetic::div_mod::lemma_small_mod(d.total_attempts(), counter_modulus() as nat);
        vstd::arithmetic::div_mod::lemma_small_mod(d.total_successes(), counter_modulus() as nat);
    }
    crate::ring::lemma_cursor_order(&d.ring);
    crate::ring::lemma_no_claims(&d.ring);
}


/// Whether a log call of `record` under `filter` goes to the ring: it passes
/// the filter and is not urgent.
pub open spec fn buffered(filter: LevelFilter, record: Record) -> bool {
    filter.admits(record.level) && record.target@ != immediate_target()
}

/// The bytes that log calls of `records`, each accepted or not as `accepted`
/// says, add to the ring: the rendered bytes of each accepted record that
/// goes to the ring, in call order.
pub open spec fn logged_bytes<R: Renderer>(
    renderer: R,
    cap: nat,
    filter: LevelFilter,
    records: Seq<Record>,
    accepted: Seq<bool>,
) -> Seq<u8>
    decreases records.len(),
{
    if records.len() == 0 || accepted.len() != records.len() {
        Seq::empty()
    } else {
        let k = records.len() - 1;
        logged_bytes(renderer, cap, filter, records.drop_last(), accepted.drop_last()) + if buffered(
            filter,
            records[k],
        ) && accepted[k] {
            renderer.rendered(&records[k], cap)
        } else {
            Seq::empty()
        }
    }
}

/// The rendered bytes of each record of `records` that goes to the ring, in
/// call order.
pub open spec fn queued_bytes<R: Renderer>(
    renderer: R,
    cap: nat,
    filter: LevelFilter,
    records: Seq<Record>,
) -> Seq<u8>
    decreases records.len(),
{
    if records.len() == 0 {
        Seq::empty()
    } else {
        let k = records.len() - 1;
        queued_bytes(renderer, cap, filter, records.drop_last()) + if buffered(filter, records[k]) {
            renderer.rendered(&records[k], cap)
        } else {
            Seq::empty()
        }
    }
}

/// A run of log calls, `ds[i]` to `ds[i + 1]` logging `records[i]`, with no
/// flush in between: the pending bytes grow by exactly the rendered bytes of
/// the accepted records that go to the ring, in call order. Urgent records
/// and filtered ones add nothing.
pub proof fn lemma_log_run<F: Flusher, R: Renderer>(
    ds: Seq<Delogger<F, R>>,
    records: Seq<Record>,
    accepted: Seq<bool>,
)
    requires
        ds.len() == records.len() + 1,
        accepted.len() == records.len(),
        forall|i: int| 0 <= i < ds.len() ==> #[trigger] ds[i].wf(),
        forall|i: int|
            0 <= i < records.len() ==> #[trigger] ds[i].log_step(&ds[i + 1], &records[i], accepted[i]),
    ensures
        ({
            let d0 = ds[0];
            let dn = ds.last();
            let added = logged_bytes(
                d0.renderer(),
                d0.render_capacity(),
                d0.max_level(),
                records,
                accepted,
            );
            &&& dn.renderer() == d0.renderer()
            &&& dn.render_capacity() == d0.render_capacity()
            &&& dn.max_level() == d0.max_level()
            &&& dn.ring_view().capacity == d0.ring_view().capacity
            &&& dn.ring_view().read == d0.ring_view().read
            &&& dn.ring_view().claimed == d0.ring_view().claimed + added.len()
            &&& dn.ring_view().pending == d0.ring_view().pending + added
        }),
    decreases records.len(),
{
    let d0 = ds[0];
    if records.len() == 0 {
        let e = logged_bytes(d0.renderer(), d0.render_capacity(), d0.max_level(), records, accepted);
        assert(d0.ring_view().pending + e =~= d0.ring_view().pending);
    } else {
        let k = records.len() - 1;
        let pre = ds.drop_last();
        assert forall|i: int| 0 <= i < pre.len() implies #[trigger] pre[i].wf() by {
            assert(pre[i] == ds[i]);
        }
        assert forall|i: int| 0 <= i < k implies #[trigger] pre[i].log_step(
            &pre[i + 1],
            &records.drop_last()[i],
            accepted.drop_last()[i],
        ) by {
            assert(pre[i] == ds[i] && pre[i + 1] == ds[i + 1]);
            assert(ds[i].log_step(&ds[i + 1], &records[i], accepted[i]));
        }
        lemma_log_run(pre, records.drop_last(), accepted.drop_last());
        let dk = ds[k];
        assert(dk == pre.last());
        assert(dk.wf());
        assert(ds[k].log_step(&ds[k + 1], &records[k], accepted[k]));
        lemma_logger_cursors(&dk);
        crate::ring::lemma_no_claims(&dk.ring);
        let before = logged_bytes(
            d0.renderer(),
            d0.render_capacity(),
            d0.max_level(),
            records.drop_last(),
            accepted.drop_last(),
        );
        let text = d0.renderer().rendered(&records[k], d0.render_capacity());
        if buffered(d0.max_level(), records[k]) && accepted[k] {
            assert(d0.ring_view().pending + before + text =~= d0.ring_view().pending + (before
                + text));
        } else {
            assert(before + Seq::<u8>::empty() =~= before);
        }
    }
}

/// Log calls with no flush in between, whose records that go to the ring
/// take no more room than the ring has free, are all accepted; the pending
/// bytes then grow by the rendered bytes of those records, in call order.
pub proof fn lemma_log_run_fits<F: Flusher, R: Renderer>(
    ds: Seq<Delogger<F, R>>,
    records: Seq<Record>,
    accepted: Seq<bool>,
)
    requires
        ds.len() == records.len() + 1,
        accepted.len() == records.len(),
        forall|i: int| 0 <= i < ds.len() ==> #[trigger] ds[i].wf(),
        forall|i: int|
            0 <= i < records.len() ==> #[trigger] ds[i].log_step(&ds[i + 1], &records[i], accepted[i]),
        queued_bytes(ds[0].renderer(), ds[0].render_capacity(), ds[0].max_level(), records).len()
            <= ds[0].ring_view().room(),
    ensures
        forall|i: int|
            0 <= i < records.len() && buffered(ds[0].max_level(), #[trigger] records[i])
                ==> accepted[i],
        logged_bytes(ds[0].renderer(), ds[0].render_capacity(), ds[0].max_level(), records, accepted)
            == queued_bytes(ds[0].renderer(), ds[0].render_capacity(), ds[0].max_level(), records),
        ds.last().ring_view().pending == ds[0].ring_view().pending + queued_bytes(
            ds[0].renderer(),
            ds[0].render_capacity(),
            ds[0].max_level(),
            records,
        ),
    decreases records.len(),
{
    let d0 = ds[0];
    lemma_log_run(ds, records, accepted);
    if records.len() > 0 {
        let k = records.len() - 1;
        let pre = ds.drop_last();
        assert forall|i: int| 0 <= i < pre.len() implies #[trigger] pre[i].wf() by {
            assert(pre[i] == ds[i]);
        }
        assert forall|i: int| 0 <= i < k implies #[trigger] pre[i].log_step(
            &pre[i + 1],
            &records.drop_last()[i],
            accepted.drop_last()[i],
        ) by {
            assert(pre[i] == ds[i] && pre[i + 1] == ds[i + 1]);
            assert(ds[i].log_step(&ds[i + 1], &records[i], accepted[i]));
        }
        assert(pre[0] == d0);
        lemma_log_run_fits(pre, records.drop_last(), accepted.drop_last());
        lemma_log_run(pre, records.drop_last(), accepted.drop_last());
        let dk = ds[k];
        assert(dk == pre.last());
        assert(ds[k].log_step(&ds[k + 1], &records[k], accepted[k]));
        lemma_logger_cursors(&dk);
        lemma_logger_cursors(&d0);
        assert forall|i: int|
            0 <= i < records.len() && buffered(d0.max_level(), #[trigger] records[i])
            implies accepted[i] by {
            if i < k {
                assert(records.drop_last()[i] == records[i]);
                assert(accepted.drop_last()[i] == accepted[i]);
            }
        }
    }
}

} // verus!
