//! Rendering a record into a fixed-capacity byte buffer, and the two
//! stock renderers.

use vstd::prelude::*;
use vstd::utf8::encode_utf8;
use crate::record::Record;
use crate::Renderer;

verus! {

/// The text did not fit: only its front was written.
#[derive(Debug, Clone, Copy, PartialEq, Eq, Structural)]
pub struct Truncated;

/// The front of `text` that fits in `room` bytes.
pub open spec fn fit(text: Seq<u8>, room: int) -> Seq<u8> {
    if text.len() <= room {
        text
    } else {
        text.take(room)
    }
}

/// What rendering `text` leaves in a buffer of `cap` bytes: as much of it as
/// fits, then a newline if there is room left.
pub open spec fn rendered(text: Seq<u8>, cap: int) -> Seq<u8> {
    if text.len() < cap {
        text.push(10u8)
    } else {
        text.take(cap)
    }
}

/// The decimal digits of `n`, in ASCII.
pub open spec fn decimal(n: nat) -> Seq<u8>
    decreases n,
{
    if n < 10 {
        seq![(48 + n) as u8]
    } else {
        decimal(n / 10).push((48 + n % 10) as u8)
    }
}

proof fn lemma_fit_append(a: Seq<u8>, b: Seq<u8>, room: int)
    requires
        room >= 0,
    ensures
        fit(a, room) + fit(b, room - fit(a, room).len()) == fit(a + b, room),
{
    if a.len() >= room {
        assert(fit(a, room) + fit(b, 0) =~= fit(a + b, room));
    } else if a.len() + b.len() <= room {
        assert(fit(a, room) + fit(b, room - a.len()) =~= a + b);
    } else {
        assert(a + b.take(room - a.len()) =~= (a + b).take(room));
    }
}

/// A writer that fills a byte buffer from the front and keeps what fits.
pub struct WriteTo<'a> {
    pub buffer: &'a mut [u8],
    /// How many bytes of `buffer` hold text.
    pub used: usize,
}

impl<'a> WriteTo<'a> {
    pub open spec fn wf(&self) -> bool {
        self.used <= self.buffer@.len()
    }

    /// The text written so far.
    pub open spec fn text(&self) -> Seq<u8> {
        self.buffer@.take(self.used as int)
    }

    /// A writer at the front of `buffer`.
    pub fn new(buffer: &'a mut [u8]) -> (r: WriteTo<'a>)
        ensures
            r.wf(),
            r.used == 0,
            r.buffer@ == old(buffer)@,
            final(r.buffer)@ == final(buffer)@,
    {
        WriteTo { buffer, used: 0 }
    }

    /// Append `bytes`, as many as fit; fails when some did not.
    pub fn write_bytes(&mut self, bytes: &[u8]) -> (r: Result<(), Truncated>)
        requires
            old(self).wf(),
        ensures
            final(self).wf(),
            final(self).buffer@.len() == old(self).buffer@.len(),
            final(self).used >= old(self).used,
            final(self).text() == old(self).text() + fit(
                bytes@,
                old(self).buffer@.len() - old(self).used,
            ),
            forall|i: int|
                final(self).used <= i < old(self).buffer@.len() ==> #[trigger] final(self).buffer@[i]
                    == old(self).buffer@[i],
            (r is Err) <==> bytes@.len() > old(self).buffer@.len() - old(self).used,
            final(old(self).buffer)@ == final(final(self).buffer)@,
    {
        let len = self.buffer.len();
        let room = len - self.used;
        let count = if bytes.len() < room { bytes.len() } else { room };
        let start = self.used;
        let mut j: usize = 0;
        while j < count
            invariant
                self.buffer@.len() == old(self).buffer@.len(),
                self.buffer@.len() == len,
                self.used == old(self).used,
                start == self.used,
                start + count <= self.buffer@.len(),
                count <= bytes@.len(),
                j <= count,
                forall|i: int| 0 <= i < start ==> #[trigger] self.buffer@[i] == old(self).buffer@[i],
                forall|i: int| 0 <= i < j ==> #[trigger] self.buffer@[start + i] == bytes@[i],
                forall|i: int|
                    start + j <= i < self.buffer@.len() ==> #[trigger] self.buffer@[i]
                        == old(self).buffer@[i],
                final(old(self).buffer)@ == final(self.buffer)@,
            decreases count - j,
        {
            self.buffer[start + j] = bytes[j];
            j = j + 1;
        }
        self.used = start + count;
        proof {
            let o = old(self).text();
            let f = fit(bytes@, old(self).buffer@.len() - old(self).used);
            assert(f.len() == count);
            assert forall|i: int| 0 <= i < count implies #[trigger] self.buffer@[start + i] == f[i] by {}
            assert forall|i: int| 0 <= i < start + count implies #[trigger] self.text()[i] == (o
                + f)[i] by {
                if i >= start {
                    assert(self.buffer@[start + (i - start)] == f[i - start]);
                }
            }
            assert(self.text() =~= o + f);
        }
        if count < bytes.len() {
            Err(Truncated)
        } else {
            Ok(())
        }
    }

    /// Append the UTF-8 bytes of `s`, as many as fit; fails when some did not.
    pub fn write_str(&mut self, s: &str) -> (r: Result<(), Truncated>)
        requires
            old(self).wf(),
        ensures
            final(self).wf(),
            final(self).buffer@.len() == old(self).buffer@.len(),
            final(self).used >= old(self).used,
            final(self).text() == old(self).text() + fit(
                encode_utf8(s@),
                old(self).buffer@.len() - old(self).used,
            ),
            forall|i: int|
                final(self).used <= i < old(self).buffer@.len() ==> #[trigger] final(self).buffer@[i]
                    == old(self).buffer@[i],
            (r is Err) <==> encode_utf8(s@).len() > old(self).buffer@.len() - old(self).used,
            final(old(self).buffer)@ == final(final(self).buffer)@,
    {
        self.write_bytes(s.as_bytes())
    }

    /// Append a newline if there is room for it.
    pub fn endl(&mut self)
        requires
            old(self).wf(),
        ensures
            final(self).wf(),
            final(self).buffer@.len() == old(self).buffer@.len(),
            final(self).used >= old(self).used,
            final(self).text() == if old(self).used < old(self).buffer@.len() {
                old(self).text().push(10u8)
            } else {
                old(self).text()
            },
            forall|i: int|
                final(self).used <= i < old(self).buffer@.len() ==> #[trigger] final(self).buffer@[i]
                    == old(self).buffer@[i],
            final(old(self).buffer)@ == final(final(self).buffer)@,
    {
        if self.used < self.buffer.len() {
            self.buffer[self.used] = 10u8;
            self.used = self.used + 1;
            proof {
                assert(self.text() =~= old(self).text().push(10u8));
            }
        }
    }
}

/// Render `args` into `buf`: as much of its text as fits, then a newline if
/// there is room. Returns the length of what was written; the rest of `buf`
/// is untouched.
pub fn render_arguments(buf: &mut [u8], args: &str) -> (n: usize)
    ensures
        final(buf)@.len() == old(buf)@.len(),
        n == rendered(encode_utf8(args@), old(buf)@.len() as int).len(),
        final(buf)@.take(n as int) == rendered(encode_utf8(args@), old(buf)@.len() as int),
        forall|i: int| n <= i < old(buf)@.len() ==> #[trigger] final(buf)@[i] == old(buf)@[i],
{
    let mut writer = WriteTo::new(buf);
    let _ = writer.write_str(args);
    writer.endl();
    let ghost t = encode_utf8(args@);
    let ghost cap = writer.buffer@.len() as int;
    proof {
        assert(Seq::<u8>::empty() + fit(t, cap) =~= fit(t, cap));
        if t.len() >= cap {
            assert(fit(t, cap) =~= t.take(cap));
        }
    }
    writer.used
}


/// Append the UTF-8 bytes of `s` to a writer that holds as much of `acc` as fits.
fn put(w: &mut WriteTo, s: &str, Ghost(acc): Ghost<Seq<u8>>)
    requires
        old(w).wf(),
        old(w).text() == fit(acc, old(w).buffer@.len() as int),
    ensures
        final(w).wf(),
        final(w).buffer@.len() == old(w).buffer@.len(),
        final(w).used >= old(w).used,
        final(w).text() == fit(acc + encode_utf8(s@), old(w).buffer@.len() as int),
        forall|i: int|
            final(w).used <= i < old(w).buffer@.len() ==> #[trigger] final(w).buffer@[i]
                == old(w).buffer@[i],
        final(old(w).buffer)@ == final(final(w).buffer)@,
{
    proof {
        lemma_fit_append(acc, encode_utf8(s@), w.buffer@.len() as int);
    }
    let _ = w.write_str(s);
}

/// Append `bytes` to a writer that holds as much of `acc` as fits.
fn put_bytes(w: &mut WriteTo, bytes: &[u8], Ghost(acc): Ghost<Seq<u8>>)
    requires
        old(w).wf(),
        old(w).text() == fit(acc, old(w).buffer@.len() as int),
    ensures
        final(w).wf(),
        final(w).buffer@.len() == old(w).buffer@.len(),
        final(w).used >= old(w).used,
        final(w).text() == fit(acc + bytes@, old(w).buffer@.len() as int),
        forall|i: int|
            final(w).used <= i < old(w).buffer@.len() ==> #[trigger] final(w).buffer@[i]
                == old(w).buffer@[i],
        final(old(w).buffer)@ == final(final(w).buffer)@,
{
    proof {
        lemma_fit_append(acc, bytes@, w.buffer@.len() as int);
    }
    let _ = w.write_bytes(bytes);
}

/// End the text `acc` with a newline if there is room; returns its length.
fn finish(w: &mut WriteTo, Ghost(acc): Ghost<Seq<u8>>) -> (n: usize)
    requires
        old(w).wf(),
        old(w).text() == fit(acc, old(w).buffer@.len() as int),
    ensures
        final(w).wf(),
        final(w).buffer@.len() == old(w).buffer@.len(),
        final(w).used >= old(w).used,
        n == final(w).used,
        final(w).text() == rendered(acc, old(w).buffer@.len() as int),
        forall|i: int|
            final(w).used <= i < old(w).buffer@.len() ==> #[trigger] final(w).buffer@[i]
                == old(w).buffer@[i],
        final(old(w).buffer)@ == final(final(w).buffer)@,
{
    w.endl();
    proof {
        let cap = w.buffer@.len() as int;
        if acc.len() >= cap {
            assert(fit(acc, cap) =~= acc.take(cap));
        }
    }
    w.used
}

/// Append the decimal digits of `n` to `out`.
fn push_decimal(n: u32, out: &mut Vec<u8>)
    ensures
        final(out)@ == old(out)@ + decimal(n as nat),
    decreases n,
{
    if n >= 10 {
        push_decimal(n / 10, out);
    }
    out.push((48 + n % 10) as u8);
    proof {
        if n < 10 {
            assert(old(out)@ + decimal(n as nat) =~= old(out)@.push((48 + n % 10) as u8));
        } else {
            assert(old(out)@ + decimal((n / 10) as nat) + seq![(48 + n % 10) as u8] =~= old(out)@
                + decimal(n as nat));
        }
    }
}

/// Level and target, separated by `|`.
pub open spec fn head_text(r: &Record) -> Seq<u8> {
    encode_utf8(r.level.name()) + encode_utf8(seq!['|']) + encode_utf8(r.target@)
}

/// Level, target, file and line when they are known, then the message:
/// `LEVEL|target|file:line: message`, `LEVEL|target|file: message` or
/// `LEVEL|target: message`.
pub open spec fn ripgrep_text(r: &Record) -> Seq<u8> {
    match (r.file, r.line) {
        (Some(f), Some(l)) => head_text(r) + encode_utf8(seq!['|']) + encode_utf8(f@) + encode_utf8(
            seq![':'],
        ) + decimal(l as nat) + encode_utf8(seq![':', ' ']) + encode_utf8(r.message@),
        (Some(f), None) => head_text(r) + encode_utf8(seq!['|']) + encode_utf8(f@) + encode_utf8(
            seq![':', ' '],
        ) + encode_utf8(r.message@),
        _ => head_text(r) + encode_utf8(seq![':', ' ']) + encode_utf8(r.message@),
    }
}

/// The prefixed text of `render_record`: as `ripgrep_text`, but the file is
/// shown only together with the line.
pub open spec fn prefixed_text(r: &Record) -> Seq<u8> {
    match (r.file, r.line) {
        (Some(f), Some(l)) => ripgrep_text(r),
        _ => head_text(r) + encode_utf8(seq![':', ' ']) + encode_utf8(r.message@),
    }
}

/// Write level and target, separated by `|`, to a fresh writer.
fn put_head(w: &mut WriteTo, record: &Record)
    requires
        old(w).wf(),
        old(w).used == 0,
    ensures
        final(w).wf(),
        final(w).buffer@.len() == old(w).buffer@.len(),
        final(w).used >= old(w).used,
        final(w).text() == fit(head_text(record), old(w).buffer@.len() as int),
        forall|i: int|
            final(w).used <= i < old(w).buffer@.len() ==> #[trigger] final(w).buffer@[i]
                == old(w).buffer@[i],
        final(old(w).buffer)@ == final(final(w).buffer)@,
{
    let ghost e = Seq::<u8>::empty();
    proof {
        assert(w.text() =~= fit(e, w.buffer@.len() as int));
        reveal_strlit("|");
        assert("|"@ =~= seq!['|']);
        assert(e + encode_utf8(record.level.name()) =~= encode_utf8(record.level.name()));
    }
    put(w, record.level.as_str(), Ghost(e));
    put(w, "|", Ghost(encode_utf8(record.level.name())));
    put(w, record.target.as_str(), Ghost(encode_utf8(record.level.name()) + encode_utf8(seq!['|'])));
}

/// Write `: ` and the message after `acc`, and end the line.
fn put_message(w: &mut WriteTo, record: &Record, Ghost(acc): Ghost<Seq<u8>>) -> (n: usize)
    requires
        old(w).wf(),
        old(w).text() == fit(acc, old(w).buffer@.len() as int),
    ensures
        final(w).wf(),
        final(w).buffer@.len() == old(w).buffer@.len(),
        final(w).used >= old(w).used,
        n == final(w).used,
        final(w).text() == rendered(
            acc + encode_utf8(seq![':', ' ']) + encode_utf8(record.message@),
            old(w).buffer@.len() as int,
        ),
        forall|i: int|
            final(w).used <= i < old(w).buffer@.len() ==> #[trigger] final(w).buffer@[i]
                == old(w).buffer@[i],
        final(old(w).buffer)@ == final(final(w).buffer)@,
{
    proof {
        reveal_strlit(": ");
        assert(": "@ =~= seq![':', ' ']);
    }
    put(w, ": ", Ghost(acc));
    put(w, record.message.as_str(), Ghost(acc + encode_utf8(seq![':', ' '])));
    finish(w, Ghost(acc + encode_utf8(seq![':', ' ']) + encode_utf8(record.message@)))
}

/// Write `|file` after `acc`.
fn put_file(w: &mut WriteTo, file: &String, Ghost(acc): Ghost<Seq<u8>>)
    requires
        old(w).wf(),
        old(w).text() == fit(acc, old(w).buffer@.len() as int),
    ensures
        final(w).wf(),
        final(w).buffer@.len() == old(w).buffer@.len(),
        final(w).used >= old(w).used,
        final(w).text() == fit(
            acc + encode_utf8(seq!['|']) + encode_utf8(file@),
            old(w).buffer@.len() as int,
        ),
        forall|i: int|
            final(w).used <= i < old(w).buffer@.len() ==> #[trigger] final(w).buffer@[i]
                == old(w).buffer@[i],
        final(old(w).buffer)@ == final(final(w).buffer)@,
{
    proof {
        reveal_strlit("|");
        assert("|"@ =~= seq!['|']);
    }
    put(w, "|", Ghost(acc));
    put(w, file.as_str(), Ghost(acc + encode_utf8(seq!['|'])));
}

/// Write `:line` after `acc`.
fn put_line(w: &mut WriteTo, line: u32, Ghost(acc): Ghost<Seq<u8>>)
    requires
        old(w).wf(),
        old(w).text() == fit(acc, old(w).buffer@.len() as int),
    ensures
        final(w).wf(),
        final(w).buffer@.len() == old(w).buffer@.len(),
        final(w).used >= old(w).used,
        final(w).text() == fit(
            acc + encode_utf8(seq![':']) + decimal(line as nat),
            old(w).buffer@.len() as int,
        ),
        forall|i: int|
            final(w).used <= i < old(w).buffer@.len() ==> #[trigger] final(w).buffer@[i]
                == old(w).buffer@[i],
        final(old(w).buffer)@ == final(final(w).buffer)@,
{
    proof {
        reveal_strlit(":");
        assert(":"@ =~= seq![':']);
    }
    put(w, ":", Ghost(acc));
    let mut digits: Vec<u8> = Vec::new();
    push_decimal(line, &mut digits);
    proof {
        assert(Seq::<u8>::empty() + decimal(line as nat) =~= decimal(line as nat));
    }
    put_bytes(w, digits.as_slice(), Ghost(acc + encode_utf8(seq![':'])));
}

/// Render `record` into `buf`. Without `prefixed`, just its message; with it,
/// `LEVEL|target|file:line: message` when file and line are both known, else
/// `LEVEL|target: message`. As much as fits is written, then a newline if
/// there is room; returns the length written. The rest of `buf` is untouched.
pub fn render_record(buf: &mut [u8], record: &Record, prefixed: bool) -> (n: usize)
    ensures
        final(buf)@.len() == old(buf)@.len(),
        ({
            let text = if prefixed {
                prefixed_text(record)
            } else {
                encode_utf8(record.message@)
            };
            &&& n == rendered(text, old(buf)@.len() as int).len()
            &&& final(buf)@.take(n as int) == rendered(text, old(buf)@.len() as int)
        }),
        forall|i: int| n <= i < old(buf)@.len() ==> #[trigger] final(buf)@[i] == old(buf)@[i],
{
    if !prefixed {
        return render_arguments(buf, record.message.as_str());
    }
    let mut w = WriteTo::new(buf);
    put_head(&mut w, record);
    let ghost head = head_text(record);
    match (&record.file, record.line) {
        (Some(file), Some(line)) => {
            put_file(&mut w, file, Ghost(head));
            put_line(&mut w, line, Ghost(head + encode_utf8(seq!['|']) + encode_utf8(file@)));
            put_message(
                &mut w,
                record,
                Ghost(head + encode_utf8(seq!['|']) + encode_utf8(file@) + encode_utf8(seq![':'])
                    + decimal(line as nat)),
            )
        },
        _ => put_message(&mut w, record, Ghost(head)),
    }
}

/// Renders just the message of a record.
#[derive(Clone, Copy, Debug)]
pub struct DefaultRenderer {}

/// The default, minimal renderer.
pub fn default() -> (r: DefaultRenderer)
    ensures
        r == (DefaultRenderer {}),
{
    DefaultRenderer {}
}

impl Renderer for DefaultRenderer {
    /// The message, as `render_arguments` writes it.
    open spec fn rendered(&self, record: &Record, cap: nat) -> Seq<u8> {
        rendered(encode_utf8(record.message@), cap as int)
    }

    fn render(&self, buf: &mut [u8], record: &Record) -> (n: usize) {
        render_arguments(buf, record.message.as_str())
    }
}

/// Renders the message prefixed by level and target, and by file and line
/// where they are known.
#[derive(Clone, Copy, Debug)]
pub struct RipgrepRenderer {}

impl Renderer for RipgrepRenderer {
    /// Level, target, file and line where known, then the message.
    open spec fn rendered(&self, record: &Record, cap: nat) -> Seq<u8> {
        rendered(ripgrep_text(record), cap as int)
    }

    fn render(&self, buf: &mut [u8], record: &Record) -> (n: usize) {
        let mut w = WriteTo::new(buf);
        put_head(&mut w, record);
        let ghost head = head_text(record);
        match (&record.file, record.line) {
            (Some(file), Some(line)) => {
                put_file(&mut w, file, Ghost(head));
                put_line(&mut w, line, Ghost(head + encode_utf8(seq!['|']) + encode_utf8(file@)));
                put_message(
                    &mut w,
                    record,
                    Ghost(head + encode_utf8(seq!['|']) + encode_utf8(file@) + encode_utf8(
                        seq![':'],
                    ) + decimal(line as nat)),
                )
            },
            (Some(file), None) => {
                put_file(&mut w, file, Ghost(head));
                put_message(&mut w, record, Ghost(head + encode_utf8(seq!['|']) + encode_utf8(file@)))
            },
            _ => put_message(&mut w, record, Ghost(head)),
        }
    }
}

} // verus!
