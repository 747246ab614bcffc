//! Hexadecimal text for byte data: bytes in blocks of `N` separated by a
//! separator string, and shortened with `..` to a given number of bytes.

use vstd::prelude::*;
use vstd::string::StringSliceAdditionalSpecFns;
use core::marker::PhantomData;

verus! {

/// A type that stands for an unsigned integer.
pub trait Unsigned {
    /// The number.
    const N: usize;
}

/// The integer 1.
pub struct U1;

impl Unsigned for U1 {
    const N: usize = 1;
}

/// A type that stands for a separator string.
pub trait Separator {
    /// The separator.
    const SEPARATOR: &'static str;
}

/// Which end of the data to keep when it is shortened.
#[derive(Clone, Copy, Debug, PartialEq, Eq, Structural)]
pub enum Align {
    Left,
    Center,
    Right,
}

/// ASCII digit for `d < 16`, in upper or lower case.
pub open spec fn hex_digit(d: int, upper: bool) -> u8 {
    if d < 10 {
        (48 + d) as u8
    } else if upper {
        (55 + d) as u8
    } else {
        (87 + d) as u8
    }
}

/// The two digits of one byte.
pub open spec fn hex_byte(b: u8, upper: bool) -> Seq<u8> {
    seq![hex_digit(b as int / 16, upper), hex_digit(b as int % 16, upper)]
}

/// The digits of `bytes`, two per byte, with nothing in between.
pub open spec fn hex_run(bytes: Seq<u8>, upper: bool) -> Seq<u8>
    decreases bytes.len(),
{
    if bytes.len() == 0 {
        Seq::empty()
    } else {
        hex_run(bytes.drop_last(), upper) + hex_byte(bytes.last(), upper)
    }
}

/// The digits of `bytes` in blocks of `chunk` bytes, joined by `sep`.
pub open spec fn hex_blocks(bytes: Seq<u8>, chunk: nat, sep: Seq<u8>, upper: bool) -> Seq<u8>
    decreases bytes.len(),
{
    if bytes.len() <= chunk || chunk == 0 {
        hex_run(bytes, upper)
    } else {
        hex_run(bytes.take(chunk as int), upper) + sep + hex_blocks(
            bytes.skip(chunk as int),
            chunk,
            sep,
            upper,
        )
    }
}

/// How many bytes to keep at the front and at the back when `max` of them
/// are shown.
pub open spec fn kept(max: int, align: Align) -> (int, int) {
    match align {
        Align::Left => (max, 0),
        Align::Center => (max - max / 2, max / 2),
        Align::Right => (0, max),
    }
}

/// The hex text of `bytes`: all blocks when there are at most `width` bytes
/// (or no width), else the kept bytes at front and back around `..`.
pub open spec fn hex_text(
    bytes: Seq<u8>,
    chunk: nat,
    sep: Seq<u8>,
    upper: bool,
    width: Option<usize>,
    align: Option<Align>,
) -> Seq<u8> {
    let max: int = match width {
        Some(w) => w as int,
        None => usize::MAX as int,
    };
    if bytes.len() <= max {
        hex_blocks(bytes, chunk, sep, upper)
    } else {
        let (left, right) = kept(
            max,
            match align {
                Some(a) => a,
                None => Align::Center,
            },
        );
        hex_blocks(bytes.take(left), chunk, sep, upper) + seq![46u8, 46u8] + hex_blocks(
            bytes.skip(bytes.len() - right),
            chunk,
            sep,
            upper,
        )
    }
}

fn digit(d: u8, upper: bool) -> (r: u8)
    requires
        d < 16,
    ensures
        r == hex_digit(d as int, upper),
{
    if d < 10 {
        48 + d
    } else if upper {
        55 + d
    } else {
        87 + d
    }
}

/// Append the digits of `bytes` to `out`.
fn push_run(out: &mut Vec<u8>, bytes: &[u8], upper: bool)
    ensures
        final(out)@ == old(out)@ + hex_run(bytes@, upper),
{
    let mut i: usize = 0;
    while i < bytes.len()
        invariant
            i <= bytes@.len(),
            out@ == old(out)@ + hex_run(bytes@.take(i as int), upper),
        decreases bytes@.len() - i,
    {
        let b = bytes[i];
        out.push(digit(b / 16, upper));
        out.push(digit(b % 16, upper));
        proof {
            let t = bytes@.take(i as int + 1);
            assert(t.drop_last() =~= bytes@.take(i as int));
            assert(t.last() == b);
            assert(old(out)@ + hex_run(bytes@.take(i as int), upper) + hex_byte(b, upper) =~= old(
                out,
            )@ + hex_run(t, upper));
        }
        i = i + 1;
    }
    proof {
        assert(bytes@.take(bytes@.len() as int) =~= bytes@);
    }
}

/// Append the digits of `bytes` in blocks of `chunk`, joined by `sep`.
fn push_blocks(out: &mut Vec<u8>, bytes: &[u8], chunk: usize, sep: &[u8], upper: bool)
    requires
        chunk > 0,
    ensures
        final(out)@ == old(out)@ + hex_blocks(bytes@, chunk as nat, sep@, upper),
    decreases bytes@.len(),
{
    if bytes.len() <= chunk {
        push_run(out, bytes, upper);
    } else {
        push_run(out, &bytes[0..chunk], upper);
        let mut i: usize = 0;
        while i < sep.len()
            invariant
                i <= sep@.len(),
                out@ == old(out)@ + hex_run(bytes@.take(chunk as int), upper) + sep@.take(i as int),
            decreases sep@.len() - i,
        {
            out.push(sep[i]);
            proof {
                assert(sep@.take(i as int + 1) =~= sep@.take(i as int).push(sep@[i as int]));
            }
            i = i + 1;
        }
        proof {
            assert(sep@.take(sep@.len() as int) =~= sep@);
        }
        push_blocks(out, &bytes[chunk..bytes.len()], chunk, sep, upper);
        proof {
            assert(bytes@.subrange(chunk as int, bytes@.len() as int) =~= bytes@.skip(chunk as int));
            assert(bytes@.subrange(0, chunk as int) =~= bytes@.take(chunk as int));
        }
    }
}

/// Byte data to be shown in hex, in blocks of `U::N` bytes separated by
/// `S::SEPARATOR`.
pub struct HexStr<'a, U: Unsigned, S: Separator> {
    value: &'a [u8],
    _bytes_per_block: PhantomData<U>,
    _separator: PhantomData<S>,
}

/// Wrap `value` for hex display.
#[allow(non_snake_case)]
pub fn HexStr<'a, U: Unsigned, S: Separator>(value: &'a [u8]) -> (r: HexStr<'a, U, S>)
    ensures
        r.bytes() == value@,
{
    HexStr { value, _bytes_per_block: PhantomData, _separator: PhantomData }
}

impl<'a, U: Unsigned, S: Separator> HexStr<'a, U, S> {
    /// The wrapped data.
    pub closed spec fn bytes(&self) -> Seq<u8> {
        self.value@
    }

    /// The hex text, in upper or lower case, shortened to `width` bytes when
    /// there are more, keeping the end that `align` names (both ends when
    /// none is named).
    pub fn render(&self, upper: bool, width: Option<usize>, align: Option<Align>) -> (r: Vec<u8>)
        requires
            U::N > 0,
        ensures
            r@ == hex_text(self.bytes(), U::N as nat, S::SEPARATOR.spec_bytes(), upper, width, align),
    {
        let chunk = U::N;
        let sep = S::SEPARATOR.as_bytes();
        let bytes = self.value;
        let max = match width {
            Some(w) => w,
            None => usize::MAX,
        };
        let mut out: Vec<u8> = Vec::new();
        if bytes.len() <= max {
            push_blocks(&mut out, bytes, chunk, sep, upper);
            return out;
        }
        let (left, right) = match align {
            Some(Align::Left) => (max, 0),
            Some(Align::Right) => (0, max),
            _ => (max - max / 2, max / 2),
        };
        push_blocks(&mut out, &bytes[0..left], chunk, sep, upper);
        out.push(46u8);
        out.push(46u8);
        push_blocks(&mut out, &bytes[bytes.len() - right..bytes.len()], chunk, sep, upper);
        proof {
            assert(bytes@.subrange(0, left as int) =~= bytes@.take(left as int));
            assert(bytes@.subrange(bytes@.len() - right, bytes@.len() as int) =~= bytes@.skip(
                bytes@.len() - right,
            ));
            let e = Seq::<u8>::empty();
            assert(e + hex_blocks(bytes@.take(left as int), chunk as nat, sep@, upper) + seq![46u8, 46u8]
                =~= e + hex_blocks(bytes@.take(left as int), chunk as nat, sep@, upper).push(46u8).push(46u8));
        }
        out
    }
}

} // verus!
