//! Numbers stored least significant byte first, and how they are read back.
use vstd::prelude::*;
use vstd::slice::slice_subrange;

verus! {

/// How many numbers so many bytes tell apart.
pub open spec fn room(n: nat) -> nat
    decreases n,
{
    if n == 0 {
        1
    } else {
        256 * room((n - 1) as nat)
    }
}

/// The low bytes of a number, least significant first.
pub open spec fn le_bytes(v: nat, n: nat) -> Seq<u8>
    decreases n,
{
    if n == 0 {
        Seq::empty()
    } else {
        seq![(v % 256) as u8] + le_bytes(v / 256, (n - 1) as nat)
    }
}

/// The number some bytes store, least significant first.
pub open spec fn le_value(s: Seq<u8>) -> nat
    decreases s.len(),
{
    if s.len() == 0 {
        0
    } else {
        s[0] as nat + 256 * le_value(s.skip(1))
    }
}

/// So many bytes are so many bytes long, and store what was put in them.
pub proof fn lemma_le_reads_back(v: nat, n: nat)
    ensures
        le_bytes(v, n).len() == n,
        v < room(n) ==> le_value(le_bytes(v, n)) == v,
    decreases n,
{
    if n > 0 {
        lemma_le_reads_back(v / 256, (n - 1) as nat);
        let s = le_bytes(v, n);
        assert(s.skip(1) =~= le_bytes(v / 256, (n - 1) as nat));
        assert(s[0] == (v % 256) as u8);
    }
}

/// Four bytes hold a `u32` and eight a `u64`.
pub proof fn lemma_rooms()
    ensures
        room(1) == 0x100,
        room(4) == 0x1_0000_0000,
        room(8) == 0x1_0000_0000_0000_0000,
{
    reveal_with_fuel(room, 9);
}

/// What some bytes store is no more than they have room for.
pub proof fn lemma_le_bound(s: Seq<u8>)
    ensures
        le_value(s) < room(s.len()),
    decreases s.len(),
{
    if s.len() > 0 {
        lemma_le_bound(s.skip(1));
    }
}

/// Append the low bytes of a number.
fn put_le(out: &mut Vec<u8>, v: u64, n: usize)
    ensures
        final(out)@ == old(out)@ + le_bytes(v as nat, n as nat),
    decreases n,
{
    if n > 0 {
        let ghost before = out@;
        out.push((v % 256) as u8);
        let ghost with = out@;
        put_le(out, v / 256, n - 1);
        assert(out@ =~= before + le_bytes(v as nat, n as nat));
    } else {
        assert(out@ =~= old(out)@ + le_bytes(v as nat, 0));
    }
}

/// Append a number in four bytes.
pub fn put_u32(out: &mut Vec<u8>, v: u32)
    ensures
        final(out)@ == old(out)@ + le_bytes(v as nat, 4),
{
    put_le(out, v as u64, 4);
}

/// Append a number in eight bytes.
pub fn put_u64(out: &mut Vec<u8>, v: u64)
    ensures
        final(out)@ == old(out)@ + le_bytes(v as nat, 8),
{
    put_le(out, v, 8);
}

/// A number that may be below nought, as eight bytes hold it.
pub open spec fn unsigned(v: i64) -> nat {
    if v >= 0 {
        v as nat
    } else {
        (v + 0x1_0000_0000_0000_0000) as nat
    }
}

/// A number eight bytes hold, as one that may be below nought.
pub open spec fn signed(v: nat) -> int {
    if v < 0x8000_0000_0000_0000 {
        v as int
    } else {
        v - 0x1_0000_0000_0000_0000
    }
}

/// Append a number that may be below nought, in eight bytes.
pub fn put_i64(out: &mut Vec<u8>, v: i64)
    ensures
        final(out)@ == old(out)@ + le_bytes(unsigned(v), 8),
{
    let u: u64 = if v >= 0 {
        v as u64
    } else {
        ((v as i128) + 0x1_0000_0000_0000_0000) as u64
    };
    put_le(out, u, 8);
}

/// Why a file could not be read.
#[derive(Debug, Clone, Copy, PartialEq, Eq, Structural)]
pub enum Unread {
    /// It is not a file of this kind.
    NotOne,
    /// Another version wrote it.
    OtherVersion,
    /// It ends before what it says it holds does.
    Truncated,
    /// It says it holds more than there can be.
    Corrupt,
}

/// So many bytes of a file, from a place in it, and the place behind them.
pub open spec fn bytes_at(raw: Seq<u8>, at: int, n: int) -> Result<(Seq<u8>, int), Unread> {
    if at + n > usize::MAX {
        Err(Unread::Corrupt)
    } else if at + n > raw.len() {
        Err(Unread::Truncated)
    } else {
        Ok((raw.subrange(at, at + n), at + n))
    }
}

/// A number of so many bytes, from a place in a file, and the place behind it.
pub open spec fn number_at(raw: Seq<u8>, at: int, n: int) -> Result<(nat, int), Unread> {
    match bytes_at(raw, at, n) {
        Ok((bytes, next)) => Ok((le_value(bytes), next)),
        Err(e) => Err(e),
    }
}

/// Some bytes, with how many there are of them in front.
pub open spec fn counted_bytes_at(raw: Seq<u8>, at: int) -> Result<(Seq<u8>, int), Unread> {
    match number_at(raw, at, 4) {
        Ok((n, next)) => bytes_at(raw, next, n as int),
        Err(e) => Err(e),
    }
}

/// A file being read, and how far it has been.
pub struct Reader<'a> {
    pub raw: &'a [u8],
    pub at: usize,
}

impl<'a> Reader<'a> {
    pub open spec fn wf(&self) -> bool {
        self.at <= self.raw@.len()
    }

    pub fn take(&mut self, n: usize) -> (r: Result<&'a [u8], Unread>)
        requires
            old(self).wf(),
        ensures
            final(self).wf(),
            final(self).raw == old(self).raw,
            match bytes_at(old(self).raw@, old(self).at as int, n as int) {
                Ok((bytes, next)) => r is Ok && (r->Ok_0)@ == bytes && final(self).at == next,
                Err(e) => r == Err::<&'a [u8], Unread>(e) && final(self).at == old(self).at,
            },
    {
        let len: usize = self.raw.len();
        if n > usize::MAX - self.at {
            return Err(Unread::Corrupt);
        }
        if n > len - self.at {
            return Err(Unread::Truncated);
        }
        let out: &'a [u8] = slice_subrange(self.raw, self.at, self.at + n);
        self.at = self.at + n;
        Ok(out)
    }

    fn number(&mut self, n: usize) -> (r: Result<u64, Unread>)
        requires
            old(self).wf(),
            n <= 8,
        ensures
            final(self).wf(),
            final(self).raw == old(self).raw,
            match number_at(old(self).raw@, old(self).at as int, n as int) {
                Ok((v, next)) => r == Ok::<u64, Unread>(v as u64) && v < room(n as nat)
                    && final(self).at == next,
                Err(e) => r == Err::<u64, Unread>(e) && final(self).at == old(self).at,
            },
    {
        match self.take(n) {
            Err(e) => Err(e),
            Ok(bytes) => {
                proof {
                    lemma_le_bound(bytes@);
                    lemma_rooms_grow(n as nat, 8);
                    lemma_rooms();
                }
                Ok(value(bytes))
            },
        }
    }

    pub fn u8(&mut self) -> (r: Result<u8, Unread>)
        requires
            old(self).wf(),
        ensures
            final(self).wf(),
            final(self).raw == old(self).raw,
            match number_at(old(self).raw@, old(self).at as int, 1) {
                Ok((v, next)) => r == Ok::<u8, Unread>(v as u8) && v < 0x100 && final(self).at
                    == next,
                Err(e) => r == Err::<u8, Unread>(e) && final(self).at == old(self).at,
            },
    {
        proof {
            lemma_rooms();
        }
        match self.number(1) {
            Ok(v) => Ok(v as u8),
            Err(e) => Err(e),
        }
    }

    pub fn u32(&mut self) -> (r: Result<u32, Unread>)
        requires
            old(self).wf(),
        ensures
            final(self).wf(),
            final(self).raw == old(self).raw,
            match number_at(old(self).raw@, old(self).at as int, 4) {
                Ok((v, next)) => r == Ok::<u32, Unread>(v as u32) && v < 0x1_0000_0000
                    && final(self).at == next,
                Err(e) => r == Err::<u32, Unread>(e) && final(self).at == old(self).at,
            },
    {
        proof {
            lemma_rooms();
        }
        match self.number(4) {
            Ok(v) => Ok(v as u32),
            Err(e) => Err(e),
        }
    }

    pub fn u64(&mut self) -> (r: Result<u64, Unread>)
        requires
            old(self).wf(),
        ensures
            final(self).wf(),
            final(self).raw == old(self).raw,
            match number_at(old(self).raw@, old(self).at as int, 8) {
                Ok((v, next)) => r == Ok::<u64, Unread>(v as u64) && v < 0x1_0000_0000_0000_0000
                    && final(self).at == next,
                Err(e) => r == Err::<u64, Unread>(e) && final(self).at == old(self).at,
            },
    {
        proof {
            lemma_rooms();
        }
        self.number(8)
    }

    pub fn i64(&mut self) -> (r: Result<i64, Unread>)
        requires
            old(self).wf(),
        ensures
            final(self).wf(),
            final(self).raw == old(self).raw,
            match number_at(old(self).raw@, old(self).at as int, 8) {
                Ok((v, next)) => r == Ok::<i64, Unread>(signed(v) as i64) && v
                    < 0x1_0000_0000_0000_0000 && final(self).at == next,
                Err(e) => r == Err::<i64, Unread>(e) && final(self).at == old(self).at,
            },
    {
        match self.u64() {
            Ok(v) => Ok(
                if v < 0x8000_0000_0000_0000 {
                    v as i64
                } else {
                    ((v as i128) - 0x1_0000_0000_0000_0000) as i64
                },
            ),
            Err(e) => Err(e),
        }
    }

    pub fn bytes(&mut self) -> (r: Result<&'a [u8], Unread>)
        requires
            old(self).wf(),
        ensures
            final(self).wf(),
            final(self).raw == old(self).raw,
            match counted_bytes_at(old(self).raw@, old(self).at as int) {
                Ok((bytes, next)) => r is Ok && (r->Ok_0)@ == bytes && final(self).at == next,
                Err(e) => r == Err::<&'a [u8], Unread>(e),
            },
    {
        match self.u32() {
            Ok(n) => self.take(n as usize),
            Err(e) => Err(e),
        }
    }
}

proof fn lemma_rooms_grow(a: nat, b: nat)
    requires
        a <= b,
    ensures
        room(a) <= room(b),
    decreases b,
{
    if a < b {
        lemma_rooms_grow(a, (b - 1) as nat);
        lemma_room_is_some((b - 1) as nat);
    }
}

proof fn lemma_room_is_some(n: nat)
    ensures
        room(n) > 0,
    decreases n,
{
    if n > 0 {
        lemma_room_is_some((n - 1) as nat);
    }
}

fn value(bytes: &[u8]) -> (v: u64)
    requires
        bytes@.len() <= 8,
    ensures
        v == le_value(bytes@),
    decreases bytes@.len(),
{
    proof {
        lemma_le_bound(bytes@);
        lemma_rooms_grow(bytes@.len(), 8);
        lemma_rooms();
    }
    if bytes.len() == 0 {
        return 0;
    }
    let rest: &[u8] = slice_subrange(bytes, 1, bytes.len());
    assert(rest@ =~= bytes@.skip(1));
    let low: u64 = value(rest);
    bytes[0] as u64 + 256 * low
}

} // verus!
