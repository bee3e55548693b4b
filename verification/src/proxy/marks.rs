//! What kind of picture each of the source's pictures was.
use crate::bytes::{ascii, ascii_bytes, same};

use crate::le::{
    le_bytes, le_value, lemma_le_reads_back, lemma_rooms, put_u32, put_u64, Reader, Unread,
};
use crate::rank::in_order;
use crate::thumbs::{apart, from_on, nearest_place};
use crate::time::in_reach;
use vstd::prelude::*;
use vstd::slice::slice_subrange;

verus! {

/// What kind of picture each of the source's pictures was.
///
/// The proxy is re-encoded, so its own picture types describe the proxy and
/// nothing else -- and the timeline shows the letter beside the frame number.
/// Read while the recording is being decoded, when it is free, and kept beside
/// the proxy so a cached one can still answer.
#[derive(Debug, Clone)]
pub struct Marks {
    /// Presentation times, ascending.
    pub times: Vec<i64>,
    /// The letter of each: `I`, `P`, `B` or `-`.
    pub kinds: Vec<u8>,
}

/// The first byte of a letter's name; `-` where there is none.
pub open spec fn letter(kind: Seq<char>) -> u8 {
    let bytes = crate::chars::stored(kind);
    if bytes.len() > 0 {
        bytes[0]
    } else {
        45
    }
}

/// The letter a byte stands for.
pub open spec fn letter_of(kind: u8) -> Seq<char> {
    if kind == 73 {
        "I"@
    } else if kind == 80 {
        "P"@
    } else if kind == 66 {
        "B"@
    } else {
        "-"@
    }
}

impl Default for Marks {
    fn default() -> (r: Marks)
        ensures
            r.times@.len() == 0,
            r.kinds@.len() == 0,
    {
        Marks { times: Vec::new(), kinds: Vec::new() }
    }
}

impl Marks {
    pub open spec fn wf(&self) -> bool {
        &&& self.times@.len() == self.kinds@.len()
        &&& in_order(self.times@)
        &&& forall|i: int| 0 <= i < self.times@.len() ==> in_reach(#[trigger] self.times@[i] as int)
    }

    pub fn len(&self) -> (r: usize)
        ensures
            r == self.times@.len(),
    {
        self.times.len()
    }

    pub fn is_empty(&self) -> (r: bool)
        ensures
            r == (self.times@.len() == 0),
    {
        self.times.len() == 0
    }

    pub fn push(&mut self, time: i64, kind: &str)
        ensures
            final(self).times@ == old(self).times@.push(time),
            final(self).kinds@ == old(self).kinds@.push(letter(kind@)),
    {
        let bytes: &[u8] = kind.as_bytes();
        let first: u8 = if bytes.len() > 0 {
            bytes[0]
        } else {
            45
        };
        self.times.push(time);
        self.kinds.push(first);
    }

    /// The kind of the picture nearest `time`, if one is within `slack`.
    pub fn kind_at(&self, time: i64, slack: i64) -> (r: Option<&'static str>)
        requires
            self.wf(),
            in_reach(time as int),
        ensures
            ({
                let at = nearest_place(self.times@, time as int);
                &&& r is Some <==> self.times@.len() > 0 && apart(
                    self.times@[at] as int,
                    time as int,
                ) <= slack
                &&& r matches Some(s) ==> s@ == letter_of(self.kinds@[at])
            }),
    {
        let len: usize = self.times.len();
        if len == 0 {
            return None;
        }
        let mut i: usize = 0;
        while i < len && self.times[i] < time
            invariant
                i <= len,
                len == self.times@.len(),
                from_on(self.times@, time as int, 0) == from_on(self.times@, time as int, i as int),
            decreases len - i,
        {
            i += 1;
        }
        let at: usize = if i == 0 {
            0
        } else if i == len {
            len - 1
        } else if away(self.times[i - 1], time) <= away(self.times[i], time) {
            i - 1
        } else {
            i
        };
        if away(self.times[at], time) > slack {
            return None;
        }
        let kind: u8 = self.kinds[at];
        Some(
            if kind == 73 {
                "I"
            } else if kind == 80 {
                "P"
            } else if kind == 66 {
                "B"
            } else {
                "-"
            },
        )
    }
}

fn away(a: i64, b: i64) -> (r: i64)
    requires
        in_reach(a as int),
        in_reach(b as int),
    ensures
        r == apart(a as int, b as int),
{
    if a < b {
        b - a
    } else {
        a - b
    }
}

/// The table as the file beside the proxy has it: each time the bits of a
/// 64-bit floating-point number of seconds.
#[derive(Debug)]
pub struct HeldMarks {
    pub times: Vec<u64>,
    pub kinds: Vec<u8>,
}

/// The first `n` lines of the table, as bytes.
pub open spec fn lines_bytes(times: Seq<u64>, kinds: Seq<u8>, n: int) -> Seq<u8>
    decreases n,
{
    if n <= 0 {
        Seq::empty()
    } else {
        lines_bytes(times, kinds, n - 1) + le_bytes(times[n - 1] as nat, 8) + seq![kinds[n - 1]]
    }
}

/// The table, as bytes.
pub open spec fn marks_bytes(times: Seq<u64>, kinds: Seq<u8>) -> Seq<u8> {
    ascii("SCPM"@) + le_bytes(crate::proxy::VERSION as nat, 4) + le_bytes(times.len(), 8)
        + lines_bytes(times, kinds, times.len() as int)
}

/// The time of one line of the table.
pub open spec fn time_at(raw: Seq<u8>, i: int) -> u64 {
    le_value(raw.subrange(16 + i * 9, 16 + i * 9 + 8)) as u64
}

/// How many lines a file says it has.
pub open spec fn stated(raw: Seq<u8>) -> nat {
    le_value(raw.subrange(8, 16))
}

/// The table a file holds, by its times and its kinds, or why it cannot be
/// read.
pub open spec fn marks_read(raw: Seq<u8>) -> Result<(Seq<u64>, Seq<u8>), Unread> {
    if raw.len() < 16 || raw.subrange(0, 4) != ascii("SCPM"@) {
        Err(Unread::NotOne)
    } else if le_value(raw.subrange(4, 8)) != crate::proxy::VERSION {
        Err(Unread::OtherVersion)
    } else if raw.len() < 16 + stated(raw) * 9 {
        Err(Unread::Truncated)
    } else {
        Ok(
            (
                Seq::new(stated(raw), |i: int| time_at(raw, i)),
                Seq::new(stated(raw), |i: int| raw[16 + i * 9 + 8]),
            ),
        )
    }
}

impl HeldMarks {
    /// The table as the file has it.
    pub fn save(&self) -> (out: Vec<u8>)
        requires
            self.times@.len() == self.kinds@.len(),
        ensures
            out@ == marks_bytes(self.times@, self.kinds@),
    {
        let mut out: Vec<u8> = ascii_bytes("SCPM");
        put_u32(&mut out, crate::proxy::VERSION);
        put_u64(&mut out, self.times.len() as u64);
        let ghost head = out@;
        let mut i: usize = 0;
        while i < self.times.len()
            invariant
                i <= self.times@.len(),
                self.times@.len() == self.kinds@.len(),
                out@ =~= head + lines_bytes(self.times@, self.kinds@, i as int),
            decreases self.times@.len() - i,
        {
            put_u64(&mut out, self.times[i]);
            out.push(self.kinds[i]);
            i += 1;
        }
        assert(out@ =~= marks_bytes(self.times@, self.kinds@));
        out
    }

    /// Read a table back.
    pub fn load(raw: &[u8]) -> (r: Result<HeldMarks, Unread>)
        ensures
            match marks_read(raw@) {
                Ok((times, kinds)) => r is Ok && (r->Ok_0).times@ == times && (r->Ok_0).kinds@
                    == kinds,
                Err(e) => r is Err && r->Err_0 == e,
            },
    {
        let len: usize = raw.len();
        if len < 16 {
            return Err(Unread::NotOne);
        }
        let wanted: Vec<u8> = ascii_bytes("SCPM");
        if !same(slice_subrange(raw, 0, 4), wanted.as_slice()) {
            return Err(Unread::NotOne);
        }
        if number(raw, 4, 4) != crate::proxy::VERSION as u64 {
            return Err(Unread::OtherVersion);
        }
        let n: u64 = number(raw, 8, 8);
        if (len as u128) < 16 + (n as u128) * 9 {
            return Err(Unread::Truncated);
        }
        let many: usize = n as usize;
        let mut times: Vec<u64> = Vec::new();
        let mut kinds: Vec<u8> = Vec::new();
        let mut i: usize = 0;
        while i < many
            invariant
                i <= many,
                len == raw@.len(),
                len >= 16 + many * 9,
                many == stated(raw@),
                times@ =~= Seq::new(i as nat, |k: int| time_at(raw@, k)),
                kinds@ =~= Seq::new(i as nat, |k: int| raw@[16 + k * 9 + 8]),
            decreases many - i,
        {
            let at: usize = 16 + i * 9;
            times.push(number(raw, at, 8));
            kinds.push(raw[at + 8]);
            i += 1;
        }
        Ok(HeldMarks { times, kinds })
    }
}

fn number(raw: &[u8], at: usize, n: usize) -> (v: u64)
    requires
        n == 4 || n == 8,
        at + n <= raw@.len(),
    ensures
        v == le_value(raw@.subrange(at as int, at + n)),
{
    let len: usize = raw.len();
    assert(at + n <= len);
    let ghost held = raw@.subrange(at as int, at + n);
    let mut from = Reader { raw, at };
    assert(crate::le::number_at(raw@, at as int, n as int) == Ok::<(nat, int), Unread>(
        (le_value(held), at + n),
    ));
    let read: Result<u64, Unread> = if n == 4 {
        match from.u32() {
            Ok(v) => Ok(v as u64),
            Err(e) => Err(e),
        }
    } else {
        from.u64()
    };
    match read {
        Ok(v) => v,
        Err(_) => 0,
    }
}

proof fn lemma_lines_len(times: Seq<u64>, kinds: Seq<u8>, n: int)
    requires
        0 <= n,
    ensures
        lines_bytes(times, kinds, n).len() == 9 * n,
    decreases n,
{
    if n > 0 {
        lemma_lines_len(times, kinds, n - 1);
        lemma_le_reads_back(times[n - 1] as nat, 8);
    }
}

/// One line of a table stands where it is looked for.
proof fn lemma_line(times: Seq<u64>, kinds: Seq<u8>, n: int, i: int)
    requires
        0 <= i < n,
    ensures
        lines_bytes(times, kinds, n).len() == 9 * n,
        lines_bytes(times, kinds, n).subrange(9 * i, 9 * i + 8) == le_bytes(times[i] as nat, 8),
        lines_bytes(times, kinds, n)[9 * i + 8] == kinds[i],
    decreases n,
{
    lemma_lines_len(times, kinds, n);
    lemma_lines_len(times, kinds, n - 1);
    lemma_le_reads_back(times[n - 1] as nat, 8);
    let (all, less) = (lines_bytes(times, kinds, n), lines_bytes(times, kinds, n - 1));
    if i < n - 1 {
        lemma_line(times, kinds, n - 1, i);
        assert(all.subrange(9 * i, 9 * i + 8) =~= less.subrange(9 * i, 9 * i + 8));
        assert(all[9 * i + 8] == less[9 * i + 8]);
    } else {
        assert(all.subrange(9 * i, 9 * i + 8) =~= le_bytes(times[i] as nat, 8));
    }
}

/// A table that is kept is read back as it was.
pub proof fn law_marks_read_back(times: Seq<u64>, kinds: Seq<u8>)
    requires
        times.len() == kinds.len(),
        times.len() <= u64::MAX,
    ensures
        marks_read(marks_bytes(times, kinds)) == Ok::<(Seq<u64>, Seq<u8>), Unread>((times, kinds)),
{
    let raw = marks_bytes(times, kinds);
    let n = times.len() as int;
    let lines = lines_bytes(times, kinds, n);
    let (magic, version, many) = (
        ascii("SCPM"@),
        le_bytes(crate::proxy::VERSION as nat, 4),
        le_bytes(times.len(), 8),
    );
    reveal_strlit("SCPM");
    assert(magic.len() == 4);
    lemma_rooms();
    lemma_le_reads_back(crate::proxy::VERSION as nat, 4);
    lemma_le_reads_back(times.len(), 8);
    lemma_lines_len(times, kinds, n);
    assert(raw.len() == 16 + 9 * n);
    assert(raw.subrange(0, 4) =~= magic);
    assert(raw.subrange(4, 8) =~= version);
    assert(raw.subrange(8, 16) =~= many);
    let (read_times, read_kinds) = marks_read(raw)->Ok_0;
    assert forall|i: int| 0 <= i < n implies #[trigger] read_times[i] == times[i] by {
        lemma_line(times, kinds, n, i);
        lemma_le_reads_back(times[i] as nat, 8);
        assert(raw.subrange(16 + i * 9, 16 + i * 9 + 8) =~= lines.subrange(9 * i, 9 * i + 8));
    }
    assert forall|i: int| 0 <= i < n implies #[trigger] read_kinds[i] == kinds[i] by {
        lemma_line(times, kinds, n, i);
        assert(raw[16 + i * 9 + 8] == lines[9 * i + 8]);
    }
    assert(read_times =~= times);
    assert(read_kinds =~= kinds);
}

} // verus!
