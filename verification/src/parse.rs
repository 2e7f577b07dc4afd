//! Format detection, header reading and load-command table parsing, each
//! specified against a mathematical model of the byte layout.

use crate::model::{
    spec_header_size, ByteOrder, LoadCommand, LoadCommandView, MachError, MachHeader, WordSize,
    header_size, MH_CIGAM, MH_CIGAM_64, MH_MAGIC, MH_MAGIC_64,
};
use crate::order::{
    i32_of_u32, lemma_u32_read_then_write, read_u32_at, u32_as_i32, u32_at, u32_bytes,
};
use vstd::prelude::*;
use vstd::seq_lib::*;

verus! {

/// The (word size, byte order) pair a magic value announces, if any.
pub open spec fn magic_format(m: u32) -> Option<(WordSize, ByteOrder)> {
    if m == MH_MAGIC {
        Some((WordSize::W32, ByteOrder::Big))
    } else if m == MH_CIGAM {
        Some((WordSize::W32, ByteOrder::Little))
    } else if m == MH_MAGIC_64 {
        Some((WordSize::W64, ByteOrder::Big))
    } else if m == MH_CIGAM_64 {
        Some((WordSize::W64, ByteOrder::Little))
    } else {
        None
    }
}

/// What format detection returns on a buffer: the resolved pair, or the
/// error telling a short buffer from an unknown magic.
pub open spec fn spec_detect(s: Seq<u8>) -> Result<(WordSize, ByteOrder), MachError> {
    if s.len() < 4 {
        Err(MachError::TruncatedInput)
    } else {
        match magic_format(u32_at(s, 0, ByteOrder::Big)) {
            Some(p) => Ok(p),
            None => Err(MachError::UnrecognizedFormat),
        }
    }
}

/// The header described by the first `spec_header_size(w)` bytes of `s`,
/// read in order `o`.  The reserved word exists on disk only in the 64-bit
/// variant and is 0 otherwise.
pub open spec fn spec_header(s: Seq<u8>, w: WordSize, o: ByteOrder) -> MachHeader {
    MachHeader {
        magic: u32_at(s, 0, o),
        cputype: i32_of_u32(u32_at(s, 4, o)),
        cpusubtype: i32_of_u32(u32_at(s, 8, o)),
        filetype: u32_at(s, 12, o),
        ncmds: u32_at(s, 16, o),
        sizeofcmds: u32_at(s, 20, o),
        flags: u32_at(s, 24, o),
        reserved: match w {
            WordSize::W64 => u32_at(s, 28, o),
            WordSize::W32 => 0,
        },
    }
}

/// The record framed at offset `pos` of `s`: tag, declared size, and the
/// `cmdsize - 8` payload bytes that follow the tag/size prefix.
pub open spec fn cmd_at(s: Seq<u8>, pos: int, o: ByteOrder) -> LoadCommandView {
    LoadCommandView {
        cmd: u32_at(s, pos, o),
        cmdsize: u32_at(s, pos + 4, o),
        data: s.subrange(pos + 8, pos + u32_at(s, pos + 4, o) as int),
    }
}

/// Outcome of walking the load-command table.
pub enum TableOutcome {
    /// All records were framed; `end` is the offset just past the last one.
    Parsed { cmds: Seq<LoadCommandView>, end: int },
    /// A read would have passed the end of the buffer.
    Truncated,
    /// A record declared a size below the 8-byte frame.
    Underflow,
}

/// Prefix `pre` onto the records of a successful outcome; errors pass
/// through unchanged.
pub open spec fn table_prepend(pre: Seq<LoadCommandView>, t: TableOutcome) -> TableOutcome {
    match t {
        TableOutcome::Parsed { cmds, end } => TableOutcome::Parsed { cmds: pre + cmds, end },
        TableOutcome::Truncated => TableOutcome::Truncated,
        TableOutcome::Underflow => TableOutcome::Underflow,
    }
}

/// The outcome of reading `n` records from `s` starting at `pos` in order
/// `o`: exactly the loop the table parser runs, one record per step.
pub open spec fn spec_table(s: Seq<u8>, o: ByteOrder, pos: int, n: nat) -> TableOutcome
    decreases n,
{
    if n == 0 {
        TableOutcome::Parsed { cmds: Seq::empty(), end: pos }
    } else if pos + 8 > s.len() {
        TableOutcome::Truncated
    } else if u32_at(s, pos + 4, o) < 8 {
        TableOutcome::Underflow
    } else if pos + u32_at(s, pos + 4, o) > s.len() {
        TableOutcome::Truncated
    } else {
        table_prepend(
            seq![cmd_at(s, pos, o)],
            spec_table(s, o, pos + u32_at(s, pos + 4, o), (n - 1) as nat),
        )
    }
}

/// The views of a parsed record vector.
pub open spec fn cmd_views(v: Seq<LoadCommand>) -> Seq<LoadCommandView> {
    v.map_values(|c: LoadCommand| c@)
}

/// Sum of the declared sizes of a record sequence.
pub open spec fn sum_cmdsizes(cmds: Seq<LoadCommandView>) -> int
    decreases cmds.len(),
{
    if cmds.len() == 0 {
        0
    } else {
        sum_cmdsizes(cmds.drop_last()) + cmds.last().cmdsize
    }
}

pub proof fn lemma_sum_push(cmds: Seq<LoadCommandView>, c: LoadCommandView)
    ensures
        sum_cmdsizes(cmds.push(c)) == sum_cmdsizes(cmds) + c.cmdsize,
{
    assert(cmds.push(c).drop_last() =~= cmds);
    assert(cmds.push(c).last() == c);
}

/// Prefix sums of the declared sizes never pass the full sum.
pub proof fn lemma_sum_take_le(cmds: Seq<LoadCommandView>, i: int)
    requires
        0 <= i <= cmds.len(),
    ensures
        sum_cmdsizes(cmds.take(i)) <= sum_cmdsizes(cmds),
    decreases cmds.len() - i,
{
    if i == cmds.len() {
        assert(cmds.take(i) =~= cmds);
    } else {
        assert(cmds.take(i + 1).drop_last() =~= cmds.take(i));
        assert(cmds.take(i + 1).last() == cmds[i]);
        lemma_sum_take_le(cmds, i + 1);
    }
}

pub proof fn lemma_sum_take_step(cmds: Seq<LoadCommandView>, i: int)
    requires
        0 <= i < cmds.len(),
    ensures
        sum_cmdsizes(cmds.take(i + 1)) == sum_cmdsizes(cmds.take(i)) + cmds[i].cmdsize,
{
    assert(cmds.take(i + 1).drop_last() =~= cmds.take(i));
    assert(cmds.take(i + 1).last() == cmds[i]);
}

proof fn lemma_prepend_empty(t: TableOutcome)
    ensures
        table_prepend(Seq::<LoadCommandView>::empty(), t) == t,
{
    match t {
        TableOutcome::Parsed { cmds, end } => {
            assert(Seq::<LoadCommandView>::empty() + cmds =~= cmds);
        },
        TableOutcome::Truncated => {},
        TableOutcome::Underflow => {},
    }
}

proof fn lemma_prepend_step(pre: Seq<LoadCommandView>, c: LoadCommandView, t: TableOutcome)
    ensures
        table_prepend(pre, table_prepend(seq![c], t)) == table_prepend(pre.push(c), t),
{
    match t {
        TableOutcome::Parsed { cmds, end } => {
            assert(pre + (seq![c] + cmds) =~= pre.push(c) + cmds);
        },
        TableOutcome::Truncated => {},
        TableOutcome::Underflow => {},
    }
}

proof fn lemma_cmd_views_push(v: Seq<LoadCommand>, c: LoadCommand)
    ensures
        cmd_views(v.push(c)) == cmd_views(v).push(c@),
{
    assert(cmd_views(v.push(c)) =~= cmd_views(v).push(c@));
}

/// A successfully parsed table never ends before its start, and, as soon
/// as it holds at least one record, its end lies inside the buffer.
pub proof fn lemma_table_end_bounds(s: Seq<u8>, o: ByteOrder, pos: int, n: nat)
    ensures
        spec_table(s, o, pos, n) matches TableOutcome::Parsed { end, .. } ==> pos <= end && (n
            > 0 ==> pos + 8 <= end <= s.len()),
    decreases n,
{
    if n == 0 {
    } else if pos + 8 > s.len() {
    } else if u32_at(s, pos + 4, o) < 8 {
    } else if pos + u32_at(s, pos + 4, o) > s.len() {
    } else {
        lemma_table_end_bounds(s, o, pos + u32_at(s, pos + 4, o), (n - 1) as nat);
    }
}

/// A table parses the same out of any buffer that holds the same bytes
/// over the table's range, however the surrounding bytes differ.
#[verifier::rlimit(50)]
pub proof fn lemma_table_stable(
    s: Seq<u8>,
    s2: Seq<u8>,
    o: ByteOrder,
    pos: int,
    n: nat,
    cmds: Seq<LoadCommandView>,
    end: int,
)
    requires
        spec_table(s, o, pos, n) == (TableOutcome::Parsed { cmds, end }),
        0 <= pos <= end <= s.len(),
        end <= s2.len(),
        s2.subrange(pos, end) == s.subrange(pos, end),
    ensures
        spec_table(s2, o, pos, n) == (TableOutcome::Parsed { cmds, end }),
    decreases n,
{
    if n > 0 {
        let size = u32_at(s, pos + 4, o) as int;
        let rest = spec_table(s, o, pos + size, (n - 1) as nat);
        match rest {
            TableOutcome::Parsed { cmds: c2, end: e2 } => {
                lemma_table_end_bounds(s, o, pos + size, (n - 1) as nat);
                assert(pos + size <= end);
                let t2 = s2.subrange(pos, end);
                let t = s.subrange(pos, end);
                assert(s2.subrange(pos, pos + 4) =~= t2.subrange(0, 4));
                assert(s.subrange(pos, pos + 4) =~= t.subrange(0, 4));
                assert(s2.subrange(pos + 4, pos + 8) =~= t2.subrange(4, 8));
                assert(s.subrange(pos + 4, pos + 8) =~= t.subrange(4, 8));
                assert(u32_at(s2, pos + 4, o) == u32_at(s, pos + 4, o));
                assert(s2.subrange(pos + 8, pos + size) =~= t2.subrange(8, size));
                assert(s.subrange(pos + 8, pos + size) =~= t.subrange(8, size));
                assert(cmd_at(s2, pos, o) == cmd_at(s, pos, o));
                assert(s2.subrange(pos + size, end) =~= t2.subrange(size, end - pos));
                assert(s.subrange(pos + size, end) =~= t.subrange(size, end - pos));
                lemma_table_stable(s, s2, o, pos + size, (n - 1) as nat, c2, end);
            },
            TableOutcome::Truncated => {
                assert(false);
            },
            TableOutcome::Underflow => {
                assert(false);
            },
        }
    }
}

/// Walking one more record than a parsed table continues exactly where
/// the table ended.
pub proof fn lemma_table_append(
    s: Seq<u8>,
    o: ByteOrder,
    pos: int,
    n: nat,
    cmds: Seq<LoadCommandView>,
    end: int,
    more: Seq<LoadCommandView>,
    end2: int,
)
    requires
        spec_table(s, o, pos, n) == (TableOutcome::Parsed { cmds, end }),
        spec_table(s, o, end, 1) == (TableOutcome::Parsed { cmds: more, end: end2 }),
    ensures
        spec_table(s, o, pos, (n + 1) as nat) == (TableOutcome::Parsed {
            cmds: cmds + more,
            end: end2,
        }),
    decreases n,
{
    if n == 0 {
        assert(Seq::<LoadCommandView>::empty() + more =~= more);
    } else {
        let size = u32_at(s, pos + 4, o) as int;
        let rest = spec_table(s, o, pos + size, (n - 1) as nat);
        match rest {
            TableOutcome::Parsed { cmds: c2, end: e2 } => {
                lemma_table_append(s, o, pos + size, (n - 1) as nat, c2, end, more, end2);
                assert(spec_table(s, o, pos, (n + 1) as nat) == table_prepend(
                    seq![cmd_at(s, pos, o)],
                    spec_table(s, o, pos + size, n),
                ));
                assert(seq![cmd_at(s, pos, o)] + (c2 + more) =~= (seq![cmd_at(s, pos, o)] + c2)
                    + more);
            },
            TableOutcome::Truncated => {
                assert(false);
            },
            TableOutcome::Underflow => {
                assert(false);
            },
        }
    }
}

/// Outcome of parsing a whole buffer: detection, header, then the table.
pub enum ParseOutcome {
    Parsed {
        word: WordSize,
        order: ByteOrder,
        header: MachHeader,
        cmds: Seq<LoadCommandView>,
        end: int,
    },
    Failed { err: MachError },
}

/// The full read pass over a buffer: detect the format, read the header,
/// walk `ncmds` records.  All the library's contracts speak of this model.
pub open spec fn spec_parse(s: Seq<u8>) -> ParseOutcome {
    match spec_detect(s) {
        Err(e) => ParseOutcome::Failed { err: e },
        Ok((w, o)) => if s.len() < spec_header_size(w) {
            ParseOutcome::Failed { err: MachError::TruncatedInput }
        } else {
            match spec_table(s, o, spec_header_size(w), spec_header(s, w, o).ncmds as nat) {
                TableOutcome::Parsed { cmds, end } => ParseOutcome::Parsed {
                    word: w,
                    order: o,
                    header: spec_header(s, w, o),
                    cmds,
                    end,
                },
                TableOutcome::Truncated => ParseOutcome::Failed { err: MachError::TruncatedInput },
                TableOutcome::Underflow => ParseOutcome::Failed { err: MachError::SizeUnderflow },
            }
        },
    }
}

/// Sniff the magic value: the first four bytes, read most-significant
/// first, decide word size and byte order.
pub fn detect_format(data: &Vec<u8>) -> (r: Result<(WordSize, ByteOrder), MachError>)
    ensures
        r == spec_detect(data@),
{
    if data.len() < 4 {
        return Err(MachError::TruncatedInput);
    }
    let magic = read_u32_at(data, 0, ByteOrder::Big);
    if magic == MH_MAGIC {
        Ok((WordSize::W32, ByteOrder::Big))
    } else if magic == MH_CIGAM {
        Ok((WordSize::W32, ByteOrder::Little))
    } else if magic == MH_MAGIC_64 {
        Ok((WordSize::W64, ByteOrder::Big))
    } else if magic == MH_CIGAM_64 {
        Ok((WordSize::W64, ByteOrder::Little))
    } else {
        Err(MachError::UnrecognizedFormat)
    }
}

/// Read the fixed header in the detected order: magic, cpu type, cpu
/// subtype, file type, record count, total record bytes, flags, and, for a
/// 64-bit container, the reserved word.
pub fn read_header(data: &Vec<u8>, w: WordSize, o: ByteOrder) -> (r: Result<MachHeader, MachError>)
    ensures
        data@.len() >= spec_header_size(w) ==> r == Ok::<MachHeader, MachError>(
            spec_header(data@, w, o),
        ),
        data@.len() < spec_header_size(w) ==> r == Err::<MachHeader, MachError>(
            MachError::TruncatedInput,
        ),
{
    let hs = header_size(w);
    if data.len() < hs {
        return Err(MachError::TruncatedInput);
    }
    let magic = read_u32_at(data, 0, o);
    let cputype = u32_as_i32(read_u32_at(data, 4, o));
    let cpusubtype = u32_as_i32(read_u32_at(data, 8, o));
    let filetype = read_u32_at(data, 12, o);
    let ncmds = read_u32_at(data, 16, o);
    let sizeofcmds = read_u32_at(data, 20, o);
    let flags = read_u32_at(data, 24, o);
    let reserved = match w {
        WordSize::W64 => read_u32_at(data, 28, o),
        WordSize::W32 => 0,
    };
    Ok(MachHeader { magic, cputype, cpusubtype, filetype, ncmds, sizeofcmds, flags, reserved })
}

/// Walk `n` records starting at `start`: read a tag and a declared size,
/// then take `size - 8` payload bytes, for exactly `n` iterations.  Unknown
/// tags are kept opaquely; nothing checks the sum against the header.
pub fn parse_table(data: &Vec<u8>, o: ByteOrder, start: usize, n: u32) -> (r: Result<
    Vec<LoadCommand>,
    MachError,
>)
    requires
        start <= data@.len(),
    ensures
        match spec_table(data@, o, start as int, n as nat) {
            TableOutcome::Parsed { cmds, end } => {
                &&& r matches Ok(v) && cmd_views(v@) == cmds
                &&& end == start + sum_cmdsizes(cmds)
                &&& start <= end <= data@.len()
            },
            TableOutcome::Truncated => r == Err::<Vec<LoadCommand>, MachError>(
                MachError::TruncatedInput,
            ),
            TableOutcome::Underflow => r == Err::<Vec<LoadCommand>, MachError>(
                MachError::SizeUnderflow,
            ),
        },
{
    let len = data.len();
    let mut cmds: Vec<LoadCommand> = Vec::new();
    let mut pos: usize = start;
    let mut i: u32 = 0;
    proof {
        assert(cmd_views(cmds@) =~= Seq::<LoadCommandView>::empty());
        lemma_prepend_empty(spec_table(data@, o, start as int, n as nat));
    }
    while i < n
        invariant
            i <= n,
            start <= pos <= len,
            len == data@.len(),
            pos == start + sum_cmdsizes(cmd_views(cmds@)),
            spec_table(data@, o, start as int, n as nat) == table_prepend(
                cmd_views(cmds@),
                spec_table(data@, o, pos as int, (n - i) as nat),
            ),
        decreases n - i,
    {
        let remaining = len - pos;
        if remaining < 8 {
            return Err(MachError::TruncatedInput);
        }
        let cmd = read_u32_at(data, pos, o);
        let size32 = read_u32_at(data, pos + 4, o);
        if size32 < 8 {
            return Err(MachError::SizeUnderflow);
        }
        let size = size32 as usize;
        if size > remaining {
            return Err(MachError::TruncatedInput);
        }
        let mut payload: Vec<u8> = Vec::new();
        let mut j: usize = 8;
        proof {
            assert(payload@ =~= data@.subrange(pos as int + 8, pos as int + 8));
        }
        while j < size
            invariant
                8 <= j <= size,
                len == data@.len(),
                pos + size <= len,
                payload@ == data@.subrange(pos as int + 8, pos as int + j),
            decreases size - j,
        {
            payload.push(data[pos + j]);
            proof {
                assert(payload@ =~= data@.subrange(pos as int + 8, pos as int + j + 1));
            }
            j += 1;
        }
        let ghost pre = cmds@;
        let ghost rest = spec_table(data@, o, pos as int + size as int, (n - i - 1) as nat);
        let record = LoadCommand { cmd, cmdsize: size32, data: payload };
        proof {
            assert(record@ == cmd_at(data@, pos as int, o));
            assert(spec_table(data@, o, pos as int, (n - i) as nat) == table_prepend(
                seq![cmd_at(data@, pos as int, o)],
                rest,
            ));
            lemma_prepend_step(cmd_views(pre), record@, rest);
            lemma_cmd_views_push(pre, record);
            lemma_sum_push(cmd_views(pre), record@);
        }
        cmds.push(record);
        pos = pos + size;
        i = i + 1;
    }
    proof {
        assert(spec_table(data@, o, pos as int, 0) == (TableOutcome::Parsed {
            cmds: Seq::<LoadCommandView>::empty(),
            end: pos as int,
        }));
        assert(cmd_views(cmds@) + Seq::<LoadCommandView>::empty() =~= cmd_views(cmds@));
    }
    Ok(cmds)
}

/// Parse a whole buffer: detect the format, read the header, then walk the
/// header's record count worth of records.
pub fn parse_macho(data: &Vec<u8>) -> (r: Result<(MachHeader, Vec<LoadCommand>), MachError>)
    ensures
        match spec_parse(data@) {
            ParseOutcome::Parsed { header, cmds, .. } => {
                &&& r matches Ok(p) && p.0 == header && cmd_views(p.1@) == cmds
            },
            ParseOutcome::Failed { err } => r == Err::<(MachHeader, Vec<LoadCommand>), MachError>(
                err,
            ),
        },
{
    let (w, o) = match detect_format(data) {
        Ok(p) => p,
        Err(e) => {
            return Err(e);
        },
    };
    let header = match read_header(data, w, o) {
        Ok(h) => h,
        Err(e) => {
            return Err(e);
        },
    };
    let hs = header_size(w);
    let cmds = match parse_table(data, o, hs, header.ncmds) {
        Ok(c) => c,
        Err(e) => {
            return Err(e);
        },
    };
    Ok((header, cmds))
}

/// The buffer `s` with the two counter fields re-serialized in order `o`:
/// bytes 16..20 replaced by `ncmds`, bytes 20..24 by `sizeofcmds`.
pub open spec fn splice_counters(s: Seq<u8>, ncmds: u32, sizeofcmds: u32, o: ByteOrder) -> Seq<
    u8,
> {
    s.subrange(0, 16) + u32_bytes(ncmds, o) + u32_bytes(sizeofcmds, o) + s.subrange(
        24,
        s.len() as int,
    )
}

/// Round-trip law: re-serializing the counters just parsed from a header,
/// unchanged and in the order they were parsed with, reproduces the buffer
/// byte for byte.
pub proof fn lemma_counter_round_trip(s: Seq<u8>, w: WordSize, o: ByteOrder)
    requires
        s.len() >= spec_header_size(w),
    ensures
        splice_counters(s, spec_header(s, w, o).ncmds, spec_header(s, w, o).sizeofcmds, o) == s,
{
    lemma_u32_read_then_write(s, 16, o);
    lemma_u32_read_then_write(s, 20, o);
    assert(splice_counters(
        s,
        spec_header(s, w, o).ncmds,
        spec_header(s, w, o).sizeofcmds,
        o,
    ) =~= s);
}

} // verus!
