//! Building a run-path record and splicing it into a buffer: the record
//! builder pads to the 8-byte alignment, and the splicer appends the record
//! after the last existing one while patching the header's two counters.

use crate::model::{
    header_size, ByteOrder, MachError, MachHeader, WordSize, LC_RPATH, RPATH_PATH_OFFSET,
};
use crate::order::{push_u32, u32_bytes};
use crate::parse::{
    cmd_at, cmd_views, detect_format, lemma_sum_take_le, lemma_sum_take_step, lemma_table_append,
    lemma_table_end_bounds, lemma_table_stable, parse_table, read_header, spec_detect,
    spec_header, spec_parse, spec_table, sum_cmdsizes, ParseOutcome, TableOutcome,
};
use vstd::prelude::*;
use vstd::seq_lib::*;

verus! {

/// Total size of the record built for a path of `len` bytes: the 8-byte
/// tag/size prefix, the 4-byte path-offset field, the path, its single zero
/// terminator, rounded up to the next multiple of 8.
pub open spec fn rpath_cmdsize(len: nat) -> int {
    (((len + 13 + 7) / 8) * 8) as int
}

/// The rounded size is 8-aligned and exceeds the unpadded size by less
/// than one alignment step.
pub proof fn lemma_rpath_cmdsize_bounds(len: nat)
    ensures
        rpath_cmdsize(len) % 8 == 0,
        len + 13 <= rpath_cmdsize(len) <= len + 20,
{
    let q = (len + 20) / 8;
    assert((q * 8) % 8 == 0) by (nonlinear_arith);
    assert(len + 13 <= q * 8 <= len + 20) by (nonlinear_arith)
        requires
            q == (len + 20) / 8,
    ;
}

/// `n` zero bytes.
pub open spec fn zero_bytes(n: nat) -> Seq<u8> {
    Seq::new(n, |i: int| 0u8)
}

/// The bytes of the record built for `path`: tag, total size, the fixed
/// path offset 16, the path, a zero terminator, zero padding up to the
/// rounded size.  Multi-byte fields use the fixed least-significant-first
/// order whatever order the surrounding file uses.
pub open spec fn spec_rpath_record(path: Seq<u8>) -> Seq<u8> {
    u32_bytes(LC_RPATH, ByteOrder::Little) + u32_bytes(
        rpath_cmdsize(path.len()) as u32,
        ByteOrder::Little,
    ) + u32_bytes(RPATH_PATH_OFFSET, ByteOrder::Little) + path + seq![0u8] + zero_bytes(
        (rpath_cmdsize(path.len()) - (path.len() + 13)) as nat,
    )
}

/// The record's byte count is exactly the rounded size.
pub proof fn lemma_rpath_record_len(path: Seq<u8>)
    ensures
        spec_rpath_record(path).len() == rpath_cmdsize(path.len()),
{
    lemma_rpath_cmdsize_bounds(path.len());
    crate::order::lemma_u32_bytes_round_trip(LC_RPATH, ByteOrder::Little);
    crate::order::lemma_u32_bytes_round_trip(rpath_cmdsize(path.len()) as u32, ByteOrder::Little);
    crate::order::lemma_u32_bytes_round_trip(RPATH_PATH_OFFSET, ByteOrder::Little);
}

/// Append `src[from .. to]` to `out`.
fn copy_range(src: &Vec<u8>, from: usize, to: usize, out: &mut Vec<u8>)
    requires
        from <= to <= src@.len(),
    ensures
        final(out)@ == old(out)@ + src@.subrange(from as int, to as int),
{
    let ghost base = out@;
    let mut idx: usize = from;
    proof {
        assert(out@ =~= base + src@.subrange(from as int, from as int));
    }
    while idx < to
        invariant
            from <= idx <= to,
            to <= src@.len(),
            out@ == base + src@.subrange(from as int, idx as int),
        decreases to - idx,
    {
        out.push(src[idx]);
        proof {
            assert(out@ =~= base + src@.subrange(from as int, idx as int + 1));
        }
        idx += 1;
    }
}

/// Append `n` zero bytes to `out`.
fn push_zeros(out: &mut Vec<u8>, n: usize)
    ensures
        final(out)@ == old(out)@ + zero_bytes(n as nat),
{
    let ghost base = out@;
    let mut k: usize = 0;
    proof {
        assert(out@ =~= base + zero_bytes(0));
    }
    while k < n
        invariant
            k <= n,
            out@ == base + zero_bytes(k as nat),
        decreases n - k,
    {
        out.push(0u8);
        proof {
            assert(out@ =~= base + zero_bytes((k + 1) as nat));
        }
        k += 1;
    }
}

/// Build the record that embeds `path`: the emitted bytes are exactly
/// [`spec_rpath_record`], and their count is the 8-aligned rounded size —
/// at least the path length plus 13 (8-byte frame, 4-byte offset field,
/// 1-byte terminator), never more than 7 bytes beyond it.
pub fn build_rpath_record(path: &Vec<u8>) -> (r: Vec<u8>)
    requires
        forall|k: int| 0 <= k < path@.len() ==> path@[k] != 0,
        path@.len() + 20 < 0x100000000,
    ensures
        r@ == spec_rpath_record(path@),
        r@.len() == rpath_cmdsize(path@.len() as nat),
        r@.len() % 8 == 0,
        r@.len() >= path@.len() + 13,
{
    let plen = path.len();
    let csize: usize = (plen + 13 + 7) / 8 * 8;
    proof {
        lemma_rpath_cmdsize_bounds(path@.len() as nat);
    }
    let mut r: Vec<u8> = Vec::new();
    push_u32(&mut r, LC_RPATH, ByteOrder::Little);
    push_u32(&mut r, csize as u32, ByteOrder::Little);
    push_u32(&mut r, RPATH_PATH_OFFSET, ByteOrder::Little);
    copy_range(path, 0, plen, &mut r);
    r.push(0u8);
    let pad = csize - (plen + 13);
    push_zeros(&mut r, pad);
    proof {
        lemma_rpath_record_len(path@);
        assert(path@.subrange(0, plen as int) =~= path@);
        assert(r@ =~= spec_rpath_record(path@));
    }
    r
}

/// The buffer that results from inserting the record for `path` into `s`:
/// the first 16 header bytes, the two patched counters in the detected
/// order `o`, the rest of the head up to the insertion offset `end`, the
/// new record, then the unchanged trailing content.
pub open spec fn spec_insert(
    s: Seq<u8>,
    o: ByteOrder,
    h: MachHeader,
    end: int,
    path: Seq<u8>,
) -> Seq<u8> {
    s.subrange(0, 16) + u32_bytes((h.ncmds + 1) as u32, o) + u32_bytes(
        (h.sizeofcmds + rpath_cmdsize(path.len())) as u32,
        o,
    ) + s.subrange(24, end) + spec_rpath_record(path) + s.subrange(end, s.len() as int)
}

/// Machine limits an insertion needs: the new record's size and the
/// updated counters must fit their 32-bit fields, and the grown buffer
/// must fit a `usize`.
pub open spec fn add_rpath_fits(s: Seq<u8>, path: Seq<u8>) -> bool {
    &&& path.len() + 20 < 0x100000000
    &&& s.len() + path.len() + 20 < usize::MAX
    &&& (spec_parse(s) matches ParseOutcome::Parsed { header, .. } ==> {
        &&& header.ncmds < 0xffffffff
        &&& header.sizeofcmds + rpath_cmdsize(path.len()) < 0x100000000
    })
}

/// Insert a run-path record for `path` into the buffer.
///
/// On any parse failure the buffer is handed back untouched and the parse
/// error is returned.  On success the new record stands immediately after
/// the last existing record, the header's record count has grown by one,
/// its total record bytes by the new record's size, and everything past
/// the insertion point is shifted, not altered.  Absolute file offsets
/// held inside other records are deliberately left stale; nothing here
/// recomputes them.
pub fn add_rpath(data: &mut Vec<u8>, path: &Vec<u8>) -> (r: Result<(), MachError>)
    requires
        forall|k: int| 0 <= k < path@.len() ==> path@[k] != 0,
        add_rpath_fits(old(data)@, path@),
    ensures
        match spec_parse(old(data)@) {
            ParseOutcome::Failed { err } => r == Err::<(), MachError>(err) && final(data)@
                == old(data)@,
            ParseOutcome::Parsed { order, header, end, .. } => {
                &&& r == Ok::<(), MachError>(())
                &&& final(data)@ == spec_insert(old(data)@, order, header, end, path@)
                &&& final(data)@.len() == old(data)@.len() + rpath_cmdsize(path@.len() as nat)
            },
        },
{
    let (w, o) = match detect_format(data) {
        Ok(p) => p,
        Err(e) => {
            return Err(e);
        },
    };
    let header = match read_header(data, w, o) {
        Ok(h) => h,
        Err(e) => {
            return Err(e);
        },
    };
    let hs = header_size(w);
    let cmds = match parse_table(data, o, hs, header.ncmds) {
        Ok(c) => c,
        Err(e) => {
            return Err(e);
        },
    };
    let len = data.len();
    let ghost views = cmd_views(cmds@);
    let ghost end = hs as int + sum_cmdsizes(views);
    proof {
        assert(spec_parse(data@) == (ParseOutcome::Parsed {
            word: w,
            order: o,
            header,
            cmds: views,
            end,
        }));
    }
    // The insertion offset: the fixed header plus every declared record size.
    let mut insert_off: usize = hs;
    let mut ci: usize = 0;
    proof {
        assert(views.take(0) =~= Seq::<crate::model::LoadCommandView>::empty());
    }
    while ci < cmds.len()
        invariant
            ci <= cmds@.len(),
            views == cmd_views(cmds@),
            views.len() == cmds@.len(),
            hs + sum_cmdsizes(views) <= len,
            insert_off == hs + sum_cmdsizes(views.take(ci as int)),
            hs <= len,
        decreases cmds@.len() - ci,
    {
        proof {
            lemma_sum_take_step(views, ci as int);
            lemma_sum_take_le(views, ci as int + 1);
            assert(views[ci as int] == cmds@[ci as int]@);
        }
        insert_off = insert_off + (cmds[ci].cmdsize as usize);
        ci += 1;
    }
    proof {
        assert(views.take(views.len() as int) =~= views);
        assert(insert_off == end);
    }
    let record = build_rpath_record(path);
    let csize32: u32 = record.len() as u32;
    let new_ncmds: u32 = header.ncmds + 1;
    let new_sizeofcmds: u32 = header.sizeofcmds + csize32;
    let mut out: Vec<u8> = Vec::new();
    copy_range(data, 0, 16, &mut out);
    push_u32(&mut out, new_ncmds, o);
    push_u32(&mut out, new_sizeofcmds, o);
    copy_range(data, 24, insert_off, &mut out);
    copy_range(&record, 0, record.len(), &mut out);
    copy_range(data, insert_off, len, &mut out);
    proof {
        crate::order::lemma_u32_bytes_round_trip(new_ncmds, o);
        crate::order::lemma_u32_bytes_round_trip(new_sizeofcmds, o);
        assert(record@.subrange(0, record@.len() as int) =~= record@);
        assert(out@ =~= spec_insert(data@, o, header, end, path@));
        assert(out@.len() == data@.len() + rpath_cmdsize(path@.len() as nat));
    }
    *data = out;
    Ok(())
}

/// Splice law: inserting into a parsable buffer grows it by exactly the
/// new record's rounded size; the record stands at the old insertion
/// offset; everything before it other than the two counter fields is
/// untouched; and the trailing content reappears byte for byte, shifted by
/// the record's size.
pub proof fn lemma_insert_layout(s: Seq<u8>, path: Seq<u8>)
    requires
        spec_parse(s) matches ParseOutcome::Parsed { .. },
    ensures
        spec_parse(s) matches ParseOutcome::Parsed { order, header, end, .. } ==> {
            let s2 = spec_insert(s, order, header, end, path);
            let c = rpath_cmdsize(path.len());
            &&& s2.len() == s.len() + c
            &&& s2.subrange(0, 16) == s.subrange(0, 16)
            &&& s2.subrange(24, end) == s.subrange(24, end)
            &&& s2.subrange(end, end + c) == spec_rpath_record(path)
            &&& s2.subrange(end + c, s2.len() as int) == s.subrange(end, s.len() as int)
        },
{
    let po = spec_parse(s);
    if let ParseOutcome::Parsed { word, order, header, cmds, end } = po {
        let hs = crate::model::spec_header_size(word);
        lemma_table_end_bounds(s, order, hs, header.ncmds as nat);
        assert(24 <= hs <= end <= s.len());
        let s2 = spec_insert(s, order, header, end, path);
        let c = rpath_cmdsize(path.len());
        lemma_rpath_cmdsize_bounds(path.len());
        lemma_rpath_record_len(path);
        crate::order::lemma_u32_bytes_round_trip((header.ncmds + 1) as u32, order);
        crate::order::lemma_u32_bytes_round_trip((header.sizeofcmds + c) as u32, order);
        assert(s2.len() == s.len() + c);
        assert(s2.subrange(0, 16) =~= s.subrange(0, 16));
        assert(s2.subrange(24, end) =~= s.subrange(24, end));
        assert(s2.subrange(end, end + c) =~= spec_rpath_record(path));
        assert(s2.subrange(end + c, s2.len() as int) =~= s.subrange(end, s.len() as int));
    }
}

/// Counter law: after an insertion the re-read header matches the old one
/// in every field except the record count, which has grown by exactly one,
/// and the total record bytes, which have grown by exactly the new
/// record's rounded size; the magic, and with it the detected format, is
/// untouched.
pub proof fn lemma_insert_updates_header(s: Seq<u8>, path: Seq<u8>)
    requires
        spec_parse(s) matches ParseOutcome::Parsed { .. },
        add_rpath_fits(s, path),
    ensures
        spec_parse(s) matches ParseOutcome::Parsed { word, order, header, end, .. } ==> {
            let s2 = spec_insert(s, order, header, end, path);
            let h2 = spec_header(s2, word, order);
            &&& spec_detect(s2) == spec_detect(s)
            &&& h2.ncmds == header.ncmds + 1
            &&& h2.sizeofcmds == header.sizeofcmds + rpath_cmdsize(path.len())
            &&& h2.magic == header.magic
            &&& h2.cputype == header.cputype
            &&& h2.cpusubtype == header.cpusubtype
            &&& h2.filetype == header.filetype
            &&& h2.flags == header.flags
            &&& h2.reserved == header.reserved
        },
{
    let po = spec_parse(s);
    if let ParseOutcome::Parsed { word, order, header, cmds, end } = po {
        let hs = crate::model::spec_header_size(word);
        lemma_table_end_bounds(s, order, hs, header.ncmds as nat);
        assert(24 <= hs <= end <= s.len());
        let s2 = spec_insert(s, order, header, end, path);
        let c = rpath_cmdsize(path.len());
        lemma_rpath_cmdsize_bounds(path.len());
        lemma_rpath_record_len(path);
        crate::order::lemma_u32_bytes_round_trip((header.ncmds + 1) as u32, order);
        crate::order::lemma_u32_bytes_round_trip((header.sizeofcmds + c) as u32, order);
        // Words that lie in the copied head segments are read unchanged.
        assert(s2.subrange(0, 4) =~= s.subrange(0, 4));
        assert(s2.subrange(4, 8) =~= s.subrange(4, 8));
        assert(s2.subrange(8, 12) =~= s.subrange(8, 12));
        assert(s2.subrange(12, 16) =~= s.subrange(12, 16));
        assert(s2.subrange(24, 28) =~= s.subrange(24, 28));
        if word is W64 {
            assert(s2.subrange(28, 32) =~= s.subrange(28, 32));
        }
        // The two counter fields read back as the patched values.
        let nb = crate::order::u32_bytes((header.ncmds + 1) as u32, order);
        let cb = crate::order::u32_bytes((header.sizeofcmds + c) as u32, order);
        assert(s2.subrange(16, 20) =~= nb);
        assert(s2.subrange(20, 24) =~= cb);
        assert(nb.subrange(0, 4) =~= nb);
        assert(cb.subrange(0, 4) =~= cb);
    }
}

/// The view under which a freshly inserted record is found by a re-parse
/// of a least-significant-first container: the run-path tag, the rounded
/// size, and the offset field, path, terminator and padding as payload.
pub open spec fn rpath_record_view(path: Seq<u8>) -> crate::model::LoadCommandView {
    crate::model::LoadCommandView {
        cmd: LC_RPATH,
        cmdsize: rpath_cmdsize(path.len()) as u32,
        data: spec_rpath_record(path).subrange(8, rpath_cmdsize(path.len())),
    }
}

/// Round-trip law for containers whose fields are least-significant byte
/// first: parsing the spliced buffer succeeds and yields the grown header
/// together with the old records unchanged, followed by the new record.
/// (For most-significant-first containers the record's fixed byte order
/// makes its size field read back swapped — the documented asymmetry — so
/// no such law holds there.)
pub proof fn lemma_insert_reparse(s: Seq<u8>, path: Seq<u8>)
    requires
        spec_parse(s) matches ParseOutcome::Parsed { order, .. } && order is Little,
        add_rpath_fits(s, path),
    ensures
        spec_parse(s) matches ParseOutcome::Parsed { word, order, header, cmds, end } ==> {
            let s2 = spec_insert(s, order, header, end, path);
            spec_parse(s2) == (ParseOutcome::Parsed {
                word,
                order,
                header: spec_header(s2, word, order),
                cmds: cmds + seq![rpath_record_view(path)],
                end: end + rpath_cmdsize(path.len()),
            })
        },
{
    let po = spec_parse(s);
    if let ParseOutcome::Parsed { word, order, header, cmds, end } = po {
        let hs = crate::model::spec_header_size(word);
        lemma_table_end_bounds(s, order, hs, header.ncmds as nat);
        assert(24 <= hs <= end <= s.len());
        let s2 = spec_insert(s, order, header, end, path);
        let c = rpath_cmdsize(path.len());
        let record = spec_rpath_record(path);
        lemma_rpath_cmdsize_bounds(path.len());
        lemma_rpath_record_len(path);
        lemma_insert_layout(s, path);
        lemma_insert_updates_header(s, path);
        let h2 = spec_header(s2, word, order);
        // The untouched slice of the old table parses to the same records.
        let head2 = s2.subrange(24, end);
        let head = s.subrange(24, end);
        assert(s2.subrange(hs, end) =~= head2.subrange(hs - 24, end - 24));
        assert(s.subrange(hs, end) =~= head.subrange(hs - 24, end - 24));
        assert(s2.subrange(hs, end) == s.subrange(hs, end));
        lemma_table_stable(s, s2, order, hs, header.ncmds as nat, cmds, end);
        // The spliced record frames as one further record.
        let tail = s2.subrange(end, end + c);
        assert(tail == record);
        crate::order::lemma_u32_bytes_round_trip(LC_RPATH, ByteOrder::Little);
        crate::order::lemma_u32_bytes_round_trip(c as u32, ByteOrder::Little);
        crate::order::lemma_u32_bytes_round_trip(RPATH_PATH_OFFSET, ByteOrder::Little);
        let tagb = u32_bytes(LC_RPATH, ByteOrder::Little);
        let sizeb = u32_bytes(c as u32, ByteOrder::Little);
        assert(s2.subrange(end, end + 4) =~= tail.subrange(0, 4));
        assert(tail.subrange(0, 4) =~= tagb);
        assert(tagb.subrange(0, 4) =~= tagb);
        assert(crate::order::u32_at(s2, end, order) == LC_RPATH);
        assert(s2.subrange(end + 4, end + 8) =~= tail.subrange(4, 8));
        assert(tail.subrange(4, 8) =~= sizeb);
        assert(sizeb.subrange(0, 4) =~= sizeb);
        assert(crate::order::u32_at(s2, end + 4, order) == c as u32);
        assert(c as u32 == c);
        assert(s2.len() == s.len() + c);
        assert(end + c <= s2.len());
        assert(spec_table(s2, order, end + c, 0) == (TableOutcome::Parsed {
            cmds: Seq::<crate::model::LoadCommandView>::empty(),
            end: end + c,
        }));
        assert(spec_table(s2, order, end, 1) == crate::parse::table_prepend(
            seq![cmd_at(s2, end, order)],
            spec_table(s2, order, end + c, 0),
        ));
        assert(s2.subrange(end + 8, end + c) =~= tail.subrange(8, c));
        assert(cmd_at(s2, end, order) == rpath_record_view(path));
        assert(seq![rpath_record_view(path)] + Seq::<crate::model::LoadCommandView>::empty()
            =~= seq![rpath_record_view(path)]);
        assert(spec_table(s2, order, end, 1) == (TableOutcome::Parsed {
            cmds: seq![rpath_record_view(path)],
            end: end + c,
        }));
        // Concatenate: the old table plus one more record.
        lemma_table_append(
            s2,
            order,
            hs,
            header.ncmds as nat,
            cmds,
            end,
            seq![rpath_record_view(path)],
            end + c,
        );
        // Reassemble the whole parse of the new buffer.
        assert(h2.ncmds == header.ncmds + 1);
        assert(h2.ncmds as nat == (header.ncmds + 1) as nat);
        assert(spec_detect(s2) == Ok::<(WordSize, ByteOrder), MachError>((word, order)));
        assert(s2.len() >= hs);
        assert(spec_table(s2, order, hs, h2.ncmds as nat) == (TableOutcome::Parsed {
            cmds: cmds + seq![rpath_record_view(path)],
            end: end + c,
        }));
    }
}

} // verus!
