use vstd::prelude::*;

use vstd::slice::slice_subrange;
use vstd::string::StringExecFns;
use vstd::utf8::{decode_utf8, valid_utf8};

use crate::arena::{grows, lemma_arena_monotone, lemma_grows_trans, BumpArena, Span};

verus! {

/// One FASTA record: its id, its description and its sequence, as ranges of an arena.
#[derive(Debug, Clone, Copy, PartialEq, Eq, Structural)]
pub struct FastaEntry {
    pub id: Span,
    pub desc: Span,
    pub data: Span,
}

/// Why a FASTA input was refused.
#[derive(Debug)]
pub enum FastaError {
    /// A sequence line came before any header.
    MissingHeader,
    /// A header's id is not UTF-8.
    InvalidHeaderId,
    /// The description of the header with this id is not UTF-8.
    InvalidDescription(Vec<u8>),
    /// The sequence of the record with this id is not UTF-8.
    InvalidSequence(Vec<u8>),
    /// The arena could not take `requested` more bytes.
    OutOfMemory { capacity: usize, used: usize, requested: usize },
}

/// What a FASTA input is refused for, as the grammar decides it.
pub enum FastaFault {
    MissingHeader,
    InvalidHeaderId,
    InvalidDescription(Seq<u8>),
    InvalidSequence(Seq<u8>),
}

/// A parsed record: id, description, sequence.
pub type RecordModel = (Seq<u8>, Seq<u8>, Seq<u8>);

/// The records closed so far, the open header's id and description, and its sequence so far.
pub type ParseModel = (Seq<RecordModel>, Option<(Seq<u8>, Seq<u8>)>, Seq<u8>);

/// The index of the first `b` in `s`, or its length.
pub open spec fn first_index(s: Seq<u8>, b: u8) -> int
    decreases s.len(),
{
    if s.len() == 0 {
        0
    } else if s[0] == b {
        0
    } else {
        1 + first_index(s.drop_first(), b)
    }
}

/// A header without its `>`, split at its first space into id and description.
pub open spec fn split_header(h: Seq<u8>) -> (Seq<u8>, Seq<u8>) {
    let k = first_index(h, 0x20u8);
    if k < h.len() {
        (h.take(k), h.skip(k + 1))
    } else {
        (h, Seq::empty())
    }
}

/// Closes the open record, if any: its sequence must be UTF-8.
pub open spec fn close_record(st: ParseModel) -> Result<Seq<RecordModel>, FastaFault> {
    match st.1 {
        Some((id, desc)) => if valid_utf8(st.2) {
            Ok(st.0.push((id, desc, st.2)))
        } else {
            Err(FastaFault::InvalidSequence(id))
        },
        None => Ok(st.0),
    }
}

/// `l` without one trailing carriage return.
pub open spec fn strip_cr(l: Seq<u8>) -> Seq<u8> {
    if l.len() > 0 && l.last() == 0x0du8 {
        l.drop_last()
    } else {
        l
    }
}

/// The effect of one line: blank lines are skipped, a `>` line closes the open record and opens
/// a new one, any other line extends the open record's sequence.
pub open spec fn step_line(st: Result<ParseModel, FastaFault>, raw_line: Seq<u8>) -> Result<
    ParseModel,
    FastaFault,
> {
    let line = strip_cr(raw_line);
    match st {
        Err(e) => Err(e),
        Ok(s) => if line.len() == 0 {
            Ok(s)
        } else if line[0] == 0x3eu8 {
            match close_record(s) {
                Err(e) => Err(e),
                Ok(records) => {
                    let (id, desc) = split_header(line.drop_first());
                    if !valid_utf8(id) {
                        Err(FastaFault::InvalidHeaderId)
                    } else if !valid_utf8(desc) {
                        Err(FastaFault::InvalidDescription(id))
                    } else {
                        Ok((records, Some((id, desc)), Seq::empty()))
                    }
                },
            }
        } else if s.1 is None {
            Err(FastaFault::MissingHeader)
        } else {
            Ok((s.0, s.1, s.2 + line))
        },
    }
}

/// The state after the complete lines of `raw[..i]`, and the line still open.
pub open spec fn scan_lines(raw: Seq<u8>, i: nat) -> (Result<ParseModel, FastaFault>, Seq<u8>)
    decreases i,
{
    if i == 0 || i > raw.len() {
        (Ok((Seq::empty(), None, Seq::empty())), Seq::empty())
    } else {
        let (st, line) = scan_lines(raw, (i - 1) as nat);
        if raw[i - 1] == 0x0au8 {
            (step_line(st, line), Seq::empty())
        } else {
            (st, line.push(raw[i - 1]))
        }
    }
}

/// The records of FASTA input `raw`, or why it is refused.
pub open spec fn parse_fasta(raw: Seq<u8>) -> Result<Seq<RecordModel>, FastaFault> {
    let (st, line) = scan_lines(raw, raw.len());
    match step_line(st, line) {
        Err(e) => Err(e),
        Ok(s) => close_record(s),
    }
}

/// Relies on `String::from_utf8`: it accepts exactly the valid UTF-8 byte sequences, and the
/// string holds the characters that they encode.
#[verifier::external_body]
fn utf8_string(bytes: &[u8]) -> (r: Option<String>)
    ensures
        r is Some <==> valid_utf8(bytes@),
        r matches Some(t) ==> t@ == decode_utf8(bytes@),
{
    String::from_utf8(bytes.to_vec()).ok()
}

impl FastaError {
    /// This error reports an arena of `capacity` bytes that, with at least `used` of them
    /// taken, could not take what was asked of it.
    /// This error reports an arena of `capacity` bytes, with `used` of them taken, that could
    /// not take `requested` more, where `lo <= used` and `used + requested <= hi`: it ran out
    /// while storing bytes from a budget that ends at `hi`.
    pub open spec fn full_arena_within(&self, capacity: nat, lo: nat, hi: nat) -> bool {
        match self {
            FastaError::OutOfMemory { capacity: c, used: u, requested: q } => *c == capacity && lo <= *u
                && *u + *q <= hi && *u + *q > *c,
            _ => false,
        }
    }

    /// This error reports an arena of `capacity` bytes, `used` of them taken, that could not
    /// take `requested` more.
    pub open spec fn reports_full_arena(&self, capacity: nat, used: nat, requested: nat) -> bool {
        match self {
            FastaError::OutOfMemory { capacity: c, used: u, requested: q } => c == capacity && u == used
                && q == requested,
            _ => false,
        }
    }

    /// The fault of the grammar that this error reports; `None` for a full arena.
    pub open spec fn fault(&self) -> Option<FastaFault> {
        match self {
            FastaError::MissingHeader => Some(FastaFault::MissingHeader),
            FastaError::InvalidHeaderId => Some(FastaFault::InvalidHeaderId),
            FastaError::InvalidDescription(id) => Some(FastaFault::InvalidDescription(id@)),
            FastaError::InvalidSequence(id) => Some(FastaFault::InvalidSequence(id@)),
            FastaError::OutOfMemory { .. } => None,
        }
    }
}

/// The records that `es` hold in `arena`.
pub open spec fn records_in(arena: BumpArena, es: Seq<FastaEntry>) -> Seq<RecordModel> {
    es.map_values(|e: FastaEntry| (arena.span_bytes(e.id), arena.span_bytes(e.desc), arena.span_bytes(e.data)))
}

/// The id and description that `h` holds in `arena`.
pub open spec fn header_in(arena: BumpArena, h: Option<(Span, Span)>) -> Option<(Seq<u8>, Seq<u8>)> {
    match h {
        Some((a, b)) => Some((arena.span_bytes(a), arena.span_bytes(b))),
        None => None,
    }
}

/// The ranges of `e` lie in `arena`.
pub open spec fn entry_held(arena: BumpArena, e: FastaEntry) -> bool {
    arena.holds(e.id) && arena.holds(e.desc) && arena.holds(e.data)
}

/// Every range of `es` and `h` lies in `arena`.
pub open spec fn all_held(arena: BumpArena, es: Seq<FastaEntry>, h: Option<(Span, Span)>) -> bool {
    &&& forall|i: int| 0 <= i < es.len() ==> #[trigger] entry_held(arena, es[i])
    &&& h matches Some((a, b)) ==> arena.holds(a) && arena.holds(b)
}

proof fn lemma_models_kept(before: BumpArena, after: BumpArena, src: Seq<u8>, es: Seq<FastaEntry>, h: Option<(Span, Span)>)
    requires
        after.contents() == before.contents() + src,
        all_held(before, es, h),
    ensures
        all_held(after, es, h),
        records_in(after, es) == records_in(before, es),
        header_in(after, h) == header_in(before, h),
{
    lemma_arena_monotone(before, after, src);
    assert forall|i: int| 0 <= i < es.len() implies #[trigger] entry_held(after, es[i]) by {
        assert(entry_held(before, es[i]));
    }
    assert(records_in(after, es) =~= records_in(before, es)) by {
        assert forall|i: int| 0 <= i < es.len() implies #[trigger] records_in(after, es)[i] == records_in(before, es)[i] by {
            assert(entry_held(before, es[i]));
        }
    }
}

/// Stores `src` in the arena, or reports that it is full.
fn store(arena: &mut BumpArena, src: &[u8]) -> (r: Result<Span, FastaError>)
    requires
        old(arena).wf(),
    ensures
        final(arena).wf(),
        final(arena).capacity_spec() == old(arena).capacity_spec(),
        match r {
            Ok(span) => final(arena).contents() == old(arena).contents() + src@ && final(arena).holds(span)
                && final(arena).span_bytes(span) == src@,
            Err(e) => final(arena).contents() == old(arena).contents() && e.reports_full_arena(
                old(arena).capacity_spec(),
                old(arena).contents().len(),
                src@.len(),
            ) && old(arena).contents().len() + src@.len() > old(arena).capacity_spec(),
        },
{
    let capacity = arena.capacity();
    let used = arena.used();
    match arena.alloc_slice(src) {
        Some(span) => {
            assert(arena.span_bytes(span) =~= src@);
            Ok(span)
        },
        None => Err(FastaError::OutOfMemory { capacity, used, requested: src.len() }),
    }
}

/// Closes the open record, if any: checks its sequence and stores it.
fn close_open_record(
    arena: &mut BumpArena,
    entries: &mut Vec<FastaEntry>,
    header: &mut Option<(Span, Span)>,
    seq_buf: &Vec<u8>,
) -> (r: Result<(), FastaError>)
    requires
        old(arena).wf(),
        all_held(*old(arena), old(entries)@, *old(header)),
    ensures
        final(arena).wf(),
        final(arena).capacity_spec() == old(arena).capacity_spec(),
        grows(*old(arena), *final(arena)),
        all_held(*final(arena), final(entries)@, *final(header)),
        match r {
            Ok(()) => close_record(
                (records_in(*old(arena), old(entries)@), header_in(*old(arena), *old(header)), seq_buf@),
            ) == Ok::<Seq<RecordModel>, FastaFault>(records_in(*final(arena), final(entries)@)),
            Err(e) => match e.fault() {
                Some(f) => close_record(
                    (records_in(*old(arena), old(entries)@), header_in(*old(arena), *old(header)), seq_buf@),
                ) == Err::<Seq<RecordModel>, FastaFault>(f),
                None => e.full_arena_within(
                    old(arena).capacity_spec(),
                    old(arena).contents().len(),
                    old(arena).contents().len() + seq_buf@.len(),
                ),
            },
        },
        r is Ok ==> final(arena).contents().len() <= old(arena).contents().len() + seq_buf@.len(),
{
    proof {
        assert(arena.contents().take(arena.contents().len() as int) =~= arena.contents());
    }
    match *header {
        Some((id, desc)) => {
            if utf8_string(seq_buf.as_slice()).is_none() {
                let id_bytes = vstd::slice::slice_to_vec(arena.get(id));
                assert(arena.contents().take(arena.contents().len() as int) =~= arena.contents());
                return Err(FastaError::InvalidSequence(id_bytes));
            }
            let ghost before = *arena;
            let ghost es = entries@;
            let data = match store(arena, seq_buf.as_slice()) {
                Ok(span) => span,
                Err(e) => {
                    proof {
                        assert(arena.contents() =~= before.contents() + Seq::<u8>::empty());
                        lemma_models_kept(before, *arena, Seq::empty(), es, *header);
                        lemma_arena_monotone(before, *arena, Seq::empty());
                    }
                    return Err(e);
                },
            };
            proof {
                lemma_models_kept(before, *arena, seq_buf@, es, *header);
                lemma_arena_monotone(before, *arena, seq_buf@);
            }
            entries.push(FastaEntry { id, desc, data });
            assert(records_in(*arena, entries@) =~= records_in(before, es).push(
                (before.span_bytes(id), before.span_bytes(desc), seq_buf@),
            ));
            Ok(())
        },
        None => Ok(()),
    }
}

proof fn lemma_first_index(s: Seq<u8>, b: u8, k: int)
    requires
        0 <= k <= s.len(),
        forall|j: int| 0 <= j < k ==> s[j] != b,
        k == s.len() || s[k] == b,
    ensures
        first_index(s, b) == k,
    decreases k,
{
    if k > 0 {
        lemma_first_index(s.drop_first(), b, k - 1);
    }
}

/// The index of the first space in `h`, or its length.
fn first_space(h: &[u8]) -> (r: usize)
    ensures
        r == first_index(h@, 0x20u8),
        r <= h@.len(),
{
    let mut k: usize = 0;
    while k < h.len() && h[k] != 0x20u8
        invariant
            k <= h@.len(),
            forall|j: int| 0 <= j < k ==> h@[j] != 0x20u8,
        decreases h@.len() - k,
    {
        k += 1;
    }
    proof {
        lemma_first_index(h@, 0x20u8, k as int);
    }
    k
}

/// The parse state that the arena, the records, the open header and the sequence buffer stand
/// for.
pub open spec fn model_of(
    arena: BumpArena,
    entries: Seq<FastaEntry>,
    header: Option<(Span, Span)>,
    seq: Seq<u8>,
) -> ParseModel {
    (records_in(arena, entries), header_in(arena, header), seq)
}

/// Applies one line of input, `line_raw`, to the parse state.
#[verifier::rlimit(50)]
fn process_line(
    arena: &mut BumpArena,
    entries: &mut Vec<FastaEntry>,
    header: &mut Option<(Span, Span)>,
    seq_buf: &mut Vec<u8>,
    line_raw: &[u8],
) -> (r: Result<(), FastaError>)
    requires
        old(arena).wf(),
        all_held(*old(arena), old(entries)@, *old(header)),
    ensures
        final(arena).wf(),
        final(arena).capacity_spec() == old(arena).capacity_spec(),
        grows(*old(arena), *final(arena)),
        all_held(*final(arena), final(entries)@, *final(header)),
        match r {
            Ok(()) => step_line(
                Ok(model_of(*old(arena), old(entries)@, *old(header), old(seq_buf)@)),
                line_raw@,
            ) == Ok::<ParseModel, FastaFault>(
                model_of(*final(arena), final(entries)@, *final(header), final(seq_buf)@),
            ),
            Err(e) => match e.fault() {
                Some(f) => step_line(
                    Ok(model_of(*old(arena), old(entries)@, *old(header), old(seq_buf)@)),
                    line_raw@,
                ) == Err::<ParseModel, FastaFault>(f),
                None => e.full_arena_within(
                    old(arena).capacity_spec(),
                    old(arena).contents().len(),
                    old(arena).contents().len() + old(seq_buf)@.len() + line_raw@.len(),
                ),
            },
        },
        r is Ok ==> final(arena).contents().len() + final(seq_buf)@.len() <= old(arena).contents().len()
            + old(seq_buf)@.len() + line_raw@.len(),
{
    let mut len = line_raw.len();
    if len > 0 && line_raw[len - 1] == 0x0du8 {
        len -= 1;
    }
    let line = slice_subrange(line_raw, 0, len);
    assert(line@ =~= strip_cr(line_raw@));
    assert(arena.contents().take(arena.contents().len() as int) =~= arena.contents());
    let ghost a_start = *arena;
    if len == 0 {
        return Ok(());
    }
    if line[0] == 0x3eu8 {
        close_open_record(arena, entries, header, seq_buf)?;
        assert(grows(a_start, *arena));
        let ht = slice_subrange(line, 1, len);
        assert(ht@ =~= line@.drop_first());
        let k = first_space(ht);
        let hl = ht.len();
        let raw_id = if k < hl {
            slice_subrange(ht, 0, k)
        } else {
            ht
        };
        let raw_desc = if k < hl {
            slice_subrange(ht, k + 1, hl)
        } else {
            slice_subrange(ht, hl, hl)
        };
        assert(raw_id@ =~= split_header(ht@).0);
        assert(raw_desc@ =~= split_header(ht@).1);
        if utf8_string(raw_id).is_none() {
            return Err(FastaError::InvalidHeaderId);
        }
        if utf8_string(raw_desc).is_none() {
            return Err(FastaError::InvalidDescription(vstd::slice::slice_to_vec(raw_id)));
        }
        let ghost a0 = *arena;
        assert(grows(a_start, a0));
        let ghost es = entries@;
        let id = match store(arena, raw_id) {
            Ok(span) => span,
            Err(e) => {
                proof {
                    assert(arena.contents() =~= a0.contents() + Seq::<u8>::empty());
                    lemma_models_kept(a0, *arena, Seq::empty(), es, *header);
                    lemma_arena_monotone(a0, *arena, Seq::empty());
                    lemma_grows_trans(a_start, a0, *arena);
                }
                return Err(e);
            },
        };
        proof {
            lemma_models_kept(a0, *arena, raw_id@, es, None);
            lemma_arena_monotone(a0, *arena, raw_id@);
            lemma_grows_trans(a_start, a0, *arena);
        }
        let ghost a1 = *arena;
        let desc = match store(arena, raw_desc) {
            Ok(span) => span,
            Err(e) => {
                proof {
                    assert(arena.contents() =~= a0.contents() + raw_id@);
                    lemma_models_kept(a0, *arena, raw_id@, es, *header);
                    lemma_arena_monotone(a1, *arena, Seq::empty());
                    assert(arena.contents() =~= a1.contents() + Seq::<u8>::empty());
                    lemma_grows_trans(a_start, a1, *arena);
                }
                return Err(e);
            },
        };
        proof {
            lemma_models_kept(a1, *arena, raw_desc@, es, Some((id, id)));
            lemma_arena_monotone(a1, *arena, raw_desc@);
            lemma_grows_trans(a_start, a1, *arena);
        }
        *header = Some((id, desc));
        seq_buf.clear();
        assert(seq_buf@ =~= Seq::<u8>::empty());
        Ok(())
    } else {
        if header.is_none() {
            return Err(FastaError::MissingHeader);
        }
        let ghost before = seq_buf@;
        let mut i: usize = 0;
        while i < len
            invariant
                i <= len,
                line@.len() == len,
                seq_buf@ == before + line@.take(i as int),
            decreases len - i,
        {
            seq_buf.push(line[i]);
            i += 1;
            assert(seq_buf@ =~= before + line@.take(i as int));
        }
        assert(line@.take(len as int) =~= line@);
        Ok(())
    }
}

proof fn lemma_fault_persists(raw: Seq<u8>, i: nat, j: nat, f: FastaFault)
    requires
        i <= j <= raw.len(),
        scan_lines(raw, i).0 == Err::<ParseModel, FastaFault>(f),
    ensures
        scan_lines(raw, j).0 == Err::<ParseModel, FastaFault>(f),
    decreases j - i,
{
    if j > i {
        lemma_fault_persists(raw, i, (j - 1) as nat, f);
    }
}

/// Parses FASTA input `raw_bytes`: each `>` line opens a record whose id runs to the first
/// space and whose description is the rest; the lines up to the next header, joined, are its
/// sequence; blank lines are skipped and a trailing carriage return is dropped. Ids,
/// descriptions and sequences are stored in `arena`, in input order.
#[verifier::rlimit(50)]
pub fn parse_fasta_into_arena(arena: &mut BumpArena, raw_bytes: &[u8]) -> (r: Result<
    Vec<FastaEntry>,
    FastaError,
>)
    requires
        old(arena).wf(),
    ensures
        final(arena).wf(),
        final(arena).capacity_spec() == old(arena).capacity_spec(),
        grows(*old(arena), *final(arena)),
        match r {
            Ok(entries) => (forall|i: int| 0 <= i < entries@.len() ==> #[trigger] entry_held(*final(arena), entries@[i]))
                && parse_fasta(raw_bytes@) == Ok::<Seq<RecordModel>, FastaFault>(
                records_in(*final(arena), entries@),
            ),
            Err(e) => match e.fault() {
                Some(f) => parse_fasta(raw_bytes@) == Err::<Seq<RecordModel>, FastaFault>(f),
                None => e.full_arena_within(
                    old(arena).capacity_spec(),
                    old(arena).contents().len(),
                    old(arena).contents().len() + raw_bytes@.len(),
                ),
            },
        },
        r is Ok ==> final(arena).contents().len() <= old(arena).contents().len() + raw_bytes@.len(),
{
    let ghost raw = raw_bytes@;
    let n = raw_bytes.len();
    let mut entries: Vec<FastaEntry> = Vec::new();
    let mut header: Option<(Span, Span)> = None;
    let mut seq_buf: Vec<u8> = Vec::new();
    let mut ptr: usize = 0;
    assert(records_in(*arena, entries@) =~= Seq::<RecordModel>::empty());
    assert(seq_buf@ =~= Seq::<u8>::empty());
    assert(arena.contents().take(arena.contents().len() as int) =~= arena.contents());
    let ghost a_start = *arena;
    while ptr < n
        invariant
            grows(a_start, *arena),
            a_start == *old(arena),
            arena.contents().len() + seq_buf@.len() <= a_start.contents().len() + ptr,
            raw == raw_bytes@,
            n == raw.len(),
            ptr <= n,
            arena.wf(),
            arena.capacity_spec() == old(arena).capacity_spec(),
            all_held(*arena, entries@, header),
            scan_lines(raw, ptr as nat) == (
                Ok::<ParseModel, FastaFault>(model_of(*arena, entries@, header, seq_buf@)),
                Seq::<u8>::empty(),
            ),
        decreases n - ptr,
    {
        let mut end = ptr;
        assert(raw.subrange(ptr as int, ptr as int) =~= Seq::<u8>::empty());
        while end < n && raw_bytes[end] != 0x0au8
            invariant
                raw == raw_bytes@,
                n == raw.len(),
                ptr <= end <= n,
                scan_lines(raw, end as nat) == (
                    Ok::<ParseModel, FastaFault>(model_of(*arena, entries@, header, seq_buf@)),
                    raw.subrange(ptr as int, end as int),
                ),
            decreases n - end,
        {
            assert(raw.subrange(ptr as int, end + 1) =~= raw.subrange(ptr as int, end as int).push(raw[end as int]));
            end += 1;
        }
        let line = slice_subrange(raw_bytes, ptr, end);
        let ghost a_before = *arena;
        let processed = process_line(arena, &mut entries, &mut header, &mut seq_buf, line);
        proof {
            lemma_grows_trans(a_start, a_before, *arena);
        }
        match processed {
            Ok(()) => {},
            Err(e) => {
                proof {
                    if e.fault() is Some && end < n {
                        lemma_fault_persists(raw, (end + 1) as nat, n as nat, e.fault()->Some_0);
                    }
                }
                return Err(e);
            },
        }
        if end == n {
            let ghost a_mid = *arena;
            let closed = close_open_record(arena, &mut entries, &mut header, &seq_buf);
            proof {
                lemma_grows_trans(a_start, a_mid, *arena);
            }
            match closed {
                Ok(()) => {},
                Err(e) => {
                    return Err(e);
                },
            }
            assert forall|i: int| 0 <= i < entries@.len() implies #[trigger] entry_held(*arena, entries@[i]) by {
            }
            return Ok(entries);
        }
        ptr = end + 1;
    }
    let ghost a_mid = *arena;
    let closed = close_open_record(arena, &mut entries, &mut header, &seq_buf);
    proof {
        lemma_grows_trans(a_start, a_mid, *arena);
    }
    match closed {
        Ok(()) => {},
        Err(e) => {
            return Err(e);
        },
    }
    assert forall|i: int| 0 <= i < entries@.len() implies #[trigger] entry_held(*arena, entries@[i]) by {
    }
    Ok(entries)
}

/// The character of decimal digit `d`.
pub open spec fn digit_char(d: nat) -> char {
    if d == 0 {
        '0'
    } else if d == 1 {
        '1'
    } else if d == 2 {
        '2'
    } else if d == 3 {
        '3'
    } else if d == 4 {
        '4'
    } else if d == 5 {
        '5'
    } else if d == 6 {
        '6'
    } else if d == 7 {
        '7'
    } else if d == 8 {
        '8'
    } else {
        '9'
    }
}

/// The decimal digits of `n`.
pub open spec fn decimal(n: nat) -> Seq<char>
    decreases n,
{
    if n < 10 {
        seq![digit_char(n)]
    } else {
        decimal(n / 10) + seq![digit_char(n % 10)]
    }
}

/// Appends the decimal digits of `n` to `s`.
fn push_decimal(s: &mut String, n: usize)
    ensures
        final(s)@ == old(s)@ + decimal(n as nat),
    decreases n,
{
    if n >= 10 {
        push_decimal(s, n / 10);
    }
    let d = n % 10;
    let t: &str = if d == 0 {
        proof {
            reveal_strlit("0");
        }
        "0"
    } else if d == 1 {
        proof {
            reveal_strlit("1");
        }
        "1"
    } else if d == 2 {
        proof {
            reveal_strlit("2");
        }
        "2"
    } else if d == 3 {
        proof {
            reveal_strlit("3");
        }
        "3"
    } else if d == 4 {
        proof {
            reveal_strlit("4");
        }
        "4"
    } else if d == 5 {
        proof {
            reveal_strlit("5");
        }
        "5"
    } else if d == 6 {
        proof {
            reveal_strlit("6");
        }
        "6"
    } else if d == 7 {
        proof {
            reveal_strlit("7");
        }
        "7"
    } else if d == 8 {
        proof {
            reveal_strlit("8");
        }
        "8"
    } else {
        proof {
            reveal_strlit("9");
        }
        "9"
    };
    assert(t@ =~= seq![digit_char(d as nat)]);
    s.append(t);
    assert(s@ =~= old(s)@ + decimal(n as nat));
}

/// `prefix` followed by the text that `id` encodes, if it is UTF-8.
fn with_id(prefix: &str, id: &[u8]) -> (r: String)
    ensures
        valid_utf8(id@) ==> r@ == prefix@ + decode_utf8(id@),
{
    let mut out = prefix.to_owned();
    match utf8_string(id) {
        Some(t) => {
            out.append(t.as_str());
        },
        None => {},
    }
    out
}

impl FastaError {
    /// The message of this error.
    pub fn message(&self) -> (r: String)
        ensures
            self is MissingHeader ==> r@
                == "Parse Error: Found sequence data before the first header (line starting with >)"@,
            self is InvalidHeaderId ==> r@ == "Invalid UTF-8 in FASTA Header ID"@,
            self matches FastaError::InvalidDescription(id) ==> (valid_utf8(id@) ==> r@
                == "Invalid UTF-8 in FASTA Description for ID: "@ + decode_utf8(id@)),
            self matches FastaError::InvalidSequence(id) ==> (valid_utf8(id@) ==> r@
                == "Invalid UTF-8 in sequence data for ID: "@ + decode_utf8(id@)),
            self matches FastaError::OutOfMemory { capacity, used, requested } ==> r@
                == "BumpArena: Out of Memory! Capacity: "@ + decimal(*capacity as nat) + ", Used: "@
                + decimal(*used as nat) + ", Requested: "@ + decimal(*requested as nat),
    {
        match self {
            FastaError::MissingHeader => {
                "Parse Error: Found sequence data before the first header (line starting with >)".to_owned()
            },
            FastaError::InvalidHeaderId => "Invalid UTF-8 in FASTA Header ID".to_owned(),
            FastaError::InvalidDescription(id) => with_id(
                "Invalid UTF-8 in FASTA Description for ID: ",
                id.as_slice(),
            ),
            FastaError::InvalidSequence(id) => with_id(
                "Invalid UTF-8 in sequence data for ID: ",
                id.as_slice(),
            ),
            FastaError::OutOfMemory { capacity, used, requested } => {
                let mut out = "BumpArena: Out of Memory! Capacity: ".to_owned();
                push_decimal(&mut out, *capacity);
                out.append(", Used: ");
                push_decimal(&mut out, *used);
                out.append(", Requested: ");
                push_decimal(&mut out, *requested);
                out
            },
        }
    }
}

} // verus!
