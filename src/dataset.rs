use vstd::prelude::*;

use vstd::string::StringSliceAdditionalSpecFns;
use vstd::utf8::encode_utf8;

use vstd::slice::slice_subrange;

use crate::arena::{grows, lemma_arena_monotone, lemma_grows_keeps, lemma_grows_trans, BumpArena, Span};
use crate::fasta::{parse_fasta, parse_fasta_into_arena, entry_held, records_in, FastaEntry, FastaError, RecordModel};

verus! {

/// The format of an input.
#[derive(Debug, Clone, Copy, PartialEq, Eq, Structural)]
pub enum SourceKind {
    Text,
    Fasta,
}

/// An input that has been read: its table name, its format and its bytes.
#[derive(Debug)]
pub struct Source {
    pub name: String,
    pub kind: SourceKind,
    pub contents: Vec<u8>,
}

/// One row: three byte ranges of the dataset's arena; `data` is what patterns match.
#[derive(Debug, Clone, Copy, PartialEq, Eq, Structural)]
pub struct Row {
    pub id: Span,
    pub desc: Span,
    pub data: Span,
}

/// A named sequence of rows.
#[derive(Debug)]
pub struct Table {
    pub name: String,
    pub rows: Vec<Row>,
}

/// Tables whose rows lie in one arena.
pub struct DataSet {
    pub arena: BumpArena,
    pub tables: Vec<Table>,
}

impl DataSet {
    /// Every row's ranges lie in the arena.
    pub open spec fn wf(&self) -> bool {
        &&& self.arena.wf()
        &&& forall|t: int, r: int|
            0 <= t < self.tables@.len() && 0 <= r < self.tables@[t].rows@.len() ==> {
                let row = #[trigger] self.tables@[t].rows@[r];
                &&& self.arena.holds(row.id)
                &&& self.arena.holds(row.desc)
                &&& self.arena.holds(row.data)
            }
    }

    /// The data bytes of row `r` of table `t`.
    pub open spec fn row_data(&self, t: int, r: int) -> Seq<u8> {
        self.arena.span_bytes(self.tables@[t].rows@[r].data)
    }
}

/// The bytes after the last `/` of `p`.
pub open spec fn file_name_of(p: Seq<u8>) -> Seq<u8>
    decreases p.len(),
{
    if p.len() == 0 {
        p
    } else if p.last() == 0x2fu8 {
        Seq::empty()
    } else {
        file_name_of(p.drop_last()).push(p.last())
    }
}

/// The extension of file name `f`: what follows its last `.`, unless that `.` starts the name.
pub open spec fn extension_of(f: Seq<u8>) -> Option<Seq<u8>>
    decreases f.len(),
{
    if f.len() <= 1 {
        None
    } else if f.last() == 0x2eu8 {
        Some(Seq::empty())
    } else {
        match extension_of(f.drop_last()) {
            Some(e) => Some(e.push(f.last())),
            None => None,
        }
    }
}

/// `s` with ASCII capitals made small.
pub open spec fn ascii_lower(s: Seq<u8>) -> Seq<u8> {
    s.map_values(|c: u8| if 0x41u8 <= c <= 0x5au8 { (c + 32) as u8 } else { c })
}

/// The extensions that mark FASTA files.
pub open spec fn is_fasta_extension(e: Seq<u8>) -> bool {
    e == seq![0x66u8, 0x61u8, 0x73u8, 0x74u8, 0x61u8] || e == seq![0x66u8, 0x61u8] || e == seq![
        0x66u8,
        0x6eu8,
        0x61u8,
    ] || e == seq![0x66u8, 0x61u8, 0x61u8] || e == seq![0x66u8, 0x73u8, 0x61u8]
}

/// The file name of `path`, as a path's last component: trailing separators and a trailing
/// `.` component are skipped; there is none when nothing is left or the last component is `..`.
pub open spec fn path_file_name(p: Seq<u8>) -> Option<Seq<u8>>
    decreases p.len(),
{
    if p.len() == 0 {
        None
    } else if p.last() == 0x2fu8 {
        path_file_name(p.drop_last())
    } else if p.last() == 0x2eu8 && p.len() == 1 {
        None
    } else if p.last() == 0x2eu8 && p[p.len() - 2] == 0x2fu8 {
        path_file_name(p.drop_last())
    } else if file_name_of(p) == seq![0x2eu8, 0x2eu8] {
        None
    } else {
        Some(file_name_of(p))
    }
}

/// The format that the extension of file name `f` names: FASTA for `fasta`, `fa`, `fna`,
/// `faa` and `fsa` in any case, text otherwise.
pub open spec fn kind_of_file(f: Seq<u8>) -> SourceKind {
    match extension_of(f) {
        Some(e) => if is_fasta_extension(ascii_lower(e)) {
            SourceKind::Fasta
        } else {
            SourceKind::Text
        },
        None => SourceKind::Text,
    }
}

/// The format of the file at `path`, by the extension of its file name.
pub open spec fn kind_of_path(path: Seq<u8>) -> SourceKind {
    match path_file_name(path) {
        Some(f) => kind_of_file(f),
        None => SourceKind::Text,
    }
}

proof fn lemma_file_name_tail(p: Seq<u8>, i: int)
    requires
        0 < i <= p.len(),
        p[i - 1] != 0x2fu8,
    ensures
        file_name_of(p.take(i)) + p.subrange(i, p.len() as int) == file_name_of(p.take(i - 1))
            + p.subrange(i - 1, p.len() as int),
{
    assert(p.take(i).drop_last() =~= p.take(i - 1));
    assert(file_name_of(p.take(i)) == file_name_of(p.take(i - 1)).push(p[i - 1]));
    assert(file_name_of(p.take(i - 1)).push(p[i - 1]) + p.subrange(i, p.len() as int) =~= file_name_of(
        p.take(i - 1),
    ) + p.subrange(i - 1, p.len() as int));
}

proof fn lemma_extension_tail(f: Seq<u8>, j: int)
    requires
        1 < j <= f.len(),
        f[j - 1] != 0x2eu8,
    ensures
        extension_of(f.take(j)) == match extension_of(f.take(j - 1)) {
            Some(e) => Some(e.push(f[j - 1])),
            None => None::<Seq<u8>>,
        },
{
    assert(f.take(j).drop_last() =~= f.take(j - 1));
}

/// Whether `a` and `b` hold the same bytes.
fn bytes_equal(a: &[u8], b: &[u8]) -> (r: bool)
    ensures
        r == (a@ == b@),
{
    if a.len() != b.len() {
        return false;
    }
    let mut i: usize = 0;
    while i < a.len()
        invariant
            a@.len() == b@.len(),
            i <= a@.len(),
            forall|k: int| 0 <= k < i ==> a@[k] == b@[k],
        decreases a@.len() - i,
    {
        if a[i] != b[i] {
            return false;
        }
        i += 1;
    }
    assert(a@ =~= b@);
    true
}

/// The format of the file at `path`, by the extension of its file name.
pub fn infer_source_kind(path: &str) -> (r: SourceKind)
    ensures
        r == kind_of_path(path.spec_bytes()),
{
    let p = path.as_bytes();
    let mut end = p.len();
    assert(p@.take(end as int) =~= p@);
    while end > 0 && (p[end - 1] == 0x2fu8 || (p[end - 1] == 0x2eu8 && end >= 2 && p[end - 2] == 0x2fu8))
        invariant
            end <= p@.len(),
            path_file_name(p@) == path_file_name(p@.take(end as int)),
        decreases end,
    {
        assert(p@.take(end as int).drop_last() =~= p@.take(end - 1));
        end -= 1;
    }
    let q = slice_subrange(p, 0, end);
    assert(q@ =~= p@.take(end as int));
    if end == 0 || (end == 1 && p[0] == 0x2eu8) {
        return SourceKind::Text;
    }
    assert(q@.last() == p@[end - 1]);
    assert(end >= 2 ==> q@[end - 2] == p@[end - 2]);
    kind_of_name(q)
}

/// The format that the extension of the last segment of `p` names; text for `..`.
#[verifier::rlimit(50)]
fn kind_of_name(p: &[u8]) -> (r: SourceKind)
    ensures
        r == if file_name_of(p@) == seq![0x2eu8, 0x2eu8] {
            SourceKind::Text
        } else {
            kind_of_file(file_name_of(p@))
        },
{
    let n = p.len();
    let mut i = n;
    assert(p@.take(n as int) =~= p@);
    assert(p@.subrange(n as int, n as int) =~= Seq::<u8>::empty());
    while i > 0 && p[i - 1] != 0x2fu8
        invariant
            n == p@.len(),
            i <= n,
            file_name_of(p@) == file_name_of(p@.take(i as int)) + p@.subrange(i as int, n as int),
        decreases i,
    {
        proof {
            lemma_file_name_tail(p@, i as int);
        }
        i -= 1;
    }
    let start = i;
    proof {
        if start > 0 {
            assert(p@.take(start as int).last() == 0x2fu8);
        } else {
            assert(p@.take(0).len() == 0);
        }
        assert(file_name_of(p@.take(start as int)).len() == 0);
        assert(file_name_of(p@) =~= p@.subrange(start as int, n as int));
    }
    let ghost f = p@.subrange(start as int, n as int);
    if n - start <= 1 {
        return SourceKind::Text;
    }
    if n - start == 2 && p[start] == 0x2eu8 && p[start + 1] == 0x2eu8 {
        assert(f =~= seq![0x2eu8, 0x2eu8]);
        return SourceKind::Text;
    }
    assert(f != seq![0x2eu8, 0x2eu8]) by {
        if f == seq![0x2eu8, 0x2eu8] {
            assert(f.len() == 2 && f[0] == 0x2eu8 && f[1] == 0x2eu8);
            assert(p@[start as int] == f[0] && p@[start + 1] == f[1]);
        }
    }
    let mut j = n;
    assert(f.take(f.len() as int) =~= f);
    while j > start + 1 && p[j - 1] != 0x2eu8
        invariant
            n == p@.len(),
            start + 1 < n,
            start + 1 <= j <= n,
            f == p@.subrange(start as int, n as int),
            extension_of(f) == match extension_of(f.take(j - start)) {
                Some(e) => Some(e + p@.subrange(j as int, n as int)),
                None => None::<Seq<u8>>,
            },
        decreases j,
    {
        proof {
            lemma_extension_tail(f, j - start);
            match extension_of(f.take(j - start - 1)) {
                Some(e) => {
                    assert(e.push(p@[j - 1]) + p@.subrange(j as int, n as int) =~= e + p@.subrange(j - 1, n as int));
                },
                None => {},
            }
        }
        j -= 1;
    }
    if j == start + 1 {
        assert(extension_of(f.take(1)) is None);
        return SourceKind::Text;
    }
    assert(f.take(j - start).last() == 0x2eu8);
    assert(extension_of(f.take(j - start)) == Some(Seq::<u8>::empty()));
    let mut ext: Vec<u8> = Vec::new();
    let mut k = j;
    while k < n
        invariant
            j <= k <= n,
            n == p@.len(),
            ext@ == ascii_lower(p@.subrange(j as int, k as int)),
        decreases n - k,
    {
        let c = p[k];
        let lower = if 0x41u8 <= c && c <= 0x5au8 {
            c + 32
        } else {
            c
        };
        ext.push(lower);
        k += 1;
        assert(ext@ =~= ascii_lower(p@.subrange(j as int, k as int)));
    }
    assert(Seq::<u8>::empty() + p@.subrange(j as int, n as int) =~= p@.subrange(j as int, n as int));
    let e = ext.as_slice();
    let fasta: [u8; 5] = [0x66u8, 0x61u8, 0x73u8, 0x74u8, 0x61u8];
    let fa: [u8; 2] = [0x66u8, 0x61u8];
    let fna: [u8; 3] = [0x66u8, 0x6eu8, 0x61u8];
    let faa: [u8; 3] = [0x66u8, 0x61u8, 0x61u8];
    let fsa: [u8; 3] = [0x66u8, 0x73u8, 0x61u8];
    assert(fasta@ =~= seq![0x66u8, 0x61u8, 0x73u8, 0x74u8, 0x61u8]);
    assert(fa@ =~= seq![0x66u8, 0x61u8]);
    assert(fna@ =~= seq![0x66u8, 0x6eu8, 0x61u8]);
    assert(faa@ =~= seq![0x66u8, 0x61u8, 0x61u8]);
    assert(fsa@ =~= seq![0x66u8, 0x73u8, 0x61u8]);
    if bytes_equal(e, fasta.as_slice()) || bytes_equal(e, fa.as_slice()) || bytes_equal(e, fna.as_slice())
        || bytes_equal(e, faa.as_slice()) || bytes_equal(e, fsa.as_slice()) {
        SourceKind::Fasta
    } else {
        SourceKind::Text
    }
}

/// The records that the rows of `t` hold in `arena`: id, description, data.
pub open spec fn table_records(arena: BumpArena, t: Table) -> Seq<RecordModel> {
    t.rows@.map_values(|r: Row| (arena.span_bytes(r.id), arena.span_bytes(r.desc), arena.span_bytes(r.data)))
}

/// The ranges of every row of `t` lie in `arena`.
pub open spec fn table_held(arena: BumpArena, t: Table) -> bool {
    forall|r: int|
        0 <= r < t.rows@.len() ==> {
            let row = #[trigger] t.rows@[r];
            &&& arena.holds(row.id)
            &&& arena.holds(row.desc)
            &&& arena.holds(row.data)
        }
}

/// A table of one row: `contents` as data, the table name as id, no description.
pub fn load_text_table(arena: &mut BumpArena, name: &str, contents: &[u8]) -> (r: Result<Table, FastaError>)
    requires
        old(arena).wf(),
    ensures
        final(arena).wf(),
        final(arena).capacity_spec() == old(arena).capacity_spec(),
        grows(*old(arena), *final(arena)),
        match r {
            Ok(t) => {
                &&& table_held(*final(arena), t)
                &&& t.name@ == name@
                &&& t.rows@.len() == 1
                &&& final(arena).span_bytes(t.rows@[0].data) == contents@
                &&& final(arena).span_bytes(t.rows@[0].id) == name.spec_bytes()
                &&& final(arena).span_bytes(t.rows@[0].desc).len() == 0
            },
            Err(e) => e.full_arena_within(
                old(arena).capacity_spec(),
                old(arena).contents().len(),
                old(arena).contents().len() + contents@.len() + name.spec_bytes().len(),
            ),
        },
        r is Ok ==> final(arena).contents().len() == old(arena).contents().len() + contents@.len()
            + name.spec_bytes().len(),
{
    let ghost a0 = *arena;
    let data = match arena.alloc_slice(contents) {
        Some(span) => span,
        None => {
            assert(arena.contents().take(a0.contents().len() as int) =~= a0.contents());
            return Err(FastaError::OutOfMemory { capacity: arena.capacity(), used: arena.used(), requested: contents.len() });
        },
    };
    let ghost a1 = *arena;
    let id = match arena.alloc_str(name) {
        Some(span) => span,
        None => {
            assert(arena.contents().take(a0.contents().len() as int) =~= a0.contents());
            return Err(FastaError::OutOfMemory { capacity: arena.capacity(), used: arena.used(), requested: name.as_bytes().len() });
        },
    };
    let ghost a2 = *arena;
    let desc = Span { start: arena.used(), len: 0 };
    proof {
        lemma_arena_monotone(a1, a2, name.spec_bytes());
        assert(a1.span_bytes(data) =~= contents@);
        assert(a2.span_bytes(id) =~= name.spec_bytes());
        assert(arena.contents().take(a0.contents().len() as int) =~= a0.contents());
    }
    let mut rows: Vec<Row> = Vec::new();
    rows.push(Row { id, desc, data });
    Ok(Table { name: name.to_owned(), rows })
}

/// A table of the records of FASTA input `raw`, in input order.
pub fn load_fasta_table(arena: &mut BumpArena, name: &str, raw: &[u8]) -> (r: Result<Table, FastaError>)
    requires
        old(arena).wf(),
    ensures
        final(arena).wf(),
        final(arena).capacity_spec() == old(arena).capacity_spec(),
        match r {
            Ok(t) => grows(*old(arena), *final(arena)) && table_held(*final(arena), t) && t.name@ == name@ && parse_fasta(raw@) == Ok::<
                Seq<RecordModel>,
                crate::fasta::FastaFault,
            >(table_records(*final(arena), t)),
            Err(e) => match e.fault() {
                Some(f) => parse_fasta(raw@) == Err::<Seq<RecordModel>, crate::fasta::FastaFault>(f),
                None => e.full_arena_within(
                    old(arena).capacity_spec(),
                    old(arena).contents().len(),
                    old(arena).contents().len() + raw@.len(),
                ),
            },
        },
    r is Ok ==> final(arena).contents().len() <= old(arena).contents().len() + raw@.len(),
{
    let entries = parse_fasta_into_arena(arena, raw)?;
    let mut rows: Vec<Row> = Vec::new();
    let mut i: usize = 0;
    while i < entries.len()
        invariant
            i <= entries@.len(),
            rows@.len() == i,
            forall|k: int| 0 <= k < i ==> rows@[k] == (Row { id: entries@[k].id, desc: entries@[k].desc, data: entries@[k].data }),
        decreases entries@.len() - i,
    {
        let e = entries[i];
        rows.push(Row { id: e.id, desc: e.desc, data: e.data });
        i += 1;
    }
    let t = Table { name: name.to_owned(), rows };
    assert(table_records(*arena, t) =~= records_in(*arena, entries@));
    assert forall|r: int| 0 <= r < t.rows@.len() implies {
        let row = #[trigger] t.rows@[r];
        &&& arena.holds(row.id)
        &&& arena.holds(row.desc)
        &&& arena.holds(row.data)
    } by {
        assert(entry_held(*arena, entries@[r]));
    }
    Ok(t)
}

/// What loading `src` gives, as records: the text as one row under the source's name, or the
/// records of the FASTA input.
pub open spec fn table_matches_source(arena: BumpArena, t: Table, src: Source) -> bool {
    &&& t.name@ == src.name@
    &&& match src.kind {
        SourceKind::Text => t.rows@.len() == 1 && arena.span_bytes(t.rows@[0].data) == src.contents@,
        SourceKind::Fasta => parse_fasta(src.contents@) == Ok::<Seq<RecordModel>, crate::fasta::FastaFault>(
            table_records(arena, t),
        ),
    }
}

/// Source `src` is text, or FASTA input that parses.
pub open spec fn loads_cleanly(src: Source) -> bool {
    src.kind == SourceKind::Text || parse_fasta(src.contents@) is Ok
}

/// The arena bytes that source `src` can need: its contents, and for text its name too.
pub open spec fn source_budget(src: Source) -> nat {
    src.contents@.len() + if src.kind == SourceKind::Text {
        encode_utf8(src.name@).len()
    } else {
        0nat
    }
}

/// The arena bytes that the first `i` sources can need.
pub open spec fn budget(sources: Seq<Source>, i: int) -> nat
    decreases i,
{
    if i <= 0 || i > sources.len() {
        0
    } else {
        budget(sources, i - 1) + source_budget(sources[i - 1])
    }
}

/// Loading `sources` into an arena of `capacity` bytes fails first at source `i` with error
/// `e`: every earlier source loads cleanly, and `e` is the fault of source `i` or a full arena.
pub open spec fn fails_first(sources: Seq<Source>, i: int, e: FastaError, capacity: nat) -> bool {
    &&& 0 <= i < sources.len()
    &&& forall|k: int| 0 <= k < i ==> #[trigger] loads_cleanly(sources[k])
    &&& match e.fault() {
        Some(f) => sources[i].kind == SourceKind::Fasta && parse_fasta(sources[i].contents@) == Err::<
            Seq<RecordModel>,
            crate::fasta::FastaFault,
        >(f),
        None => e.full_arena_within(capacity, 0, budget(sources, i + 1)),
    }
}

/// Loads each source, in order, as one table of a dataset over an arena of `capacity` bytes.
pub fn load_dataset(capacity: usize, sources: &[Source]) -> (r: Result<DataSet, FastaError>)
    requires
        capacity > 0,
    ensures
        match r {
            Ok(ds) => {
                &&& ds.wf()
                &&& ds.tables@.len() == sources@.len()
                &&& forall|i: int| 0 <= i < sources@.len() ==> #[trigger] table_matches_source(ds.arena, ds.tables@[i], sources@[i])
            },
            Err(e) => exists|i: int| #[trigger] fails_first(sources@, i, e, capacity as nat),
        },
{
    let mut pool = BumpArena::new(capacity);
    let ghost arena0 = pool;
    let mut tables: Vec<Table> = Vec::new();
    let mut i: usize = 0;
    assert(pool.contents().take(pool.contents().len() as int) =~= pool.contents());
    while i < sources.len()
        invariant
            pool.wf(),
            grows(arena0, pool),
            pool.capacity_spec() == arena0.capacity_spec(),
            arena0.contents().len() == 0,
            pool.contents().len() <= budget(sources@, i as int),
            arena0.capacity_spec() == capacity,
            forall|k: int| 0 <= k < i ==> #[trigger] loads_cleanly(sources@[k]),
            i <= sources@.len(),
            tables@.len() == i,
            forall|k: int| 0 <= k < i ==> #[trigger] table_held(pool, tables@[k]),
            forall|k: int| 0 <= k < i ==> #[trigger] table_matches_source(pool, tables@[k], sources@[k]),
        decreases sources@.len() - i,
    {
        let source = &sources[i];
        let ghost before = pool;
        let loaded = match source.kind {
            SourceKind::Text => load_text_table(&mut pool, source.name.as_str(), source.contents.as_slice()),
            SourceKind::Fasta => load_fasta_table(&mut pool, source.name.as_str(), source.contents.as_slice()),
        };
        match loaded {
            Ok(t) => {
                let ghost old_tables = tables@;
                assert(table_matches_source(pool, t, sources@[i as int]));
                tables.push(t);
                assert forall|k: int| 0 <= k < i + 1 implies #[trigger] table_held(pool, tables@[k])
                    && table_matches_source(pool, tables@[k], sources@[k]) by {
                    if k < i {
                        assert(tables@[k] == old_tables[k]);
                        assert(table_matches_source(before, old_tables[k], sources@[k]));
                        assert(table_held(before, old_tables[k]));
                        lemma_table_grows(before, pool, old_tables[k]);
                    }
                }
                assert forall|k: int| 0 <= k < i + 1 implies #[trigger] table_matches_source(pool, tables@[k], sources@[k]) by {
                    assert(table_held(pool, tables@[k]));
                }
                proof {
                    lemma_grows_trans(arena0, before, pool);
                    assert(loads_cleanly(sources@[i as int]));
                    assert(budget(sources@, i + 1) == budget(sources@, i as int) + source_budget(sources@[i as int]));
                }
            },
            Err(e) => {
                proof {
                    if e.fault() is Some {
                        assert(sources@[i as int].kind == SourceKind::Fasta);
                    }
                    assert(arena0.capacity_spec() == capacity);
                    assert(before.capacity_spec() == capacity);
                    if e.fault() is None {
                        assert(budget(sources@, i + 1) == budget(sources@, i as int) + source_budget(sources@[i as int]));
                        assert(e.full_arena_within(capacity as nat, 0, budget(sources@, i + 1)));
                    }
                    assert(forall|k: int| 0 <= k < i ==> #[trigger] loads_cleanly(sources@[k]));
                    assert(fails_first(sources@, i as int, e, capacity as nat));
                    assert(exists|j: int| #[trigger] fails_first(sources@, j, e, capacity as nat));
                }
                return Err(e);
            },
        }
        i += 1;
    }
    let ds = DataSet { arena: pool, tables };
    assert forall|t: int, r: int| 0 <= t < ds.tables@.len() && 0 <= r < ds.tables@[t].rows@.len() implies {
        let row = #[trigger] ds.tables@[t].rows@[r];
        &&& ds.arena.holds(row.id)
        &&& ds.arena.holds(row.desc)
        &&& ds.arena.holds(row.data)
    } by {
        assert(table_held(ds.arena, ds.tables@[t]));
    }
    Ok(ds)
}

proof fn lemma_table_grows(before: BumpArena, after: BumpArena, t: Table)
    requires
        grows(before, after),
        table_held(before, t),
    ensures
        table_held(after, t),
        table_records(after, t) == table_records(before, t),
        forall|r: int| 0 <= r < t.rows@.len() ==> after.span_bytes(#[trigger] t.rows@[r].data) == before.span_bytes(t.rows@[r].data),
{
    lemma_grows_keeps(before, after);
    assert forall|r: int| 0 <= r < t.rows@.len() implies #[trigger] table_records(after, t)[r] == table_records(before, t)[r] by {
        let row = t.rows@[r];
        assert(before.holds(row.id) && before.holds(row.desc) && before.holds(row.data));
    }
    assert(table_records(after, t) =~= table_records(before, t));
    assert forall|r: int| 0 <= r < t.rows@.len() implies after.span_bytes(#[trigger] t.rows@[r].data) == before.span_bytes(t.rows@[r].data) by {
        let row = t.rows@[r];
        assert(before.holds(row.data));
    }
}

} // verus!
