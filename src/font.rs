use vstd::prelude::*;
use vstd::string::is_ascii;
use vstd::string::StringSliceAdditionalSpecFns;

verus! {

/// Why a font's name table could not be patched.
#[derive(Clone, Copy, Debug, PartialEq, Eq, Structural)]
pub enum FontError {
    /// The table directory has no `name` entry, or that entry has length zero.
    MissingNameTable,
    /// The name table has a format version other than zero.
    UnsupportedNameTableVersion,
    /// An offset or a count in the font points past its end.
    Truncated,
    /// A patched length or offset does not fit its field.
    TooLarge,
}

/// Big-endian 16-bit value at `i`.
pub open spec fn be16(f: Seq<u8>, i: int) -> int {
    f[i] as int * 256 + f[i + 1] as int
}

/// Big-endian 32-bit value at `i`.
pub open spec fn be32(f: Seq<u8>, i: int) -> int {
    be16(f, i) * 65536 + be16(f, i + 2)
}

/// The two big-endian bytes of `x` (below 2^16).
pub open spec fn be16_bytes(x: int) -> Seq<u8> {
    seq![(x / 256) as u8, (x % 256) as u8]
}

/// The four big-endian bytes of `x` (below 2^32).
pub open spec fn be32_bytes(x: int) -> Seq<u8> {
    be16_bytes(x / 65536) + be16_bytes(x % 65536)
}

/// Offset of the table directory entry `i`.
pub open spec fn dir_entry(i: int) -> int {
    12 + 16 * i
}

/// The four bytes at `e` spell `name`.
pub open spec fn is_name_tag(f: Seq<u8>, e: int) -> bool {
    f[e] == 0x6e && f[e + 1] == 0x61 && f[e + 2] == 0x6d && f[e + 3] == 0x65
}

/// Offset of the last directory entry among the first `n` whose tag is `name`.
pub open spec fn last_name_entry(f: Seq<u8>, n: int) -> Option<int>
    decreases n,
{
    if n <= 0 {
        None
    } else if is_name_tag(f, dir_entry(n - 1)) {
        Some(dir_entry(n - 1))
    } else {
        last_name_entry(f, n - 1)
    }
}

/// Offset of name record `i` of the name table at `offset`.
pub open spec fn record_at(offset: int, i: int) -> int {
    offset + 6 + 12 * i
}

/// Among the first `n` records of the name table at `offset` there is one for the
/// Unicode or Macintosh platform with name id `id`.
pub open spec fn has_record(f: Seq<u8>, offset: int, n: int, id: int) -> bool {
    exists|i: int|
        0 <= i < n && (be16(f, record_at(offset, i)) == 0 || be16(f, record_at(offset, i)) == 1)
            && #[trigger] be16(f, record_at(offset, i) + 6) == id
}

/// A Macintosh-platform record with name id `id`, pointing at `len` bytes at `at`
/// of the string block.
pub open spec fn mac_record(id: u8, len: int, at: int) -> Seq<u8> {
    seq![0u8, 1u8, 0u8, 0u8, 0u8, 0u8, 0u8, id] + be16_bytes(len) + be16_bytes(at)
}

/// Where the name table lies: its directory entry, its offset, its record count,
/// the start of its string block and its end.
pub open spec fn locate_name_table(f: Seq<u8>) -> Result<(int, int, int, int, int), FontError> {
    if f.len() < 6 || f.len() < dir_entry(be16(f, 4)) {
        Err(FontError::Truncated)
    } else {
        match last_name_entry(f, be16(f, 4)) {
            None => Err(FontError::MissingNameTable),
            Some(e) => {
                let offset = be32(f, e + 8);
                let end = offset + be32(f, e + 12);
                let n = be16(f, offset + 2);
                let strings = offset + be16(f, offset + 4);
                if be32(f, e + 12) == 0 {
                    Err(FontError::MissingNameTable)
                } else if offset + 2 > f.len() {
                    Err(FontError::Truncated)
                } else if be16(f, offset) != 0 {
                    Err(FontError::UnsupportedNameTableVersion)
                } else if offset + 6 > f.len() || record_at(offset, n) > f.len() || strings
                    > end || end > f.len() {
                    Err(FontError::Truncated)
                } else {
                    Ok((e, offset, n, strings, end))
                }
            },
        }
    }
}

/// Record count of the rebuilt name table: one more for each missing record.
pub open spec fn new_count(f: Seq<u8>, offset: int, n: int) -> int {
    n + (if has_record(f, offset, n, 1) { 0int } else { 1int }) + (if has_record(f, offset, n, 6) {
        0int
    } else {
        1int
    })
}

/// The name table at `offset` with `n` records, rebuilt with a record for each of
/// the two that are missing, pointing at `family` appended to the string block.
pub open spec fn rebuilt_table(
    f: Seq<u8>,
    family: Seq<u8>,
    offset: int,
    n: int,
    strings: int,
    end: int,
) -> Seq<u8> {
    let has_name = has_record(f, offset, n, 1);
    let has_post = has_record(f, offset, n, 6);
    let old_strings = f.subrange(strings, end);
    let n2 = new_count(f, offset, n);
    let new_records = (if has_name {
        Seq::empty()
    } else {
        mac_record(1, family.len() as int, old_strings.len() as int)
    }) + (if has_post {
        Seq::empty()
    } else {
        mac_record(6, family.len() as int, old_strings.len() as int)
    });
    f.subrange(offset, offset + 2) + be16_bytes(n2) + be16_bytes(6 + 12 * n2) + f.subrange(
        offset + 6,
        record_at(offset, n),
    ) + new_records + old_strings + family
}

/// The font with a name table that holds a family-name and a postscript-name record.
/// Where either is missing, a new name table is appended at the end of the font: the
/// old header and records, a record for each missing id pointing at an appended
/// copy of `family`, and the string block; the directory entry then points at it.
/// Checksums are left as they are.
pub open spec fn patched_font(f: Seq<u8>, family: Seq<u8>) -> Result<Seq<u8>, FontError> {
    match locate_name_table(f) {
        Err(err) => Err(err),
        Ok((e, offset, n, strings, end)) => patch_at(f, family, e, offset, n, strings, end),
    }
}

/// `patched_font` once the name table has been located.
pub open spec fn patch_at(
    f: Seq<u8>,
    family: Seq<u8>,
    e: int,
    offset: int,
    n: int,
    strings: int,
    end: int,
) -> Result<Seq<u8>, FontError> {
    if has_record(f, offset, n, 1) && has_record(f, offset, n, 6) {
        Ok(f)
    } else {
        let table = rebuilt_table(f, family, offset, n, strings, end);
        if family.len() > 0xffff || end - strings > 0xffff || 6 + 12 * new_count(f, offset, n)
            > 0xffff || f.len() + table.len() > 0xffff_ffff {
            Err(FontError::TooLarge)
        } else {
            Ok(
                f.subrange(0, e + 8) + be32_bytes(f.len() as int) + be32_bytes(table.len() as int)
                    + f.subrange(e + 16, f.len() as int) + table,
            )
        }
    }
}

proof fn lemma_be16_of_bytes(s: Seq<u8>, i: int, x: int)
    requires
        0 <= x < 0x1_0000,
        0 <= i,
        i + 2 <= s.len(),
        s[i] == (x / 256) as u8,
        s[i + 1] == (x % 256) as u8,
    ensures
        be16(s, i) == x,
{
}

proof fn lemma_be32_of_bytes(s: Seq<u8>, i: int, x: int)
    requires
        0 <= x < 0x1_0000_0000,
        0 <= i,
        i + 4 <= s.len(),
        s.subrange(i, i + 4) == be32_bytes(x),
    ensures
        be32(s, i) == x,
{
    let b = be32_bytes(x);
    assert(s[i] == b[0] && s[i + 1] == b[1] && s[i + 2] == b[2] && s[i + 3] == b[3]) by {
        assert(s.subrange(i, i + 4)[0] == s[i]);
        assert(s.subrange(i, i + 4)[1] == s[i + 1]);
        assert(s.subrange(i, i + 4)[2] == s[i + 2]);
        assert(s.subrange(i, i + 4)[3] == s[i + 3]);
    }
    lemma_be16_of_bytes(s, i, x / 65536);
    lemma_be16_of_bytes(s, i + 2, x % 65536);
}

/// Two fonts whose directory tags agree have the same last `name` entry.
proof fn lemma_same_tags(f: Seq<u8>, g: Seq<u8>, n: int)
    requires
        forall|i: int, m: int|
            0 <= i < n && 0 <= m < 4 ==> #[trigger] f[dir_entry(i) + m] == g[dir_entry(i) + m],
    ensures
        last_name_entry(f, n) == last_name_entry(g, n),
    decreases n,
{
    if n > 0 {
        assert(f[dir_entry(n - 1) + 0] == g[dir_entry(n - 1) + 0]);
        assert(f[dir_entry(n - 1) + 1] == g[dir_entry(n - 1) + 1]);
        assert(f[dir_entry(n - 1) + 2] == g[dir_entry(n - 1) + 2]);
        assert(f[dir_entry(n - 1) + 3] == g[dir_entry(n - 1) + 3]);
        lemma_same_tags(f, g, n - 1);
    }
}

/// Where the patch appends a table: the font's own bytes stand, but for the two
/// directory fields, which now give the new table's offset and length.
proof fn lemma_patched_bytes(f: Seq<u8>, family: Seq<u8>)
    requires
        patched_font(f, family) is Ok,
        patched_font(f, family)->Ok_0 != f,
    ensures
        ({
            let (e, offset, n, strings, end) = locate_name_table(f)->Ok_0;
            let table = rebuilt_table(f, family, offset, n, strings, end);
            let g = patched_font(f, family)->Ok_0;
            let o2 = f.len() as int;
            &&& g.len() == o2 + table.len()
            &&& forall|j: int| 0 <= j < f.len() && !(e + 8 <= j < e + 16) ==> #[trigger] g[j] == f[j]
            &&& forall|j: int| 0 <= j < table.len() ==> g[o2 + j] == #[trigger] table[j]
            &&& be32(g, e + 8) == o2
            &&& be32(g, e + 12) == table.len()
            &&& table.len() < 0x1_0000_0000
            &&& o2 < 0x1_0000_0000
        }),
{
    let (e, offset, n, strings, end) = locate_name_table(f)->Ok_0;
    lemma_located_bounds(f);
    let table = rebuilt_table(f, family, offset, n, strings, end);
    let g = patched_font(f, family)->Ok_0;
    let prefix = f.subrange(0, e + 8);
    let len_bytes = be32_bytes(f.len() as int);
    let tlen_bytes = be32_bytes(table.len() as int);
    let rest = f.subrange(e + 16, f.len() as int);
    assert(g == prefix + len_bytes + tlen_bytes + rest + table);
    let o2 = f.len() as int;
    assert forall|j: int| 0 <= j < f.len() && !(e + 8 <= j < e + 16) implies #[trigger] g[j] == f[j] by {
        if j < e + 8 {
            assert(g[j] == prefix[j]);
        } else {
            assert(g[j] == rest[j - e - 16]);
        }
    }
    assert(g.subrange(e + 8, e + 12) =~= len_bytes);
    assert(g.subrange(e + 12, e + 16) =~= tlen_bytes);
    lemma_be32_of_bytes(g, e + 8, o2);
    lemma_be32_of_bytes(g, e + 12, table.len() as int);
}

/// The layout of a rebuilt name table: its header, the old records, then the new
/// ones.
proof fn lemma_table_bytes(f: Seq<u8>, family: Seq<u8>, offset: int, n: int, strings: int, end: int)
    requires
        0 <= offset,
        0 <= n,
        offset + 6 <= f.len(),
        record_at(offset, n) <= f.len(),
        offset <= strings <= end <= f.len(),
        !(has_record(f, offset, n, 1) && has_record(f, offset, n, 6)),
        new_count(f, offset, n) * 12 + 6 < 0x1_0000,
    ensures
        ({
            let table = rebuilt_table(f, family, offset, n, strings, end);
            let n2 = new_count(f, offset, n);
            let has_name = has_record(f, offset, n, 1);
            let k = if has_name { n } else { n + 1 };
            &&& table.len() >= 6 + 12 * n2
            &&& table[0] == f[offset] && table[1] == f[offset + 1]
            &&& be16(table, 2) == n2
            &&& be16(table, 4) == 6 + 12 * n2
            &&& forall|j: int| 6 <= j < 6 + 12 * n ==> #[trigger] table[j] == f[offset + j]
            &&& !has_name ==> be16(table, 6 + 12 * n) == 1 && be16(table, 12 + 12 * n) == 1
            &&& !has_record(f, offset, n, 6) ==> be16(table, 6 + 12 * k) == 1 && be16(
                table,
                12 + 12 * k,
            ) == 6
        }),
{
    let table = rebuilt_table(f, family, offset, n, strings, end);
    let n2 = new_count(f, offset, n);
    let has_name = has_record(f, offset, n, 1);
    let has_post = has_record(f, offset, n, 6);
    let old_records = f.subrange(offset + 6, record_at(offset, n));
    let old_strings = f.subrange(strings, end);
    let r1 = if has_name {
        Seq::empty()
    } else {
        mac_record(1, family.len() as int, old_strings.len() as int)
    };
    let r6 = if has_post {
        Seq::empty()
    } else {
        mac_record(6, family.len() as int, old_strings.len() as int)
    };
    let head = f.subrange(offset, offset + 2) + be16_bytes(n2) + be16_bytes(6 + 12 * n2);
    assert(table == head + old_records + (r1 + r6) + old_strings + family);
    assert(head.len() == 6);
    lemma_be16_of_bytes(table, 2, n2);
    lemma_be16_of_bytes(table, 4, 6 + 12 * n2);
    assert forall|j: int| 6 <= j < 6 + 12 * n implies #[trigger] table[j] == f[offset + j] by {
        assert(table[j] == old_records[j - 6]);
    }
    let b = 6 + 12 * n;
    if !has_name {
        assert(table[b] == r1[0] && table[b + 1] == r1[1]);
        assert(table[b + 6] == r1[6] && table[b + 7] == r1[7]);
    }
    if !has_post {
        let k = if has_name { n } else { n + 1 };
        let c = 6 + 12 * k;
        assert(c - b == r1.len());
        assert(table[c] == r6[0] && table[c + 1] == r6[1]);
        assert(table[c + 6] == r6[6] && table[c + 7] == r6[7]);
    }
}

/// The values that locate the name table of `f`, and of the table that the
/// patch appends.
pub open spec fn appended(f: Seq<u8>, family: Seq<u8>) -> (int, int, int, int, int) {
    let (e, offset, n, strings, end) = locate_name_table(f)->Ok_0;
    let table = rebuilt_table(f, family, offset, n, strings, end);
    let n2 = new_count(f, offset, n);
    (e, f.len() as int, n2, f.len() + 6 + 12 * n2, (f.len() + table.len()) as int)
}

/// The directory of a patched font still leads to the same entry.
proof fn lemma_patched_dir(f: Seq<u8>, family: Seq<u8>, g: Seq<u8>)
    requires
        patched_font(f, family) == Ok::<Seq<u8>, FontError>(g),
        g != f,
    ensures
        g.len() >= 6,
        be16(g, 4) == be16(f, 4),
        dir_entry(be16(f, 4)) <= g.len(),
        last_name_entry(g, be16(g, 4)) == Some(appended(f, family).0),
{
    let (e, offset, n, strings, end) = locate_name_table(f)->Ok_0;
    lemma_located_bounds(f);
    lemma_patched_bytes(f, family);
    let n_tables = be16(f, 4);
    assert(g[4] == f[4] && g[5] == f[5]);
    let je = choose|je: int| 0 <= je && e == #[trigger] dir_entry(je);
    lemma_dir_kept(f, g, je, n_tables);
}

/// Bytes that differ only inside the offset and length fields of directory entry
/// `je` leave every tag as it was.
proof fn lemma_dir_kept(f: Seq<u8>, g: Seq<u8>, je: int, n_tables: int)
    requires
        0 <= je,
        dir_entry(n_tables) <= f.len() <= g.len(),
        forall|j: int|
            0 <= j < f.len() && !(dir_entry(je) + 8 <= j < dir_entry(je) + 16) ==> #[trigger] g[j] == f[j],
    ensures
        last_name_entry(f, n_tables) == last_name_entry(g, n_tables),
{
    let e = dir_entry(je);
    assert forall|i: int, m: int| 0 <= i < n_tables && 0 <= m < 4 implies #[trigger] f[dir_entry(i) + m]
        == g[dir_entry(i) + m] by {
        if i < je {
            assert(dir_entry(i) + 16 <= e);
        } else if i > je {
            assert(dir_entry(i) >= e + 16);
        }
        assert(g[dir_entry(i) + m] == f[dir_entry(i) + m]);
    }
    lemma_same_tags(f, g, n_tables);
}

/// The appended table's header, as a reader of `g` finds it.
proof fn lemma_patched_header(f: Seq<u8>, family: Seq<u8>, g: Seq<u8>)
    requires
        patched_font(f, family) == Ok::<Seq<u8>, FontError>(g),
        g != f,
    ensures
        ({
            let (e, o2, n2, s2, end2) = appended(f, family);
            &&& be32(g, e + 8) == o2
            &&& be32(g, e + 12) == end2 - o2
            &&& end2 - o2 >= 6 + 12 * n2
            &&& end2 == g.len()
            &&& be16(g, o2) == 0
            &&& be16(g, o2 + 2) == n2
            &&& be16(g, o2 + 4) == 6 + 12 * n2
            &&& 0 <= n2
        }),
{
    let (e, offset, n, strings, end) = locate_name_table(f)->Ok_0;
    lemma_located_bounds(f);
    let table = rebuilt_table(f, family, offset, n, strings, end);
    let o2 = f.len() as int;
    lemma_patched_bytes(f, family);
    lemma_table_bytes(f, family, offset, n, strings, end);
    assert(g[o2] == table[0] && g[o2 + 1] == table[1]);
    assert(g[o2 + 2] == table[2] && g[o2 + 3] == table[3]);
    assert(g[o2 + 4] == table[4] && g[o2 + 5] == table[5]);
}

/// The appended table holds both records.
#[verifier::rlimit(100)]
proof fn lemma_patched_records(f: Seq<u8>, family: Seq<u8>, g: Seq<u8>)
    requires
        patched_font(f, family) == Ok::<Seq<u8>, FontError>(g),
        g != f,
    ensures
        has_record(g, appended(f, family).1, appended(f, family).2, 1),
        has_record(g, appended(f, family).1, appended(f, family).2, 6),
{
    let (e, offset, n, strings, end) = locate_name_table(f)->Ok_0;
    lemma_located_bounds(f);
    let has_name = has_record(f, offset, n, 1);
    let has_post = has_record(f, offset, n, 6);
    let table = rebuilt_table(f, family, offset, n, strings, end);
    let n2 = new_count(f, offset, n);
    let o2 = f.len() as int;
    lemma_patched_bytes(f, family);
    lemma_table_bytes(f, family, offset, n, strings, end);
    lemma_records_kept(f, g, offset, n, o2, table);
    assert(has_record(g, o2, n2, 1)) by {
        if !has_name {
            let b = 6 + 12 * n;
            assert(g[o2 + b] == table[b] && g[o2 + b + 1] == table[b + 1]);
            assert(g[o2 + b + 6] == table[b + 6] && g[o2 + b + 7] == table[b + 7]);
            assert(be16(g, record_at(o2, n) + 6) == 1);
        } else {
            let i = choose|i: int|
                0 <= i < n && (be16(g, record_at(o2, i)) == 0 || be16(g, record_at(o2, i)) == 1)
                    && #[trigger] be16(g, record_at(o2, i) + 6) == 1;
        }
    }
    assert(has_record(g, o2, n2, 6)) by {
        if !has_post {
            let k = if has_name { n } else { n + 1 };
            let b = 6 + 12 * k;
            assert(g[o2 + b] == table[b] && g[o2 + b + 1] == table[b + 1]);
            assert(g[o2 + b + 6] == table[b + 6] && g[o2 + b + 7] == table[b + 7]);
            assert(be16(g, record_at(o2, k) + 6) == 6);
        } else {
            let i = choose|i: int|
                0 <= i < n && (be16(g, record_at(o2, i)) == 0 || be16(g, record_at(o2, i)) == 1)
                    && #[trigger] be16(g, record_at(o2, i) + 6) == 6;
        }
    }
}

/// Patching a font that has just been patched with the same family gives it back
/// unchanged: its name table already holds both records, so the record count
/// stays and no second table is appended.
pub proof fn lemma_patch_idempotent(f: Seq<u8>, family: Seq<u8>)
    requires
        patched_font(f, family) is Ok,
    ensures
        patched_font(patched_font(f, family)->Ok_0, family) == patched_font(f, family),
{
    let g = patched_font(f, family)->Ok_0;
    if g != f {
        lemma_patched_dir(f, family, g);
        lemma_patched_header(f, family, g);
        lemma_patched_records(f, family, g);
        let (e, o2, n2, s2, end2) = appended(f, family);
        assert(locate_name_table(g) == Ok::<(int, int, int, int, int), FontError>(
            (e, o2, n2, s2, end2),
        ));
    }
}

/// The old records stand, copied, at the start of the new table's records.
proof fn lemma_records_kept(f: Seq<u8>, g: Seq<u8>, offset: int, n: int, o2: int, table: Seq<u8>)
    requires
        0 <= offset,
        0 <= n,
        record_at(offset, n) <= f.len(),
        table.len() >= 6 + 12 * n,
        forall|j: int| 6 <= j < 6 + 12 * n ==> #[trigger] table[j] == f[offset + j],
        o2 + table.len() <= g.len(),
        0 <= o2,
        forall|j: int| 0 <= j < table.len() ==> g[o2 + j] == #[trigger] table[j],
    ensures
        forall|id: int| has_record(f, offset, n, id) ==> has_record(g, o2, n, id),
{
    assert forall|id: int| has_record(f, offset, n, id) implies has_record(g, o2, n, id) by {
        let i = choose|i: int|
            0 <= i < n && (be16(f, record_at(offset, i)) == 0 || be16(f, record_at(offset, i)) == 1)
                && #[trigger] be16(f, record_at(offset, i) + 6) == id;
        let r = 12 * i;
        assert(table[6 + r] == f[offset + 6 + r]);
        assert(table[7 + r] == f[offset + 7 + r]);
        assert(table[12 + r] == f[offset + 12 + r]);
        assert(table[13 + r] == f[offset + 13 + r]);
        assert(g[o2 + (6 + r)] == table[6 + r]);
        assert(g[o2 + (7 + r)] == table[7 + r]);
        assert(g[o2 + (12 + r)] == table[12 + r]);
        assert(g[o2 + (13 + r)] == table[13 + r]);
        assert(g[record_at(o2, i)] == f[record_at(offset, i)]);
        assert(g[record_at(o2, i) + 1] == f[record_at(offset, i) + 1]);
        assert(g[record_at(o2, i) + 6] == f[record_at(offset, i) + 6]);
        assert(g[record_at(o2, i) + 7] == f[record_at(offset, i) + 7]);
        assert(be16(g, record_at(o2, i) + 6) == id);
    }
}

fn read_u16(f: &[u8], i: usize) -> (r: u64)
    requires
        i + 2 <= f@.len(),
    ensures
        r == be16(f@, i as int),
        r < 0x1_0000,
{
    f[i] as u64 * 256 + f[i + 1] as u64
}

fn read_u32(f: &[u8], i: usize) -> (r: u64)
    requires
        i + 4 <= f@.len(),
    ensures
        r == be32(f@, i as int),
        r < 0x1_0000_0000,
{
    let _n = f.len();
    read_u16(f, i) * 65536 + read_u16(f, i + 2)
}

fn push_u16(out: &mut Vec<u8>, x: u64)
    requires
        x < 0x1_0000,
    ensures
        final(out)@ == old(out)@ + be16_bytes(x as int),
{
    out.push((x / 256) as u8);
    out.push((x % 256) as u8);
    assert(final(out)@ =~= old(out)@ + be16_bytes(x as int));
}

fn push_u32(out: &mut Vec<u8>, x: u64)
    requires
        x < 0x1_0000_0000,
    ensures
        final(out)@ == old(out)@ + be32_bytes(x as int),
{
    push_u16(out, x / 65536);
    push_u16(out, x % 65536);
    assert(final(out)@ =~= old(out)@ + be32_bytes(x as int));
}

fn push_range(out: &mut Vec<u8>, f: &[u8], a: usize, b: usize)
    requires
        a <= b <= f@.len(),
    ensures
        final(out)@ == old(out)@ + f@.subrange(a as int, b as int),
{
    let part = vstd::slice::slice_subrange(f, a, b);
    out.extend_from_slice(part);
    assert(final(out)@ =~= old(out)@ + f@.subrange(a as int, b as int));
}

/// The last directory entry among the first `n_tables` that is tagged `name`.
fn find_name_entry(font: &[u8], n_tables: u64) -> (r: Option<usize>)
    requires
        dir_entry(n_tables as int) <= font@.len(),
    ensures
        match r {
            Some(e) => last_name_entry(font@, n_tables as int) == Some(e as int) && e + 16
                <= font@.len(),
            None => last_name_entry(font@, n_tables as int) is None,
        },
{
    let _len = font.len();
    let mut found: Option<usize> = None;
    let mut i: usize = 0;
    while (i as u64) < n_tables
        invariant
            i <= n_tables,
            dir_entry(n_tables as int) <= font@.len(),
            font@.len() <= usize::MAX,
            match found {
                Some(e) => last_name_entry(font@, i as int) == Some(e as int) && e + 16 <= 12
                    + 16 * i,
                None => last_name_entry(font@, i as int) is None,
            },
        decreases n_tables - i,
    {
        let at = 12 + 16 * i;
        if font[at] == 0x6e && font[at + 1] == 0x61 && font[at + 2] == 0x6d && font[at + 3]
            == 0x65 {
            found = Some(at);
        }
        i = i + 1;
    }
    found
}

/// Whether one of the first `n` records of the table at `offset` is a Unicode or
/// Macintosh record with name id `id`.
fn scan_records(font: &[u8], offset: u64, n: u64, id: u64) -> (r: bool)
    requires
        record_at(offset as int, n as int) <= font@.len(),
    ensures
        r == has_record(font@, offset as int, n as int, id as int),
{
    let _len = font.len();
    let mut k: u64 = 0;
    while k < n
        invariant
            k <= n,
            font@.len() <= usize::MAX,
            record_at(offset as int, n as int) <= font@.len(),
            !has_record(font@, offset as int, k as int, id as int),
        decreases n - k,
    {
        let rec = (offset + 6 + 12 * k) as usize;
        let platform = read_u16(font, rec);
        let name_id = read_u16(font, rec + 6);
        assert(rec == record_at(offset as int, k as int));
        if (platform == 0 || platform == 1) && name_id == id {
            assert(has_record(font@, offset as int, n as int, id as int));
            return true;
        }
        k = k + 1;
    }
    false
}

proof fn lemma_located_bounds(f: Seq<u8>)
    ensures
        match locate_name_table(f) {
            Ok((e, offset, n, strings, end)) => {
                &&& last_name_entry(f, be16(f, 4)) == Some(e)
                &&& 12 <= e && e + 16 <= f.len()
                &&& exists|j: int| 0 <= j && e == #[trigger] dir_entry(j)
                &&& offset == be32(f, e + 8)
                &&& offset <= strings <= end <= f.len()
                &&& offset + 6 <= f.len()
                &&& record_at(offset, n) <= f.len()
                &&& 0 <= n < 0x1_0000
            },
            Err(_) => true,
        },
{
    if let Ok((e, offset, n, strings, end)) = locate_name_table(f) {
        lemma_entry_bounds(f, be16(f, 4));
    }
}

proof fn lemma_entry_bounds(f: Seq<u8>, k: int)
    ensures
        match last_name_entry(f, k) {
            Some(e) => 12 <= e && e + 16 <= dir_entry(k) && exists|j: int| 0 <= j && e == #[trigger] dir_entry(j),
            None => true,
        },
    decreases k,
{
    if k > 0 {
        lemma_entry_bounds(f, k - 1);
    }
}

/// Where the name table lies, or why it cannot be patched.
fn locate(font: &[u8]) -> (r: Result<(usize, u64, u64, u64, u64), FontError>)
    ensures
        match r {
            Ok((e, offset, n, strings, end)) => locate_name_table(font@) == Ok::<
                (int, int, int, int, int),
                FontError,
            >((e as int, offset as int, n as int, strings as int, end as int)),
            Err(err) => locate_name_table(font@) == Err::<(int, int, int, int, int), FontError>(
                err,
            ),
        },
{
    let len = font.len();
    if len < 6 {
        return Err(FontError::Truncated);
    }
    let n_tables = read_u16(font, 4);
    if (len as u64) < 12 + 16 * n_tables {
        return Err(FontError::Truncated);
    }
    let e = match find_name_entry(font, n_tables) {
        Some(e) => e,
        None => return Err(FontError::MissingNameTable),
    };
    let offset = read_u32(font, e + 8);
    let length = read_u32(font, e + 12);
    if length == 0 {
        return Err(FontError::MissingNameTable);
    }
    if offset + 2 > len as u64 {
        return Err(FontError::Truncated);
    }
    if read_u16(font, offset as usize) != 0 {
        return Err(FontError::UnsupportedNameTableVersion);
    }
    if offset + 6 > len as u64 {
        return Err(FontError::Truncated);
    }
    let n = read_u16(font, offset as usize + 2);
    let strings = offset + read_u16(font, offset as usize + 4);
    let end = offset + length;
    if offset + 6 + 12 * n > len as u64 || strings > end || end > len as u64 {
        return Err(FontError::Truncated);
    }
    Ok((e, offset, n, strings, end))
}

fn push_mac_record(out: &mut Vec<u8>, id: u8, len: u64, at: u64)
    requires
        len < 0x1_0000,
        at < 0x1_0000,
    ensures
        final(out)@ == old(out)@ + mac_record(id, len as int, at as int),
{
    out.push(0);
    out.push(1);
    out.push(0);
    out.push(0);
    out.push(0);
    out.push(0);
    out.push(0);
    out.push(id);
    push_u16(out, len);
    push_u16(out, at);
    assert(final(out)@ =~= old(out)@ + mac_record(id, len as int, at as int));
}

/// The name table rebuilt with the missing records (see `rebuilt_table`).
fn build_table(
    font: &[u8],
    fam: &[u8],
    offset: u64,
    n: u64,
    strings: u64,
    end: u64,
    has_name: bool,
    has_post: bool,
) -> (r: Vec<u8>)
    requires
        offset <= strings <= end <= font@.len(),
        offset + 6 <= font@.len(),
        record_at(offset as int, n as int) <= font@.len(),
        has_name == has_record(font@, offset as int, n as int, 1),
        has_post == has_record(font@, offset as int, n as int, 6),
        fam@.len() < 0x1_0000,
        end - strings < 0x1_0000,
        6 + 12 * new_count(font@, offset as int, n as int) < 0x1_0000,
    ensures
        r@ == rebuilt_table(font@, fam@, offset as int, n as int, strings as int, end as int),
{
    let _len = font.len();
    let n2: u64 = n + (if has_name { 0 } else { 1 }) + (if has_post { 0 } else { 1 });
    let mut t: Vec<u8> = Vec::new();
    push_range(&mut t, font, offset as usize, offset as usize + 2);
    push_u16(&mut t, n2);
    push_u16(&mut t, 6 + 12 * n2);
    push_range(&mut t, font, offset as usize + 6, (offset + 6 + 12 * n) as usize);
    let ghost before_records = t@;
    if !has_name {
        push_mac_record(&mut t, 1, fam.len() as u64, end - strings);
    }
    if !has_post {
        push_mac_record(&mut t, 6, fam.len() as u64, end - strings);
    }
    let ghost new_records = t@.subrange(before_records.len() as int, t@.len() as int);
    push_range(&mut t, font, strings as usize, end as usize);
    push_range(&mut t, fam, 0, fam.len());
    assert(fam@.subrange(0, fam@.len() as int) =~= fam@);
    assert(t@ =~= rebuilt_table(font@, fam@, offset as int, n as int, strings as int, end as int));
    t
}

/// Makes sure that a TrueType font produced by a subsetting tool carries a
/// family-name and a postscript-name record, so that a font database accepts it.
/// Where a record is missing, a name table with records pointing at `family` is
/// appended (see `patched_font`); a font with both records is returned as it is.
pub fn patch_font(font: &[u8], family: &str) -> (r: Result<Vec<u8>, FontError>)
    requires
        is_ascii(family),
    ensures
        match r {
            Ok(v) => patched_font(font@, family.spec_bytes()) == Ok::<Seq<u8>, FontError>(v@),
            Err(e) => patched_font(font@, family.spec_bytes()) == Err::<Seq<u8>, FontError>(e),
        },
{
    let fam = family.as_bytes();
    let (e, offset, n, strings, end) = match locate(font) {
        Ok(t) => t,
        Err(err) => return Err(err),
    };
    proof {
        lemma_located_bounds(font@);
    }
    patch_located(font, fam, e, offset, n, strings, end)
}

/// The patch once the name table has been located (see `patch_at`).
fn patch_located(
    font: &[u8],
    fam: &[u8],
    e: usize,
    offset: u64,
    n: u64,
    strings: u64,
    end: u64,
) -> (r: Result<Vec<u8>, FontError>)
    requires
        12 <= e,
        e + 16 <= font@.len(),
        offset <= strings <= end <= font@.len(),
        offset + 6 <= font@.len(),
        record_at(offset as int, n as int) <= font@.len(),
        n < 0x1_0000,
    ensures
        match r {
            Ok(v) => patch_at(font@, fam@, e as int, offset as int, n as int, strings as int, end as int)
                == Ok::<Seq<u8>, FontError>(v@),
            Err(err) => patch_at(font@, fam@, e as int, offset as int, n as int, strings as int, end as int)
                == Err::<Seq<u8>, FontError>(err),
        },
{
    let has_name = scan_records(font, offset, n, 1);
    let has_post = scan_records(font, offset, n, 6);
    if has_name && has_post {
        return Ok(vstd::slice::slice_to_vec(font));
    }
    let n2: u64 = n + (if has_name { 0 } else { 1 }) + (if has_post { 0 } else { 1 });
    if fam.len() > 0xffff || end - strings > 0xffff || 6 + 12 * n2 > 0xffff {
        return Err(FontError::TooLarge);
    }
    let table = build_table(font, fam, offset, n, strings, end, has_name, has_post);
    let len = font.len();
    if table.len() > 0xffff_ffff || len > 0xffff_ffff - table.len() {
        return Err(FontError::TooLarge);
    }
    let mut out: Vec<u8> = Vec::new();
    push_range(&mut out, font, 0, e + 8);
    push_u32(&mut out, len as u64);
    push_u32(&mut out, table.len() as u64);
    push_range(&mut out, font, e + 16, len);
    let ghost head = out@;
    push_range(&mut out, table.as_slice(), 0, table.len());
    assert(table@.subrange(0, table@.len() as int) =~= table@);
    assert(out@ == head + table@);
    Ok(out)
}

} // verus!
