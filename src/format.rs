use vstd::prelude::*;

verus! {

/// Bytes of a stored name: the name is NUL-padded to this length.
pub const NAME_LEN: usize = 128;

/// Bytes of a stored matrix: six little-endian `f32` values.
pub const MATRIX_LEN: usize = 24;

/// Bytes of one stored entry.
pub const RECORD_LEN: usize = 152;

/// Bytes before the first entry: the fixed header and the entry count.
pub const HEADER_LEN: usize = 18;

/// The largest number of entries one file can list.
pub const MAX_ENTRIES: usize = 65535;

/// One stored entry: a name of at most `NAME_LEN` bytes and its matrix bytes.
pub struct AtlasRecord {
    pub name: Vec<u8>,
    pub matrix: Vec<u8>,
}

pub struct RecordView {
    pub name: Seq<u8>,
    pub matrix: Seq<u8>,
}

impl View for AtlasRecord {
    type V = RecordView;

    open spec fn view(&self) -> RecordView {
        RecordView { name: self.name@, matrix: self.matrix@ }
    }
}

/// Why a directory could not be written or read.
#[derive(Debug, Clone, Copy, PartialEq, Eq, Structural)]
pub enum AtlasFormatError {
    Truncated,
    BadMagic,
    BadVersion,
    BadChunkTag,
    UnsupportedStorage,
    BadChunkVersion,
    NameTooLong,
    BadMatrix,
    TooManyEntries,
    NoFileName,
}

/// Magic, format version, chunk tag "OMATLAS", storage flag 'S', chunk version.
pub open spec fn header_bytes() -> Seq<u8> {
    seq![0x53u8, 0x4f, 0x01, 0x00, 0x4f, 0x4d, 0x41, 0x54, 0x4c, 0x41, 0x53, 0x53, 0x01, 0x00, 0x00, 0x00]
}

pub open spec fn u16_le(v: int) -> Seq<u8> {
    seq![(v % 256) as u8, (v / 256) as u8]
}

pub open spec fn u16_at(b: Seq<u8>, i: int) -> int {
    b[i] + 256 * b[i + 1]
}

pub open spec fn zeros(n: int) -> Seq<u8> {
    Seq::new(n as nat, |i: int| 0u8)
}

pub open spec fn record_bytes(r: RecordView) -> Seq<u8> {
    r.name + zeros(NAME_LEN - r.name.len()) + r.matrix
}

pub open spec fn records_bytes(rs: Seq<RecordView>) -> Seq<u8>
    decreases rs.len(),
{
    if rs.len() == 0 {
        seq![]
    } else {
        records_bytes(rs.drop_last()) + record_bytes(rs.last())
    }
}

/// The file for `rs`: header, entry count, then one record per entry.
pub open spec fn atlas_bytes(rs: Seq<RecordView>) -> Seq<u8> {
    header_bytes() + u16_le(rs.len() as int) + records_bytes(rs)
}

pub open spec fn record_error(r: RecordView) -> Option<AtlasFormatError> {
    if r.name.len() > NAME_LEN {
        Some(AtlasFormatError::NameTooLong)
    } else if r.matrix.len() != MATRIX_LEN {
        Some(AtlasFormatError::BadMatrix)
    } else {
        None
    }
}

/// The error of the first record from `i` on that cannot be stored, if any.
pub open spec fn first_record_error(rs: Seq<RecordView>, i: int) -> Option<AtlasFormatError>
    decreases rs.len() - i,
{
    if i < 0 || i >= rs.len() {
        None
    } else {
        match record_error(rs[i]) {
            Some(e) => Some(e),
            None => first_record_error(rs, i + 1),
        }
    }
}

pub open spec fn encode_spec(rs: Seq<RecordView>) -> Result<Seq<u8>, AtlasFormatError> {
    if rs.len() > MAX_ENTRIES {
        Err(AtlasFormatError::TooManyEntries)
    } else {
        match first_record_error(rs, 0) {
            Some(e) => Err(e),
            None => Ok(atlas_bytes(rs)),
        }
    }
}

/// Index of the first NUL at or after `i`, or the length when there is none.
pub open spec fn nul_pos(s: Seq<u8>, i: int) -> int
    decreases s.len() - i,
{
    if i < 0 || i >= s.len() {
        s.len() as int
    } else if s[i] == 0 {
        i
    } else {
        nul_pos(s, i + 1)
    }
}

pub open spec fn record_at(b: Seq<u8>, i: int) -> RecordView {
    let off = HEADER_LEN + RECORD_LEN * i;
    let raw = b.subrange(off, off + NAME_LEN);
    RecordView { name: raw.take(nul_pos(raw, 0)), matrix: b.subrange(off + NAME_LEN, off + RECORD_LEN) }
}

pub open spec fn chunk_tag() -> Seq<u8> {
    seq![0x4fu8, 0x4d, 0x41, 0x54, 0x4c, 0x41, 0x53]
}

pub open spec fn decode_spec(b: Seq<u8>) -> Result<Seq<RecordView>, AtlasFormatError> {
    if b.len() < HEADER_LEN {
        Err(AtlasFormatError::Truncated)
    } else if u16_at(b, 0) != 0x4f53 {
        Err(AtlasFormatError::BadMagic)
    } else if u16_at(b, 2) != 1 {
        Err(AtlasFormatError::BadVersion)
    } else if b.subrange(4, 11) != chunk_tag() {
        Err(AtlasFormatError::BadChunkTag)
    } else if b[11] != 0x53 {
        Err(AtlasFormatError::UnsupportedStorage)
    } else if b.subrange(12, 16) != seq![1u8, 0, 0, 0] {
        Err(AtlasFormatError::BadChunkVersion)
    } else if b.len() < HEADER_LEN + RECORD_LEN * u16_at(b, 16) {
        Err(AtlasFormatError::Truncated)
    } else {
        Ok(Seq::new(u16_at(b, 16) as nat, |i: int| record_at(b, i)))
    }
}

pub open spec fn record_views(rs: Seq<AtlasRecord>) -> Seq<RecordView> {
    rs.map_values(|r: AtlasRecord| r@)
}

fn push_all(out: &mut Vec<u8>, src: &Vec<u8>)
    ensures
        final(out)@ == old(out)@ + src@,
{
    let mut i: usize = 0;
    while i < src.len()
        invariant
            i <= src@.len(),
            out@ == old(out)@ + src@.take(i as int),
        decreases src@.len() - i,
    {
        out.push(src[i]);
        i = i + 1;
        proof {
            assert(out@ =~= old(out)@ + src@.take(i as int));
        }
    }
    proof {
        assert(src@.take(i as int) =~= src@);
    }
}

fn push_zeros(out: &mut Vec<u8>, n: usize)
    ensures
        final(out)@ == old(out)@ + zeros(n as int),
{
    let mut i: usize = 0;
    while i < n
        invariant
            i <= n,
            out@ == old(out)@ + zeros(i as int),
        decreases n - i,
    {
        out.push(0u8);
        i = i + 1;
        proof {
            assert(out@ =~= old(out)@ + zeros(i as int));
        }
    }
}

/// Writes the directory of an atlas page: the header, the entry count and, for
/// each record, its NUL-padded name and its matrix bytes.
pub fn encode_atlas(records: &Vec<AtlasRecord>) -> (r: Result<Vec<u8>, AtlasFormatError>)
    ensures
        match r {
            Ok(b) => encode_spec(record_views(records@)) == Ok::<Seq<u8>, AtlasFormatError>(b@),
            Err(e) => encode_spec(record_views(records@)) == Err::<Seq<u8>, AtlasFormatError>(e),
        },
{
    let ghost rs = record_views(records@);
    if records.len() > MAX_ENTRIES {
        return Err(AtlasFormatError::TooManyEntries);
    }
    let mut j: usize = 0;
    while j < records.len()
        invariant
            j <= records@.len(),
            rs == record_views(records@),
            records@.len() <= MAX_ENTRIES,
            first_record_error(rs, 0) == first_record_error(rs, j as int),
        decreases records@.len() - j,
    {
        let rec = &records[j];
        if rec.name.len() > NAME_LEN {
            return Err(AtlasFormatError::NameTooLong);
        }
        if rec.matrix.len() != MATRIX_LEN {
            return Err(AtlasFormatError::BadMatrix);
        }
        j = j + 1;
    }
    proof {
        lemma_no_record_error(rs, 0);
    }
    let count = records.len() as u16;
    let mut out: Vec<u8> = Vec::new();
    let header: [u8; 16] = [0x53, 0x4f, 0x01, 0x00, 0x4f, 0x4d, 0x41, 0x54, 0x4c, 0x41, 0x53, 0x53, 0x01, 0x00, 0x00, 0x00];
    let mut h: usize = 0;
    while h < 16
        invariant
            h <= 16,
            header@ == header_bytes(),
            out@ == header_bytes().take(h as int),
        decreases 16 - h,
    {
        out.push(header[h]);
        h = h + 1;
        proof {
            assert(out@ =~= header_bytes().take(h as int));
        }
    }
    out.push((count % 256) as u8);
    out.push((count / 256) as u8);
    proof {
        assert(out@ =~= header_bytes() + u16_le(rs.len() as int) + records_bytes(rs.take(0)));
    }
    let mut i: usize = 0;
    while i < records.len()
        invariant
            i <= records@.len(),
            rs == record_views(records@),
            records@.len() <= MAX_ENTRIES,
            first_record_error(rs, 0) is None,
            forall|k: int| 0 <= k < rs.len() ==> record_error(#[trigger] rs[k]) is None,
            out@ == header_bytes() + u16_le(rs.len() as int) + records_bytes(rs.take(i as int)),
        decreases records@.len() - i,
    {
        let rec = &records[i];
        proof {
            assert(record_error(rs[i as int]) is None);
        }
        let ghost before = out@;
        push_all(&mut out, &rec.name);
        push_zeros(&mut out, NAME_LEN - rec.name.len());
        push_all(&mut out, &rec.matrix);
        i = i + 1;
        proof {
            assert(rs.take(i as int).drop_last() =~= rs.take(i as int - 1));
            assert(out@ =~= header_bytes() + u16_le(rs.len() as int) + records_bytes(rs.take(i as int)));
        }
    }
    proof {
        assert(rs.take(i as int) =~= rs);
    }
    Ok(out)
}

proof fn lemma_no_record_error(rs: Seq<RecordView>, i: int)
    requires
        0 <= i,
        first_record_error(rs, i) is None,
    ensures
        forall|k: int| i <= k < rs.len() ==> record_error(#[trigger] rs[k]) is None,
    decreases rs.len() - i,
{
    if i < rs.len() {
        lemma_no_record_error(rs, i + 1);
    }
}

fn copy_range(b: &Vec<u8>, from: usize, to: usize) -> (r: Vec<u8>)
    requires
        from <= to <= b@.len(),
    ensures
        r@ == b@.subrange(from as int, to as int),
{
    let mut r: Vec<u8> = Vec::new();
    let mut k: usize = from;
    while k < to
        invariant
            from <= k <= to,
            to <= b@.len(),
            r@ == b@.subrange(from as int, k as int),
        decreases to - k,
    {
        r.push(b[k]);
        k = k + 1;
        proof {
            assert(r@ =~= b@.subrange(from as int, k as int));
        }
    }
    r
}

/// Reads the directory of an atlas page back into its records: each name is cut at
/// its first NUL. Trailing bytes after the last record are ignored.
pub fn decode_atlas(bytes: &Vec<u8>) -> (r: Result<Vec<AtlasRecord>, AtlasFormatError>)
    ensures
        match r {
            Ok(v) => decode_spec(bytes@) == Ok::<Seq<RecordView>, AtlasFormatError>(record_views(v@)),
            Err(e) => decode_spec(bytes@) == Err::<Seq<RecordView>, AtlasFormatError>(e),
        },
{
    let ghost b = bytes@;
    let n = bytes.len();
    if n < HEADER_LEN {
        return Err(AtlasFormatError::Truncated);
    }
    let magic: u32 = bytes[0] as u32 + 256 * (bytes[1] as u32);
    if magic != 0x4f53 {
        return Err(AtlasFormatError::BadMagic);
    }
    let version: u32 = bytes[2] as u32 + 256 * (bytes[3] as u32);
    if version != 1 {
        return Err(AtlasFormatError::BadVersion);
    }
    let tag: [u8; 7] = [0x4f, 0x4d, 0x41, 0x54, 0x4c, 0x41, 0x53];
    let mut k: usize = 0;
    while k < 7
        invariant
            k <= 7,
            n == b.len(),
            n >= HEADER_LEN,
            b == bytes@,
            tag@ == chunk_tag(),
            u16_at(b, 0) == 0x4f53,
            u16_at(b, 2) == 1,
            forall|m: int| 0 <= m < k ==> b[4 + m] == chunk_tag()[m],
        decreases 7 - k,
    {
        if bytes[4 + k] != tag[k] {
            proof {
                assert(b.subrange(4, 11)[k as int] != chunk_tag()[k as int]);
            }
            return Err(AtlasFormatError::BadChunkTag);
        }
        k = k + 1;
    }
    proof {
        assert(b.subrange(4, 11) =~= chunk_tag());
    }
    if bytes[11] != 0x53 {
        return Err(AtlasFormatError::UnsupportedStorage);
    }
    let chunk_version: [u8; 4] = [1, 0, 0, 0];
    let mut k: usize = 0;
    while k < 4
        invariant
            k <= 4,
            n == b.len(),
            n >= HEADER_LEN,
            b == bytes@,
            chunk_version@ == seq![1u8, 0, 0, 0],
            u16_at(b, 0) == 0x4f53,
            u16_at(b, 2) == 1,
            b.subrange(4, 11) == chunk_tag(),
            b[11] == 0x53,
            forall|m: int| 0 <= m < k ==> b[12 + m] == seq![1u8, 0, 0, 0][m],
        decreases 4 - k,
    {
        if bytes[12 + k] != chunk_version[k] {
            proof {
                assert(b.subrange(12, 16)[k as int] != seq![1u8, 0, 0, 0][k as int]);
            }
            return Err(AtlasFormatError::BadChunkVersion);
        }
        k = k + 1;
    }
    proof {
        assert(b.subrange(12, 16) =~= seq![1u8, 0, 0, 0]);
    }
    let count: usize = bytes[16] as usize + 256 * (bytes[17] as usize);
    if n - HEADER_LEN < RECORD_LEN * count {
        return Err(AtlasFormatError::Truncated);
    }
    let mut records: Vec<AtlasRecord> = Vec::new();
    let mut i: usize = 0;
    let mut off: usize = HEADER_LEN;
    while i < count
        invariant
            i <= count,
            count == u16_at(b, 16),
            off == HEADER_LEN + RECORD_LEN * i,
            n == b.len(),
            b == bytes@,
            HEADER_LEN + RECORD_LEN * count <= n,
            record_views(records@) == Seq::new(i as nat, |m: int| record_at(b, m)),
        decreases count - i,
    {
        let ghost raw = b.subrange(off as int, off as int + NAME_LEN);
        let mut k: usize = 0;
        while k < NAME_LEN && bytes[off + k] != 0
            invariant
                k <= NAME_LEN,
                off + RECORD_LEN <= n,
                n == b.len(),
                b == bytes@,
                raw == b.subrange(off as int, off as int + NAME_LEN),
                nul_pos(raw, 0) == nul_pos(raw, k as int),
            decreases NAME_LEN - k,
        {
            k = k + 1;
        }
        let name = copy_range(bytes, off, off + k);
        let matrix = copy_range(bytes, off + NAME_LEN, off + RECORD_LEN);
        proof {
            assert(nul_pos(raw, k as int) == k);
            assert(name@ =~= raw.take(k as int));
        }
        let ghost before = records@;
        records.push(AtlasRecord { name, matrix });
        i = i + 1;
        off = off + RECORD_LEN;
        proof {
            assert(record_views(records@) =~= record_views(before).push(record_at(b, i as int - 1)));
            assert(record_views(records@) =~= Seq::new(i as nat, |m: int| record_at(b, m)));
        }
    }
    Ok(records)
}

proof fn lemma_records_bytes(rs: Seq<RecordView>)
    requires
        forall|k: int| 0 <= k < rs.len() ==> record_error(#[trigger] rs[k]) is None,
    ensures
        records_bytes(rs).len() == RECORD_LEN * rs.len(),
        forall|i: int|
            0 <= i < rs.len() ==> records_bytes(rs).subrange(RECORD_LEN * i, RECORD_LEN * i + RECORD_LEN)
                == record_bytes(#[trigger] rs[i]),
    decreases rs.len(),
{
    if rs.len() > 0 {
        let d = rs.drop_last();
        assert forall|k: int| 0 <= k < d.len() implies record_error(#[trigger] d[k]) is None by {
            assert(d[k] == rs[k]);
        }
        lemma_records_bytes(d);
        assert(record_error(rs.last()) is None);
        let whole = records_bytes(rs);
        assert forall|i: int| 0 <= i < rs.len() implies whole.subrange(RECORD_LEN * i, RECORD_LEN * i + RECORD_LEN)
            == record_bytes(#[trigger] rs[i]) by {
            if i < d.len() {
                assert(d[i] == rs[i]);
                assert(whole.subrange(RECORD_LEN * i, RECORD_LEN * i + RECORD_LEN) =~= records_bytes(d).subrange(
                    RECORD_LEN * i,
                    RECORD_LEN * i + RECORD_LEN,
                ));
            } else {
                assert(whole.subrange(RECORD_LEN * i, RECORD_LEN * i + RECORD_LEN) =~= record_bytes(rs.last()));
            }
        }
    }
}

proof fn lemma_nul_pos_padded(name: Seq<u8>, i: int)
    requires
        name.len() <= NAME_LEN,
        forall|k: int| 0 <= k < name.len() ==> #[trigger] name[k] != 0,
        0 <= i <= name.len(),
    ensures
        nul_pos(name + zeros(NAME_LEN - name.len()), i) == name.len(),
    decreases name.len() - i,
{
    let s = name + zeros(NAME_LEN - name.len());
    if i < name.len() {
        assert(s[i] == name[i]);
        lemma_nul_pos_padded(name, i + 1);
    } else if name.len() < NAME_LEN {
        assert(s[i] == 0);
    }
}

/// Reading back what was written gives the same records, for every list of records
/// that can be written and whose names hold no NUL byte.
pub proof fn lemma_round_trip(rs: Seq<RecordView>)
    requires
        encode_spec(rs) is Ok,
        forall|i: int, k: int| 0 <= i < rs.len() && 0 <= k < rs[i].name.len() ==> #[trigger] rs[i].name[k] != 0,
    ensures
        encode_spec(rs) == Ok::<Seq<u8>, AtlasFormatError>(atlas_bytes(rs)),
        decode_spec(atlas_bytes(rs)) == Ok::<Seq<RecordView>, AtlasFormatError>(rs),
{
    lemma_no_record_error(rs, 0);
    lemma_records_bytes(rs);
    let b = atlas_bytes(rs);
    let body = records_bytes(rs);
    let n = rs.len();
    assert(b.len() == HEADER_LEN + RECORD_LEN * n);
    assert(b[0] == 0x53 && b[1] == 0x4f && b[2] == 1 && b[3] == 0);
    assert(b.subrange(4, 11) =~= chunk_tag());
    assert(b[11] == 0x53);
    assert(b.subrange(12, 16) =~= seq![1u8, 0, 0, 0]);
    assert(b[16] == (n % 256) as u8 && b[17] == (n / 256) as u8);
    assert(u16_at(b, 16) == n);
    assert forall|i: int| 0 <= i < n implies #[trigger] record_at(b, i) == rs[i] by {
        let off = HEADER_LEN + RECORD_LEN * i;
        assert(b.subrange(off, off + RECORD_LEN) =~= body.subrange(RECORD_LEN * i, RECORD_LEN * i + RECORD_LEN));
        let rec = record_bytes(rs[i]);
        assert(record_error(rs[i]) is None);
        let raw = b.subrange(off, off + NAME_LEN);
        let padded = rs[i].name + zeros(NAME_LEN - rs[i].name.len());
        assert(raw =~= padded);
        assert forall|k: int| 0 <= k < rs[i].name.len() implies #[trigger] rs[i].name[k] != 0 by {}
        lemma_nul_pos_padded(rs[i].name, 0);
        assert(raw.take(nul_pos(raw, 0)) =~= rs[i].name);
        assert(rec.subrange(NAME_LEN as int, RECORD_LEN as int) =~= rs[i].matrix);
        assert(b.subrange(off + NAME_LEN, off + RECORD_LEN) =~= b.subrange(off, off + RECORD_LEN).subrange(
            NAME_LEN as int,
            RECORD_LEN as int,
        ));
    }
    assert(Seq::new(n as nat, |i: int| record_at(b, i)) =~= rs);
}

} // verus!
