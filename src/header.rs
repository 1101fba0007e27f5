//! The gzip member header, with the BGZF `BC` extra subfield.
use crate::error::BGZFError;
use vstd::prelude::*;

verus! {

pub const GZIP_ID1: u8 = 31;
pub const GZIP_ID2: u8 = 139;
/// Size of the canonical BGZF header plus its footer.
pub const BGZIP_HEADER_SIZE: u16 = 20 + 6;
pub const DEFLATE: u8 = 8;
pub const FLAG_FTEXT: u8 = 1;
pub const FLAG_FHCRC: u8 = 2;
pub const FLAG_FEXTRA: u8 = 4;
pub const FLAG_FNAME: u8 = 8;
pub const FLAG_FCOMMENT: u8 = 16;
pub const FILESYSTEM_FAT: u8 = 0;
pub const FILESYSTEM_UNIX: u8 = 3;
pub const FILESYSTEM_NTFS: u8 = 11;
pub const FILESYSTEM_UNKNOWN: u8 = 255;

/// Little-endian bytes of a `u16`.
pub open spec fn le16(v: u16) -> Seq<u8> {
    seq![(v % 256) as u8, (v / 256) as u8]
}

/// Little-endian bytes of a `u32`.
pub open spec fn le32(v: u32) -> Seq<u8> {
    seq![(v % 256) as u8, ((v / 256) % 256) as u8, ((v / 65536) % 256) as u8, (v / 16777216) as u8]
}

/// The little-endian `u16` at `i`.
pub open spec fn read16(s: Seq<u8>, i: int) -> u16 {
    (s[i] + 256 * s[i + 1]) as u16
}

/// The little-endian `u32` at `i`.
pub open spec fn read32(s: Seq<u8>, i: int) -> u32 {
    (s[i] + 256 * s[i + 1] + 65536 * s[i + 2] + 16777216 * s[i + 3]) as u32
}

/// One extra subfield, as values.
pub struct ExtraFieldModel {
    pub id1: u8,
    pub id2: u8,
    pub data: Seq<u8>,
}

/// A gzip header, as values.
pub struct HeaderModel {
    pub compression_method: u8,
    pub flags: u8,
    pub modified_time: u32,
    pub extra_flags: u8,
    pub operation_system: u8,
    pub extra_field_len: Option<u16>,
    pub extra_field: Seq<ExtraFieldModel>,
    pub file_name: Option<Seq<u8>>,
    pub comment: Option<Seq<u8>>,
    pub crc16: Option<u16>,
}

/// Gzip extra subfield.
#[derive(Debug, Clone, PartialEq, Eq)]
pub struct ExtraField {
    pub sub_field_id1: u8,
    pub sub_field_id2: u8,
    pub data: Vec<u8>,
}

impl View for ExtraField {
    type V = ExtraFieldModel;

    open spec fn view(&self) -> ExtraFieldModel {
        ExtraFieldModel { id1: self.sub_field_id1, id2: self.sub_field_id2, data: self.data@ }
    }
}

pub open spec fn opt_bytes(v: Option<Vec<u8>>) -> Option<Seq<u8>> {
    match v {
        Some(b) => Some(b@),
        None => None,
    }
}

pub open spec fn fields_view(fs: Seq<ExtraField>) -> Seq<ExtraFieldModel> {
    fs.map_values(|f: ExtraField| f@)
}

/// gzip file header
#[derive(Debug, Clone, PartialEq, Eq)]
pub struct BGZFHeader {
    /// Compression method; must be [`DEFLATE`].
    pub compression_method: u8,
    /// Combination of the `FLAG_*` bits.
    pub flags: u8,
    /// Modification time in unix epoch, `0` if unknown.
    pub modified_time: u32,
    /// Extra flags.
    pub extra_flags: u8,
    /// Operating system.
    pub operation_system: u8,
    /// Length of the extra field.
    pub extra_field_len: Option<u16>,
    /// Extra subfields.
    pub extra_field: Vec<ExtraField>,
    /// Original file name, with its terminating NUL when parsed.
    pub file_name: Option<Vec<u8>>,
    /// Comment, with its terminating NUL when parsed.
    pub comment: Option<Vec<u8>>,
    /// CRC16 of the header.
    pub crc16: Option<u16>,
}

impl View for BGZFHeader {
    type V = HeaderModel;

    open spec fn view(&self) -> HeaderModel {
        HeaderModel {
            compression_method: self.compression_method,
            flags: self.flags,
            modified_time: self.modified_time,
            extra_flags: self.extra_flags,
            operation_system: self.operation_system,
            extra_field_len: self.extra_field_len,
            extra_field: fields_view(self.extra_field@),
            file_name: opt_bytes(self.file_name),
            comment: opt_bytes(self.comment),
            crc16: self.crc16,
        }
    }
}

/// Wire form of one subfield: ids, little-endian data length, data.
pub open spec fn field_bytes(f: ExtraFieldModel) -> Seq<u8> {
    seq![f.id1, f.id2] + le16(f.data.len() as u16) + f.data
}

/// Wire form of a list of subfields.
pub open spec fn fields_bytes(fs: Seq<ExtraFieldModel>) -> Seq<u8>
    decreases fs.len(),
{
    if fs.len() == 0 {
        Seq::empty()
    } else {
        field_bytes(fs[0]) + fields_bytes(fs.drop_first())
    }
}

/// Sum of the wire lengths of the subfields.
pub open spec fn fields_len(fs: Seq<ExtraFieldModel>) -> int
    decreases fs.len(),
{
    if fs.len() == 0 {
        0
    } else {
        fs[0].data.len() + 4 + fields_len(fs.drop_first())
    }
}

/// A NUL-terminated string on the wire: a NUL is added unless the bytes end with one.
pub open spec fn zstring_bytes(v: Option<Seq<u8>>) -> Seq<u8> {
    match v {
        Some(b) => if b.len() > 0 && b.last() == 0 {
            b
        } else {
            b.push(0)
        },
        None => Seq::empty(),
    }
}

/// The flags that the fields present call for (`FTEXT` is kept as given).
pub open spec fn computed_flags(m: HeaderModel) -> u8 {
    ((m.flags & FLAG_FTEXT) | (if m.file_name is Some {
        FLAG_FNAME
    } else {
        0
    }) | (if m.comment is Some {
        FLAG_FCOMMENT
    } else {
        0
    }) | (if m.crc16 is Some {
        FLAG_FHCRC
    } else {
        0
    }) | (if m.extra_field_len is Some {
        FLAG_FEXTRA
    } else {
        0
    })) as u8
}

/// A header that [`BGZFHeader::write`] accepts.
pub open spec fn writable(m: HeaderModel) -> bool {
    &&& computed_flags(m) == m.flags
    &&& extra_len_ok(m)
}

/// The declared extra length, if any, is that of the subfields.
pub open spec fn extra_len_ok(m: HeaderModel) -> bool {
    match m.extra_field_len {
        Some(x) => fields_len(m.extra_field) == x,
        None => true,
    }
}

/// The bytes that [`BGZFHeader::write`] emits.
pub open spec fn header_bytes(m: HeaderModel) -> Seq<u8> {
    seq![GZIP_ID1, GZIP_ID2, m.compression_method, m.flags] + le32(m.modified_time) + seq![
        m.extra_flags,
        m.operation_system,
    ] + match m.extra_field_len {
        Some(x) => le16(x) + fields_bytes(m.extra_field),
        None => Seq::empty(),
    } + zstring_bytes(m.file_name) + zstring_bytes(m.comment) + match m.crc16 {
        Some(c) => le16(c),
        None => Seq::empty(),
    }
}

/// Subfields that fill `s` exactly, or `None`.
pub open spec fn parse_fields(s: Seq<u8>) -> Option<Seq<ExtraFieldModel>>
    decreases s.len(),
{
    if s.len() == 0 {
        Some(Seq::empty())
    } else if s.len() < 4 {
        None
    } else {
        let n = read16(s, 2) as int;
        if 4 + n > s.len() {
            None
        } else {
            match parse_fields(s.subrange(4 + n, s.len() as int)) {
                Some(rest) => Some(
                    seq![ExtraFieldModel { id1: s[0], id2: s[1], data: s.subrange(4, 4 + n) }]
                        + rest,
                ),
                None => None,
            }
        }
    }
}

/// Index of the first NUL at or after `i`.
pub open spec fn nul_from(s: Seq<u8>, i: int) -> Option<int>
    decreases s.len() - i,
{
    if i < 0 || i >= s.len() {
        None
    } else if s[i] == 0 {
        Some(i)
    } else {
        nul_from(s, i + 1)
    }
}

pub open spec fn has_flag(flags: u8, bit: u8) -> bool {
    flags & bit != 0
}

/// Optional NUL-terminated string at `pos` when `present`: the string with its NUL,
/// and the position after it.
pub open spec fn parse_zstring(s: Seq<u8>, pos: int, present: bool) -> Result<
    (Option<Seq<u8>>, int),
    BGZFError,
> {
    if !present {
        Ok((None, pos))
    } else {
        match nul_from(s, pos) {
            Some(z) => Ok((Some(s.subrange(pos, z + 1)), z + 1)),
            None => Err(BGZFError::UnexpectedEof),
        }
    }
}

/// The extra field at offset 10 when `FEXTRA` is set: its length, its subfields,
/// and the position after it.
pub open spec fn parse_extra(s: Seq<u8>, flags: u8) -> Result<
    (Option<u16>, Seq<ExtraFieldModel>, int),
    BGZFError,
> {
    if !has_flag(flags, FLAG_FEXTRA) {
        Ok((None, Seq::empty(), 10))
    } else if s.len() < 12 {
        Err(BGZFError::UnexpectedEof)
    } else {
        let xlen = read16(s, 10);
        if 12 + xlen > s.len() {
            Err(BGZFError::UnexpectedEof)
        } else {
            match parse_fields(s.subrange(12, 12 + xlen)) {
                Some(fs) => Ok((Some(xlen), fs, 12 + xlen)),
                None => Err(BGZFError::InvalidExtraField),
            }
        }
    }
}

/// The header at the start of `s`, or the error that reading it meets first.
pub open spec fn parse_header(s: Seq<u8>) -> Result<HeaderModel, BGZFError> {
    if s.len() < 10 {
        Err(BGZFError::UnexpectedEof)
    } else if s[0] != GZIP_ID1 || s[1] != GZIP_ID2 {
        Err(BGZFError::NotGzip)
    } else if s[2] != DEFLATE {
        Err(BGZFError::UnsupportedCompressionMethod)
    } else if s[3] >= 32 {
        Err(BGZFError::UnsupportedFlag)
    } else {
        let flags = s[3];
        match parse_extra(s, flags) {
            Err(e) => Err(e),
            Ok((xlen, fields, after_extra)) => match parse_zstring(s, after_extra, has_flag(flags, FLAG_FNAME)) {
                Err(e) => Err(e),
                Ok((name, after_name)) => match parse_zstring(s, after_name, has_flag(flags, FLAG_FCOMMENT)) {
                    Err(e) => Err(e),
                    Ok((comment, after_comment)) => if has_flag(flags, FLAG_FHCRC) && after_comment + 2 > s.len() {
                        Err(BGZFError::UnexpectedEof)
                    } else {
                        Ok(
                            HeaderModel {
                                compression_method: s[2],
                                flags,
                                modified_time: read32(s, 4),
                                extra_flags: s[8],
                                operation_system: s[9],
                                extra_field_len: xlen,
                                extra_field: fields,
                                file_name: name,
                                comment,
                                crc16: if has_flag(flags, FLAG_FHCRC) {
                                    Some(read16(s, after_comment))
                                } else {
                                    None
                                },
                            },
                        )
                    },
                },
            },
        }
    }
}


proof fn lemma_fields_take(fs: Seq<ExtraFieldModel>, i: int)
    requires
        0 <= i < fs.len(),
    ensures
        fields_bytes(fs.take(i + 1)) == fields_bytes(fs.take(i)) + field_bytes(fs[i]),
        fields_len(fs.take(i + 1)) == fields_len(fs.take(i)) + fs[i].data.len() + 4,
    decreases i,
{
    if i == 0 {
        assert(fs.take(1).drop_first() =~= Seq::<ExtraFieldModel>::empty());
        assert(fs.take(0) =~= Seq::<ExtraFieldModel>::empty());
        assert(fs.take(1)[0] == fs[0]);
        assert(fields_bytes(fs.take(1).drop_first()) =~= Seq::<u8>::empty());
        assert(fields_bytes(fs.take(0)) =~= Seq::<u8>::empty());
        assert(fields_bytes(fs.take(1)) =~= field_bytes(fs[0]));
    } else {
        let t = fs.drop_first();
        lemma_fields_take(t, i - 1);
        assert(fs.take(i + 1).drop_first() =~= t.take(i));
        assert(fs.take(i).drop_first() =~= t.take(i - 1));
        assert(fs.take(i + 1)[0] == fs[0]);
        assert(fs.take(i)[0] == fs[0]);
        assert(fields_bytes(fs.take(i + 1)) =~= fields_bytes(fs.take(i)) + field_bytes(fs[i]));
    }
}

/// Appends the little-endian bytes of `v`.
pub fn push_le16(out: &mut Vec<u8>, v: u16)
    ensures
        final(out)@ == old(out)@ + le16(v),
{
    out.push((v % 256) as u8);
    out.push((v / 256) as u8);
    proof {
        assert(final(out)@ =~= old(out)@ + le16(v));
    }
}

/// Appends the little-endian bytes of `v`.
pub fn push_le32(out: &mut Vec<u8>, v: u32)
    ensures
        final(out)@ == old(out)@ + le32(v),
{
    out.push((v % 256) as u8);
    out.push(((v / 256) % 256) as u8);
    out.push(((v / 65536) % 256) as u8);
    out.push((v / 16777216) as u8);
    proof {
        assert(final(out)@ =~= old(out)@ + le32(v));
    }
}

/// Appends all of `src`.
pub fn push_all(out: &mut Vec<u8>, src: &[u8])
    ensures
        final(out)@ == old(out)@ + src@,
{
    let mut i: usize = 0;
    while i < src.len()
        invariant
            i <= src@.len(),
            out@ == old(out)@ + src@.take(i as int),
        decreases src.len() - i,
    {
        out.push(src[i]);
        i = i + 1;
        proof {
            assert(out@ =~= old(out)@ + src@.take(i as int));
        }
    }
    proof {
        assert(src@.take(i as int) =~= src@);
    }
}

impl ExtraField {
    pub fn new(id1: u8, id2: u8, data: Vec<u8>) -> (r: Self)
        ensures
            r@ == (ExtraFieldModel { id1, id2, data: data@ }),
    {
        ExtraField { sub_field_id1: id1, sub_field_id2: id2, data }
    }

    pub fn id1(&self) -> (r: u8)
        ensures
            r == self.sub_field_id1,
    {
        self.sub_field_id1
    }

    pub fn id2(&self) -> (r: u8)
        ensures
            r == self.sub_field_id2,
    {
        self.sub_field_id2
    }

    pub fn data(&self) -> (r: &[u8])
        ensures
            r@ == self.data@,
    {
        self.data.as_slice()
    }

    /// Length of the subfield on the wire: four bytes of ids and length, then the data.
    pub fn field_len(&self) -> (r: u16)
        requires
            self.data@.len() + 4 <= u16::MAX,
        ensures
            r == self.data@.len() + 4,
    {
        self.data.len() as u16 + 4
    }

    /// Appends the wire form of the subfield.
    pub fn write(&self, writer: &mut Vec<u8>)
        requires
            self.data@.len() <= u16::MAX,
        ensures
            final(writer)@ == old(writer)@ + field_bytes(self@),
    {
        writer.push(self.sub_field_id1);
        writer.push(self.sub_field_id2);
        push_le16(writer, self.data.len() as u16);
        push_all(writer, self.data.as_slice());
        proof {
            assert(final(writer)@ =~= old(writer)@ + field_bytes(self@));
        }
    }
}


/// A subfield `BC` with a two-byte payload: the BGZF block size minus one.
pub open spec fn is_bc(f: ExtraFieldModel) -> bool {
    f.id1 == 66 && f.id2 == 67 && f.data.len() == 2
}

/// Index of the first `BC` subfield at or after `i`.
pub open spec fn bc_from(fs: Seq<ExtraFieldModel>, i: int) -> Option<int>
    decreases fs.len() - i,
{
    if i < 0 || i >= fs.len() {
        None
    } else if is_bc(fs[i]) {
        Some(i)
    } else {
        bc_from(fs, i + 1)
    }
}

/// Size of the header as its fields declare it.
pub open spec fn header_len(m: HeaderModel) -> int {
    10 + match m.extra_field_len {
        Some(x) => x + 2,
        None => 0,
    } + zstring_bytes(m.file_name).len() + zstring_bytes(m.comment).len() + match m.crc16 {
        Some(_) => 2int,
        None => 0,
    }
}

/// `acc` followed by the subfields of `rest`, if `rest` parsed.
pub open spec fn prepend(acc: Seq<ExtraFieldModel>, rest: Option<Seq<ExtraFieldModel>>) -> Option<
    Seq<ExtraFieldModel>,
> {
    match rest {
        Some(r) => Some(acc + r),
        None => None,
    }
}

/// Copy of `data[from..to]`.
pub fn slice_to_vec(data: &[u8], from: usize, to: usize) -> (r: Vec<u8>)
    requires
        from <= to <= data@.len(),
    ensures
        r@ == data@.subrange(from as int, to as int),
{
    let mut r: Vec<u8> = Vec::new();
    let mut i: usize = from;
    while i < to
        invariant
            from <= i <= to <= data@.len(),
            r@ == data@.subrange(from as int, i as int),
        decreases to - i,
    {
        r.push(data[i]);
        i = i + 1;
        proof {
            assert(r@ =~= data@.subrange(from as int, i as int));
        }
    }
    r
}

/// Little-endian `u16` at `i`.
pub fn get_le16(data: &[u8], i: usize) -> (r: u16)
    requires
        i + 2 <= data@.len(),
    ensures
        r == read16(data@, i as int),
{
    data[i] as u16 + 256 * (data[i + 1] as u16)
}

/// Little-endian `u32` at `i`.
pub fn get_le32(data: &[u8], i: usize) -> (r: u32)
    requires
        i + 4 <= data@.len(),
    ensures
        r == read32(data@, i as int),
{
    data[i] as u32 + 256 * (data[i + 1] as u32) + 65536 * (data[i + 2] as u32) + 16777216 * (
    data[i + 3] as u32)
}

/// Index of the first NUL at or after `from`.
fn find_nul(data: &[u8], from: usize) -> (r: Option<usize>)
    requires
        from <= data@.len(),
    ensures
        r matches Some(z) ==> nul_from(data@, from as int) == Some(z as int),
        r is None ==> nul_from(data@, from as int) is None,
        r matches Some(z) ==> from <= z < data@.len(),
{
    let mut i: usize = from;
    while i < data.len()
        invariant
            from <= i <= data@.len(),
            nul_from(data@, from as int) == nul_from(data@, i as int),
        decreases data.len() - i,
    {
        if data[i] == 0 {
            return Some(i);
        }
        i = i + 1;
    }
    None
}

fn read_zstring(data: &[u8], pos: usize, present: bool) -> (r: Result<
    (Option<Vec<u8>>, usize),
    BGZFError,
>)
    requires
        pos <= data@.len(),
    ensures
        match r {
            Ok((v, p)) => parse_zstring(data@, pos as int, present) == Ok::<
                (Option<Seq<u8>>, int),
                BGZFError,
            >((opt_bytes(v), p as int)),
            Err(e) => parse_zstring(data@, pos as int, present) == Err::<
                (Option<Seq<u8>>, int),
                BGZFError,
            >(e),
        },
        r matches Ok((_, p)) ==> p <= data@.len(),
{
    if !present {
        return Ok((None, pos));
    }
    match find_nul(data, pos) {
        Some(z) => {
            let len = data.len();
            assert(z < len);
            Ok((Some(slice_to_vec(data, pos, z + 1)), z + 1))
        },
        None => Err(BGZFError::UnexpectedEof),
    }
}

fn read_fields(data: &[u8], start: usize, end: usize) -> (r: Option<Vec<ExtraField>>)
    requires
        start <= end <= data@.len(),
    ensures
        match r {
            Some(fs) => parse_fields(data@.subrange(start as int, end as int)) == Some(
                fields_view(fs@),
            ),
            None => parse_fields(data@.subrange(start as int, end as int)) is None,
        },
{
    let mut fields: Vec<ExtraField> = Vec::new();
    let mut pos: usize = start;
    proof {
        assert(fields_view(fields@) =~= Seq::<ExtraFieldModel>::empty());
        assert(Seq::<ExtraFieldModel>::empty() + Seq::<ExtraFieldModel>::empty() =~= Seq::<ExtraFieldModel>::empty());
    }
    while pos < end
        invariant
            start <= pos <= end <= data@.len(),
            parse_fields(data@.subrange(start as int, end as int)) == prepend(
                fields_view(fields@),
                parse_fields(data@.subrange(pos as int, end as int)),
            ),
        decreases end - pos,
    {
        let ghost s = data@.subrange(pos as int, end as int);
        if end - pos < 4 {
            return None;
        }
        let n = get_le16(data, pos + 2) as usize;
        proof {
            assert(read16(s, 2) == read16(data@, pos + 2));
        }
        if n > end - pos - 4 {
            return None;
        }
        let f = ExtraField {
            sub_field_id1: data[pos],
            sub_field_id2: data[pos + 1],
            data: slice_to_vec(data, pos + 4, pos + 4 + n),
        };
        let ghost acc = fields_view(fields@);
        fields.push(f);
        proof {
            assert(s.subrange(4 + n, s.len() as int) =~= data@.subrange(
                pos + 4 + n,
                end as int,
            ));
            assert(s.subrange(4, 4 + n) =~= data@.subrange(pos + 4, pos + 4 + n));
            assert(fields_view(fields@) =~= acc.push(f@));
            match parse_fields(data@.subrange(pos + 4 + n, end as int)) {
                Some(rest) => {
                    assert(acc + (seq![f@] + rest) =~= acc.push(f@) + rest);
                },
                None => {},
            }
        }
        pos = pos + 4 + n;
    }
    proof {
        assert(data@.subrange(pos as int, end as int) =~= Seq::<u8>::empty());
        assert(fields_view(fields@) + Seq::<ExtraFieldModel>::empty() =~= fields_view(fields@));
    }
    Some(fields)
}

impl BGZFHeader {
    /// The canonical BGZF header of a block with `compressed_len` bytes of DEFLATE payload.
    pub fn new(fast: bool, modified_time: u32, compressed_len: u16) -> (r: Self)
        requires
            compressed_len + BGZIP_HEADER_SIZE <= u16::MAX,
        ensures
            r@ == canonical_header(fast, modified_time, (compressed_len + BGZIP_HEADER_SIZE) as u32),
    {
        let block_size = compressed_len + BGZIP_HEADER_SIZE;
        let mut payload: Vec<u8> = Vec::new();
        push_le16(&mut payload, block_size - 1);
        let bgzf_field = ExtraField::new(66, 67, payload);
        let mut extra_field: Vec<ExtraField> = Vec::new();
        extra_field.push(bgzf_field);
        let r = BGZFHeader {
            compression_method: DEFLATE,
            flags: FLAG_FEXTRA,
            modified_time,
            extra_flags: if fast {
                4
            } else {
                2
            },
            operation_system: FILESYSTEM_UNKNOWN,
            extra_field_len: Some(6),
            extra_field,
            file_name: None,
            comment: None,
            crc16: None,
        };
        proof {
            assert(fields_view(r.extra_field@) =~= seq![bc_field((block_size - 1) as u16)]);
        }
        r
    }

    /// The block size that the `BC` subfield records (the stored value plus one).
    pub fn block_size(&self) -> (r: Result<u32, BGZFError>)
        ensures
            match bc_from(self@.extra_field, 0) {
                Some(i) => r == Ok::<u32, BGZFError>(
                    (read16(self@.extra_field[i].data, 0) + 1) as u32,
                ),
                None => r == Err::<u32, BGZFError>(BGZFError::NotBGZF),
            },
    {
        let mut i: usize = 0;
        while i < self.extra_field.len()
            invariant
                i <= self.extra_field@.len(),
                bc_from(self@.extra_field, 0) == bc_from(self@.extra_field, i as int),
            decreases self.extra_field.len() - i,
        {
            let f = &self.extra_field[i];
            assert(self@.extra_field[i as int] == f@);
            if f.sub_field_id1 == 66 && f.sub_field_id2 == 67 && f.data.len() == 2 {
                return Ok(get_le16(f.data.as_slice(), 0) as u32 + 1);
            }
            i = i + 1;
        }
        Err(BGZFError::NotBGZF)
    }

    /// Rewrites the `BC` subfield to record `new_block_size`; nothing else changes.
    pub fn update_block_size(&mut self, new_block_size: u32) -> (r: Result<(), BGZFError>)
        requires
            1 <= new_block_size <= 65536,
        ensures
            match bc_from(old(self)@.extra_field, 0) {
                Some(i) => r is Ok && final(self)@ == (HeaderModel {
                    extra_field: old(self)@.extra_field.update(
                        i,
                        bc_field((new_block_size - 1) as u16),
                    ),
                    ..old(self)@
                }),
                None => r == Err::<(), BGZFError>(BGZFError::NotBGZF) && final(self)@ == old(
                    self,
                )@,
            },
    {
        let mut i: usize = 0;
        while i < self.extra_field.len()
            invariant
                i <= self.extra_field@.len(),
                self == old(self),
                1 <= new_block_size <= 65536,
                bc_from(self@.extra_field, 0) == bc_from(self@.extra_field, i as int),
            decreases self.extra_field.len() - i,
        {
            let is_bc = {
                let f = &self.extra_field[i];
                assert(self@.extra_field[i as int] == f@);
                f.sub_field_id1 == 66 && f.sub_field_id2 == 67 && f.data.len() == 2
            };
            if is_bc {
                let mut payload: Vec<u8> = Vec::new();
                push_le16(&mut payload, (new_block_size - 1) as u16);
                let f = ExtraField::new(66, 67, payload);
                self.extra_field.set(i, f);
                proof {
                    assert(fields_view(self.extra_field@) =~= old(self)@.extra_field.update(
                        i as int,
                        bc_field((new_block_size - 1) as u16),
                    ));
                }
                return Ok(());
            }
            i = i + 1;
        }
        Err(BGZFError::NotBGZF)
    }
}


fn zstring_len(v: &Option<Vec<u8>>) -> (r: u64)
    requires
        zstring_bytes(opt_bytes(*v)).len() <= u64::MAX,
    ensures
        r == zstring_bytes(opt_bytes(*v)).len(),
{
    match v {
        Some(b) => {
            let n = b.len();
            if n > 0 && b[n - 1] == 0 {
                n as u64
            } else {
                n as u64 + 1
            }
        },
        None => 0,
    }
}

fn write_zstring(writer: &mut Vec<u8>, v: &Option<Vec<u8>>)
    ensures
        final(writer)@ == old(writer)@ + zstring_bytes(opt_bytes(*v)),
{
    match v {
        Some(b) => {
            push_all(writer, b.as_slice());
            let n = b.len();
            if !(n > 0 && b[n - 1] == 0) {
                writer.push(0);
            }
            proof {
                assert(final(writer)@ =~= old(writer)@ + zstring_bytes(opt_bytes(*v)));
            }
        },
        None => {
            proof {
                assert(final(writer)@ =~= old(writer)@ + zstring_bytes(opt_bytes(*v)));
            }
        },
    }
}

impl BGZFHeader {
    /// Size of the header on the wire, as its fields declare it.
    pub fn header_size(&self) -> (r: u64)
        requires
            header_len(self@) <= u64::MAX,
        ensures
            r == header_len(self@),
    {
        let x: u64 = match self.extra_field_len {
            Some(x) => x as u64 + 2,
            None => 0,
        };
        let c: u64 = match self.crc16 {
            Some(_) => 2,
            None => 0,
        };
        10 + x + zstring_len(&self.file_name) + zstring_len(&self.comment) + c
    }

    fn flags_of(&self) -> (r: u8)
        ensures
            r == computed_flags(self@),
    {
        ((self.flags & FLAG_FTEXT) | (if self.file_name.is_some() {
            FLAG_FNAME
        } else {
            0
        }) | (if self.comment.is_some() {
            FLAG_FCOMMENT
        } else {
            0
        }) | (if self.crc16.is_some() {
            FLAG_FHCRC
        } else {
            0
        }) | (if self.extra_field_len.is_some() {
            FLAG_FEXTRA
        } else {
            0
        })) as u8
    }

    /// Whether the declared extra length matches the subfields.
    fn extra_len_matches(&self) -> (r: bool)
        ensures
            r == extra_len_ok(self@),
            r && self@.extra_field_len is Some ==> forall|k: int|
                0 <= k < self@.extra_field.len() ==> self@.extra_field[k].data.len() + 4 <= 65535,
    {
        let ghost fs = self@.extra_field;
        match self.extra_field_len {
            None => {
                return true;
            },
            Some(xlen) => {
                let mut total: u64 = 0;
                let mut i: usize = 0;
                while i < self.extra_field.len()
                    invariant
                        i <= self.extra_field@.len(),
                        fs == fields_view(self.extra_field@),
                        total == fields_len(fs.take(i as int)),
                        total <= 65535,
                        self.extra_field_len == Some(xlen),
                        fs == self@.extra_field,
                    decreases self.extra_field.len() - i,
                {
                    proof {
                        lemma_fields_take(fs, i as int);
                    }
                    let n = self.extra_field[i].data.len();
                    assert(fs[i as int] == self.extra_field@[i as int]@);
                    if n > 65531 || total + n as u64 + 4 > 65535 {
                        proof {
                            lemma_fields_len_grows(fs, i as int + 1);
                            assert(fields_len(fs.take(i + 1)) == total + n + 4);
                            assert(fields_len(fs) > 65535);
                            assert(fs == self@.extra_field);
                            assert(self@.extra_field_len == Some(xlen));
                            assert(fields_len(self@.extra_field) != xlen as int);
                            assert(!extra_len_ok(self@));
                        }
                        return false;
                    }
                    total = total + n as u64 + 4;
                    i = i + 1;
                }
                proof {
                    assert(fs.take(i as int) =~= fs);
                    assert forall|k: int| 0 <= k < fs.len() implies fs[k].data.len() + 4
                        <= 65535 by {
                        lemma_field_within(fs, k);
                    }
                }
                total == xlen as u64
            },
        }
    }

    fn write_extra(&self, writer: &mut Vec<u8>)
        requires
            self@.extra_field_len is Some ==> forall|k: int|
                0 <= k < self@.extra_field.len() ==> self@.extra_field[k].data.len() + 4 <= 65535,
        ensures
            final(writer)@ == old(writer)@ + match self@.extra_field_len {
                Some(x) => le16(x) + fields_bytes(self@.extra_field),
                None => Seq::empty(),
            },
    {
        let ghost fs = self@.extra_field;
        if let Some(xlen) = self.extra_field_len {
            push_le16(writer, xlen);
            let ghost base = writer@;
            let mut i: usize = 0;
            while i < self.extra_field.len()
                invariant
                    i <= self.extra_field@.len(),
                    fs == fields_view(self.extra_field@),
                    forall|k: int| 0 <= k < fs.len() ==> fs[k].data.len() + 4 <= 65535,
                    writer@ == base + fields_bytes(fs.take(i as int)),
                decreases self.extra_field.len() - i,
            {
                proof {
                    lemma_fields_take(fs, i as int);
                }
                assert(fs[i as int] == self.extra_field@[i as int]@);
                self.extra_field[i].write(writer);
                i = i + 1;
                proof {
                    assert(writer@ =~= base + fields_bytes(fs.take(i as int)));
                }
            }
            proof {
                assert(fs.take(i as int) =~= fs);
                assert(writer@ =~= old(writer)@ + (le16(xlen) + fields_bytes(fs)));
            }
        } else {
            proof {
                assert(writer@ =~= old(writer)@ + Seq::<u8>::empty());
            }
        }
    }

    /// Appends the header's wire form to `writer`.
    ///
    /// Fails, writing nothing, when the flags disagree with the fields present
    /// or the declared extra length with the subfields.
    pub fn write(&self, writer: &mut Vec<u8>) -> (r: Result<(), BGZFError>)
        ensures
            r is Ok <==> writable(self@),
            r is Ok ==> final(writer)@ == old(writer)@ + header_bytes(self@),
            r is Err ==> final(writer)@ == old(writer)@,
            r matches Err(e) ==> e == if computed_flags(self@) != self@.flags {
                BGZFError::InvalidFlags
            } else {
                BGZFError::InvalidExtraFieldLength
            },
    {
        let calculated_flags = self.flags_of();
        if calculated_flags != self.flags {
            return Err(BGZFError::InvalidFlags);
        }
        if !self.extra_len_matches() {
            return Err(BGZFError::InvalidExtraFieldLength);
        }
        let ghost start = writer@;
        writer.push(GZIP_ID1);
        writer.push(GZIP_ID2);
        writer.push(self.compression_method);
        writer.push(calculated_flags);
        push_le32(writer, self.modified_time);
        writer.push(self.extra_flags);
        writer.push(self.operation_system);
        let ghost fixed = writer@;
        self.write_extra(writer);
        let ghost after_extra = writer@;
        write_zstring(writer, &self.file_name);
        let ghost after_name = writer@;
        write_zstring(writer, &self.comment);
        let ghost after_comment = writer@;
        if let Some(crc16) = self.crc16 {
            push_le16(writer, crc16);
        }
        proof {
            let m = self@;
            assert(fixed =~= start + (seq![GZIP_ID1, GZIP_ID2, m.compression_method, m.flags]
                + le32(m.modified_time) + seq![m.extra_flags, m.operation_system]));
            assert(writer@ =~= after_comment + match m.crc16 {
                Some(c) => le16(c),
                None => Seq::empty(),
            });
            assert(writer@ =~= start + header_bytes(m));
        }
        Ok(())
    }

    /// Reads the gzip header at the start of `reader`.
    pub fn from_reader(reader: &[u8]) -> (r: Result<Self, BGZFError>)
        ensures
            match r {
                Ok(h) => parse_header(reader@) == Ok::<HeaderModel, BGZFError>(h@),
                Err(e) => parse_header(reader@) == Err::<HeaderModel, BGZFError>(e),
            },
    {
        let data = reader;
        if data.len() < 10 {
            return Err(BGZFError::UnexpectedEof);
        }
        if data[0] != GZIP_ID1 || data[1] != GZIP_ID2 {
            return Err(BGZFError::NotGzip);
        }
        let compression_method = data[2];
        if compression_method != DEFLATE {
            return Err(BGZFError::UnsupportedCompressionMethod);
        }
        let flags = data[3];
        if flags >= 32 {
            return Err(BGZFError::UnsupportedFlag);
        }
        let modified_time = get_le32(data, 4);
        let extra_flags = data[8];
        let operation_system = data[9];
        let mut pos: usize = 10;
        let mut extra_field_len: Option<u16> = None;
        let mut extra_field: Vec<ExtraField> = Vec::new();
        proof {
            assert(fields_view(extra_field@) =~= Seq::<ExtraFieldModel>::empty());
        }
        if flags & FLAG_FEXTRA != 0 {
            if data.len() < 12 {
                return Err(BGZFError::UnexpectedEof);
            }
            let xlen = get_le16(data, 10);
            if xlen as usize > data.len() - 12 {
                return Err(BGZFError::UnexpectedEof);
            }
            match read_fields(data, 12, 12 + xlen as usize) {
                Some(fs) => {
                    extra_field = fs;
                },
                None => {
                    return Err(BGZFError::InvalidExtraField);
                },
            }
            extra_field_len = Some(xlen);
            pos = 12 + xlen as usize;
        }
        let (file_name, pos) = read_zstring(data, pos, flags & FLAG_FNAME != 0)?;
        let (comment, pos) = read_zstring(data, pos, flags & FLAG_FCOMMENT != 0)?;
        let crc16 = if flags & FLAG_FHCRC != 0 {
            if data.len() - pos < 2 {
                return Err(BGZFError::UnexpectedEof);
            }
            Some(get_le16(data, pos))
        } else {
            None
        };
        Ok(
            BGZFHeader {
                compression_method,
                flags,
                modified_time,
                extra_flags,
                operation_system,
                extra_field_len,
                extra_field,
                file_name,
                comment,
                crc16,
            },
        )
    }
}

proof fn lemma_fields_len_grows(fs: Seq<ExtraFieldModel>, j: int)
    requires
        0 <= j <= fs.len(),
    ensures
        fields_len(fs.take(j)) <= fields_len(fs),
    decreases fs.len() - j,
{
    if j < fs.len() {
        lemma_fields_take(fs, j);
        lemma_fields_len_grows(fs, j + 1);
    } else {
        assert(fs.take(j) =~= fs);
    }
}

proof fn lemma_field_within(fs: Seq<ExtraFieldModel>, k: int)
    requires
        0 <= k < fs.len(),
    ensures
        fs[k].data.len() + 4 <= fields_len(fs),
{
    lemma_fields_take(fs, k);
    lemma_fields_len_grows(fs, k + 1);
    lemma_fields_len_nonneg(fs.take(k));
}

proof fn lemma_fields_len_nonneg(fs: Seq<ExtraFieldModel>)
    ensures
        fields_len(fs) >= 0,
    decreases fs.len(),
{
    if fs.len() > 0 {
        lemma_fields_len_nonneg(fs.drop_first());
    }
}

/// The `BC` subfield recording `stored` (block size minus one).
pub open spec fn bc_field(stored: u16) -> ExtraFieldModel {
    ExtraFieldModel { id1: 66, id2: 67, data: le16(stored) }
}

/// A BGZF header with only the `BC` subfield, recording `block_size`.
pub open spec fn bgzf_header(extra_flags: u8, modified_time: u32, block_size: u32) -> HeaderModel {
    HeaderModel {
        compression_method: DEFLATE,
        flags: FLAG_FEXTRA,
        modified_time,
        extra_flags,
        operation_system: FILESYSTEM_UNKNOWN,
        extra_field_len: Some(6),
        extra_field: seq![bc_field((block_size - 1) as u16)],
        file_name: None,
        comment: None,
        crc16: None,
    }
}

/// The header that the writer emits for a block of `block_size` bytes.
pub open spec fn canonical_header(fast: bool, modified_time: u32, block_size: u32) -> HeaderModel {
    bgzf_header(
        if fast {
            4
        } else {
            2
        },
        modified_time,
        block_size,
    )
}


pub proof fn lemma_le16(v: u16)
    ensures
        read16(le16(v), 0) == v,
        le16(v).len() == 2,
{
    let s = le16(v);
    assert(s[0] + 256 * s[1] == v);
}

pub proof fn lemma_le32(v: u32)
    ensures
        read32(le32(v), 0) == v,
        le32(v).len() == 4,
{
    let s = le32(v);
    let a = v % 256;
    let q = v / 256;
    let b = q % 256;
    let q2 = q / 256;
    let c = q2 % 256;
    let d = q2 / 256;
    assert(v / 65536 == q2) by (nonlinear_arith)
        requires
            q == v / 256,
            q2 == q / 256,
    ;
    assert(v / 16777216 == d) by (nonlinear_arith)
        requires
            q == v / 256,
            q2 == q / 256,
            d == q2 / 256,
    ;
    assert(a + 256 * (b + 256 * (c + 256 * d)) == v) by (nonlinear_arith)
        requires
            a == v % 256,
            q == v / 256,
            b == q % 256,
            q2 == q / 256,
            c == q2 % 256,
            d == q2 / 256,
    ;
    assert(s[0] + 256 * s[1] + 65536 * s[2] + 16777216 * s[3] == v) by (nonlinear_arith)
        requires
            s[0] == a,
            s[1] == b,
            s[2] == c,
            s[3] == d,
            a + 256 * (b + 256 * (c + 256 * d)) == v,
    ;
}

/// Reading back the header that the writer emits for a block gives that header
/// again, whatever follows it; so parsing and re-emitting it reproduces its bytes.
pub proof fn lemma_canonical_header_round_trip(
    fast: bool,
    modified_time: u32,
    block_size: u32,
    rest: Seq<u8>,
)
    requires
        1 <= block_size <= 65536,
    ensures
        writable(canonical_header(fast, modified_time, block_size)),
        parse_header(header_bytes(canonical_header(fast, modified_time, block_size)) + rest)
            == Ok::<HeaderModel, BGZFError>(canonical_header(fast, modified_time, block_size)),
        header_bytes(canonical_header(fast, modified_time, block_size)).len() == 18,
{
    lemma_bgzf_header_round_trip(
        if fast {
            4
        } else {
            2
        },
        modified_time,
        block_size,
        rest,
    );
}

/// A BGZF header reads back as itself, whatever follows it; it takes 18 bytes and
/// its `BC` subfield gives back the block size.
pub proof fn lemma_bgzf_header_round_trip(
    extra_flags: u8,
    modified_time: u32,
    block_size: u32,
    rest: Seq<u8>,
)
    requires
        1 <= block_size <= 65536,
    ensures
        writable(bgzf_header(extra_flags, modified_time, block_size)),
        parse_header(header_bytes(bgzf_header(extra_flags, modified_time, block_size)) + rest)
            == Ok::<HeaderModel, BGZFError>(bgzf_header(extra_flags, modified_time, block_size)),
        header_bytes(bgzf_header(extra_flags, modified_time, block_size)).len() == 18,
        header_len(bgzf_header(extra_flags, modified_time, block_size)) == 18,
        bc_from(bgzf_header(extra_flags, modified_time, block_size).extra_field, 0) == Some(0int),
        read16(bgzf_header(extra_flags, modified_time, block_size).extra_field[0].data, 0) + 1
            == block_size,
{
    let m = bgzf_header(extra_flags, modified_time, block_size);
    let f = bc_field((block_size - 1) as u16);
    lemma_le16(6);
    lemma_le16((block_size - 1) as u16);
    lemma_le16(2);
    lemma_le32(modified_time);
    assert(m.extra_field.drop_first() =~= Seq::<ExtraFieldModel>::empty());
    assert(m.extra_field[0] == f);
    assert(fields_bytes(m.extra_field.drop_first()) =~= Seq::<u8>::empty());
    assert(fields_len(m.extra_field.drop_first()) == 0);
    assert(f.data.len() == 2);
    assert(fields_bytes(m.extra_field) =~= field_bytes(f));
    assert(fields_len(m.extra_field) == 6);
    assert(zstring_bytes(m.file_name) =~= Seq::<u8>::empty());
    let hb = header_bytes(m);
    assert(zstring_bytes(m.comment) =~= Seq::<u8>::empty());
    assert(is_bc(m.extra_field[0]));
    assert(hb =~= seq![GZIP_ID1, GZIP_ID2, DEFLATE, FLAG_FEXTRA] + le32(modified_time) + seq![
        m.extra_flags,
        FILESYSTEM_UNKNOWN,
    ] + le16(6) + (seq![66u8, 67u8] + le16(2) + le16((block_size - 1) as u16)));
    assert(hb.len() == 18);
    let s = hb + rest;
    assert(s.subrange(4, 8) =~= le32(modified_time));
    assert(read32(s, 4) == read32(le32(modified_time), 0));
    assert(s.subrange(10, 12) =~= le16(6));
    assert(read16(s, 10) == 6);
    let x = s.subrange(12, 18);
    assert(x.subrange(2, 4) =~= le16(2));
    assert(read16(x, 2) == 2);
    assert(x.subrange(6, 6) =~= Seq::<u8>::empty());
    assert(x.subrange(4, 6) =~= le16((block_size - 1) as u16));
    assert(parse_fields(x.subrange(6, 6)) == Some(Seq::<ExtraFieldModel>::empty()));
    assert(parse_fields(x) =~= Some(seq![f]));
    assert(4u8 & 4u8 != 0 && 4u8 & 8u8 == 0 && 4u8 & 16u8 == 0 && 4u8 & 2u8 == 0 && 4u8 & 1u8
        == 0) by (bit_vector);
    assert((0u8 | 0u8 | 0u8 | 0u8 | 4u8) == 4u8) by (bit_vector);
    assert(parse_header(s) =~= Ok::<HeaderModel, BGZFError>(m));
}


proof fn lemma_nul_from(s: Seq<u8>, i: int)
    ensures
        nul_from(s, i) matches Some(z) ==> 0 <= i <= z < s.len() && s[z] == 0,
    decreases s.len() - i,
{
    if 0 <= i < s.len() && s[i] != 0 {
        lemma_nul_from(s, i + 1);
    }
}

proof fn lemma_zstring_len(s: Seq<u8>, pos: int, present: bool)
    requires
        0 <= pos <= s.len(),
    ensures
        parse_zstring(s, pos, present) matches Ok((v, p)) ==> pos <= p <= s.len() && p - pos
            == zstring_bytes(v).len(),
{
    if present {
        lemma_nul_from(s, pos);
        if let Some(z) = nul_from(s, pos) {
            let b = s.subrange(pos, z + 1);
            assert(b.last() == 0);
        }
    }
}

/// A parsed header is no longer than the bytes it was read from.
pub proof fn lemma_parsed_header_len(s: Seq<u8>)
    ensures
        parse_header(s) matches Ok(m) ==> header_len(m) <= s.len(),
{
    if s.len() >= 10 && s[0] == GZIP_ID1 && s[1] == GZIP_ID2 && s[2] == DEFLATE && s[3] < 32 {
        let flags = s[3];
        if let Ok((xlen, fields, after_extra)) = parse_extra(s, flags) {
            lemma_zstring_len(s, after_extra, has_flag(flags, FLAG_FNAME));
            if let Ok((name, after_name)) = parse_zstring(s, after_extra, has_flag(flags, FLAG_FNAME)) {
                lemma_zstring_len(s, after_name, has_flag(flags, FLAG_FCOMMENT));
            }
        }
    }
}

} // verus!
