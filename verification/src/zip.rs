//! ZIP archive reader/writer (PKWARE APPNOTE subset): stored and DEFLATE
//! entries on read, stored entries on write.

use vstd::prelude::*;
use vstd::utf8::{decode_utf8, valid_utf8};
use crate::bytes::{le16_at, le32_at, le16_bytes, le32_bytes, read_le16, read_le32, copy_range, push_le16, push_le32, push_all};
use crate::checksum::{crc_with_poly, spec_crc};
use crate::error::MmnError;
use crate::inflate::{inflate, spec_inflate};

verus! {

/// Local file header signature `PK\x03\x04`.
pub const LOCAL_HEADER_SIG: u32 = 0x0403_4b50;
/// Central directory header signature `PK\x01\x02`.
pub const CENTRAL_HEADER_SIG: u32 = 0x0201_4b50;
/// End-of-central-directory signature `PK\x05\x06`.
pub const EOCD_SIG: u32 = 0x0605_4b50;
/// Compression method: stored.
pub const METHOD_STORED: u16 = 0;
/// Compression method: DEFLATE.
pub const METHOD_DEFLATE: u16 = 8;

/// The reflected IEEE 802.3 polynomial.
pub const CRC32_POLY: u32 = 0xEDB8_8320;

/// CRC-32 (IEEE 802.3) of `data`.
pub open spec fn spec_crc32(data: Seq<u8>) -> u32 {
    spec_crc(CRC32_POLY, data)
}

/// CRC-32 (IEEE 802.3, reflected polynomial 0xEDB88320).
pub fn crc32(data: &[u8]) -> (crc: u32)
    ensures
        crc == spec_crc32(data@),
{
    crc_with_poly(CRC32_POLY, data)
}

/// The characters `String::from_utf8_lossy` makes of `bytes`.
pub uninterp spec fn lossy_utf8(bytes: Seq<u8>) -> Seq<char>;

/// `String::from_utf8_lossy(bytes).into_owned()`: the decoded text, with each
/// invalid sequence replaced by U+FFFD. Stated: valid UTF-8 decodes exactly,
/// and the result is a function of the bytes; the replacement rule is not.
#[verifier::external_body]
pub(crate) fn lossy_string(bytes: &[u8]) -> (s: String)
    ensures
        s@ == lossy_utf8(bytes@),
        valid_utf8(bytes@) ==> s@ == decode_utf8(bytes@),
{
    String::from_utf8_lossy(bytes).into_owned()
}

/// One file inside a ZIP archive.
pub struct ZipEntry {
    pub name: String,
    pub data: Vec<u8>,
}

/// `bytes[pos..pos + 2]` as a little-endian u16, if present.
pub open spec fn spec_u16_at(bytes: Seq<u8>, pos: int) -> Option<int> {
    if 0 <= pos && pos + 2 <= bytes.len() { Some(le16_at(bytes, pos)) } else { None }
}

/// `bytes[pos..pos + 4]` as a little-endian u32, if present.
pub open spec fn spec_u32_at(bytes: Seq<u8>, pos: int) -> Option<int> {
    if 0 <= pos && pos + 4 <= bytes.len() { Some(le32_at(bytes, pos)) } else { None }
}

fn read_u16(bytes: &[u8], pos: usize) -> (r: Result<u16, MmnError>)
    ensures
        match spec_u16_at(bytes@, pos as int) {
            Some(v) => r matches Ok(x) && x == v,
            None => r is Err,
        },
{
    if pos > bytes.len() || bytes.len() - pos < 2 {
        return Err(MmnError::new("zip archive truncated"));
    }
    Ok(read_le16(bytes, pos))
}

fn read_u32(bytes: &[u8], pos: usize) -> (r: Result<u32, MmnError>)
    ensures
        match spec_u32_at(bytes@, pos as int) {
            Some(v) => r matches Ok(x) && x == v,
            None => r is Err,
        },
{
    if pos > bytes.len() || bytes.len() - pos < 4 {
        return Err(MmnError::new("zip archive truncated"));
    }
    Ok(read_le32(bytes, pos))
}

/// The last end-of-central-directory signature at or below `pos`, not below `start`.
pub open spec fn eocd_search(bytes: Seq<u8>, pos: int, start: int) -> Option<int>
    decreases pos - start,
{
    if pos < start || pos < 0 {
        None
    } else if le32_at(bytes, pos) == EOCD_SIG {
        Some(pos)
    } else if pos == start {
        None
    } else {
        eocd_search(bytes, pos - 1, start)
    }
}

/// Position of the end-of-central-directory record: the last signature within
/// the trailing 64 KiB + 22 bytes.
pub open spec fn spec_find_eocd(bytes: Seq<u8>) -> Option<int> {
    if bytes.len() < 22 {
        None
    } else {
        let start = if bytes.len() >= 22 + 65535 { bytes.len() - 22 - 65535 } else { 0 };
        eocd_search(bytes, bytes.len() - 22, start)
    }
}

fn find_eocd(bytes: &[u8]) -> (r: Result<usize, MmnError>)
    ensures
        match spec_find_eocd(bytes@) {
            Some(p) => r matches Ok(x) && x == p,
            None => r is Err,
        },
{
    if bytes.len() < 22 {
        return Err(MmnError::new("zip archive too small for end-of-central-directory"));
    }
    let search_start = if bytes.len() >= 22 + 65535 { bytes.len() - 22 - 65535 } else { 0 };
    let mut pos = bytes.len() - 22;
    loop
        invariant
            bytes@.len() >= 22,
            search_start <= pos,
            pos <= bytes@.len() - 22,
            search_start == if bytes@.len() >= 22 + 65535 { bytes@.len() - 22 - 65535 } else { 0 },
            spec_find_eocd(bytes@) == eocd_search(bytes@, pos as int, search_start as int),
        decreases pos + 1 - search_start,
    {
        if read_le32(bytes, pos) == EOCD_SIG {
            return Ok(pos);
        }
        if pos == search_start {
            return Err(MmnError::new("zip end-of-central-directory signature not found"));
        }
        pos = pos - 1;
    }
}

/// A central-directory record.
pub struct CentralEntry {
    pub name: String,
    pub method: u16,
    pub crc: u32,
    pub compressed_size: usize,
    pub uncompressed_size: usize,
    pub local_offset: usize,
}

/// The mathematical content of a central-directory record.
pub struct SpecCentral {
    pub name: Seq<char>,
    pub method: int,
    pub crc: int,
    pub compressed_size: int,
    pub uncompressed_size: int,
    pub local_offset: int,
}

impl View for CentralEntry {
    type V = SpecCentral;

    open spec fn view(&self) -> SpecCentral {
        SpecCentral {
            name: self.name@,
            method: self.method as int,
            crc: self.crc as int,
            compressed_size: self.compressed_size as int,
            uncompressed_size: self.uncompressed_size as int,
            local_offset: self.local_offset as int,
        }
    }
}

/// Text of name bytes: their characters when they are UTF-8, else the
/// lossy decoding.
pub open spec fn lossy_text(b: Seq<u8>) -> Seq<char> {
    if valid_utf8(b) { decode_utf8(b) } else { lossy_utf8(b) }
}

/// The central-directory record at `pos`, and where the next one starts.
pub open spec fn central_record(bytes: Seq<u8>, pos: int) -> Option<(SpecCentral, int)> {
    if !(0 <= pos && pos + 46 <= bytes.len()) || le32_at(bytes, pos) != CENTRAL_HEADER_SIG {
        None
    } else {
        let name_len = le16_at(bytes, pos + 28);
        let extra_len = le16_at(bytes, pos + 30);
        let comment_len = le16_at(bytes, pos + 32);
        if pos + 46 + name_len > bytes.len() {
            None
        } else {
            Some((
                SpecCentral {
                    name: lossy_text(bytes.subrange(pos + 46, pos + 46 + name_len)),
                    method: le16_at(bytes, pos + 10),
                    crc: le32_at(bytes, pos + 16),
                    compressed_size: le32_at(bytes, pos + 20),
                    uncompressed_size: le32_at(bytes, pos + 24),
                    local_offset: le32_at(bytes, pos + 42),
                },
                pos + 46 + name_len + extra_len + comment_len,
            ))
        }
    }
}

/// `count` consecutive central-directory records starting at `pos`.
pub open spec fn central_records(bytes: Seq<u8>, pos: int, count: nat) -> Option<Seq<SpecCentral>>
    decreases count,
{
    if count == 0 {
        Some(Seq::empty())
    } else {
        match central_record(bytes, pos) {
            None => None,
            Some((e, next)) => match central_records(bytes, next, (count - 1) as nat) {
                None => None,
                Some(rest) => Some(seq![e] + rest),
            },
        }
    }
}

/// The archive's central directory, as located by its end-of-central-directory record.
pub open spec fn spec_central_directory(bytes: Seq<u8>) -> Option<Seq<SpecCentral>> {
    match spec_find_eocd(bytes) {
        None => None,
        Some(eocd) => if eocd + 22 > bytes.len() {
            None
        } else {
            let count = le16_at(bytes, eocd + 10);
            let offset = le32_at(bytes, eocd + 16);
            if count == 0xFFFF || offset == 0xFFFF_FFFF {
                None
            } else {
                central_records(bytes, offset, count as nat)
            }
        },
    }
}

proof fn lemma_eocd_search_bound(bytes: Seq<u8>, pos: int, start: int)
    ensures
        eocd_search(bytes, pos, start) matches Some(p) ==> start <= p <= pos,
    decreases pos - start,
{
    if !(pos < start || pos < 0) && le32_at(bytes, pos) != EOCD_SIG && pos != start {
        lemma_eocd_search_bound(bytes, pos - 1, start);
    }
}

proof fn lemma_find_eocd_bound(bytes: Seq<u8>)
    ensures
        spec_find_eocd(bytes) matches Some(p) ==> 0 <= p && p + 22 <= bytes.len(),
{
    if bytes.len() >= 22 {
        let start = if bytes.len() >= 22 + 65535 { bytes.len() - 22 - 65535 } else { 0 };
        lemma_eocd_search_bound(bytes, bytes.len() - 22, start);
    }
}

fn parse_central_directory(bytes: &[u8]) -> (r: Result<Vec<CentralEntry>, MmnError>)
    requires
        bytes@.len() <= usize::MAX / 8,
    ensures
        match spec_central_directory(bytes@) {
            Some(es) => r matches Ok(v) && v@.len() == es.len()
                && forall|i: int| 0 <= i < es.len() ==> (#[trigger] v@[i])@ == es[i],
            None => r is Err,
        },
{
    let eocd = match find_eocd(bytes) {
        Ok(p) => p,
        Err(e) => return Err(e),
    };
    proof {
        lemma_find_eocd_bound(bytes@);
    }
    let entry_count = read_le16(bytes, eocd + 10) as usize;
    let cd_offset = read_le32(bytes, eocd + 16) as usize;
    if entry_count == 0xFFFF || cd_offset == 0xFFFF_FFFF {
        return Err(MmnError::new("zip64 archives are not supported (archive > 4 GiB)"));
    }
    let mut entries: Vec<CentralEntry> = Vec::new();
    let mut pos: usize = cd_offset;
    let mut k: usize = 0;
    let ghost mut done: Seq<SpecCentral> = Seq::empty();
    while k < entry_count
        invariant
            bytes@.len() <= usize::MAX / 8,
            k <= entry_count,
            entries@.len() == k,
            done.len() == k,
            forall|i: int| 0 <= i < k ==> (#[trigger] entries@[i])@ == done[i],
            spec_central_directory(bytes@) == match central_records(bytes@, pos as int, (entry_count - k) as nat) {
                None => None,
                Some(rest) => Some(done + rest),
            },
        decreases entry_count - k,
    {
        if pos > bytes.len() || bytes.len() - pos < 46 {
            return Err(MmnError::new("zip central directory entry truncated"));
        }
        if read_le32(bytes, pos) != CENTRAL_HEADER_SIG {
            return Err(MmnError::new("zip central directory entry signature mismatch"));
        }
        let method = read_le16(bytes, pos + 10);
        let crc = read_le32(bytes, pos + 16);
        let compressed_size = read_le32(bytes, pos + 20) as usize;
        let uncompressed_size = read_le32(bytes, pos + 24) as usize;
        let name_len = read_le16(bytes, pos + 28) as usize;
        let extra_len = read_le16(bytes, pos + 30) as usize;
        let comment_len = read_le16(bytes, pos + 32) as usize;
        let local_offset = read_le32(bytes, pos + 42) as usize;
        if bytes.len() - (pos + 46) < name_len {
            return Err(MmnError::new("zip central directory name truncated"));
        }
        let name = lossy_string(crate::proto::slice_range(bytes, pos + 46, pos + 46 + name_len));
        let entry = CentralEntry { name, method, crc, compressed_size, uncompressed_size, local_offset };
        proof {
            let e = entry@;
            let rest_spec = central_records(bytes@, (pos + 46 + name_len + extra_len + comment_len) as int, (entry_count - k - 1) as nat);
            if let Some(rest) = rest_spec {
                assert(done.push(e) + rest =~= done + (seq![e] + rest));
            }
            done = done.push(e);
        }
        entries.push(entry);
        pos = pos + 46 + name_len + extra_len + comment_len;
        k = k + 1;
    }
    proof {
        assert(done + Seq::<SpecCentral>::empty() =~= done);
    }
    Ok(entries)
}

} // verus!

verus! {

/// The data of the entry described by central record `e`: located through
/// its local header, decompressed if needed, and checked against the
/// recorded size and CRC-32.
#[verifier::opaque]
pub open spec fn spec_entry_data(bytes: Seq<u8>, e: SpecCentral) -> Option<Seq<u8>> {
    let pos = e.local_offset;
    if !(0 <= pos && pos + 30 <= bytes.len()) || le32_at(bytes, pos) != LOCAL_HEADER_SIG {
        None
    } else {
        let name_len = le16_at(bytes, pos + 26);
        let extra_len = le16_at(bytes, pos + 28);
        let data_start = pos + 30 + name_len + extra_len;
        if data_start + e.compressed_size > bytes.len() {
            None
        } else {
            let raw = bytes.subrange(data_start, data_start + e.compressed_size);
            let data = if e.method == METHOD_STORED {
                Some(raw)
            } else if e.method == METHOD_DEFLATE {
                spec_inflate(raw)
            } else {
                None
            };
            match data {
                None => None,
                Some(d) => if d.len() != e.uncompressed_size || spec_crc32(d) != e.crc {
                    None
                } else {
                    Some(d)
                },
            }
        }
    }
}

/// Every entry of the archive, `(name, data)`, in central-directory order.
pub open spec fn spec_read_entries(bytes: Seq<u8>, es: Seq<SpecCentral>) -> Option<Seq<(Seq<char>, Seq<u8>)>>
    decreases es.len(),
{
    if es.len() == 0 {
        Some(Seq::empty())
    } else {
        match spec_read_entries(bytes, es.drop_last()) {
            None => None,
            Some(front) => match spec_entry_data(bytes, es.last()) {
                None => None,
                Some(d) => Some(front.push((es.last().name, d))),
            },
        }
    }
}

/// The archive `bytes` read in full.
pub open spec fn spec_read_zip(bytes: Seq<u8>) -> Option<Seq<(Seq<char>, Seq<u8>)>> {
    match spec_central_directory(bytes) {
        None => None,
        Some(es) => spec_read_entries(bytes, es),
    }
}

/// Index of the first record named `name`, if any.
pub open spec fn first_named(es: Seq<SpecCentral>, name: Seq<char>) -> Option<int> {
    if exists|i: int| 0 <= i < es.len() && es[i].name == name {
        Some(choose|i: int| 0 <= i < es.len() && es[i].name == name && forall|j: int| 0 <= j < i ==> es[j].name != name)
    } else {
        None
    }
}

impl View for ZipEntry {
    type V = (Seq<char>, Seq<u8>);

    open spec fn view(&self) -> (Seq<char>, Seq<u8>) {
        (self.name@, self.data@)
    }
}

/// The record's data is found and has its recorded size, but its CRC-32
/// differs from the recorded one.
pub open spec fn crc_only_failure(bytes: Seq<u8>, e: SpecCentral) -> bool {
    let pos = e.local_offset;
    &&& 0 <= pos && pos + 30 <= bytes.len() && le32_at(bytes, pos) == LOCAL_HEADER_SIG
    &&& {
        let data_start = pos + 30 + le16_at(bytes, pos + 26) + le16_at(bytes, pos + 28);
        &&& data_start + e.compressed_size <= bytes.len()
        &&& {
            let raw = bytes.subrange(data_start, data_start + e.compressed_size);
            let data = if e.method == METHOD_STORED {
                Some(raw)
            } else if e.method == METHOD_DEFLATE {
                spec_inflate(raw)
            } else {
                None
            };
            data matches Some(d) && d.len() == e.uncompressed_size && spec_crc32(d) != e.crc
        }
    }
}

proof fn lemma_crc_only_fails(bytes: Seq<u8>, e: SpecCentral)
    requires
        crc_only_failure(bytes, e),
    ensures
        spec_entry_data(bytes, e) is None,
{
    reveal(spec_entry_data);
}

/// The message for a record whose data fails its CRC-32.
pub open spec fn crc_message(name: Seq<char>) -> Seq<char> {
    "zip entry "@ + name + " CRC-32 mismatch"@
}

fn entry_data(bytes: &[u8], entry: &CentralEntry) -> (r: Result<Vec<u8>, MmnError>)
    requires
        bytes@.len() <= usize::MAX / 8,
    ensures
        match spec_entry_data(bytes@, entry@) {
            Some(d) => r matches Ok(v) && v@ == d,
            None => r is Err,
        },
        r matches Err(m) ==> (crc_only_failure(bytes@, entry@) ==> m.message@ == crc_message(entry@.name)),
{
    reveal(spec_entry_data);
    let pos = entry.local_offset;
    if pos > bytes.len() || bytes.len() - pos < 30 {
        return Err(MmnError::new("zip local header truncated"));
    }
    if read_le32(bytes, pos) != LOCAL_HEADER_SIG {
        return Err(MmnError::with_detail("zip local header signature mismatch for ", entry.name.as_str()));
    }
    let name_len = read_le16(bytes, pos + 26) as usize;
    let extra_len = read_le16(bytes, pos + 28) as usize;
    let data_start = pos + 30 + name_len + extra_len;
    if data_start > bytes.len() || bytes.len() - data_start < entry.compressed_size {
        return Err(MmnError::with_detail("zip entry data truncated: ", entry.name.as_str()));
    }
    let raw = crate::proto::slice_range(bytes, data_start, data_start + entry.compressed_size);
    let data = if entry.method == METHOD_STORED {
        copy_range(raw, 0, raw.len())
    } else if entry.method == METHOD_DEFLATE {
        match inflate(raw) {
            Ok(d) => d,
            Err(e) => return Err(e),
        }
    } else {
        return Err(MmnError::with_detail("zip entry uses an unsupported compression method: ", entry.name.as_str()));
    };
    proof {
        assert(raw@.subrange(0, raw@.len() as int) =~= raw@);
    }
    if data.len() != entry.uncompressed_size {
        return Err(MmnError::with_detail("zip entry size mismatch: ", entry.name.as_str()));
    }
    if crc32(data.as_slice()) != entry.crc {
        let msg = MmnError::with_detail("zip entry ", entry.name.as_str());
        return Err(MmnError::with_detail(msg.message.as_str(), " CRC-32 mismatch"));
    }
    Ok(data)
}

/// List entry names without decompressing any data.
pub fn zip_entry_names(bytes: &[u8]) -> (r: Result<Vec<String>, MmnError>)
    requires
        bytes@.len() <= usize::MAX / 8,
    ensures
        match spec_central_directory(bytes@) {
            Some(es) => r matches Ok(v) && v@.len() == es.len()
                && forall|i: int| 0 <= i < es.len() ==> (#[trigger] v@[i])@ == es[i].name,
            None => r is Err,
        },
{
    let central = match parse_central_directory(bytes) {
        Ok(c) => c,
        Err(e) => return Err(e),
    };
    let mut names: Vec<String> = Vec::new();
    let mut i: usize = 0;
    while i < central.len()
        invariant
            i <= central@.len(),
            names@.len() == i,
            forall|j: int| 0 <= j < i ==> (#[trigger] names@[j])@ == central@[j].name@,
        decreases central@.len() - i,
    {
        names.push(central[i].name.clone());
        i = i + 1;
    }
    Ok(names)
}

/// Read and decompress every entry in the archive.
pub fn read_zip(bytes: &[u8]) -> (r: Result<Vec<ZipEntry>, MmnError>)
    requires
        bytes@.len() <= usize::MAX / 8,
    ensures
        match spec_read_zip(bytes@) {
            Some(es) => r matches Ok(v) && v@.len() == es.len()
                && forall|i: int| 0 <= i < es.len() ==> (#[trigger] v@[i])@ == es[i],
            None => r is Err,
        },
        r matches Err(m) ==> (spec_central_directory(bytes@) matches Some(es) ==> forall|k: int|
            0 <= k < es.len() && (forall|j: int| 0 <= j < k ==> spec_entry_data(bytes@, #[trigger] es[j]) is Some)
                && #[trigger] crc_only_failure(bytes@, es[k]) ==> m.message@ == crc_message(es[k].name)),
{
    let central = match parse_central_directory(bytes) {
        Ok(c) => c,
        Err(e) => return Err(e),
    };
    let ghost es = spec_central_directory(bytes@)->Some_0;
    let mut out: Vec<ZipEntry> = Vec::new();
    let ghost mut done: Seq<(Seq<char>, Seq<u8>)> = Seq::empty();
    let mut i: usize = 0;
    proof {
        assert(es.take(0) =~= Seq::<SpecCentral>::empty());
    }
    while i < central.len()
        invariant
            bytes@.len() <= usize::MAX / 8,
            spec_central_directory(bytes@) == Some(es),
            i <= central@.len(),
            central@.len() == es.len(),
            forall|j: int| 0 <= j < es.len() ==> (#[trigger] central@[j])@ == es[j],
            spec_read_entries(bytes@, es.take(i as int)) == Some(done),
            out@.len() == i,
            done.len() == i,
            forall|j: int| 0 <= j < i ==> (#[trigger] out@[j])@ == done[j],
            forall|j: int| 0 <= j < i ==> spec_entry_data(bytes@, #[trigger] es[j]) is Some,
        decreases central@.len() - i,
    {
        let data = match entry_data(bytes, &central[i]) {
            Ok(d) => d,
            Err(e) => {
                proof {
                    lemma_read_entries_prefix_fails(bytes@, es.take(i + 1), i as int);
                    lemma_read_entries_extend_none(bytes@, es, i as int + 1);
                    assert forall|k: int| 0 <= k < es.len() && (forall|j: int| 0 <= j < k
                        ==> spec_entry_data(bytes@, #[trigger] es[j]) is Some)
                        && #[trigger] crc_only_failure(bytes@, es[k]) implies e.message@ == crc_message(es[k].name) by {
                        lemma_crc_only_fails(bytes@, es[k]);
                        if k > i {
                            assert(spec_entry_data(bytes@, es[i as int]) is Some);
                        }
                        assert(k == i);
                    }
                }
                return Err(e);
            },
        };
        let entry = ZipEntry { name: central[i].name.clone(), data };
        proof {
            let t = es.take(i + 1);
            assert(t.drop_last() =~= es.take(i as int));
            assert(t.last() == es[i as int]);
            done = done.push(entry@);
        }
        out.push(entry);
        i = i + 1;
    }
    proof {
        assert(es.take(i as int) =~= es);
    }
    Ok(out)
}

/// Once a prefix of the records fails, so does the whole list.
proof fn lemma_read_entries_extend_none(bytes: Seq<u8>, es: Seq<SpecCentral>, n: int)
    requires
        0 <= n <= es.len(),
        spec_read_entries(bytes, es.take(n)) is None,
    ensures
        spec_read_entries(bytes, es) is None,
    decreases es.len() - n,
{
    if n < es.len() {
        assert(es.take(n + 1).drop_last() =~= es.take(n));
        lemma_read_entries_extend_none(bytes, es, n + 1);
    } else {
        assert(es.take(n) =~= es);
    }
}

/// A failing entry fails the whole archive.
proof fn lemma_read_entries_prefix_fails(bytes: Seq<u8>, es: Seq<SpecCentral>, i: int)
    requires
        0 <= i < es.len(),
        spec_entry_data(bytes, es[i]) is None,
    ensures
        spec_read_entries(bytes, es) is None,
    decreases es.len(),
{
    if i < es.len() - 1 {
        lemma_read_entries_prefix_fails(bytes, es.drop_last(), i);
    }
}

/// Byte-wise equality of two slices.
fn bytes_eq(a: &[u8], b: &[u8]) -> (r: bool)
    ensures
        r == (a@ == b@),
{
    if a.len() != b.len() {
        return false;
    }
    let mut i: usize = 0;
    while i < a.len()
        invariant
            a@.len() == b@.len(),
            i <= a@.len(),
            forall|j: int| 0 <= j < i ==> a@[j] == b@[j],
        decreases a@.len() - i,
    {
        if a[i] != b[i] {
            return false;
        }
        i = i + 1;
    }
    proof {
        assert(a@ =~= b@);
    }
    true
}

/// Read a single entry by exact name.
pub fn read_zip_entry(bytes: &[u8], name: &str) -> (r: Result<Vec<u8>, MmnError>)
    requires
        bytes@.len() <= usize::MAX / 8,
    ensures
        match spec_central_directory(bytes@) {
            None => r is Err,
            Some(es) => match first_named(es, name@) {
                None => r is Err,
                Some(i) => match spec_entry_data(bytes@, es[i]) {
                    Some(d) => r matches Ok(v) && v@ == d,
                    None => r is Err,
                },
            },
        },
        r matches Err(m) ==> (spec_central_directory(bytes@) matches Some(es) && first_named(es, name@) is None
            ==> m.message@ == "zip archive has no entry named "@ + name@),
{
    let central = match parse_central_directory(bytes) {
        Ok(c) => c,
        Err(e) => return Err(e),
    };
    let ghost es = spec_central_directory(bytes@)->Some_0;
    let wanted = name.as_bytes();
    let mut i: usize = 0;
    while i < central.len()
        invariant
            bytes@.len() <= usize::MAX / 8,
            spec_central_directory(bytes@) == Some(es),
            i <= central@.len(),
            central@.len() == es.len(),
            forall|j: int| 0 <= j < es.len() ==> (#[trigger] central@[j])@ == es[j],
            forall|j: int| 0 <= j < i ==> es[j].name != name@,
            wanted@ == vstd::utf8::encode_utf8(name@),
        decreases central@.len() - i,
    {
        let candidate = central[i].name.as_str().as_bytes();
        if bytes_eq(candidate, wanted) {
            proof {
                let n1 = central@[i as int].name@;
                vstd::utf8::encode_utf8_decode_utf8(n1);
                vstd::utf8::encode_utf8_decode_utf8(name@);
                assert(es[i as int].name == name@);
                let ii = i as int;
                assert(0 <= ii < es.len() && es[ii].name == name@ && forall|j: int| 0 <= j < ii ==> es[j].name != name@);
                let k = first_named(es, name@)->Some_0;
                assert(k == ii);
            }
            return entry_data(bytes, &central[i]);
        }
        proof {
            let n1 = central@[i as int].name@;
            vstd::utf8::encode_utf8_decode_utf8(n1);
            vstd::utf8::encode_utf8_decode_utf8(name@);
        }
        i = i + 1;
    }
    Err(MmnError::with_detail("zip archive has no entry named ", name))
}

/// True when `bytes` begin with a ZIP local-header or EOCD magic.
pub fn is_zip_bytes(bytes: &[u8]) -> (r: bool)
    ensures
        r == (bytes@.len() >= 4 && bytes@[0] == 0x50 && bytes@[1] == 0x4B && (bytes@[2] == 3 || bytes@[2] == 5)
            && bytes@[3] == bytes@[2] + 1),
{
    bytes.len() >= 4 && bytes[0] == 0x50 && bytes[1] == 0x4B && (bytes[2] == 3 || bytes[2] == 5)
        && bytes[3] as u16 == bytes[2] as u16 + 1
}

} // verus!

verus! {

/// UTF-8 bytes of a name.
pub open spec fn utf8_bytes(name: Seq<char>) -> Seq<u8> {
    vstd::utf8::encode_utf8(name)
}

/// The local header and data of a stored entry.
#[verifier::opaque]
pub open spec fn local_record(name: Seq<u8>, data: Seq<u8>) -> Seq<u8> {
    le32_bytes(LOCAL_HEADER_SIG as int) + le16_bytes(20) + le16_bytes(0) + le16_bytes(METHOD_STORED as int)
        + le16_bytes(0) + le16_bytes(0) + le32_bytes(spec_crc32(data) as int)
        + le32_bytes(data.len() as int % 0x1_0000_0000) + le32_bytes(data.len() as int % 0x1_0000_0000)
        + le16_bytes(name.len() as int % 0x1_0000) + le16_bytes(0) + name + data
}

/// The central-directory record of a stored entry whose local header is at `offset`.
#[verifier::opaque]
pub open spec fn central_record_bytes(name: Seq<u8>, data: Seq<u8>, offset: int) -> Seq<u8> {
    le32_bytes(CENTRAL_HEADER_SIG as int) + le16_bytes(20) + le16_bytes(20) + le16_bytes(0)
        + le16_bytes(METHOD_STORED as int) + le16_bytes(0) + le16_bytes(0) + le32_bytes(spec_crc32(data) as int)
        + le32_bytes(data.len() as int % 0x1_0000_0000) + le32_bytes(data.len() as int % 0x1_0000_0000)
        + le16_bytes(name.len() as int % 0x1_0000) + le16_bytes(0) + le16_bytes(0) + le16_bytes(0)
        + le16_bytes(0) + le32_bytes(0) + le32_bytes(offset % 0x1_0000_0000) + name
}

/// The local records of the first `k` entries, back to back.
pub open spec fn local_records(es: Seq<(Seq<char>, Seq<u8>)>, k: nat) -> Seq<u8>
    decreases k,
{
    if k == 0 || k > es.len() {
        Seq::empty()
    } else {
        local_records(es, (k - 1) as nat) + local_record(utf8_bytes(es[k - 1].0), es[k - 1].1)
    }
}

/// The central-directory records of the first `k` entries.
pub open spec fn central_records_bytes(es: Seq<(Seq<char>, Seq<u8>)>, k: nat) -> Seq<u8>
    decreases k,
{
    if k == 0 || k > es.len() {
        Seq::empty()
    } else {
        central_records_bytes(es, (k - 1) as nat) + central_record_bytes(
            utf8_bytes(es[k - 1].0),
            es[k - 1].1,
            local_records(es, (k - 1) as nat).len() as int,
        )
    }
}

/// The end-of-central-directory record.
#[verifier::opaque]
pub open spec fn eocd_record(count: int, cd_size: int, cd_start: int) -> Seq<u8> {
    le32_bytes(EOCD_SIG as int) + le16_bytes(0) + le16_bytes(0) + le16_bytes(count % 0x1_0000)
        + le16_bytes(count % 0x1_0000) + le32_bytes(cd_size % 0x1_0000_0000) + le32_bytes(cd_start % 0x1_0000_0000)
        + le16_bytes(0)
}

/// Writing fails when an entry, or the archive before it, is over 4 GiB.
pub open spec fn write_too_large(es: Seq<(Seq<char>, Seq<u8>)>) -> bool {
    exists|j: int| 0 <= j < es.len() && (es[j].1.len() > u32::MAX || local_records(es, j as nat).len() > u32::MAX)
}

/// The stored archive holding `es`.
pub open spec fn spec_zip_stored(es: Seq<(Seq<char>, Seq<u8>)>) -> Seq<u8> {
    let locals = local_records(es, es.len());
    let centrals = central_records_bytes(es, es.len());
    locals + centrals + eocd_record(es.len() as int, centrals.len() as int, locals.len() as int)
}

/// Names and data of the entries to write.
pub open spec fn entries_view(entries: Seq<(String, Vec<u8>)>) -> Seq<(Seq<char>, Seq<u8>)> {
    entries.map_values(|e: (String, Vec<u8>)| (e.0@, e.1@))
}

/// Append the local record of one stored entry.
fn push_local_record(out: &mut Vec<u8>, name: &[u8], data: &[u8], crc: u32)
    requires
        crc == spec_crc32(data@),
    ensures
        final(out)@ == old(out)@ + local_record(name@, data@),
{
    push_le32(out, LOCAL_HEADER_SIG);
    push_le16(out, 20);
    push_le16(out, 0);
    push_le16(out, METHOD_STORED);
    push_le16(out, 0);
    push_le16(out, 0);
    push_le32(out, crc);
    let size = (data.len() as u64 % 0x1_0000_0000) as u32;
    push_le32(out, size);
    push_le32(out, size);
    push_le16(out, (name.len() as u64 % 0x1_0000) as u16);
    push_le16(out, 0);
    push_all(out, name);
    push_all(out, data);
    proof {
        reveal(local_record);
        assert(final(out)@ =~= old(out)@ + local_record(name@, data@));
    }
}

/// Append the central-directory record of one stored entry.
fn push_central_record(out: &mut Vec<u8>, name: &[u8], data: &[u8], crc: u32, offset: usize)
    requires
        crc == spec_crc32(data@),
    ensures
        final(out)@ == old(out)@ + central_record_bytes(name@, data@, offset as int),
{
    push_le32(out, CENTRAL_HEADER_SIG);
    push_le16(out, 20);
    push_le16(out, 20);
    push_le16(out, 0);
    push_le16(out, METHOD_STORED);
    push_le16(out, 0);
    push_le16(out, 0);
    push_le32(out, crc);
    let size = (data.len() as u64 % 0x1_0000_0000) as u32;
    push_le32(out, size);
    push_le32(out, size);
    push_le16(out, (name.len() as u64 % 0x1_0000) as u16);
    push_le16(out, 0);
    push_le16(out, 0);
    push_le16(out, 0);
    push_le16(out, 0);
    push_le32(out, 0);
    push_le32(out, (offset as u64 % 0x1_0000_0000) as u32);
    push_all(out, name);
    proof {
        reveal(central_record_bytes);
        assert(final(out)@ =~= old(out)@ + central_record_bytes(name@, data@, offset as int));
    }
}

/// Write the local records; `None` when an entry or the archive so far is over 4 GiB.
#[verifier::spinoff_prover]
fn write_local_records(entries: &[(String, Vec<u8>)]) -> (r: Option<(Vec<u8>, Vec<usize>, Vec<u32>)>)
    ensures
        write_too_large(entries_view(entries@)) ==> r is None,
        !write_too_large(entries_view(entries@)) ==> (r matches Some((out, offsets, crcs))
            && out@ == local_records(entries_view(entries@), entries@.len())
            && offsets@.len() == entries@.len() && crcs@.len() == entries@.len()
            && (forall|j: int| 0 <= j < entries@.len() ==> offsets@[j] == local_records(entries_view(entries@), j as nat).len())
            && (forall|j: int| 0 <= j < entries@.len() ==> crcs@[j] == spec_crc32(entries_view(entries@)[j].1))),
{
    let ghost es = entries_view(entries@);
    let n = entries.len();
    let mut out: Vec<u8> = Vec::new();
    let mut offsets: Vec<usize> = Vec::new();
    let mut crcs: Vec<u32> = Vec::new();
    let mut k: usize = 0;
    while k < n
        invariant
            n == entries@.len(),
            es == entries_view(entries@),
            es.len() == n,
            k <= n,
            out@ == local_records(es, k as nat),
            offsets@.len() == k,
            crcs@.len() == k,
            forall|j: int| 0 <= j < k ==> offsets@[j] == local_records(es, j as nat).len(),
            forall|j: int| 0 <= j < k ==> crcs@[j] == spec_crc32(es[j].1),
            forall|j: int| 0 <= j < k ==> es[j].1.len() <= u32::MAX && local_records(es, j as nat).len() <= u32::MAX,
        decreases n - k,
    {
        let name = &entries[k].0;
        let data = &entries[k].1;
        proof {
            assert(es[k as int] == (name@, data@));
        }
        if data.len() > 0xFFFF_FFFF || out.len() > 0xFFFF_FFFF {
            proof {
                assert(0 <= k < es.len() && (es[k as int].1.len() > u32::MAX || local_records(es, k as nat).len() > u32::MAX));
            }
            return None;
        }
        let offset = out.len();
        let crc = crc32(data.as_slice());
        let name_bytes = name.as_str().as_bytes();
        push_local_record(&mut out, name_bytes, data.as_slice(), crc);
        offsets.push(offset);
        crcs.push(crc);
        k = k + 1;
    }
    proof {
        assert(!write_too_large(es));
    }
    Some((out, offsets, crcs))
}

/// Append the central-directory records.
fn write_central_records(out: &mut Vec<u8>, entries: &[(String, Vec<u8>)], offsets: &Vec<usize>, crcs: &Vec<u32>)
    requires
        offsets@.len() == entries@.len(),
        crcs@.len() == entries@.len(),
        forall|j: int| 0 <= j < entries@.len() ==> offsets@[j] == local_records(entries_view(entries@), j as nat).len(),
        forall|j: int| 0 <= j < entries@.len() ==> crcs@[j] == spec_crc32(entries_view(entries@)[j].1),
    ensures
        final(out)@ == old(out)@ + central_records_bytes(entries_view(entries@), entries@.len()),
{
    let ghost es = entries_view(entries@);
    let n = entries.len();
    let mut c: usize = 0;
    while c < n
        invariant
            n == entries@.len(),
            es == entries_view(entries@),
            es.len() == n,
            c <= n,
            out@ == old(out)@ + central_records_bytes(es, c as nat),
            offsets@.len() == n,
            crcs@.len() == n,
            forall|j: int| 0 <= j < n ==> offsets@[j] == local_records(es, j as nat).len(),
            forall|j: int| 0 <= j < n ==> crcs@[j] == spec_crc32(es[j].1),
        decreases n - c,
    {
        let name = &entries[c].0;
        let data = &entries[c].1;
        proof {
            assert(es[c as int] == (name@, data@));
        }
        let name_bytes = name.as_str().as_bytes();
        push_central_record(out, name_bytes, data.as_slice(), crcs[c], offsets[c]);
        c = c + 1;
        proof {
            assert(out@ =~= old(out)@ + central_records_bytes(es, c as nat));
        }
    }
}

/// Append the end-of-central-directory record.
fn push_eocd(out: &mut Vec<u8>, count: usize, cd_size: usize, cd_start: usize)
    ensures
        final(out)@ == old(out)@ + eocd_record(count as int, cd_size as int, cd_start as int),
{
    push_le32(out, EOCD_SIG);
    push_le16(out, 0);
    push_le16(out, 0);
    let c = (count as u64 % 0x1_0000) as u16;
    push_le16(out, c);
    push_le16(out, c);
    push_le32(out, (cd_size as u64 % 0x1_0000_0000) as u32);
    push_le32(out, (cd_start as u64 % 0x1_0000_0000) as u32);
    push_le16(out, 0);
    proof {
        reveal(eocd_record);
        assert(final(out)@ =~= old(out)@ + eocd_record(count as int, cd_size as int, cd_start as int));
    }
}

/// Serialize entries into a stored (uncompressed) ZIP archive.
pub fn write_zip_stored(entries: &[(String, Vec<u8>)]) -> (r: Result<Vec<u8>, MmnError>)
    ensures
        write_too_large(entries_view(entries@)) ==> r is Err,
        !write_too_large(entries_view(entries@)) ==> (r matches Ok(v) && v@ == spec_zip_stored(entries_view(entries@))),
{
    let (mut out, offsets, crcs) = match write_local_records(entries) {
        Some(t) => t,
        None => return Err(MmnError::new("zip64 writing not supported (entry or archive > 4 GiB)")),
    };
    let cd_start = out.len();
    write_central_records(&mut out, entries, &offsets, &crcs);
    let cd_size = out.len() - cd_start;
    push_eocd(&mut out, entries.len(), cd_size, cd_start);
    Ok(out)
}

} // verus!
