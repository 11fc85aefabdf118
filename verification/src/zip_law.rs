//! What reading gives back of a written stored ZIP archive.

use vstd::prelude::*;
use vstd::utf8::*;
use crate::bytes::{le16_at, le32_at, le16_bytes, le32_bytes, lemma_le16_roundtrip, lemma_le32_roundtrip};
use crate::gguf_law::holds_at;
use crate::zip::{SpecCentral, spec_crc32, spec_entry_data, local_record, central_record_bytes, central_record,
    lossy_text, LOCAL_HEADER_SIG, CENTRAL_HEADER_SIG, METHOD_STORED, EOCD_SIG, local_records, central_records_bytes,
    central_records, spec_read_entries, spec_read_zip, spec_zip_stored, write_too_large, eocd_record, utf8_bytes,
    spec_find_eocd, eocd_search, spec_central_directory};
use crate::gguf_law::lemma_split;

verus! {

/// A 16-bit field of `x` read where `x` sits in `s`.
proof fn lemma_at16(s: Seq<u8>, p: int, x: Seq<u8>, k: int)
    requires
        holds_at(s, p, x),
        0 <= k,
        k + 2 <= x.len(),
    ensures
        le16_at(s, p + k) == le16_at(x, k),
{
    assert(s[p + k] == s.subrange(p, p + x.len())[k]);
    assert(s[p + k + 1] == s.subrange(p, p + x.len())[k + 1]);
}

/// A 32-bit field of `x` read where `x` sits in `s`.
proof fn lemma_at32(s: Seq<u8>, p: int, x: Seq<u8>, k: int)
    requires
        holds_at(s, p, x),
        0 <= k,
        k + 4 <= x.len(),
    ensures
        le32_at(s, p + k) == le32_at(x, k),
{
    lemma_at16(s, p, x, k);
    lemma_at16(s, p, x, k + 2);
}

/// The record a stored entry's central-directory record describes.
pub open spec fn stored_central(name: Seq<char>, data: Seq<u8>, off: int) -> SpecCentral {
    SpecCentral {
        name: name,
        method: METHOD_STORED as int,
        crc: spec_crc32(data) as int,
        compressed_size: data.len() as int,
        uncompressed_size: data.len() as int,
        local_offset: off,
    }
}

#[verifier::rlimit(80)]
proof fn lemma_local_fields(name: Seq<u8>, data: Seq<u8>)
    requires
        name.len() <= 0xFFFF,
        data.len() <= u32::MAX,
    ensures
        local_record(name, data).len() == 30int + name.len() + data.len(),
        le32_at(local_record(name, data), 0) == LOCAL_HEADER_SIG,
        le16_at(local_record(name, data), 26) == name.len(),
        le16_at(local_record(name, data), 28) == 0,
        local_record(name, data).subrange(30int + name.len(), 30int + name.len() + data.len()) == data,
{
    reveal(local_record);
    let r = local_record(name, data);
    let c = spec_crc32(data) as int;
    let n = data.len() as int;
    assert(n % 0x1_0000_0000 == n);
    assert(name.len() as int % 0x1_0000 == name.len());
    let h = le32_bytes(LOCAL_HEADER_SIG as int) + le16_bytes(20) + le16_bytes(0) + le16_bytes(METHOD_STORED as int)
        + le16_bytes(0) + le16_bytes(0) + le32_bytes(c) + le32_bytes(n) + le32_bytes(n)
        + le16_bytes(name.len() as int) + le16_bytes(0);
    assert(h.len() == 30);
    assert(r == h + name + data);
    assert(r.subrange(0, 4) =~= le32_bytes(LOCAL_HEADER_SIG as int));
    lemma_le32_roundtrip(r, 0, LOCAL_HEADER_SIG as int);
    assert(r.subrange(26, 28) =~= le16_bytes(name.len() as int));
    lemma_le16_roundtrip(r, 26, name.len() as int);
    assert(r.subrange(28, 30) =~= le16_bytes(0));
    lemma_le16_roundtrip(r, 28, 0);
    assert(r.subrange(30int + name.len(), 30int + name.len() + data.len()) =~= data);
}

/// A stored entry's local record at `off` reads back as its data.
pub proof fn lemma_read_local(s: Seq<u8>, off: int, name: Seq<char>, data: Seq<u8>)
    requires
        holds_at(s, off, local_record(encode_utf8(name), data)),
        encode_utf8(name).len() <= 0xFFFF,
        data.len() <= u32::MAX,
    ensures
        spec_entry_data(s, stored_central(name, data, off)) == Some(data),
{
    let enc = encode_utf8(name);
    let r = local_record(enc, data);
    lemma_local_fields(enc, data);
    lemma_at32(s, off, r, 0);
    lemma_at16(s, off, r, 26);
    lemma_at16(s, off, r, 28);
    let ds = off + 30int + enc.len();
    assert(s.subrange(ds, ds + data.len()) =~= r.subrange(30int + enc.len(), 30int + enc.len() + data.len()));
    reveal(spec_entry_data);
}

#[verifier::rlimit(80)]
proof fn lemma_central_fields(name: Seq<u8>, data: Seq<u8>, off: int)
    requires
        name.len() <= 0xFFFF,
        data.len() <= u32::MAX,
        0 <= off <= u32::MAX,
    ensures
        central_record_bytes(name, data, off).len() == 46int + name.len(),
        le32_at(central_record_bytes(name, data, off), 0) == CENTRAL_HEADER_SIG,
        le16_at(central_record_bytes(name, data, off), 10) == METHOD_STORED,
        le32_at(central_record_bytes(name, data, off), 16) == spec_crc32(data),
        le32_at(central_record_bytes(name, data, off), 20) == data.len(),
        le32_at(central_record_bytes(name, data, off), 24) == data.len(),
        le16_at(central_record_bytes(name, data, off), 28) == name.len(),
        le16_at(central_record_bytes(name, data, off), 30) == 0,
        le16_at(central_record_bytes(name, data, off), 32) == 0,
        le32_at(central_record_bytes(name, data, off), 42) == off,
        central_record_bytes(name, data, off).subrange(46, 46int + name.len()) == name,
{
    reveal(central_record_bytes);
    let r = central_record_bytes(name, data, off);
    let c = spec_crc32(data) as int;
    let n = data.len() as int;
    assert(n % 0x1_0000_0000 == n);
    assert(off % 0x1_0000_0000 == off);
    assert(name.len() as int % 0x1_0000 == name.len());
    let h = le32_bytes(CENTRAL_HEADER_SIG as int) + le16_bytes(20) + le16_bytes(20) + le16_bytes(0)
        + le16_bytes(METHOD_STORED as int) + le16_bytes(0) + le16_bytes(0) + le32_bytes(c)
        + le32_bytes(n) + le32_bytes(n)
        + le16_bytes(name.len() as int) + le16_bytes(0) + le16_bytes(0) + le16_bytes(0)
        + le16_bytes(0) + le32_bytes(0) + le32_bytes(off);
    assert(h.len() == 46);
    assert(r == h + name);
    assert(r.subrange(0, 4) =~= le32_bytes(CENTRAL_HEADER_SIG as int));
    lemma_le32_roundtrip(r, 0, CENTRAL_HEADER_SIG as int);
    assert(r.subrange(10, 12) =~= le16_bytes(METHOD_STORED as int));
    lemma_le16_roundtrip(r, 10, METHOD_STORED as int);
    assert(r.subrange(16, 20) =~= le32_bytes(c));
    lemma_le32_roundtrip(r, 16, c);
    assert(r.subrange(20, 24) =~= le32_bytes(n));
    lemma_le32_roundtrip(r, 20, n);
    assert(r.subrange(24, 28) =~= le32_bytes(n));
    lemma_le32_roundtrip(r, 24, n);
    assert(r.subrange(28, 30) =~= le16_bytes(name.len() as int));
    lemma_le16_roundtrip(r, 28, name.len() as int);
    assert(r.subrange(30, 32) =~= le16_bytes(0));
    lemma_le16_roundtrip(r, 30, 0);
    assert(r.subrange(32, 34) =~= le16_bytes(0));
    lemma_le16_roundtrip(r, 32, 0);
    assert(r.subrange(42, 46) =~= le32_bytes(off));
    lemma_le32_roundtrip(r, 42, off);
    assert(r.subrange(46, 46int + name.len()) =~= name);
}

/// A stored entry's central-directory record at `p` reads back as its
/// description, followed directly by the next record.
pub proof fn lemma_read_central(s: Seq<u8>, p: int, name: Seq<char>, data: Seq<u8>, off: int)
    requires
        holds_at(s, p, central_record_bytes(encode_utf8(name), data, off)),
        encode_utf8(name).len() <= 0xFFFF,
        data.len() <= u32::MAX,
        0 <= off <= u32::MAX,
    ensures
        central_record(s, p) == Some((stored_central(name, data, off), p + 46 + encode_utf8(name).len())),
{
    let enc = encode_utf8(name);
    let r = central_record_bytes(enc, data, off);
    lemma_central_fields(enc, data, off);
    lemma_at32(s, p, r, 0);
    lemma_at16(s, p, r, 10);
    lemma_at32(s, p, r, 16);
    lemma_at32(s, p, r, 20);
    lemma_at32(s, p, r, 24);
    lemma_at16(s, p, r, 28);
    lemma_at16(s, p, r, 30);
    lemma_at16(s, p, r, 32);
    lemma_at32(s, p, r, 42);
    assert(s.subrange(p + 46, p + 46int + enc.len()) =~= r.subrange(46, 46int + enc.len()));
    encode_utf8_valid_utf8(name);
    encode_utf8_decode_utf8(name);
    assert(lossy_text(enc) == name);
}


/// The central-directory records reading finds in a written archive.
pub open spec fn written_centrals(es: Seq<(Seq<char>, Seq<u8>)>) -> Seq<SpecCentral> {
    Seq::new(es.len(), |j: int| stored_central(es[j].0, es[j].1, local_records(es, j as nat).len() as int))
}

/// Entries the stored-archive writer and the reader agree on: names of at
/// most 65535 UTF-8 bytes, fewer than 65535 entries, and entries,
/// directory and archive within the 32-bit fields.
pub open spec fn storable_entries(es: Seq<(Seq<char>, Seq<u8>)>) -> bool {
    &&& !write_too_large(es)
    &&& es.len() < 0xFFFF
    &&& forall|j: int| 0 <= j < es.len() ==> encode_utf8(#[trigger] es[j].0).len() <= 0xFFFF
    &&& local_records(es, es.len()).len() < 0xFFFF_FFFF
    &&& central_records_bytes(es, es.len()).len() <= u32::MAX
}

proof fn lemma_locals_prefix(es: Seq<(Seq<char>, Seq<u8>)>, k: nat)
    requires
        k <= es.len(),
    ensures
        local_records(es, k).len() <= local_records(es, es.len()).len(),
        local_records(es, es.len()).subrange(0, local_records(es, k).len() as int) == local_records(es, k),
    decreases es.len() - k,
{
    if k < es.len() {
        lemma_locals_prefix(es, k + 1);
        let a = local_records(es, k);
        let b = local_records(es, k + 1);
        let w = local_records(es, es.len());
        assert(b == a + local_record(utf8_bytes(es[k as int].0), es[k as int].1));
        assert(w.subrange(0, a.len() as int) =~= w.subrange(0, b.len() as int).subrange(0, a.len() as int));
        assert(b.subrange(0, a.len() as int) =~= a);
    } else {
        assert(local_records(es, es.len()).subrange(0, local_records(es, k).len() as int) =~= local_records(es, k));
    }
}

proof fn lemma_centrals_prefix(es: Seq<(Seq<char>, Seq<u8>)>, k: nat)
    requires
        k <= es.len(),
    ensures
        central_records_bytes(es, k).len() <= central_records_bytes(es, es.len()).len(),
        central_records_bytes(es, es.len()).subrange(0, central_records_bytes(es, k).len() as int)
            == central_records_bytes(es, k),
    decreases es.len() - k,
{
    if k < es.len() {
        lemma_centrals_prefix(es, k + 1);
        let a = central_records_bytes(es, k);
        let b = central_records_bytes(es, k + 1);
        let w = central_records_bytes(es, es.len());
        assert(b == a + central_record_bytes(utf8_bytes(es[k as int].0), es[k as int].1,
            local_records(es, k).len() as int));
        assert(w.subrange(0, a.len() as int) =~= w.subrange(0, b.len() as int).subrange(0, a.len() as int));
        assert(b.subrange(0, a.len() as int) =~= a);
    } else {
        assert(central_records_bytes(es, es.len()).subrange(0, central_records_bytes(es, k).len() as int)
            =~= central_records_bytes(es, k));
    }
}

/// `x` sits in `s` at `p` when `y`, which starts with `x`, does.
proof fn lemma_holds_prefix(s: Seq<u8>, p: int, x: Seq<u8>, y: Seq<u8>)
    requires
        holds_at(s, p, y),
        x.len() <= y.len(),
        y.subrange(0, x.len() as int) == x,
    ensures
        holds_at(s, p, x),
{
    assert(s.subrange(p, p + x.len()) =~= s.subrange(p, p + y.len()).subrange(0, x.len() as int));
}

/// The local record of entry `k` sits at its offset.
proof fn lemma_local_at(s: Seq<u8>, es: Seq<(Seq<char>, Seq<u8>)>, k: int)
    requires
        holds_at(s, 0, local_records(es, es.len())),
        0 <= k < es.len(),
    ensures
        holds_at(s, local_records(es, k as nat).len() as int, local_record(utf8_bytes(es[k].0), es[k].1)),
{
    lemma_locals_prefix(es, (k + 1) as nat);
    let b = local_records(es, (k + 1) as nat);
    lemma_holds_prefix(s, 0, b, local_records(es, es.len()));
    lemma_split(s, 0, local_records(es, k as nat), local_record(utf8_bytes(es[k].0), es[k].1));
}

/// The central record of entry `k` sits after the ones before it.
proof fn lemma_central_at(s: Seq<u8>, l: int, es: Seq<(Seq<char>, Seq<u8>)>, k: int)
    requires
        holds_at(s, l, central_records_bytes(es, es.len())),
        0 <= k < es.len(),
    ensures
        holds_at(s, l + central_records_bytes(es, k as nat).len(), central_record_bytes(utf8_bytes(es[k].0), es[k].1,
            local_records(es, k as nat).len() as int)),
{
    lemma_centrals_prefix(es, (k + 1) as nat);
    let b = central_records_bytes(es, (k + 1) as nat);
    lemma_holds_prefix(s, l, b, central_records_bytes(es, es.len()));
    lemma_split(s, l, central_records_bytes(es, k as nat), central_record_bytes(utf8_bytes(es[k].0), es[k].1,
        local_records(es, k as nat).len() as int));
}

/// The central records from entry `k` on read back.
#[verifier::rlimit(60)]
proof fn lemma_read_centrals(s: Seq<u8>, l: int, es: Seq<(Seq<char>, Seq<u8>)>, k: nat)
    requires
        storable_entries(es),
        holds_at(s, l, central_records_bytes(es, es.len())),
        k <= es.len(),
    ensures
        central_records(s, l + central_records_bytes(es, k).len(), (es.len() - k) as nat)
            == Some(written_centrals(es).subrange(k as int, es.len() as int)),
    decreases es.len() - k,
{
    let n = es.len();
    if k == n {
        assert(written_centrals(es).subrange(k as int, n as int) =~= Seq::<SpecCentral>::empty());
    } else {
        lemma_read_centrals(s, l, es, k + 1);
        lemma_central_at(s, l, es, k as int);
        let off = local_records(es, k).len() as int;
        assert(es[k as int].1.len() <= u32::MAX && off <= u32::MAX) by {
            if es[k as int].1.len() > u32::MAX || off > u32::MAX {
                assert(write_too_large(es));
            }
        }
        assert(encode_utf8(es[k as int].0).len() <= 0xFFFF);
        lemma_read_central(s, l + central_records_bytes(es, k).len(), es[k as int].0, es[k as int].1, off);
        let rec = central_record_bytes(utf8_bytes(es[k as int].0), es[k as int].1, off);
        assert(central_records_bytes(es, k + 1) == central_records_bytes(es, k) + rec);
        lemma_central_fields(utf8_bytes(es[k as int].0), es[k as int].1, off);
        assert(written_centrals(es)[k as int] == stored_central(es[k as int].0, es[k as int].1, off));
        assert(seq![written_centrals(es)[k as int]] + written_centrals(es).subrange(k + 1int, n as int)
            =~= written_centrals(es).subrange(k as int, n as int));
    }
}

/// The entries up to `k` read back.
#[verifier::rlimit(60)]
proof fn lemma_read_entries(s: Seq<u8>, es: Seq<(Seq<char>, Seq<u8>)>, k: nat)
    requires
        storable_entries(es),
        holds_at(s, 0, local_records(es, es.len())),
        k <= es.len(),
    ensures
        spec_read_entries(s, written_centrals(es).take(k as int)) == Some(es.take(k as int)),
    decreases k,
{
    if k == 0 {
        assert(written_centrals(es).take(0) =~= Seq::<SpecCentral>::empty());
        assert(es.take(0) =~= Seq::<(Seq<char>, Seq<u8>)>::empty());
    } else {
        let j = (k - 1) as int;
        lemma_read_entries(s, es, (k - 1) as nat);
        let t = written_centrals(es).take(k as int);
        assert(t.drop_last() =~= written_centrals(es).take(j));
        lemma_local_at(s, es, j);
        let off = local_records(es, j as nat).len() as int;
        assert(es[j].1.len() <= u32::MAX) by {
            if es[j].1.len() > u32::MAX {
                assert(write_too_large(es));
            }
        }
        assert(encode_utf8(es[j].0).len() <= 0xFFFF);
        lemma_read_local(s, off, es[j].0, es[j].1);
        assert(t.last() == stored_central(es[j].0, es[j].1, off));
        assert(es.take(j).push((es[j].0, es[j].1)) =~= es.take(k as int));
    }
}

proof fn lemma_eocd_fields(count: int, cd_size: int, cd_start: int)
    requires
        0 <= count < 0xFFFF,
        0 <= cd_size <= u32::MAX,
        0 <= cd_start < 0xFFFF_FFFF,
    ensures
        eocd_record(count, cd_size, cd_start).len() == 22,
        le32_at(eocd_record(count, cd_size, cd_start), 0) == EOCD_SIG,
        le16_at(eocd_record(count, cd_size, cd_start), 10) == count,
        le32_at(eocd_record(count, cd_size, cd_start), 16) == cd_start,
{
    reveal(eocd_record);
    let r = eocd_record(count, cd_size, cd_start);
    assert(count % 0x1_0000 == count);
    assert(cd_start % 0x1_0000_0000 == cd_start);
    assert(cd_size % 0x1_0000_0000 == cd_size);
    assert(r.subrange(0, 4) =~= le32_bytes(EOCD_SIG as int));
    lemma_le32_roundtrip(r, 0, EOCD_SIG as int);
    assert(r.subrange(10, 12) =~= le16_bytes(count));
    lemma_le16_roundtrip(r, 10, count);
    assert(r.subrange(16, 20) =~= le32_bytes(cd_start));
    lemma_le32_roundtrip(r, 16, cd_start);
}

/// Reading back a written stored archive gives every entry, in order,
/// with its name and data unchanged. This holds for names of at most 65535
/// UTF-8 bytes, fewer than 65535 entries, and entries, directory and
/// archive within the 32-bit fields of the format.
pub proof fn lemma_read_written_zip(es: Seq<(Seq<char>, Seq<u8>)>)
    requires
        storable_entries(es),
    ensures
        spec_read_zip(spec_zip_stored(es)) == Some(es),
{
    let n = es.len();
    let lr = local_records(es, n);
    let s = spec_zip_stored(es);
    lemma_written_directory(es);
    lemma_split(s, 0, lr, central_records_bytes(es, n));
    lemma_read_entries(s, es, n);
    assert(written_centrals(es).take(n as int) =~= written_centrals(es));
    assert(es.take(n as int) =~= es);
}

/// The directory of a written archive reads back as [`written_centrals`],
/// and the local records lead the archive.
#[verifier::rlimit(60)]
proof fn lemma_written_directory(es: Seq<(Seq<char>, Seq<u8>)>)
    requires
        storable_entries(es),
    ensures
        spec_central_directory(spec_zip_stored(es)) == Some(written_centrals(es)),
        holds_at(spec_zip_stored(es), 0, local_records(es, es.len()) + central_records_bytes(es, es.len())),
{
    let n = es.len();
    let lr = local_records(es, n);
    let cr = central_records_bytes(es, n);
    let l = lr.len() as int;
    let ev = eocd_record(n as int, cr.len() as int, l);
    let s = spec_zip_stored(es);
    assert(s == lr + cr + ev);
    lemma_eocd_fields(n as int, cr.len() as int, l);
    assert(holds_at(s, 0, (lr + cr) + ev)) by {
        assert(s.subrange(0, s.len() as int) =~= s);
    }
    lemma_split(s, 0, lr + cr, ev);
    lemma_split(s, 0, lr, cr);
    let e = s.len() - 22;
    lemma_at32(s, e, ev, 0);
    lemma_at16(s, e, ev, 10);
    lemma_at32(s, e, ev, 16);
    assert(spec_find_eocd(s) == Some(e));
    lemma_read_centrals(s, l, es, 0);
    assert(central_records_bytes(es, 0).len() == 0);
    assert(written_centrals(es).subrange(0, n as int) =~= written_centrals(es));
}

} // verus!
