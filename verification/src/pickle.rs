//! Emission of protocol-2 pickle streams (the writer half of the pickle codec).

use vstd::prelude::*;
use vstd::string::StringSliceAdditionalSpecFns;
use crate::bytes::{le32_bytes, le64_bytes, push_all, push_le32, push_le64};

verus! {

/// UTF-8 bytes of a string slice.
pub open spec fn utf8_of(s: &str) -> Seq<u8> {
    s.spec_bytes()
}

/// Bytes `PickleWriter::integer` emits for `v`: BININT1, BININT (i32) or LONG1 (8 bytes).
pub open spec fn pickle_int_bytes(v: int) -> Seq<u8> {
    if 0 <= v <= 255 {
        seq![0x4Bu8, v as u8]
    } else if -0x8000_0000 <= v <= 0x7FFF_FFFF {
        seq![0x4Au8] + le32_bytes(if v < 0 { v + 0x1_0000_0000 } else { v })
    } else {
        seq![0x8Au8, 8u8] + le64_bytes(if v < 0 { v + 0x1_0000_0000_0000_0000 } else { v })
    }
}

/// Bytes `PickleWriter::string` emits: BINUNICODE, 4-byte length, UTF-8 payload.
pub open spec fn pickle_string_bytes(s: Seq<u8>) -> Seq<u8> {
    seq![0x58u8] + le32_bytes(s.len() as int % 0x1_0000_0000) + s
}

/// Bytes `PickleWriter::global` emits: GLOBAL `module\nname\n`.
pub open spec fn pickle_global_bytes(module: Seq<u8>, name: Seq<u8>) -> Seq<u8> {
    seq![0x63u8] + module + seq![0x0Au8] + name + seq![0x0Au8]
}

/// Incremental pickle writer emitting a protocol-2 stream.
pub struct PickleWriter {
    out: Vec<u8>,
}

impl View for PickleWriter {
    type V = Seq<u8>;

    closed spec fn view(&self) -> Seq<u8> {
        self.out@
    }
}

impl Default for PickleWriter {
    fn default() -> (w: Self)
        ensures
            w@ == Seq::<u8>::empty(),
    {
        PickleWriter { out: Vec::new() }
    }
}

impl PickleWriter {
    /// A writer holding the PROTO 2 header.
    pub fn new() -> (w: Self)
        ensures
            w@ == seq![0x80u8, 0x02u8],
    {
        let mut out = Vec::new();
        out.push(0x80u8);
        out.push(0x02u8);
        proof {
            assert(out@ =~= seq![0x80u8, 0x02u8]);
        }
        PickleWriter { out }
    }

    /// The stream terminated by STOP.
    pub fn finish(self) -> (bytes: Vec<u8>)
        ensures
            bytes@ == self@.push(0x2Eu8),
    {
        let mut out = self.out;
        out.push(0x2Eu8);
        out
    }

    /// MARK.
    pub fn mark(&mut self)
        ensures
            final(self)@ == old(self)@.push(0x28u8),
    {
        self.out.push(0x28u8);
    }

    /// EMPTY_DICT.
    pub fn empty_dict(&mut self)
        ensures
            final(self)@ == old(self)@.push(0x7Du8),
    {
        self.out.push(0x7Du8);
    }

    /// SETITEMS.
    pub fn set_items(&mut self)
        ensures
            final(self)@ == old(self)@.push(0x75u8),
    {
        self.out.push(0x75u8);
    }

    /// TUPLE (from the last mark).
    pub fn tuple_from_mark(&mut self)
        ensures
            final(self)@ == old(self)@.push(0x74u8),
    {
        self.out.push(0x74u8);
    }

    /// LIST (from the last mark).
    pub fn list_from_mark(&mut self)
        ensures
            final(self)@ == old(self)@.push(0x6Cu8),
    {
        self.out.push(0x6Cu8);
    }

    /// EMPTY_TUPLE.
    pub fn empty_tuple(&mut self)
        ensures
            final(self)@ == old(self)@.push(0x29u8),
    {
        self.out.push(0x29u8);
    }

    /// NEWTRUE / NEWFALSE.
    pub fn bool(&mut self, v: bool)
        ensures
            final(self)@ == old(self)@.push(if v { 0x88u8 } else { 0x89u8 }),
    {
        self.out.push(if v { 0x88u8 } else { 0x89u8 });
    }

    /// The smallest of BININT1, BININT and LONG1 that holds `v`.
    pub fn integer(&mut self, v: i64)
        ensures
            final(self)@ == old(self)@ + pickle_int_bytes(v as int),
    {
        if 0 <= v && v <= 255 {
            self.out.push(0x4Bu8);
            self.out.push(v as u8);
            proof {
                assert(final(self)@ =~= old(self)@ + pickle_int_bytes(v as int));
            }
        } else if -0x8000_0000 <= v && v <= 0x7FFF_FFFF {
            self.out.push(0x4Au8);
            let bits: u32 = if v < 0 { (v + 0x1_0000_0000) as u32 } else { v as u32 };
            push_le32(&mut self.out, bits);
            proof {
                assert(final(self)@ =~= old(self)@ + pickle_int_bytes(v as int));
            }
        } else {
            self.out.push(0x8Au8);
            self.out.push(8u8);
            let bits: u64 = if v < 0 { (v as i128 + 0x1_0000_0000_0000_0000i128) as u64 } else { v as u64 };
            push_le64(&mut self.out, bits);
            proof {
                assert(final(self)@ =~= old(self)@ + pickle_int_bytes(v as int));
            }
        }
    }

    /// BINUNICODE with the UTF-8 bytes of `s`.
    pub fn string(&mut self, s: &str)
        ensures
            final(self)@ == old(self)@ + pickle_string_bytes(utf8_of(s)),
    {
        let b = s.as_bytes();
        self.out.push(0x58u8);
        let n: u64 = b.len() as u64;
        push_le32(&mut self.out, (n % 0x1_0000_0000) as u32);
        push_all(&mut self.out, b);
        proof {
            assert(final(self)@ =~= old(self)@ + pickle_string_bytes(utf8_of(s)));
        }
    }

    /// GLOBAL `module.name`.
    pub fn global(&mut self, module: &str, name: &str)
        ensures
            final(self)@ == old(self)@ + pickle_global_bytes(utf8_of(module), utf8_of(name)),
    {
        self.out.push(0x63u8);
        push_all(&mut self.out, module.as_bytes());
        self.out.push(0x0Au8);
        push_all(&mut self.out, name.as_bytes());
        self.out.push(0x0Au8);
        proof {
            assert(final(self)@ =~= old(self)@ + pickle_global_bytes(utf8_of(module), utf8_of(name)));
        }
    }

    /// REDUCE.
    pub fn reduce(&mut self)
        ensures
            final(self)@ == old(self)@.push(0x52u8),
    {
        self.out.push(0x52u8);
    }

    /// BINPERSID.
    pub fn binpersid(&mut self)
        ensures
            final(self)@ == old(self)@.push(0x51u8),
    {
        self.out.push(0x51u8);
    }
}

} // verus!
