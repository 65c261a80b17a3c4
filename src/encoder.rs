//! Values to bytes: the smallest form of every integer, embedded or
//! decimal-length strings, fixed-count or open containers.
use vstd::prelude::*;
use vstd::utf8::encode_utf8;
use crate::bigendian::{
    be_bytes, be_u16_bytes, be_u32_bytes, be_u64_bytes, lemma_pow256_values, twos, untwos,
};
use crate::consts::{
    COLON, DICT, DICT_FIXED_START, DIGIT_0, F32, F64, FALSE, I16, I32, I64, I8, LIST,
    LIST_FIXED_START, NONE, STR_FIXED_START, TERM, TRUE,
};
use crate::value::{entry_models, models, Model, Value};

verus! {

broadcast use vstd::std_specs::vec::axiom_vec_index_decreases;

/// The smallest encoding of the integer `v`, in the order of preference:
/// embedded negative, embedded non-negative, then 8, 16, 32 and 64 bits.
pub open spec fn enc_int(v: int) -> Seq<u8> {
    if -32 <= v <= -1 {
        seq![(69 - v) as u8]
    } else if 0 <= v <= 43 {
        seq![v as u8]
    } else if -0x80 <= v < 0x80 {
        seq![I8] + be_bytes(twos(v, 1), 1)
    } else if -0x8000 <= v < 0x8000 {
        seq![I16] + be_bytes(twos(v, 2), 2)
    } else if -0x8000_0000 <= v < 0x8000_0000 {
        seq![I32] + be_bytes(twos(v, 4), 4)
    } else {
        seq![I64] + be_bytes(twos(v, 8), 8)
    }
}

/// The ASCII decimal digits of `n`, without leading zeros.
pub open spec fn decimal(n: nat) -> Seq<u8>
    decreases n,
{
    if n < 10 {
        seq![(DIGIT_0 + n) as u8]
    } else {
        decimal(n / 10).push((DIGIT_0 + n % 10) as u8)
    }
}

/// The encoding of raw string bytes `b`: a header byte with the length
/// below 64, else the decimal length and a colon; then the bytes.
pub open spec fn enc_bytes(b: Seq<u8>) -> Seq<u8> {
    if b.len() < 64 {
        seq![(STR_FIXED_START + b.len()) as u8] + b
    } else {
        decimal(b.len()) + seq![COLON] + b
    }
}

pub open spec fn enc_str(s: Seq<char>) -> Seq<u8> {
    enc_bytes(encode_utf8(s))
}

/// The header of a list of `n` elements.
pub open spec fn list_header(n: nat) -> Seq<u8> {
    if n < 64 {
        seq![(LIST_FIXED_START + n) as u8]
    } else {
        seq![LIST]
    }
}

/// The header of a map of `n` entries.
pub open spec fn dict_header(n: nat) -> Seq<u8> {
    if n < 25 {
        seq![(DICT_FIXED_START + n) as u8]
    } else {
        seq![DICT]
    }
}

/// What closes a container of `n` items whose fixed form holds at most
/// `fixed - 1`: nothing, or the terminator.
pub open spec fn trailer(n: nat, fixed: nat) -> Seq<u8> {
    if n < fixed {
        Seq::empty()
    } else {
        seq![TERM]
    }
}

/// The encoding of a value.
pub open spec fn enc(m: Model) -> Seq<u8>
    decreases m,
{
    match m {
        Model::Null => seq![NONE],
        Model::Bool(b) => if b { seq![TRUE] } else { seq![FALSE] },
        Model::I64(n) => enc_int(n as int),
        Model::U64(n) => enc_int(untwos(n as nat, 8)),
        Model::F64(bits) => seq![F64] + be_bytes(bits as nat, 8),
        Model::Str(s) => enc_str(s),
        Model::List(items) => list_header(items.len()) + enc_list(items) + trailer(items.len(), 64),
        Model::Dict(d) => dict_header(d.len()) + enc_entries(d) + trailer(d.len(), 25),
    }
}

/// The encodings of `s`, one after another.
pub open spec fn enc_list(s: Seq<Model>) -> Seq<u8>
    decreases s,
{
    if s.len() == 0 {
        Seq::empty()
    } else {
        enc_list(s.drop_last()) + enc(s.last())
    }
}

/// Each entry of `d` as its key's encoding, then its value's.
pub open spec fn enc_entries(d: Seq<(Seq<char>, Model)>) -> Seq<u8>
    decreases d,
{
    if d.len() == 0 {
        Seq::empty()
    } else {
        enc_entries(d.drop_last()) + enc_str(d.last().0) + enc(d.last().1)
    }
}

pub proof fn lemma_models_len(s: Seq<Value>)
    ensures
        models(s).len() == s.len(),
    decreases s.len(),
{
    if s.len() > 0 {
        lemma_models_len(s.drop_last());
    }
}

pub proof fn lemma_entry_models_len(s: Seq<(String, Value)>)
    ensures
        entry_models(s).len() == s.len(),
    decreases s.len(),
{
    if s.len() > 0 {
        lemma_entry_models_len(s.drop_last());
    }
}

/// Errors of a byte sink that an encoding is written to. Encoding into
/// memory never fails.
#[derive(Debug, PartialEq, Eq, Clone, Copy)]
pub enum Error {
    UnexpectedEOF,
    IoError,
}

/// Appends encodings to an owned buffer.
pub struct Encoder {
    pub writer: Vec<u8>,
}

impl Encoder {
    pub fn new() -> (e: Encoder)
        ensures
            e.writer@ == Seq::<u8>::empty(),
    {
        Encoder { writer: Vec::new() }
    }

    fn push_bytes(&mut self, b: &[u8])
        ensures
            final(self).writer@ == old(self).writer@ + b@,
    {
        let mut i: usize = 0;
        while i < b.len()
            invariant
                0 <= i <= b@.len(),
                self.writer@ == old(self).writer@ + b@.subrange(0, i as int),
            decreases b@.len() - i,
        {
            self.writer.push(b[i]);
            i = i + 1;
            assert(self.writer@ =~= old(self).writer@ + b@.subrange(0, i as int));
        }
        assert(b@.subrange(0, b@.len() as int) =~= b@);
    }

    pub fn visit_bool(&mut self, v: bool)
        ensures
            final(self).writer@ == old(self).writer@ + enc(Model::Bool(v)),
    {
        let val = if v { TRUE } else { FALSE };
        self.writer.push(val);
        assert(self.writer@ =~= old(self).writer@ + enc(Model::Bool(v)));
    }

    pub fn visit_none(&mut self)
        ensures
            final(self).writer@ == old(self).writer@ + enc(Model::Null),
    {
        self.writer.push(NONE);
        assert(self.writer@ =~= old(self).writer@ + enc(Model::Null));
    }

    /// Writes `v` in the narrowest form that holds it.
    pub fn visit_i64(&mut self, v: i64)
        ensures
            final(self).writer@ == old(self).writer@ + enc_int(v as int),
    {
        proof {
            lemma_pow256_values();
        }
        if -32 <= v && v <= -1 {
            self.writer.push((69 - v) as u8);
        } else if 0 <= v && v <= 43 {
            self.writer.push(v as u8);
        } else if -0x80 <= v && v < 0x80 {
            self.writer.push(I8);
            let u: u8 = if v >= 0 { v as u8 } else { (v + 0x100) as u8 };
            self.writer.push(u);
            assert(be_bytes(twos(v as int, 1), 1) =~= seq![u]) by {
                reveal_with_fuel(be_bytes, 2);
            }
        } else if -0x8000 <= v && v < 0x8000 {
            self.writer.push(I16);
            let u: u16 = if v >= 0 { v as u16 } else { (v + 0x1_0000) as u16 };
            let b = be_u16_bytes(u);
            self.push_bytes(&b);
        } else if -0x8000_0000 <= v && v < 0x8000_0000 {
            self.writer.push(I32);
            let u: u32 = if v >= 0 { v as u32 } else { (v + 0x1_0000_0000) as u32 };
            let b = be_u32_bytes(u);
            self.push_bytes(&b);
        } else {
            self.writer.push(I64);
            let u: u64 = if v >= 0 { v as u64 } else { 0xffff_ffff_ffff_ffff - ((-(v + 1)) as u64) };
            let b = be_u64_bytes(u);
            self.push_bytes(&b);
        }
        assert(self.writer@ =~= old(self).writer@ + enc_int(v as int));
    }

    /// Writes `v` as the signed integer of the same bits.
    pub fn visit_u64(&mut self, v: u64)
        ensures
            final(self).writer@ == old(self).writer@ + enc(Model::U64(v)),
    {
        proof {
            lemma_pow256_values();
        }
        let s: i64 = if v <= 0x7fff_ffff_ffff_ffff {
            v as i64
        } else {
            -((0xffff_ffff_ffff_ffff - v) as i64) - 1
        };
        self.visit_i64(s);
    }

    /// Writes a single-precision float given by its bits.
    pub fn visit_f32(&mut self, bits: u32)
        ensures
            final(self).writer@ == old(self).writer@ + seq![F32] + be_bytes(bits as nat, 4),
    {
        self.writer.push(F32);
        let b = be_u32_bytes(bits);
        self.push_bytes(&b);
    }

    /// Writes a double-precision float given by its bits.
    pub fn visit_f64(&mut self, bits: u64)
        ensures
            final(self).writer@ == old(self).writer@ + enc(Model::F64(bits)),
    {
        self.writer.push(F64);
        let b = be_u64_bytes(bits);
        self.push_bytes(&b);
        assert(self.writer@ =~= old(self).writer@ + enc(Model::F64(bits)));
    }

    fn write_decimal(&mut self, n: usize)
        ensures
            final(self).writer@ == old(self).writer@ + decimal(n as nat),
        decreases n,
    {
        if n >= 10 {
            self.write_decimal(n / 10);
        }
        self.writer.push((DIGIT_0 as usize + n % 10) as u8);
        assert(self.writer@ =~= old(self).writer@ + decimal(n as nat));
    }

    pub fn visit_str(&mut self, v: &str)
        ensures
            final(self).writer@ == old(self).writer@ + enc_str(v@),
    {
        let b = v.as_bytes();
        let n = b.len();
        if n < 64 {
            self.writer.push(STR_FIXED_START + n as u8);
        } else {
            self.write_decimal(n);
            self.writer.push(COLON);
        }
        self.push_bytes(b);
        assert(self.writer@ =~= old(self).writer@ + enc_str(v@));
    }

    /// Starts a sequence of `len` elements, or of a count not known ahead
    /// when `len` is `None`. Returns whether the open form was chosen; the
    /// elements then need `end` after them.
    pub fn visit_seq(&mut self, len: Option<usize>) -> (open: bool)
        ensures
            open == !(len is Some && len->0 < 64),
            final(self).writer@ == old(self).writer@ + (if open {
                seq![LIST]
            } else {
                list_header(len->0 as nat)
            }),
    {
        match len {
            Some(n) if n < 64 => {
                self.writer.push(LIST_FIXED_START + n as u8);
                assert(self.writer@ =~= old(self).writer@ + list_header(n as nat));
                false
            },
            _ => {
                self.writer.push(LIST);
                assert(self.writer@ =~= old(self).writer@ + seq![LIST]);
                true
            },
        }
    }

    /// Starts a map of `len` entries, or of a count not known ahead when
    /// `len` is `None`. Returns whether the open form was chosen.
    pub fn visit_map(&mut self, len: Option<usize>) -> (open: bool)
        ensures
            open == !(len is Some && len->0 < 25),
            final(self).writer@ == old(self).writer@ + (if open {
                seq![DICT]
            } else {
                dict_header(len->0 as nat)
            }),
    {
        match len {
            Some(n) if n < 25 => {
                self.writer.push(DICT_FIXED_START + n as u8);
                assert(self.writer@ =~= old(self).writer@ + dict_header(n as nat));
                false
            },
            _ => {
                self.writer.push(DICT);
                assert(self.writer@ =~= old(self).writer@ + seq![DICT]);
                true
            },
        }
    }

    /// Closes a sequence or map: the terminator when it was open.
    pub fn end(&mut self, open: bool)
        ensures
            final(self).writer@ == old(self).writer@ + (if open {
                seq![TERM]
            } else {
                Seq::empty()
            }),
    {
        if open {
            self.writer.push(TERM);
        }
        assert(self.writer@ =~= old(self).writer@ + (if open {
            seq![TERM]
        } else {
            Seq::empty()
        }));
    }

    /// Appends the encoding of `v`.
    pub fn visit_value(&mut self, v: &Value)
        ensures
            final(self).writer@ == old(self).writer@ + enc(v.model()),
        decreases v,
    {
        match v {
            Value::Null => self.visit_none(),
            Value::Bool(b) => self.visit_bool(*b),
            Value::I64(n) => self.visit_i64(*n),
            Value::U64(n) => self.visit_u64(*n),
            Value::F64(bits) => self.visit_f64(*bits),
            Value::String(s) => self.visit_str(s.as_str()),
            Value::List(items) => {
                let ghost ms = models(items@);
                proof {
                    lemma_models_len(items@);
                }
                let open = self.visit_seq(Some(items.len()));
                let ghost mid = self.writer@;
                let mut i: usize = 0;
                while i < items.len()
                    invariant
                        0 <= i <= items@.len(),
                        ms == models(items@),
                        *v == Value::List(*items),
                        self.writer@ == mid + enc_list(models(items@.subrange(0, i as int))),
                    decreases items@.len() - i,
                {
                    proof {
                        assert(decreases_to!(*v => v->List_0));
                        assert(decreases_to!(*items => items[i as int]));
                        assert(decreases_to!(*v => items[i as int]));
                    }
                    self.visit_value(&items[i]);
                    proof {
                        let s = items@.subrange(0, i + 1);
                        assert(s.drop_last() =~= items@.subrange(0, i as int));
                        lemma_models_len(s);
                        assert(models(s).drop_last() =~= models(items@.subrange(0, i as int)));
                    }
                    i = i + 1;
                    assert(self.writer@ =~= mid + enc_list(models(items@.subrange(0, i as int))));
                }
                assert(items@.subrange(0, items@.len() as int) =~= items@);
                self.end(open);
                assert(self.writer@ =~= old(self).writer@ + enc(v.model()));
            },
            Value::Dict(entries) => {
                proof {
                    lemma_entry_models_len(entries@);
                }
                let open = self.visit_map(Some(entries.len()));
                let ghost mid = self.writer@;
                let mut i: usize = 0;
                while i < entries.len()
                    invariant
                        0 <= i <= entries@.len(),
                        *v == Value::Dict(*entries),
                        self.writer@ == mid + enc_entries(entry_models(entries@.subrange(0, i as int))),
                    decreases entries@.len() - i,
                {
                    let entry = &entries[i];
                    self.visit_str(entry.0.as_str());
                    proof {
                        assert(decreases_to!(*v => v->Dict_0));
                        assert(decreases_to!(*entries => entries[i as int]));
                        assert(decreases_to!(entries[i as int] => entries[i as int].1));
                        assert(decreases_to!(*v => entries[i as int].1));
                    }
                    self.visit_value(&entry.1);
                    proof {
                        let s = entries@.subrange(0, i + 1);
                        assert(s.drop_last() =~= entries@.subrange(0, i as int));
                        lemma_entry_models_len(s);
                        assert(entry_models(s).drop_last() =~= entry_models(entries@.subrange(0, i as int)));
                    }
                    i = i + 1;
                    assert(self.writer@ =~= mid + enc_entries(entry_models(entries@.subrange(0, i as int))));
                }
                assert(entries@.subrange(0, entries@.len() as int) =~= entries@);
                self.end(open);
                assert(self.writer@ =~= old(self).writer@ + enc(v.model()));
            },
        }
    }
}

/// The bytes of `v`. Encoding into memory always succeeds.
pub fn encode(v: &Value) -> (r: Result<Vec<u8>, Error>)
    ensures
        r is Ok,
        r->Ok_0@ == enc(v.model()),
{
    let mut encoder = Encoder::new();
    encoder.visit_value(v);
    assert(encoder.writer@ =~= enc(v.model()));
    Ok(encoder.writer)
}

} // verus!
