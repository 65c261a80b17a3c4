//! Bytes to values: a cursor with one byte of lookahead, dispatching on the
//! leading byte of each value.
use vstd::prelude::*;
use vstd::slice::slice_to_vec;
use vstd::utf8::{decode_utf8, valid_utf8};
use crate::bigendian::{be_value, lemma_pow256_values, read_be_u16, read_be_u32, read_be_u64, untwos};
use crate::consts::{
    is_digit, COLON, DICT, DICT_FIXED_END, DICT_FIXED_START, DIGIT_0, DIGIT_9, F32, F64, FALSE, I16,
    I32, I64, I8, INT_NEG_FIXED_END, INT_NEG_FIXED_START, INT_POS_FIXED_END, LIST, LIST_FIXED_START,
    NONE, STR_FIXED_END, STR_FIXED_START, TERM, TRUE,
};
use crate::spec_decode::{
    colon_at, digit_string, digits_fit, digits_value, parse, parse_entries, parse_items,
    decode_bool_spec, decode_spec, parse_key, parse_open_entries, parse_open_items, required, string_of, token, Error, Tok,
};
use crate::value::{dict_from, dict_insert, entry_models, models, Model, Value};
use crate::float::widen_f32_bits;

verus! {

/// Relies on `String::from_utf8`: it succeeds exactly on valid UTF-8, and
/// then holds the characters that the bytes encode.
#[verifier::external_body]
fn utf8_string(b: Vec<u8>) -> (r: Option<String>)
    ensures
        r is Some <==> valid_utf8(b@),
        r is Some ==> r->0@ == decode_utf8(b@),
{
    String::from_utf8(b).ok()
}

pub proof fn lemma_colon_at(b: Seq<u8>, i: int, k: int)
    requires
        0 <= i <= k < b.len(),
        b[k] == COLON,
        forall|j: int| i <= j < k ==> b[j] != COLON,
    ensures
        colon_at(b, i) == k,
    decreases k - i,
{
    if i < k {
        lemma_colon_at(b, i + 1, k);
    }
}

proof fn lemma_no_colon(b: Seq<u8>, i: int)
    requires
        0 <= i <= b.len(),
        forall|j: int| i <= j < b.len() ==> b[j] != COLON,
    ensures
        colon_at(b, i) == b.len(),
    decreases b.len() - i,
{
    if i < b.len() {
        lemma_no_colon(b, i + 1);
    }
}

proof fn lemma_fit_prefix(d: Seq<u8>, j: int)
    requires
        digits_fit(d),
        0 <= j <= d.len(),
    ensures
        digits_fit(d.subrange(0, j)),
    decreases d.len(),
{
    if j < d.len() {
        lemma_fit_prefix(d.drop_last(), j);
        assert(d.drop_last().subrange(0, j) =~= d.subrange(0, j));
    } else {
        assert(d.subrange(0, j) =~= d);
    }
}

/// The number that the decimal digits `d` spell, or `None` where `d` is
/// empty, holds another byte, or spells a number above `usize::MAX`.
pub fn parse_decimal(d: &Vec<u8>) -> (r: Option<usize>)
    ensures
        r is Some <==> d@.len() > 0 && digits_fit(d@),
        r is Some ==> r->0 == digits_value(d@),
{
    if d.len() == 0 {
        return None;
    }
    let mut acc: usize = 0;
    let mut i: usize = 0;
    while i < d.len()
        invariant
            0 <= i <= d@.len(),
            digits_fit(d@.subrange(0, i as int)),
            acc == digits_value(d@.subrange(0, i as int)),
        decreases d@.len() - i,
    {
        let b = d[i];
        let ghost s = d@.subrange(0, i + 1 as int);
        assert(s.drop_last() =~= d@.subrange(0, i as int));
        if b < DIGIT_0 || b > DIGIT_9 {
            proof {
                if digits_fit(d@) {
                    lemma_fit_prefix(d@, i + 1);
                }
            }
            return None;
        }
        let dig = (b - DIGIT_0) as usize;
        if acc > (usize::MAX - dig) / 10 {
            proof {
                assert(acc * 10 + dig > usize::MAX) by (nonlinear_arith)
                    requires
                        acc > (usize::MAX - dig) / 10,
                        dig <= 9,
                ;
                if digits_fit(d@) {
                    lemma_fit_prefix(d@, i + 1);
                }
            }
            return None;
        }
        proof {
            assert(acc * 10 + dig <= usize::MAX) by (nonlinear_arith)
                requires
                    acc <= (usize::MAX - dig) / 10,
                    dig <= 9,
            ;
        }
        acc = acc * 10 + dig;
        i = i + 1;
    }
    assert(d@.subrange(0, d@.len() as int) =~= d@);
    Some(acc)
}

/// A token as the decoder hands it out; see `Tok`.
#[derive(Debug)]
pub enum Token {
    Null,
    Bool(bool),
    Int(i64),
    F32(u32),
    F64(u64),
    Str(String),
    OpenList,
    FixedList(u8),
    OpenMap,
    FixedMap(u8),
}

impl Token {
    pub open spec fn tok(&self) -> Tok {
        match self {
            Token::Null => Tok::Null,
            Token::Bool(b) => Tok::Bool(*b),
            Token::Int(n) => Tok::Int(*n as int),
            Token::F32(b) => Tok::F32(*b),
            Token::F64(b) => Tok::F64(*b),
            Token::Str(s) => Tok::Str(s@),
            Token::OpenList => Tok::OpenList,
            Token::FixedList(n) => Tok::FixedList(*n as nat),
            Token::OpenMap => Tok::OpenMap,
            Token::FixedMap(n) => Tok::FixedMap(*n as nat),
        }
    }
}

proof fn lemma_shift(b: Seq<u8>, n: int)
    requires
        0 <= n,
        n + 1 <= b.len(),
    ensures
        b.subrange(1, n + 1) == b.drop_first().subrange(0, n),
        b.subrange(n + 1, b.len() as int) == b.drop_first().subrange(n, b.drop_first().len() as int),
{
    assert(b.subrange(1, n + 1) =~= b.drop_first().subrange(0, n));
    assert(b.subrange(n + 1, b.len() as int) =~= b.drop_first().subrange(n, b.drop_first().len() as int));
}

/// The `n`-byte payload at the front of `r`, as `payload` sees it behind a
/// header byte.
pub open spec fn payload_after(r: Seq<u8>, n: nat) -> Result<(nat, Seq<u8>), Error> {
    if r.len() < n {
        Err(Error::UnexpectedEOF)
    } else {
        Ok((be_value(r.subrange(0, n as int)), r.subrange(n as int, r.len() as int)))
    }
}

proof fn lemma_token_shrinks(b: Seq<u8>)
    ensures
        token(b) matches Ok((_, r)) ==> r.len() < b.len(),
        token(b) == Err::<(Tok, Seq<u8>), Error>(Error::EndOfStruct) ==> b.len() > 0 && b[0] == TERM,
{
    reveal(token);
    if b.len() > 0 && is_digit(b[0]) {
        lemma_colon_bound(b, 0);
    }
}

proof fn lemma_colon_bound(b: Seq<u8>, i: int)
    requires
        0 <= i <= b.len(),
    ensures
        i <= colon_at(b, i) <= b.len(),
    decreases b.len() - i,
{
    if i < b.len() {
        lemma_colon_bound(b, i + 1);
    }
}

/// `xs` put before the items of a successful parse.
pub open spec fn prepend<T>(xs: Seq<T>, res: Result<(Seq<T>, Seq<u8>), Error>) -> Result<(Seq<T>, Seq<u8>), Error> {
    match res {
        Ok((ys, r)) => Ok((xs + ys, r)),
        Err(e) => Err(e),
    }
}

proof fn lemma_prepend_push<T>(xs: Seq<T>, x: T, res: Result<(Seq<T>, Seq<u8>), Error>)
    ensures
        prepend(xs, prepend(seq![x], res)) == prepend(xs.push(x), res),
{
    if let Ok((ys, r)) = res {
        assert(xs + (seq![x] + ys) =~= xs.push(x) + ys);
    }
}

proof fn lemma_items_no_eos(b: Seq<u8>, n: nat)
    ensures
        parse_items(b, n) != Err::<(Seq<Model>, Seq<u8>), Error>(Error::EndOfStruct),
        parse_entries(b, n) != Err::<(Seq<(Seq<char>, Model)>, Seq<u8>), Error>(Error::EndOfStruct),
    decreases n,
{
    if n > 0 {
        lemma_items_no_eos(b, (n - 1) as nat);
    }
}

proof fn lemma_open_items_no_eos(b: Seq<u8>)
    ensures
        parse_open_items(b) != Err::<(Seq<Model>, Seq<u8>), Error>(Error::EndOfStruct),
    decreases b.len(),
{
    if let Ok((x, r)) = parse(b) {
        if r.len() < b.len() {
            lemma_open_items_no_eos(r);
        }
    }
}

proof fn lemma_open_entries_no_eos(b: Seq<u8>)
    ensures
        parse_open_entries(b) != Err::<(Seq<(Seq<char>, Model)>, Seq<u8>), Error>(Error::EndOfStruct),
    decreases b.len(),
{
    if let Ok((k, r)) = parse_key(b) {
        if r.len() < b.len() {
            if let Ok((v, r2)) = required(parse(r)) {
                if r2.len() < b.len() {
                    lemma_open_entries_no_eos(r2);
                }
            }
        }
    }
}

proof fn lemma_parse_end(b: Seq<u8>)
    ensures
        parse(b) == Err::<(Model, Seq<u8>), Error>(Error::EndOfStruct) ==> b.len() > 0 && b[0] == TERM,
{
    lemma_token_shrinks(b);
    if let Ok((t, r)) = token(b) {
        lemma_items_no_eos(r, 0);
        lemma_open_items_no_eos(r);
        lemma_open_entries_no_eos(r);
        match t {
            Tok::FixedList(n) => lemma_items_no_eos(r, n),
            Tok::FixedMap(n) => lemma_items_no_eos(r, n),
            _ => {},
        }
    }
}

proof fn lemma_items_err(b: Seq<u8>, i: nat, n: nat)
    requires
        i <= n,
        parse_items(b, i) is Err,
    ensures
        parse_items(b, n) == parse_items(b, i),
    decreases n,
{
    if n > i {
        lemma_items_err(b, i, (n - 1) as nat);
    }
}

proof fn lemma_entries_err(b: Seq<u8>, i: nat, n: nat)
    requires
        i <= n,
        parse_entries(b, i) is Err,
    ensures
        parse_entries(b, n) == parse_entries(b, i),
    decreases n,
{
    if n > i {
        lemma_entries_err(b, i, (n - 1) as nat);
    }
}

/// A cursor over an input, with at most one byte of lookahead.
pub struct Decoder {
    data: Vec<u8>,
    pos: usize,
    peeked: Option<u8>,
}

/// Counts the elements of a container whose count came in its header.
pub struct FixedVisitor {
    pub count: u8,
    pub len: u8,
}

impl Decoder {
    /// The bytes not yet consumed: the lookahead byte, if any, then the
    /// rest of the input.
    pub closed spec fn rest(&self) -> Seq<u8> {
        let tail = self.data@.subrange(self.pos as int, self.data@.len() as int);
        match self.peeked {
            Some(b) => seq![b] + tail,
            None => tail,
        }
    }

    pub closed spec fn wf(&self) -> bool {
        self.pos <= self.data@.len()
    }

    pub fn new(bytes: &[u8]) -> (d: Decoder)
        ensures
            d.wf(),
            d.rest() == bytes@,
    {
        let d = Decoder { data: slice_to_vec(bytes), pos: 0, peeked: None };
        assert(d.data@.subrange(0, d.data@.len() as int) =~= bytes@);
        d
    }

    /// Consumes the next byte.
    pub fn next(&mut self) -> (r: Result<u8, Error>)
        requires
            old(self).wf(),
        ensures
            final(self).wf(),
            old(self).rest().len() > 0 ==> r == Ok::<u8, Error>(old(self).rest()[0])
                && final(self).rest() == old(self).rest().drop_first(),
            old(self).rest().len() == 0 ==> r == Err::<u8, Error>(Error::UnexpectedEOF)
                && final(self).rest() == old(self).rest(),
    {
        match self.peeked.take() {
            Some(byte) => {
                assert(self.rest() =~= old(self).rest().drop_first());
                Ok(byte)
            },
            None => {
                if self.pos < self.data.len() {
                    let byte = self.data[self.pos];
                    self.pos = self.pos + 1;
                    assert(self.rest() =~= old(self).rest().drop_first());
                    Ok(byte)
                } else {
                    Err(Error::UnexpectedEOF)
                }
            },
        }
    }

    /// The next byte, which stays unconsumed.
    pub fn peek(&mut self) -> (r: Result<u8, Error>)
        requires
            old(self).wf(),
        ensures
            final(self).wf(),
            final(self).rest() == old(self).rest(),
            old(self).rest().len() > 0 ==> r == Ok::<u8, Error>(old(self).rest()[0]),
            old(self).rest().len() == 0 ==> r == Err::<u8, Error>(Error::UnexpectedEOF),
    {
        match self.peeked {
            Some(byte) => Ok(byte),
            None => {
                if self.pos < self.data.len() {
                    let byte = self.data[self.pos];
                    self.pos = self.pos + 1;
                    self.peeked = Some(byte);
                    assert(self.rest() =~= old(self).rest());
                    Ok(byte)
                } else {
                    Err(Error::UnexpectedEOF)
                }
            },
        }
    }

    /// Consumes bytes up to and including the first on which `pred` is
    /// false, and returns those before it.
    pub fn take_while<P: Fn(u8) -> bool>(&mut self, pred: P) -> (r: Result<Vec<u8>, Error>)
        requires
            old(self).wf(),
            forall|b: u8| pred.requires((b,)),
        ensures
            final(self).wf(),
            r matches Ok(v) ==> {
                &&& v@.len() < old(self).rest().len()
                &&& v@ == old(self).rest().subrange(0, v@.len() as int)
                &&& forall|i: int| 0 <= i < v@.len() ==> pred.ensures((v@[i],), true)
                &&& pred.ensures((old(self).rest()[v@.len() as int],), false)
                &&& final(self).rest() == old(self).rest().subrange(v@.len() + 1 as int, old(self).rest().len() as int)
            },
            r matches Err(e) ==> {
                &&& e == Error::UnexpectedEOF
                &&& forall|i: int| 0 <= i < old(self).rest().len() ==> pred.ensures((#[trigger] old(self).rest()[i],), true)
            },
    {
        let mut buff: Vec<u8> = Vec::new();
        let ghost start = self.rest();
        loop
            invariant
                self.wf(),
                forall|b: u8| pred.requires((b,)),
                buff@.len() <= start.len(),
                buff@ == start.subrange(0, buff@.len() as int),
                self.rest() == start.subrange(buff@.len() as int, start.len() as int),
                forall|i: int| 0 <= i < buff@.len() ==> pred.ensures((buff@[i],), true),
                start == old(self).rest(),
            decreases self.rest().len(),
        {
            match self.next() {
                Ok(byte) => {
                    if pred(byte) {
                        buff.push(byte);
                        assert(buff@ =~= start.subrange(0, buff@.len() as int));
                        assert(self.rest() =~= start.subrange(buff@.len() as int, start.len() as int));
                    } else {
                        assert(self.rest() =~= start.subrange(buff@.len() + 1 as int, start.len() as int));
                        return Ok(buff);
                    }
                },
                Err(err) => {
                    assert forall|i: int| 0 <= i < start.len() implies pred.ensures((#[trigger] start[i],), true) by {
                        assert(buff@[i] == start[i]);
                    }
                    return Err(err);
                },
            }
        }
    }

    /// Consumes `n` bytes and returns them.
    pub fn take(&mut self, n: usize) -> (r: Result<Vec<u8>, Error>)
        requires
            old(self).wf(),
        ensures
            final(self).wf(),
            old(self).rest().len() >= n ==> (r matches Ok(v) && v@ == old(self).rest().subrange(0, n as int)
                && final(self).rest() == old(self).rest().subrange(n as int, old(self).rest().len() as int)),
            old(self).rest().len() < n ==> r == Err::<Vec<u8>, Error>(Error::UnexpectedEOF),
    {
        let mut buff: Vec<u8> = Vec::new();
        let ghost start = self.rest();
        let mut i: usize = 0;
        while i < n
            invariant
                self.wf(),
                0 <= i <= n,
                start == old(self).rest(),
                i <= start.len(),
                buff@ == start.subrange(0, i as int),
                self.rest() == start.subrange(i as int, start.len() as int),
            decreases n - i,
        {
            match self.next() {
                Ok(byte) => {
                    buff.push(byte);
                    i = i + 1;
                    assert(buff@ =~= start.subrange(0, i as int));
                    assert(self.rest() =~= start.subrange(i as int, start.len() as int));
                },
                Err(err) => {
                    return Err(err);
                },
            }
        }
        Ok(buff)
    }

    /// A string in the decimal-length form at the front of the input:
    /// ASCII digits, a colon, then that many bytes of UTF-8.
    pub fn parse_string(&mut self) -> (r: Result<String, Error>)
        requires
            old(self).wf(),
        ensures
            final(self).wf(),
            match digit_string(old(self).rest()) {
                Ok((Tok::Str(s), rest)) => (r matches Ok(v) && v@ == s && final(self).rest() == rest),
                Ok(_) => false,
                Err(e) => r == Err::<String, Error>(e),
            },
    {
        let ghost b = self.rest();
        let digits = match self.take_while(|c: u8| -> (z: bool) ensures z == (c != COLON) { c != COLON }) {
            Ok(v) => v,
            Err(err) => {
                proof {
                    lemma_no_colon(b, 0);
                }
                return Err(err);
            },
        };
        proof {
            assert forall|j: int| 0 <= j < digits@.len() implies b[j] != COLON by {
                assert(digits@[j] == b[j]);
            }
            lemma_colon_at(b, 0, digits@.len() as int);
        }
        let num = parse_decimal(&digits);
        let numstr = utf8_string(digits);
        if numstr.is_none() {
            return Err(Error::FromUtf8Error);
        }
        let n = match num {
            Some(n) => n,
            None => {
                return Err(Error::ParseIntError);
            },
        };
        let ghost after = self.rest();
        proof {
            let k = colon_at(b, 0);
            assert(after == b.subrange(k + 1, b.len() as int));
        }
        let bytes = match self.take(n) {
            Ok(v) => v,
            Err(err) => {
                return Err(err);
            },
        };
        match utf8_string(bytes) {
            Some(s) => Ok(s),
            None => Err(Error::FromUtf8Error),
        }
    }

    /// A string whose length is embedded in its header byte `byte`, which
    /// is at the front of the input.
    pub fn parse_embed_string(&mut self, byte: u8) -> (r: Result<String, Error>)
        requires
            old(self).wf(),
            STR_FIXED_START <= byte <= STR_FIXED_END,
            old(self).rest().len() > 0,
            old(self).rest()[0] == byte,
        ensures
            final(self).wf(),
            match string_of(old(self).rest().drop_first(), (byte - STR_FIXED_START) as nat) {
                Ok((Tok::Str(s), rest)) => (r matches Ok(v) && v@ == s && final(self).rest() == rest),
                Ok(_) => false,
                Err(e) => r == Err::<String, Error>(e),
            },
    {
        let len = byte - STR_FIXED_START;
        let _ = self.next();
        let bytes = match self.take(len as usize) {
            Ok(v) => v,
            Err(err) => {
                return Err(err);
            },
        };
        match utf8_string(bytes) {
            Some(s) => Ok(s),
            None => Err(Error::FromUtf8Error),
        }
    }

    /// An 8-bit signed integer at the front of the input.
    pub fn parse_i8(&mut self) -> (r: Result<i8, Error>)
        requires
            old(self).wf(),
        ensures
            final(self).wf(),
            match payload_after(old(self).rest(), 1) {
                Ok((u, rest)) => (r matches Ok(v) && v as int == untwos(u, 1) && final(self).rest() == rest),
                Err(e) => r == Err::<i8, Error>(e),
            },
    {
        proof {
            lemma_pow256_values();
            reveal_with_fuel(be_value, 2);
        }
        let ghost b = self.rest();
        match self.next() {
            Ok(u) => {
                assert(b.subrange(0, 1).drop_last() =~= Seq::<u8>::empty());
                assert(b.subrange(1, b.len() as int) =~= b.drop_first());
                if u < 0x80 {
                    Ok(u as i8)
                } else {
                    Ok((u as i16 - 0x100) as i8)
                }
            },
            Err(err) => Err(err),
        }
    }

    /// A big-endian 16-bit signed integer at the front of the input.
    pub fn parse_i16(&mut self) -> (r: Result<i16, Error>)
        requires
            old(self).wf(),
        ensures
            final(self).wf(),
            match payload_after(old(self).rest(), 2) {
                Ok((u, rest)) => (r matches Ok(v) && v as int == untwos(u, 2) && final(self).rest() == rest),
                Err(e) => r == Err::<i16, Error>(e),
            },
    {
        proof {
            lemma_pow256_values();
        }
        match self.take(2) {
            Ok(bytes) => {
                assert(bytes@.subrange(0, 2) =~= bytes@);
                let u = read_be_u16(bytes.as_slice());
                if u < 0x8000 {
                    Ok(u as i16)
                } else {
                    Ok((u as i32 - 0x1_0000) as i16)
                }
            },
            Err(err) => Err(err),
        }
    }

    /// A big-endian 32-bit signed integer at the front of the input.
    pub fn parse_i32(&mut self) -> (r: Result<i32, Error>)
        requires
            old(self).wf(),
        ensures
            final(self).wf(),
            match payload_after(old(self).rest(), 4) {
                Ok((u, rest)) => (r matches Ok(v) && v as int == untwos(u, 4) && final(self).rest() == rest),
                Err(e) => r == Err::<i32, Error>(e),
            },
    {
        proof {
            lemma_pow256_values();
        }
        match self.take(4) {
            Ok(bytes) => {
                assert(bytes@.subrange(0, 4) =~= bytes@);
                let u = read_be_u32(bytes.as_slice());
                if u < 0x8000_0000 {
                    Ok(u as i32)
                } else {
                    Ok((u as i64 - 0x1_0000_0000) as i32)
                }
            },
            Err(err) => Err(err),
        }
    }

    /// A big-endian 64-bit signed integer at the front of the input.
    pub fn parse_i64(&mut self) -> (r: Result<i64, Error>)
        requires
            old(self).wf(),
        ensures
            final(self).wf(),
            match payload_after(old(self).rest(), 8) {
                Ok((u, rest)) => (r matches Ok(v) && v as int == untwos(u, 8) && final(self).rest() == rest),
                Err(e) => r == Err::<i64, Error>(e),
            },
    {
        proof {
            lemma_pow256_values();
        }
        match self.take(8) {
            Ok(bytes) => {
                assert(bytes@.subrange(0, 8) =~= bytes@);
                let u = read_be_u64(bytes.as_slice());
                if u < 0x8000_0000_0000_0000 {
                    Ok(u as i64)
                } else {
                    Ok(-((0xffff_ffff_ffff_ffff - u) as i64) - 1)
                }
            },
            Err(err) => Err(err),
        }
    }

    /// The bits of a big-endian single-precision float at the front of the
    /// input.
    pub fn parse_f32(&mut self) -> (r: Result<u32, Error>)
        requires
            old(self).wf(),
        ensures
            final(self).wf(),
            match payload_after(old(self).rest(), 4) {
                Ok((u, rest)) => (r matches Ok(v) && v as nat == u && final(self).rest() == rest),
                Err(e) => r == Err::<u32, Error>(e),
            },
    {
        let ghost b = self.rest();
        let res = self.take(4);
        match res {
            Ok(bytes) => {
                assert(b.len() >= 4);
                assert(bytes@ == b.subrange(0, 4));
                assert(bytes@.subrange(0, 4) =~= bytes@);
                Ok(read_be_u32(bytes.as_slice()))
            },
            Err(err) => {
                assert(b.len() < 4);
                Err(err)
            },
        }
    }

    /// The bits of a big-endian double-precision float at the front of the
    /// input.
    pub fn parse_f64(&mut self) -> (r: Result<u64, Error>)
        requires
            old(self).wf(),
        ensures
            final(self).wf(),
            match payload_after(old(self).rest(), 8) {
                Ok((u, rest)) => (r matches Ok(v) && v as nat == u && final(self).rest() == rest),
                Err(e) => r == Err::<u64, Error>(e),
            },
    {
        match self.take(8) {
            Ok(bytes) => {
                assert(bytes@.subrange(0, 8) =~= bytes@);
                Ok(read_be_u64(bytes.as_slice()))
            },
            Err(err) => Err(err),
        }
    }

    /// The integer embedded in a typecode of 0 to 43.
    pub fn parse_embed_pos(&self, byte: u8) -> (r: Result<i8, Error>)
        requires
            byte <= INT_POS_FIXED_END,
        ensures
            r == Ok::<i8, Error>(byte as i8),
    {
        Ok(byte as i8)
    }

    /// The integer embedded in a typecode of 70 to 101: 70 is -1.
    pub fn parse_embed_neg(&self, byte: u8) -> (r: Result<i8, Error>)
        requires
            INT_NEG_FIXED_START <= byte <= INT_NEG_FIXED_END,
        ensures
            r == Ok::<i8, Error>((69 - byte) as i8),
    {
        Ok(-((byte - INT_NEG_FIXED_START + 1) as i8))
    }

    /// Consumes the header byte of a container of `len` elements whose
    /// count came in that header, and counts them from zero.
    pub fn build_fixed_visitor(&mut self, len: u8) -> (v: FixedVisitor)
        requires
            old(self).wf(),
            old(self).rest().len() > 0,
        ensures
            final(self).wf(),
            final(self).rest() == old(self).rest().drop_first(),
            v.count == 0,
            v.len == len,
    {
        let _ = self.next();
        FixedVisitor { count: 0, len: len }
    }

    /// Consumes the terminator that closes an open container.
    pub fn end(&mut self) -> (r: Result<(), Error>)
        requires
            old(self).wf(),
        ensures
            final(self).wf(),
            old(self).rest().len() == 0 ==> r == Err::<(), Error>(Error::UnexpectedEOF),
            old(self).rest().len() > 0 ==> final(self).rest() == old(self).rest().drop_first() && if old(
                self,
            ).rest()[0] == TERM {
                r == Ok::<(), Error>(())
            } else {
                r == Err::<(), Error>(Error::Syntax)
            },
    {
        match self.next() {
            Ok(byte) => if byte == TERM {
                Ok(())
            } else {
                Err(Error::Syntax)
            },
            Err(err) => Err(err),
        }
    }

    /// Reads the next token: a scalar with its payload, or the header of a
    /// container. The terminator is left unconsumed and reported as
    /// `EndOfStruct`.
    pub fn visit(&mut self) -> (r: Result<Token, Error>)
        requires
            old(self).wf(),
        ensures
            final(self).wf(),
            match token(old(self).rest()) {
                Ok((t, rest)) => (r matches Ok(tk) && tk.tok() == t && final(self).rest() == rest),
                Err(e) => (r matches Err(e2) && e2 == e) && (e == Error::EndOfStruct ==> final(self).rest() == old(self).rest()),
            },
    {
        reveal(token);
        let ghost b = self.rest();
        let byte = match self.peek() {
            Ok(byte) => byte,
            Err(err) => {
                return Err(err);
            },
        };
        if DIGIT_0 <= byte && byte <= DIGIT_9 {
            return match self.parse_string() {
                Ok(s) => Ok(Token::Str(s)),
                Err(err) => Err(err),
            };
        }
        if STR_FIXED_START <= byte && byte <= STR_FIXED_END {
            return match self.parse_embed_string(byte) {
                Ok(s) => Ok(Token::Str(s)),
                Err(err) => Err(err),
            };
        }
        if byte == TERM {
            return Err(Error::EndOfStruct);
        }
        let _ = self.next();
        proof {
            lemma_pow256_values();
            if b.len() >= 9 {
                lemma_shift(b, 8);
            }
            if b.len() >= 5 {
                lemma_shift(b, 4);
            }
            if b.len() >= 3 {
                lemma_shift(b, 2);
            }
            if b.len() >= 2 {
                lemma_shift(b, 1);
            }
        }
        if byte == I8 {
            match self.parse_i8() {
                Ok(n) => Ok(Token::Int(n as i64)),
                Err(err) => Err(err),
            }
        } else if byte == I16 {
            match self.parse_i16() {
                Ok(n) => Ok(Token::Int(n as i64)),
                Err(err) => Err(err),
            }
        } else if byte == I32 {
            match self.parse_i32() {
                Ok(n) => Ok(Token::Int(n as i64)),
                Err(err) => Err(err),
            }
        } else if byte == I64 {
            match self.parse_i64() {
                Ok(n) => Ok(Token::Int(n)),
                Err(err) => Err(err),
            }
        } else if byte == F32 {
            match self.parse_f32() {
                Ok(bits) => Ok(Token::F32(bits)),
                Err(err) => Err(err),
            }
        } else if byte == F64 {
            match self.parse_f64() {
                Ok(bits) => Ok(Token::F64(bits)),
                Err(err) => Err(err),
            }
        } else if byte <= INT_POS_FIXED_END {
            match self.parse_embed_pos(byte) {
                Ok(n) => Ok(Token::Int(n as i64)),
                Err(err) => Err(err),
            }
        } else if INT_NEG_FIXED_START <= byte && byte <= INT_NEG_FIXED_END {
            match self.parse_embed_neg(byte) {
                Ok(n) => Ok(Token::Int(n as i64)),
                Err(err) => Err(err),
            }
        } else if byte == TRUE {
            Ok(Token::Bool(true))
        } else if byte == FALSE {
            Ok(Token::Bool(false))
        } else if byte == NONE {
            Ok(Token::Null)
        } else if byte == LIST {
            Ok(Token::OpenList)
        } else if byte >= LIST_FIXED_START {
            Ok(Token::FixedList(byte - LIST_FIXED_START))
        } else if byte == DICT {
            Ok(Token::OpenMap)
        } else if DICT_FIXED_START <= byte && byte <= DICT_FIXED_END {
            Ok(Token::FixedMap(byte - DICT_FIXED_START))
        } else {
            Err(Error::Syntax)
        }
    }

    /// Decodes the next value, building maps as sorted maps do: a later
    /// entry of a key replaces an earlier one.
    pub fn decode_value(&mut self) -> (r: Result<Value, Error>)
        requires
            old(self).wf(),
        ensures
            final(self).wf(),
            match parse(old(self).rest()) {
                Ok((m, rest)) => (r matches Ok(v) && v.model() == m && final(self).rest() == rest),
                Err(e) => r == Err::<Value, Error>(e) && (e == Error::EndOfStruct ==> final(self).rest() == old(self).rest()),
            },
            r is Ok ==> final(self).rest().len() < old(self).rest().len(),
        decreases old(self).rest().len(), 0nat,
    {
        reveal(token);
        let ghost b = self.rest();
        proof {
            lemma_token_shrinks(b);
        }
        let tk = match self.visit() {
            Ok(t) => t,
            Err(err) => {
                return Err(err);
            },
        };
        let ghost r = self.rest();
        assert(token(b) == Ok::<(Tok, Seq<u8>), Error>((tk.tok(), r)));
        proof {
            lemma_parse_end(b);
        }
        match tk {
            Token::Null => Ok(Value::Null),
            Token::Bool(v) => Ok(Value::Bool(v)),
            Token::Int(n) => Ok(Value::I64(n)),
            Token::F32(bits) => Ok(Value::F64(widen_f32_bits(bits))),
            Token::F64(bits) => Ok(Value::F64(bits)),
            Token::Str(s) => Ok(Value::String(s)),
            Token::FixedList(n) => match self.decode_items(n) {
                Ok(items) => Ok(Value::List(items)),
                Err(err) => Err(err),
            },
            Token::OpenList => match self.decode_open_items() {
                Ok(items) => Ok(Value::List(items)),
                Err(err) => Err(err),
            },
            Token::FixedMap(n) => match self.decode_entries(n) {
                Ok(d) => Ok(Value::Dict(d)),
                Err(err) => Err(err),
            },
            Token::OpenMap => match self.decode_open_entries() {
                Ok(d) => Ok(Value::Dict(d)),
                Err(err) => Err(err),
            },
        }
    }

    /// A value where one must stand: the terminator there is a syntax
    /// error.
    pub fn decode_required(&mut self) -> (r: Result<Value, Error>)
        requires
            old(self).wf(),
        ensures
            final(self).wf(),
            match required(parse(old(self).rest())) {
                Ok((m, rest)) => (r matches Ok(v) && v.model() == m && final(self).rest() == rest),
                Err(e) => r == Err::<Value, Error>(e),
            },
            r is Ok ==> final(self).rest().len() < old(self).rest().len(),
        decreases old(self).rest().len(), 1nat,
    {
        match self.decode_value() {
            Ok(v) => Ok(v),
            Err(err) => if err == Error::EndOfStruct {
                Err(Error::Syntax)
            } else {
                Err(err)
            },
        }
    }

    /// Exactly `n` values.
    fn decode_items(&mut self, n: u8) -> (r: Result<Vec<Value>, Error>)
        requires
            old(self).wf(),
        ensures
            final(self).wf(),
            match parse_items(old(self).rest(), n as nat) {
                Ok((xs, rest)) => (r matches Ok(v) && models(v@) == xs && final(self).rest() == rest),
                Err(e) => r == Err::<Vec<Value>, Error>(e),
            },
            r is Ok ==> final(self).rest().len() <= old(self).rest().len(),
        decreases old(self).rest().len(), 2nat,
    {
        let ghost b = self.rest();
        let mut items: Vec<Value> = Vec::new();
        let mut i: u8 = 0;
        while i < n
            invariant
                self.wf(),
                0 <= i <= n,
                b == old(self).rest(),
                self.rest().len() <= b.len(),
                parse_items(b, i as nat) == Ok::<(Seq<Model>, Seq<u8>), Error>((models(items@), self.rest())),
            decreases n - i,
        {
            let ghost c = self.rest();
            let res = self.decode_required();
            assert(parse_items(b, (i + 1) as nat) == match required(parse(c)) {
                Ok((x, r2)) => Ok((models(items@).push(x), r2)),
                Err(e) => Err::<(Seq<Model>, Seq<u8>), Error>(e),
            });
            match res {
                Ok(v) => {
                    let ghost prev = items@;
                    items.push(v);
                    assert(items@.drop_last() =~= prev);
                },
                Err(err) => {
                    proof {
                        lemma_items_err(b, (i + 1) as nat, n as nat);
                    }
                    return Err(err);
                },
            }
            i = i + 1;
        }
        Ok(items)
    }

    /// Values up to the terminator, which is consumed.
    fn decode_open_items(&mut self) -> (r: Result<Vec<Value>, Error>)
        requires
            old(self).wf(),
        ensures
            final(self).wf(),
            match parse_open_items(old(self).rest()) {
                Ok((xs, rest)) => (r matches Ok(v) && models(v@) == xs && final(self).rest() == rest),
                Err(e) => r == Err::<Vec<Value>, Error>(e),
            },
            r is Ok ==> final(self).rest().len() <= old(self).rest().len(),
        decreases old(self).rest().len(), 2nat,
    {
        let ghost b = self.rest();
        let mut items: Vec<Value> = Vec::new();
        loop
            invariant
                self.wf(),
                b == old(self).rest(),
                self.rest().len() <= b.len(),
                parse_open_items(b) == prepend(models(items@), parse_open_items(self.rest())),
            decreases self.rest().len(),
        {
            let ghost c = self.rest();
            proof {
                lemma_parse_end(c);
            }
            match self.decode_value() {
                Ok(v) => {
                    let ghost prev = items@;
                    items.push(v);
                    assert(items@.drop_last() =~= prev);
                    proof {
                        lemma_prepend_push(models(prev), v.model(), parse_open_items(self.rest()));
                    }
                },
                Err(err) => {
                    if err == Error::EndOfStruct {
                        match self.end() {
                            Ok(()) => {},
                            Err(e2) => {
                                return Err(e2);
                            },
                        }
                        assert(models(items@) + Seq::<Model>::empty() =~= models(items@));
                        return Ok(items);
                    }
                    return Err(err);
                },
            }
        }
    }

    /// The key of a map entry: a string, or `None` at the terminator,
    /// which stays unconsumed.
    pub fn visit_key(&mut self) -> (r: Result<Option<String>, Error>)
        requires
            old(self).wf(),
        ensures
            final(self).wf(),
            match parse_key(old(self).rest()) {
                Ok((k, rest)) => (r matches Ok(Some(s)) && s@ == k && final(self).rest() == rest),
                Err(Error::EndOfStruct) => r == Ok::<Option<String>, Error>(None) && final(self).rest() == old(self).rest(),
                Err(e) => r == Err::<Option<String>, Error>(e),
            },
            r matches Ok(Some(_)) ==> final(self).rest().len() < old(self).rest().len(),
    {
        proof {
            lemma_token_shrinks(old(self).rest());
        }
        match self.visit() {
            Ok(Token::Str(s)) => Ok(Some(s)),
            Ok(_) => Err(Error::InvalidType),
            Err(err) => if err == Error::EndOfStruct {
                Ok(None)
            } else {
                Err(err)
            },
        }
    }

    /// Exactly `n` key/value pairs, put into a sorted map in order.
    fn decode_entries(&mut self, n: u8) -> (r: Result<Vec<(String, Value)>, Error>)
        requires
            old(self).wf(),
        ensures
            final(self).wf(),
            match parse_entries(old(self).rest(), n as nat) {
                Ok((ps, rest)) => (r matches Ok(d) && entry_models(d@) == dict_from(ps) && final(self).rest() == rest),
                Err(e) => r == Err::<Vec<(String, Value)>, Error>(e),
            },
            r is Ok ==> final(self).rest().len() <= old(self).rest().len(),
        decreases old(self).rest().len(), 2nat,
    {
        let ghost b = self.rest();
        let mut d: Vec<(String, Value)> = Vec::new();
        let ghost mut ps: Seq<(Seq<char>, Model)> = Seq::empty();
        let mut i: u8 = 0;
        while i < n
            invariant
                self.wf(),
                0 <= i <= n,
                b == old(self).rest(),
                self.rest().len() <= b.len(),
                parse_entries(b, i as nat) == Ok::<(Seq<(Seq<char>, Model)>, Seq<u8>), Error>((ps, self.rest())),
                entry_models(d@) == dict_from(ps),
            decreases n - i,
        {
            let ghost c = self.rest();
            let key = match self.visit_key() {
                Ok(Some(k)) => k,
                Ok(None) => {
                    proof {
                        lemma_entries_err(b, (i + 1) as nat, n as nat);
                    }
                    return Err(Error::Syntax);
                },
                Err(err) => {
                    proof {
                        lemma_entries_err(b, (i + 1) as nat, n as nat);
                    }
                    return Err(err);
                },
            };
            let ghost c2 = self.rest();
            let res = self.decode_required();
            assert(parse_entries(b, (i + 1) as nat) == match required(parse(c2)) {
                Ok((v, r3)) => Ok((ps.push((key@, v)), r3)),
                Err(e) => Err::<(Seq<(Seq<char>, Model)>, Seq<u8>), Error>(e),
            });
            match res {
                Ok(v) => {
                    let ghost kv = (key@, v.model());
                    dict_insert(&mut d, key, v);
                    proof {
                        assert(ps.push(kv).drop_last() =~= ps);
                        ps = ps.push(kv);
                    }
                },
                Err(err) => {
                    proof {
                        lemma_entries_err(b, (i + 1) as nat, n as nat);
                    }
                    return Err(err);
                },
            }
            i = i + 1;
        }
        Ok(d)
    }

    /// Key/value pairs up to the terminator, which is consumed, put into
    /// a sorted map in order.
    fn decode_open_entries(&mut self) -> (r: Result<Vec<(String, Value)>, Error>)
        requires
            old(self).wf(),
        ensures
            final(self).wf(),
            match parse_open_entries(old(self).rest()) {
                Ok((ps, rest)) => (r matches Ok(d) && entry_models(d@) == dict_from(ps) && final(self).rest() == rest),
                Err(e) => r == Err::<Vec<(String, Value)>, Error>(e),
            },
            r is Ok ==> final(self).rest().len() <= old(self).rest().len(),
        decreases old(self).rest().len(), 2nat,
    {
        let ghost b = self.rest();
        let mut d: Vec<(String, Value)> = Vec::new();
        let ghost mut ps: Seq<(Seq<char>, Model)> = Seq::empty();
        loop
            invariant
                self.wf(),
                b == old(self).rest(),
                self.rest().len() <= b.len(),
                parse_open_entries(b) == prepend(ps, parse_open_entries(self.rest())),
                entry_models(d@) == dict_from(ps),
            decreases self.rest().len(),
        {
            let ghost c = self.rest();
            proof {
                lemma_token_shrinks(c);
            }
            let key = match self.visit_key() {
                Ok(Some(k)) => k,
                Ok(None) => {
                    match self.end() {
                        Ok(()) => {},
                        Err(e2) => {
                            return Err(e2);
                        },
                    }
                    assert(ps + Seq::<(Seq<char>, Model)>::empty() =~= ps);
                    return Ok(d);
                },
                Err(err) => {
                    return Err(err);
                },
            };
            let res = self.decode_required();
            match res {
                Ok(v) => {
                    let ghost kv = (key@, v.model());
                    dict_insert(&mut d, key, v);
                    proof {
                        lemma_prepend_push(ps, kv, parse_open_entries(self.rest()));
                        assert(ps.push(kv).drop_last() =~= ps);
                        ps = ps.push(kv);
                    }
                },
                Err(err) => {
                    return Err(err);
                },
            }
        }
    }
}

impl FixedVisitor {
    /// The next element of the container, or `None` once all `len` are
    /// read.
    pub fn visit(&mut self, d: &mut Decoder) -> (r: Result<Option<Value>, Error>)
        requires
            old(d).wf(),
        ensures
            final(d).wf(),
            old(self).count >= old(self).len ==> r == Ok::<Option<Value>, Error>(None) && *final(self) == *old(self)
                && final(d).rest() == old(d).rest(),
            old(self).count < old(self).len ==> match required(parse(old(d).rest())) {
                Ok((m, rest)) => (r matches Ok(Some(v)) && v.model() == m && final(d).rest() == rest
                    && final(self).count == old(self).count + 1 && final(self).len == old(self).len),
                Err(e) => r == Err::<Option<Value>, Error>(e),
            },
    {
        if self.count >= self.len {
            Ok(None)
        } else {
            match d.decode_required() {
                Ok(val) => {
                    self.count = self.count + 1;
                    Ok(Some(val))
                },
                Err(err) => Err(err),
            }
        }
    }

    /// The next key of the map, or `None` once all `len` entries are read.
    pub fn visit_key(&mut self, d: &mut Decoder) -> (r: Result<Option<String>, Error>)
        requires
            old(d).wf(),
        ensures
            final(d).wf(),
            old(self).count >= old(self).len ==> r == Ok::<Option<String>, Error>(None) && *final(self) == *old(self)
                && final(d).rest() == old(d).rest(),
            old(self).count < old(self).len ==> match parse_key(old(d).rest()) {
                Ok((k, rest)) => (r matches Ok(Some(s)) && s@ == k && final(d).rest() == rest
                    && final(self).count == old(self).count + 1 && final(self).len == old(self).len),
                Err(Error::EndOfStruct) => r == Err::<Option<String>, Error>(Error::Syntax),
                Err(e) => r == Err::<Option<String>, Error>(e),
            },
    {
        if self.count >= self.len {
            Ok(None)
        } else {
            match d.visit_key() {
                Ok(Some(key)) => {
                    self.count = self.count + 1;
                    Ok(Some(key))
                },
                Ok(None) => Err(Error::Syntax),
                Err(err) => Err(err),
            }
        }
    }
}

/// Decodes the first value of `bytes` into a generic value. Bytes after
/// it are not read.
pub fn decode(bytes: &[u8]) -> (r: Result<Value, Error>)
    ensures
        match decode_spec(bytes@) {
            Ok(m) => (r matches Ok(v) && v.model() == m),
            Err(e) => r == Err::<Value, Error>(e),
        },
        r matches Ok(v) ==> v.wf(),
{
    proof {
        crate::laws::lemma_parse_wf(bytes@);
    }
    let mut decoder = Decoder::new(bytes);
    decoder.decode_required()
}

/// Decodes the first value of `bytes` as a boolean: a value of another
/// kind is `InvalidType`, not converted.
pub fn decode_bool(bytes: &[u8]) -> (r: Result<bool, Error>)
    ensures
        r == decode_bool_spec(bytes@),
{
    reveal(token);
    let mut decoder = Decoder::new(bytes);
    match decoder.visit() {
        Ok(Token::Bool(v)) => Ok(v),
        Ok(_) => Err(Error::InvalidType),
        Err(err) => if err == Error::EndOfStruct {
            Err(Error::Syntax)
        } else {
            Err(err)
        },
    }
}

} // verus!
