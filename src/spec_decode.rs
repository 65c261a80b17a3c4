//! What decoding means: a parser over byte sequences, written as spec
//! functions, that the executable decoder is proved against.
use vstd::prelude::*;
use vstd::utf8::{decode_utf8, valid_utf8};
use crate::bigendian::{be_value, untwos};
use crate::consts::{
    is_digit, COLON, DICT, DICT_FIXED_END, DICT_FIXED_START, DIGIT_0, F32, F64, FALSE, I16, I32,
    I64, I8, INT_NEG_FIXED_END, INT_NEG_FIXED_START, INT_POS_FIXED_END, LIST, LIST_FIXED_START,
    NONE, STR_FIXED_END, STR_FIXED_START, TERM, TRUE,
};
use crate::value::{dict_from, Model};
use crate::float::widen;

verus! {

/// Why decoding stopped.
#[derive(Debug, PartialEq, Eq, Structural, Clone, Copy)]
pub enum Error {
    /// No more values where one was asked for.
    EndOfStream,
    /// The terminator where a value was looked for: how an open container
    /// learns that it has no more elements.
    EndOfStruct,
    /// String bytes that are not UTF-8.
    FromUtf8Error,
    /// A decimal string length that is not a number that fits in `usize`.
    ParseIntError,
    /// A byte that starts no value here.
    Syntax,
    /// The input ended inside a value.
    UnexpectedEOF,
    /// A well-formed value of another kind than the one asked for.
    InvalidType,
}

/// One step of decoding: a scalar with its payload, or the header of a
/// container, whose elements follow.
pub enum Tok {
    Null,
    Bool(bool),
    Int(int),
    F32(u32),
    F64(u64),
    Str(Seq<char>),
    OpenList,
    FixedList(nat),
    OpenMap,
    FixedMap(nat),
}

/// The index of the first colon in `b` at or after `i`, or the length of
/// `b` if there is none.
pub open spec fn colon_at(b: Seq<u8>, i: int) -> int
    decreases b.len() - i,
{
    if i >= b.len() {
        b.len() as int
    } else if b[i] == COLON {
        i
    } else {
        colon_at(b, i + 1)
    }
}

/// The number that the ASCII decimal digits `d` spell.
pub open spec fn digits_value(d: Seq<u8>) -> nat
    decreases d.len(),
{
    if d.len() == 0 {
        0
    } else {
        digits_value(d.drop_last()) * 10 + (d.last() - DIGIT_0) as nat
    }
}

/// Every prefix of `d` is made of digits and spells a number that fits in
/// `usize`.
pub open spec fn digits_fit(d: Seq<u8>) -> bool
    decreases d.len(),
{
    d.len() == 0 || (digits_fit(d.drop_last()) && is_digit(d.last()) && digits_value(d) <= usize::MAX)
}

/// `n` raw bytes from the front of `b` as a string.
pub open spec fn string_of(b: Seq<u8>, n: nat) -> Result<(Tok, Seq<u8>), Error> {
    if b.len() < n {
        Err(Error::UnexpectedEOF)
    } else if !valid_utf8(b.subrange(0, n as int)) {
        Err(Error::FromUtf8Error)
    } else {
        Ok((Tok::Str(decode_utf8(b.subrange(0, n as int))), b.subrange(n as int, b.len() as int)))
    }
}

/// A decimal-length string: digits up to a colon, then that many bytes.
pub open spec fn digit_string(b: Seq<u8>) -> Result<(Tok, Seq<u8>), Error> {
    let k = colon_at(b, 0);
    if k >= b.len() {
        Err(Error::UnexpectedEOF)
    } else if !valid_utf8(b.subrange(0, k)) {
        Err(Error::FromUtf8Error)
    } else if k == 0 || !digits_fit(b.subrange(0, k)) {
        Err(Error::ParseIntError)
    } else {
        string_of(b.subrange(k + 1, b.len() as int), digits_value(b.subrange(0, k)))
    }
}

/// An `n`-byte big-endian payload after the header byte of `b`.
pub open spec fn payload(b: Seq<u8>, n: nat) -> Result<(nat, Seq<u8>), Error> {
    if b.len() < n + 1 {
        Err(Error::UnexpectedEOF)
    } else {
        Ok((be_value(b.subrange(1, n + 1 as int)), b.subrange(n + 1 as int, b.len() as int)))
    }
}

pub open spec fn int_payload(b: Seq<u8>, n: nat) -> Result<(Tok, Seq<u8>), Error> {
    match payload(b, n) {
        Ok((u, r)) => Ok((Tok::Int(untwos(u, n)), r)),
        Err(e) => Err(e),
    }
}

/// The first token of `b` and what follows it, dispatched on its leading
/// byte.
#[verifier::opaque]
pub open spec fn token(b: Seq<u8>) -> Result<(Tok, Seq<u8>), Error> {
    if b.len() == 0 {
        Err(Error::UnexpectedEOF)
    } else {
        let h = b[0];
        let r = b.drop_first();
        if is_digit(h) {
            digit_string(b)
        } else if STR_FIXED_START <= h <= STR_FIXED_END {
            string_of(r, (h - STR_FIXED_START) as nat)
        } else if h == I8 {
            int_payload(b, 1)
        } else if h == I16 {
            int_payload(b, 2)
        } else if h == I32 {
            int_payload(b, 4)
        } else if h == I64 {
            int_payload(b, 8)
        } else if h == F32 {
            match payload(b, 4) {
                Ok((u, r2)) => Ok((Tok::F32(u as u32), r2)),
                Err(e) => Err(e),
            }
        } else if h == F64 {
            match payload(b, 8) {
                Ok((u, r2)) => Ok((Tok::F64(u as u64), r2)),
                Err(e) => Err(e),
            }
        } else if h <= INT_POS_FIXED_END {
            Ok((Tok::Int(h as int), r))
        } else if INT_NEG_FIXED_START <= h <= INT_NEG_FIXED_END {
            Ok((Tok::Int(69 - h), r))
        } else if h == TRUE {
            Ok((Tok::Bool(true), r))
        } else if h == FALSE {
            Ok((Tok::Bool(false), r))
        } else if h == NONE {
            Ok((Tok::Null, r))
        } else if h == LIST {
            Ok((Tok::OpenList, r))
        } else if h >= LIST_FIXED_START {
            Ok((Tok::FixedList((h - LIST_FIXED_START) as nat), r))
        } else if h == DICT {
            Ok((Tok::OpenMap, r))
        } else if DICT_FIXED_START <= h <= DICT_FIXED_END {
            Ok((Tok::FixedMap((h - DICT_FIXED_START) as nat), r))
        } else if h == TERM {
            Err(Error::EndOfStruct)
        } else {
            Err(Error::Syntax)
        }
    }
}

/// A value where one must stand: the terminator there is a syntax error.
pub open spec fn required(res: Result<(Model, Seq<u8>), Error>) -> Result<(Model, Seq<u8>), Error> {
    match res {
        Err(Error::EndOfStruct) => Err(Error::Syntax),
        _ => res,
    }
}

/// A map key: a string, or the terminator, or a value of another kind.
pub open spec fn parse_key(b: Seq<u8>) -> Result<(Seq<char>, Seq<u8>), Error> {
    match token(b) {
        Ok((Tok::Str(s), r)) => Ok((s, r)),
        Ok(_) => Err(Error::InvalidType),
        Err(e) => Err(e),
    }
}

/// The first value of `b` and what follows it.
pub open spec fn parse(b: Seq<u8>) -> Result<(Model, Seq<u8>), Error>
    decreases b.len(), 0nat, 0nat,
{
    match token(b) {
        Err(e) => Err(e),
        Ok((t, r)) => {
            if r.len() >= b.len() {
                Err(Error::Syntax)
            } else {
                match t {
                    Tok::Null => Ok((Model::Null, r)),
                    Tok::Bool(v) => Ok((Model::Bool(v), r)),
                    Tok::Int(n) => Ok((Model::I64(n as i64), r)),
                    Tok::F32(bits) => Ok((Model::F64(widen(bits)), r)),
                    Tok::F64(bits) => Ok((Model::F64(bits), r)),
                    Tok::Str(s) => Ok((Model::Str(s), r)),
                    Tok::FixedList(n) => match parse_items(r, n) {
                        Ok((xs, r2)) => Ok((Model::List(xs), r2)),
                        Err(e) => Err(e),
                    },
                    Tok::OpenList => match parse_open_items(r) {
                        Ok((xs, r2)) => Ok((Model::List(xs), r2)),
                        Err(e) => Err(e),
                    },
                    Tok::FixedMap(n) => match parse_entries(r, n) {
                        Ok((ps, r2)) => Ok((Model::Dict(dict_from(ps)), r2)),
                        Err(e) => Err(e),
                    },
                    Tok::OpenMap => match parse_open_entries(r) {
                        Ok((ps, r2)) => Ok((Model::Dict(dict_from(ps)), r2)),
                        Err(e) => Err(e),
                    },
                }
            }
        },
    }
}

/// Exactly `n` values, each of which must be there.
pub open spec fn parse_items(b: Seq<u8>, n: nat) -> Result<(Seq<Model>, Seq<u8>), Error>
    decreases b.len(), 1nat, n,
{
    if n == 0 {
        Ok((Seq::empty(), b))
    } else {
        match parse_items(b, (n - 1) as nat) {
            Err(e) => Err(e),
            Ok((xs, r)) => {
                if r.len() > b.len() {
                    Err(Error::Syntax)
                } else {
                    match required(parse(r)) {
                        Ok((x, r2)) => Ok((xs.push(x), r2)),
                        Err(e) => Err(e),
                    }
                }
            },
        }
    }
}

/// Values up to the terminator, which is consumed.
pub open spec fn parse_open_items(b: Seq<u8>) -> Result<(Seq<Model>, Seq<u8>), Error>
    decreases b.len(), 2nat, 0nat,
{
    match parse(b) {
        Err(Error::EndOfStruct) => Ok((Seq::empty(), b.drop_first())),
        Err(e) => Err(e),
        Ok((x, r)) => {
            if r.len() >= b.len() {
                Err(Error::Syntax)
            } else {
                match parse_open_items(r) {
                    Ok((xs, r2)) => Ok((seq![x] + xs, r2)),
                    Err(e) => Err(e),
                }
            }
        },
    }
}

/// Exactly `n` key/value pairs.
pub open spec fn parse_entries(b: Seq<u8>, n: nat) -> Result<(Seq<(Seq<char>, Model)>, Seq<u8>), Error>
    decreases b.len(), 1nat, n,
{
    if n == 0 {
        Ok((Seq::empty(), b))
    } else {
        match parse_entries(b, (n - 1) as nat) {
            Err(e) => Err(e),
            Ok((ps, r)) => {
                match parse_key(r) {
                    Err(Error::EndOfStruct) => Err(Error::Syntax),
                    Err(e) => Err(e),
                    Ok((k, r2)) => {
                        if r2.len() > b.len() {
                            Err(Error::Syntax)
                        } else {
                            match required(parse(r2)) {
                                Ok((v, r3)) => Ok((ps.push((k, v)), r3)),
                                Err(e) => Err(e),
                            }
                        }
                    },
                }
            },
        }
    }
}

/// Key/value pairs up to the terminator, which is consumed.
pub open spec fn parse_open_entries(b: Seq<u8>) -> Result<(Seq<(Seq<char>, Model)>, Seq<u8>), Error>
    decreases b.len(), 2nat, 0nat,
{
    match parse_key(b) {
        Err(Error::EndOfStruct) => Ok((Seq::empty(), b.drop_first())),
        Err(e) => Err(e),
        Ok((k, r)) => {
            if r.len() >= b.len() {
                Err(Error::Syntax)
            } else {
                match required(parse(r)) {
                    Err(e) => Err(e),
                    Ok((v, r2)) => {
                        if r2.len() >= b.len() {
                            Err(Error::Syntax)
                        } else {
                            match parse_open_entries(r2) {
                                Ok((ps, r3)) => Ok((seq![(k, v)] + ps, r3)),
                                Err(e) => Err(e),
                            }
                        }
                    },
                }
            }
        },
    }
}

/// Decoding a whole input: its first value, which must be there.
pub open spec fn decode_spec(b: Seq<u8>) -> Result<Model, Error> {
    match required(parse(b)) {
        Ok((m, _)) => Ok(m),
        Err(e) => Err(e),
    }
}

/// Decoding a whole input as a boolean.
pub open spec fn decode_bool_spec(b: Seq<u8>) -> Result<bool, Error> {
    match token(b) {
        Ok((Tok::Bool(v), _)) => Ok(v),
        Ok(_) => Err(Error::InvalidType),
        Err(Error::EndOfStruct) => Err(Error::Syntax),
        Err(e) => Err(e),
    }
}

} // verus!
