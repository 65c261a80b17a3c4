//! Properties that relate encoding and decoding, proved over the
//! byte-level descriptions of both.
use vstd::prelude::*;
use vstd::utf8::{
    encode_utf8, encode_utf8_decode_utf8, encode_utf8_valid_utf8, is_ascii_chars,
    is_ascii_chars_encode_utf8, valid_utf8,
};
use crate::bigendian::{be_bytes, lemma_be_bytes_len, lemma_be_value_bytes, lemma_pow256_values, twos};
use crate::consts::{COLON, DIGIT_0, TERM};
use crate::consts::{F32, F64, I16, I32, I64, I8};
use crate::decoder::lemma_colon_at;
use crate::encoder::{decimal, enc, enc_entries, enc_int, enc_list, enc_str, list_header};
use crate::value::Value;
use crate::spec_decode::{
    decode_bool_spec, decode_spec, digits_fit, digits_value, parse, parse_entries, parse_items,
    parse_key, parse_open_entries, parse_open_items, required, token, Error, Tok,
};
use crate::value::{
    all_entries_well_formed, all_well_formed, dict_from, dict_put, key_lt, lemma_dict_put_at, lt_from,
    sorted_keys, well_formed, Model,
};

verus! {

/// The UTF-8 form of `s` is short enough that its decimal length can be
/// read back as a `usize`.
pub open spec fn str_fits(s: Seq<char>) -> bool {
    encode_utf8(s).len() <= usize::MAX
}

/// No unsigned integer anywhere in the value (those are written as the
/// signed integer of the same bits, and come back as such), and every
/// string and key has a byte length that fits in `usize`.
pub open spec fn signed_only(m: Model) -> bool
    decreases m,
{
    match m {
        Model::U64(_) => false,
        Model::Str(s) => str_fits(s),
        Model::List(items) => forall|i: int| 0 <= i < items.len() ==> signed_only(#[trigger] items[i]),
        Model::Dict(d) => forall|i: int| #![trigger d[i]] 0 <= i < d.len() ==> str_fits(d[i].0) && signed_only(d[i].1),
        _ => true,
    }
}

proof fn lemma_all_wf(s: Seq<Model>)
    requires
        all_well_formed(s),
    ensures
        forall|i: int| 0 <= i < s.len() ==> well_formed(#[trigger] s[i]),
    decreases s.len(),
{
    if s.len() > 0 {
        lemma_all_wf(s.drop_last());
        assert forall|i: int| 0 <= i < s.len() implies well_formed(#[trigger] s[i]) by {
            if i < s.len() - 1 {
                assert(s.drop_last()[i] == s[i]);
            }
        }
    }
}

proof fn lemma_all_entries_wf(d: Seq<(Seq<char>, Model)>)
    requires
        all_entries_well_formed(d),
    ensures
        forall|i: int| 0 <= i < d.len() ==> well_formed(#[trigger] d[i].1),
    decreases d.len(),
{
    if d.len() > 0 {
        lemma_all_entries_wf(d.drop_last());
        assert forall|i: int| 0 <= i < d.len() implies well_formed(#[trigger] d[i].1) by {
            if i < d.len() - 1 {
                assert(d.drop_last()[i] == d[i]);
            }
        }
    }
}

proof fn lemma_int(v: i64, rest: Seq<u8>)
    ensures
        token(enc_int(v as int) + rest) == Ok::<(Tok, Seq<u8>), Error>((Tok::Int(v as int), rest)),
{
    reveal(token);
    lemma_pow256_values();
    let b = enc_int(v as int) + rest;
    let w: nat = if -0x80 <= v < 0x80 {
        1
    } else if -0x8000 <= v < 0x8000 {
        2
    } else if -0x8000_0000 <= v < 0x8000_0000 {
        4
    } else {
        8
    };
    if -32 <= v <= 43 {
        assert(b.drop_first() =~= rest);
    } else {
        let t = twos(v as int, w);
        lemma_be_bytes_len(t, w);
        lemma_be_value_bytes(t, w);
        assert(b.subrange(1, w + 1 as int) =~= be_bytes(t, w));
        assert(b.subrange(w + 1 as int, b.len() as int) =~= rest);
    }
}

proof fn lemma_decimal(n: nat)
    ensures
        decimal(n).len() > 0,
        forall|i: int| 0 <= i < decimal(n).len() ==> DIGIT_0 <= #[trigger] decimal(n)[i] <= DIGIT_0 + 9,
        digits_value(decimal(n)) == n,
        n <= usize::MAX ==> digits_fit(decimal(n)),
    decreases n,
{
    let d = decimal(n);
    if n >= 10 {
        lemma_decimal(n / 10);
        assert(d.drop_last() =~= decimal(n / 10));
        assert(d.last() == DIGIT_0 + n % 10);
        assert(n == (n / 10) * 10 + n % 10);
        assert(digits_value(d) == digits_value(decimal(n / 10)) * 10 + n % 10);
        assert forall|i: int| 0 <= i < d.len() implies DIGIT_0 <= #[trigger] d[i] <= DIGIT_0 + 9 by {
            if i < d.len() - 1 {
                assert(d[i] == decimal(n / 10)[i]);
            }
        }
    } else {
        assert(d.drop_last() =~= Seq::<u8>::empty());
        assert(digits_value(d) == digits_value(d.drop_last()) * 10 + n);
        assert(digits_fit(d.drop_last()));
    }
}

proof fn lemma_ascii_valid(d: Seq<u8>)
    requires
        forall|i: int| 0 <= i < d.len() ==> #[trigger] d[i] < 0x80,
    ensures
        valid_utf8(d),
{
    let chars = Seq::new(d.len(), |i: int| d[i] as char);
    assert(is_ascii_chars(chars));
    is_ascii_chars_encode_utf8(chars);
    assert(encode_utf8(chars) =~= d);
    encode_utf8_valid_utf8(chars);
}

proof fn lemma_str(s: Seq<char>, rest: Seq<u8>)
    requires
        str_fits(s),
    ensures
        token(enc_str(s) + rest) == Ok::<(Tok, Seq<u8>), Error>((Tok::Str(s), rest)),
{
    reveal(token);
    let e = encode_utf8(s);
    encode_utf8_valid_utf8(s);
    encode_utf8_decode_utf8(s);
    let b = enc_str(s) + rest;
    if e.len() < 64 {
        let r = b.drop_first();
        assert(r.subrange(0, e.len() as int) =~= e);
        assert(r.subrange(e.len() as int, r.len() as int) =~= rest);
    } else {
        let d = decimal(e.len());
        lemma_decimal(e.len());
        assert(b =~= d + seq![COLON] + e + rest);
        let k = d.len() as int;
        assert forall|j: int| 0 <= j < k implies b[j] != COLON by {
            assert(b[j] == d[j]);
        }
        lemma_colon_at(b, 0, k);
        assert(b.subrange(0, k) =~= d);
        lemma_ascii_valid(d);
        let r = b.subrange(k + 1, b.len() as int);
        assert(r.subrange(0, e.len() as int) =~= e);
        assert(r.subrange(e.len() as int, r.len() as int) =~= rest);
    }
}

/// What a sorted map is rebuilt into is the map itself.
proof fn lemma_dict_from_sorted(d: Seq<(Seq<char>, Model)>)
    requires
        sorted_keys(d),
    ensures
        dict_from(d) == d,
    decreases d.len(),
{
    if d.len() > 0 {
        let p = d.drop_last();
        assert(sorted_keys(p));
        lemma_dict_from_sorted(p);
        let k = d.last().0;
        assert forall|j: int| 0 <= j < p.len() implies key_lt(#[trigger] p[j].0, k) by {
            assert(p[j] == d[j]);
        }
        lemma_dict_put_at(p, k, d.last().1, p.len() as int);
        assert(p.subrange(0, p.len() as int).push((k, d.last().1)) + p.subrange(p.len() as int, p.len() as int) =~= d);
    }
}

proof fn lemma_items(s: Seq<Model>, rest: Seq<u8>)
    requires
        forall|i: int| 0 <= i < s.len() ==> well_formed(#[trigger] s[i]) && signed_only(s[i]),
    ensures
        parse_items(enc_list(s) + rest, s.len()) == Ok::<(Seq<Model>, Seq<u8>), Error>((s, rest)),
    decreases s, 0nat,
{
    if s.len() > 0 {
        let p = s.drop_last();
        let x = s.last();
        assert(well_formed(s[s.len() - 1]));
        lemma_items(p, enc(x) + rest);
        lemma_parse_enc(x, rest);
        let b = enc_list(s) + rest;
        assert(enc_list(s) == enc_list(p) + enc(x));
        assert(b =~= enc_list(p) + (enc(x) + rest));
        assert(parse_items(b, p.len()) == Ok::<(Seq<Model>, Seq<u8>), Error>((p, enc(x) + rest)));
        assert(required(parse(enc(x) + rest)) == Ok::<(Model, Seq<u8>), Error>((x, rest)));
        assert(p.push(x) =~= s);
        assert(parse_items(b, s.len()) == Ok::<(Seq<Model>, Seq<u8>), Error>((p.push(x), rest)));
    } else {
        assert(enc_list(s) + rest =~= rest);
        assert(s =~= Seq::<Model>::empty());
    }
}

proof fn lemma_entries(d: Seq<(Seq<char>, Model)>, rest: Seq<u8>)
    requires
        forall|i: int| 0 <= i < d.len() ==> well_formed(#[trigger] d[i].1) && signed_only(d[i].1) && str_fits(d[i].0),
    ensures
        parse_entries(enc_entries(d) + rest, d.len()) == Ok::<(Seq<(Seq<char>, Model)>, Seq<u8>), Error>((d, rest)),
    decreases d, 0nat,
{
    if d.len() > 0 {
        let p = d.drop_last();
        let (k, x) = d.last();
        assert(well_formed(d[d.len() - 1].1));
        assert(decreases_to!(d => d[d.len() - 1]));
        lemma_entries(p, enc_str(k) + enc(x) + rest);
        lemma_str(k, enc(x) + rest);
        lemma_parse_enc(x, rest);
        assert(enc_entries(d) + rest =~= enc_entries(p) + (enc_str(k) + enc(x) + rest));
        assert(enc_str(k) + enc(x) + rest =~= enc_str(k) + (enc(x) + rest));
        assert(p.push((k, x)) =~= d);
    } else {
        assert(enc_entries(d) + rest =~= rest);
        assert(d =~= Seq::<(Seq<char>, Model)>::empty());
    }
}

proof fn lemma_list_front(s: Seq<Model>)
    requires
        s.len() > 0,
    ensures
        enc_list(s) == enc(s[0]) + enc_list(s.drop_first()),
    decreases s.len(),
{
    if s.len() > 1 {
        let p = s.drop_last();
        let t = s.drop_first();
        lemma_list_front(p);
        assert(p.drop_first() =~= t.drop_last());
        assert(t.last() == s.last());
        assert(p[0] == s[0]);
        assert(enc_list(t) == enc_list(t.drop_last()) + enc(t.last()));
        assert(enc_list(s) == enc_list(p) + enc(s.last()));
        assert(enc_list(p) == enc(s[0]) + enc_list(p.drop_first()));
        assert(enc_list(s) =~= enc(s[0]) + enc_list(t));
    } else {
        let t = s.drop_first();
        assert(t =~= Seq::<Model>::empty());
        assert(s.drop_last() =~= Seq::<Model>::empty());
        assert(enc_list(s) == enc_list(s.drop_last()) + enc(s.last()));
        assert(enc_list(s) =~= enc(s[0]) + enc_list(t));
    }
}

proof fn lemma_entries_front(d: Seq<(Seq<char>, Model)>)
    requires
        d.len() > 0,
    ensures
        enc_entries(d) == enc_str(d[0].0) + enc(d[0].1) + enc_entries(d.drop_first()),
    decreases d.len(),
{
    if d.len() > 1 {
        let p = d.drop_last();
        let t = d.drop_first();
        lemma_entries_front(p);
        assert(p.drop_first() =~= t.drop_last());
        assert(t.last() == d.last());
        assert(p[0] == d[0]);
        assert(enc_entries(t) == enc_entries(t.drop_last()) + enc_str(t.last().0) + enc(t.last().1));
        assert(enc_entries(d) == enc_entries(p) + enc_str(d.last().0) + enc(d.last().1));
        assert(enc_entries(d) =~= enc_str(d[0].0) + enc(d[0].1) + enc_entries(t));
    } else {
        let t = d.drop_first();
        assert(t =~= Seq::<(Seq<char>, Model)>::empty());
        assert(d.drop_last() =~= Seq::<(Seq<char>, Model)>::empty());
        assert(enc_entries(d) == enc_entries(d.drop_last()) + enc_str(d.last().0) + enc(d.last().1));
        assert(enc_entries(d) =~= enc_str(d[0].0) + enc(d[0].1) + enc_entries(t));
    }
}

proof fn lemma_open_items(s: Seq<Model>, rest: Seq<u8>)
    requires
        forall|i: int| 0 <= i < s.len() ==> well_formed(#[trigger] s[i]) && signed_only(s[i]),
    ensures
        parse_open_items(enc_list(s) + seq![TERM] + rest) == Ok::<(Seq<Model>, Seq<u8>), Error>((s, rest)),
    decreases s, 0nat,
{
    let b = enc_list(s) + seq![TERM] + rest;
    if s.len() == 0 {
        assert(b =~= seq![TERM] + rest);
        lemma_term(rest);
        assert(s =~= Seq::<Model>::empty());
    } else {
        let t = s.drop_first();
        assert(well_formed(s[0]));
        lemma_list_front(s);
        let r = enc_list(t) + seq![TERM] + rest;
        assert(b =~= enc(s[0]) + r);
        lemma_parse_enc(s[0], r);
        lemma_enc_len(s[0]);
        assert forall|i: int| 0 <= i < t.len() implies well_formed(#[trigger] t[i]) && signed_only(t[i]) by {
            assert(t[i] == s[i + 1]);
        }
        lemma_open_items(t, rest);
        assert(seq![s[0]] + t =~= s);
    }
}

proof fn lemma_open_entries(d: Seq<(Seq<char>, Model)>, rest: Seq<u8>)
    requires
        forall|i: int| 0 <= i < d.len() ==> well_formed(#[trigger] d[i].1) && signed_only(d[i].1) && str_fits(d[i].0),
    ensures
        parse_open_entries(enc_entries(d) + seq![TERM] + rest) == Ok::<(Seq<(Seq<char>, Model)>, Seq<u8>), Error>((d, rest)),
    decreases d, 0nat,
{
    let b = enc_entries(d) + seq![TERM] + rest;
    if d.len() == 0 {
        assert(b =~= seq![TERM] + rest);
        lemma_term(rest);
        assert(d =~= Seq::<(Seq<char>, Model)>::empty());
    } else {
        let t = d.drop_first();
        let (k, x) = d[0];
        assert(well_formed(d[0].1));
        assert(decreases_to!(d => d[0]));
        lemma_entries_front(d);
        let r2 = enc_entries(t) + seq![TERM] + rest;
        let r = enc(x) + r2;
        assert(b =~= enc_str(k) + r);
        lemma_str(k, r);
        lemma_parse_enc(x, r2);
        lemma_enc_len(x);
        lemma_str_len(k);
        assert forall|i: int| 0 <= i < t.len() implies well_formed(#[trigger] t[i].1) && signed_only(t[i].1) && str_fits(t[i].0) by {
            assert(t[i] == d[i + 1]);
        }
        lemma_open_entries(t, rest);
        assert(seq![(k, x)] + t =~= d);
    }
}

proof fn lemma_term(rest: Seq<u8>)
    ensures
        token(seq![TERM] + rest) == Err::<(Tok, Seq<u8>), Error>(Error::EndOfStruct),
        parse(seq![TERM] + rest) == Err::<(Model, Seq<u8>), Error>(Error::EndOfStruct),
        parse_key(seq![TERM] + rest) == Err::<(Seq<char>, Seq<u8>), Error>(Error::EndOfStruct),
        (seq![TERM] + rest).drop_first() == rest,
{
    reveal(token);
    assert((seq![TERM] + rest).drop_first() =~= rest);
}

proof fn lemma_signed_parts(m: Model)
    requires
        signed_only(m),
    ensures
        m matches Model::List(items) ==> forall|i: int| 0 <= i < items.len() ==> signed_only(#[trigger] items[i]),
        m matches Model::Dict(d) ==> forall|i: int| #![trigger d[i]] 0 <= i < d.len() ==> str_fits(d[i].0) && signed_only(d[i].1),
{
    reveal_with_fuel(signed_only, 2);
}

proof fn lemma_str_len(s: Seq<char>)
    ensures
        enc_str(s).len() > 0,
{
    if encode_utf8(s).len() >= 64 {
        lemma_decimal(encode_utf8(s).len());
    }
}

proof fn lemma_enc_len(m: Model)
    ensures
        enc(m).len() > 0,
{
    match m {
        Model::Str(s) => lemma_str_len(s),
        _ => {},
    }
}

proof fn lemma_parse_list(items: Seq<Model>, rest: Seq<u8>)
    requires
        all_well_formed(items),
        forall|i: int| 0 <= i < items.len() ==> signed_only(#[trigger] items[i]),
    ensures
        parse(enc(Model::List(items)) + rest) == Ok::<(Model, Seq<u8>), Error>((Model::List(items), rest)),
    decreases items, 1nat,
{
    reveal(token);
    lemma_pow256_values();
    let b = enc(Model::List(items)) + rest;
    lemma_all_wf(items);
    if items.len() < 64 {
        assert(b =~= list_header(items.len()) + (enc_list(items) + rest));
        assert(b.drop_first() =~= enc_list(items) + rest);
        lemma_items(items, rest);
    } else {
        assert(b.drop_first() =~= enc_list(items) + seq![TERM] + rest);
        lemma_open_items(items, rest);
    }
}

proof fn lemma_parse_dict(d: Seq<(Seq<char>, Model)>, rest: Seq<u8>)
    requires
        sorted_keys(d),
        all_entries_well_formed(d),
        forall|i: int| #![trigger d[i]] 0 <= i < d.len() ==> str_fits(d[i].0) && signed_only(d[i].1),
    ensures
        parse(enc(Model::Dict(d)) + rest) == Ok::<(Model, Seq<u8>), Error>((Model::Dict(d), rest)),
    decreases d, 1nat,
{
    reveal(token);
    lemma_pow256_values();
    let b = enc(Model::Dict(d)) + rest;
    lemma_all_entries_wf(d);
    lemma_dict_from_sorted(d);
    assert forall|i: int| 0 <= i < d.len() implies well_formed(#[trigger] d[i].1) && signed_only(d[i].1) && str_fits(d[i].0) by {
        assert(well_formed(d[i].1));
    }
    if d.len() < 25 {
        assert(b.drop_first() =~= enc_entries(d) + rest);
        lemma_entries(d, rest);
    } else {
        assert(b.drop_first() =~= enc_entries(d) + seq![TERM] + rest);
        lemma_open_entries(d, rest);
    }
}

/// Decoding the encoding of a value, with any bytes after it, gives the
/// value back and leaves exactly those bytes: every open container takes
/// its own terminator and no other.
#[verifier::rlimit(40)]
pub proof fn lemma_parse_enc(m: Model, rest: Seq<u8>)
    requires
        well_formed(m),
        signed_only(m),
    ensures
        parse(enc(m) + rest) == Ok::<(Model, Seq<u8>), Error>((m, rest)),
    decreases m, 0nat,
{
    let b = enc(m) + rest;
    lemma_pow256_values();
    match m {
        Model::Null => {
            reveal(token);
            assert(b.drop_first() =~= rest);
        },
        Model::Bool(_) => {
            reveal(token);
            assert(b.drop_first() =~= rest);
        },
        Model::I64(n) => {
            lemma_int(n, rest);
            lemma_enc_len(m);
        },
        Model::U64(_) => {},
        Model::F64(bits) => {
            reveal(token);
            lemma_be_bytes_len(bits as nat, 8);
            lemma_be_value_bytes(bits as nat, 8);
            assert(b.subrange(1, 9) =~= be_bytes(bits as nat, 8));
            assert(b.subrange(9, b.len() as int) =~= rest);
        },
        Model::Str(s) => {
            lemma_str(s, rest);
            lemma_str_len(s);
        },
        Model::List(items) => {
            assert(decreases_to!(m => m->List_0));
            lemma_signed_parts(m);
            lemma_parse_list(items, rest);
        },
        Model::Dict(d) => {
            assert(decreases_to!(m => m->Dict_0));
            lemma_signed_parts(m);
            lemma_parse_dict(d, rest);
        },
    }
}

/// Round trip: a well-formed value with no unsigned integer in it comes
/// back from decoding its encoding unchanged.
pub proof fn law_round_trip(v: Value)
    requires
        v.wf(),
        signed_only(v.model()),
    ensures
        decode_spec(enc(v.model())) == Ok::<Model, Error>(v.model()),
{
    lemma_parse_enc(v.model(), Seq::empty());
    assert(enc(v.model()) + Seq::<u8>::empty() =~= enc(v.model()));
}

/// The payload width that follows a fixed-width numeric header.
pub open spec fn numeric_width(h: u8) -> nat {
    if h == I8 {
        1
    } else if h == I16 {
        2
    } else if h == I32 || h == F32 {
        4
    } else if h == I64 || h == F64 {
        8
    } else {
        0
    }
}

/// A fixed-width numeric header followed by fewer bytes than its width is
/// a truncated input, never a value.
pub proof fn law_truncated_number(b: Seq<u8>)
    requires
        b.len() > 0,
        numeric_width(b[0]) > 0,
        b.len() < 1 + numeric_width(b[0]),
    ensures
        decode_spec(b) == Err::<Model, Error>(Error::UnexpectedEOF),
{
    reveal(token);
}

/// A string asked for as a boolean is a type mismatch, not a converted
/// value.
pub proof fn law_string_is_not_bool(s: Seq<char>, rest: Seq<u8>)
    requires
        str_fits(s),
    ensures
        decode_bool_spec(enc_str(s) + rest) == Err::<bool, Error>(Error::InvalidType),
{
    lemma_str(s, rest);
}

proof fn lemma_lt_irreflexive(a: Seq<u8>, i: int)
    requires
        0 <= i,
    ensures
        !lt_from(a, a, i),
    decreases a.len() - i,
{
    if i < a.len() {
        lemma_lt_irreflexive(a, i + 1);
    }
}

proof fn lemma_lt_transitive(a: Seq<u8>, b: Seq<u8>, c: Seq<u8>, i: int)
    requires
        0 <= i,
        lt_from(a, b, i),
        lt_from(b, c, i),
    ensures
        lt_from(a, c, i),
    decreases a.len() - i,
{
    if i < a.len() && i < b.len() && i < c.len() && a[i] == b[i] && b[i] == c[i] {
        lemma_lt_transitive(a, b, c, i + 1);
    }
}

proof fn lemma_lt_total(a: Seq<u8>, b: Seq<u8>, i: int)
    requires
        0 <= i <= a.len(),
        i <= b.len(),
        a.subrange(i, a.len() as int) != b.subrange(i, b.len() as int),
    ensures
        lt_from(a, b, i) || lt_from(b, a, i),
    decreases a.len() - i,
{
    if i < a.len() && i < b.len() && a[i] == b[i] {
        if a.subrange(i + 1, a.len() as int) == b.subrange(i + 1, b.len() as int) {
            assert(a.subrange(i, a.len() as int) =~= seq![a[i]] + a.subrange(i + 1, a.len() as int));
            assert(b.subrange(i, b.len() as int) =~= seq![b[i]] + b.subrange(i + 1, b.len() as int));
        }
        lemma_lt_total(a, b, i + 1);
    } else if i >= a.len() && i >= b.len() {
        assert(a.subrange(i, a.len() as int) =~= b.subrange(i, b.len() as int));
    }
}

/// The key order is a strict total order.
proof fn lemma_key_order(a: Seq<char>, b: Seq<char>, c: Seq<char>)
    ensures
        !key_lt(a, a),
        key_lt(a, b) && key_lt(b, c) ==> key_lt(a, c),
        a != b ==> key_lt(a, b) || key_lt(b, a),
        key_lt(a, b) ==> !key_lt(b, a),
{
    let (x, y, z) = (encode_utf8(a), encode_utf8(b), encode_utf8(c));
    lemma_lt_irreflexive(x, 0);
    if key_lt(a, b) && key_lt(b, c) {
        lemma_lt_transitive(x, y, z, 0);
    }
    if key_lt(a, b) && key_lt(b, a) {
        lemma_lt_transitive(x, y, x, 0);
    }
    if a != b {
        encode_utf8_decode_utf8(a);
        encode_utf8_decode_utf8(b);
        assert(x.subrange(0, x.len() as int) =~= x);
        assert(y.subrange(0, y.len() as int) =~= y);
        lemma_lt_total(x, y, 0);
    }
}

/// Every key of `dict_put(d, k, v)` is `k` or a key of `d`.
proof fn lemma_put_keys(d: Seq<(Seq<char>, Model)>, k: Seq<char>, v: Model, lo: Seq<char>)
    requires
        key_lt(lo, k),
        forall|j: int| 0 <= j < d.len() ==> key_lt(lo, #[trigger] d[j].0),
    ensures
        forall|j: int| 0 <= j < dict_put(d, k, v).len() ==> key_lt(lo, #[trigger] dict_put(d, k, v)[j].0),
    decreases d.len(),
{
    if d.len() > 0 && key_lt(d[0].0, k) {
        let t = d.drop_first();
        assert forall|j: int| 0 <= j < t.len() implies key_lt(lo, #[trigger] t[j].0) by {
            assert(t[j] == d[j + 1]);
        }
        lemma_put_keys(t, k, v, lo);
        let r = dict_put(d, k, v);
        assert forall|j: int| 0 <= j < r.len() implies key_lt(lo, #[trigger] r[j].0) by {
            if j > 0 {
                assert(r[j] == dict_put(t, k, v)[j - 1]);
            }
        }
    } else if d.len() > 0 {
        let r = dict_put(d, k, v);
        assert forall|j: int| 0 <= j < r.len() implies key_lt(lo, #[trigger] r[j].0) by {
            if j > 0 && d[0].0 == k {
                assert(r[j] == d[j]);
            } else if j > 0 {
                assert(r[j] == d[j - 1]);
            }
        }
    }
}

/// Putting a key into a map with sorted keys keeps them sorted; the
/// encoding of a map writes its entries in the order they are kept, so
/// maps are always written in key order.
pub proof fn law_put_keeps_keys_sorted(d: Seq<(Seq<char>, Model)>, k: Seq<char>, v: Model)
    requires
        sorted_keys(d),
    ensures
        sorted_keys(dict_put(d, k, v)),
    decreases d.len(),
{
    let r = dict_put(d, k, v);
    if d.len() == 0 {
    } else if !key_lt(d[0].0, k) {
        if d[0].0 == k {
            assert forall|i: int, j: int| 0 <= i < j < r.len() implies key_lt(#[trigger] r[i].0, #[trigger] r[j].0) by {
                assert(r[j] == d[j]);
                if i > 0 {
                    assert(r[i] == d[i]);
                }
            }
        } else {
            lemma_key_order(d[0].0, k, k);
            assert forall|i: int, j: int| 0 <= i < j < r.len() implies key_lt(#[trigger] r[i].0, #[trigger] r[j].0) by {
                assert(r[j] == d[j - 1]);
                if i > 0 {
                    assert(r[i] == d[i - 1]);
                } else if j > 1 {
                    lemma_key_order(k, d[0].0, d[j - 1].0);
                }
            }
        }
    } else {
        let t = d.drop_first();
        assert(sorted_keys(t)) by {
            assert forall|i: int, j: int| 0 <= i < j < t.len() implies key_lt(#[trigger] t[i].0, #[trigger] t[j].0) by {
                assert(t[i] == d[i + 1] && t[j] == d[j + 1]);
            }
        }
        law_put_keeps_keys_sorted(t, k, v);
        assert forall|j: int| 0 <= j < t.len() implies key_lt(d[0].0, #[trigger] t[j].0) by {
            assert(t[j] == d[j + 1]);
        }
        lemma_put_keys(t, k, v, d[0].0);
        let rt = dict_put(t, k, v);
        assert forall|i: int, j: int| 0 <= i < j < r.len() implies key_lt(#[trigger] r[i].0, #[trigger] r[j].0) by {
            assert(r[j] == rt[j - 1]);
            if i > 0 {
                assert(r[i] == rt[i - 1]);
            }
        }
    }
}

/// The order in which two different keys are put into a map does not
/// change the map, and so not its encoding.
pub proof fn law_put_order_independent(
    d: Seq<(Seq<char>, Model)>,
    k1: Seq<char>,
    v1: Model,
    k2: Seq<char>,
    v2: Model,
)
    requires
        k1 != k2,
    ensures
        dict_put(dict_put(d, k1, v1), k2, v2) == dict_put(dict_put(d, k2, v2), k1, v1),
    decreases d.len(),
{
    lemma_key_order(k1, k2, k1);
    lemma_key_order(k2, k1, k2);
    let e1 = seq![(k1, v1)];
    let e2 = seq![(k2, v2)];
    if d.len() == 0 {
        assert(e1.drop_first() =~= d);
        assert(e2.drop_first() =~= d);
        assert(dict_put(d, k1, v1) == e1);
        assert(dict_put(d, k2, v2) == e2);
        assert(e1[0].0 == k1 && e2[0].0 == k2);
        assert(dict_put(e1, k2, v2) =~= (if key_lt(k1, k2) { e1 + e2 } else { e2 + e1 }));
        assert(dict_put(e2, k1, v1) =~= (if key_lt(k1, k2) { e1 + e2 } else { e2 + e1 }));
    } else {
        let h = d[0].0;
        let t = d.drop_first();
        lemma_key_order(h, k1, k2);
        lemma_key_order(h, k2, k1);
        lemma_key_order(k1, h, k2);
        lemma_key_order(k2, h, k1);
        lemma_key_order(k1, k2, h);
        lemma_key_order(k2, k1, h);
        if key_lt(h, k1) && key_lt(h, k2) {
            law_put_order_independent(t, k1, v1, k2, v2);
            let a = dict_put(d, k1, v1);
            let b = dict_put(d, k2, v2);
            assert(a == seq![d[0]] + dict_put(t, k1, v1));
            assert(b == seq![d[0]] + dict_put(t, k2, v2));
            assert((seq![d[0]] + dict_put(t, k1, v1))[0] == d[0]);
            assert((seq![d[0]] + dict_put(t, k1, v1)).drop_first() =~= dict_put(t, k1, v1));
            assert((seq![d[0]] + dict_put(t, k2, v2))[0] == d[0]);
            assert((seq![d[0]] + dict_put(t, k2, v2)).drop_first() =~= dict_put(t, k2, v2));
        } else if key_lt(h, k1) {
            // k2 goes in front of h, k1 behind it
            let a = dict_put(d, k1, v1);
            let b = dict_put(d, k2, v2);
            assert(a == seq![d[0]] + dict_put(t, k1, v1));
            assert((seq![d[0]] + dict_put(t, k1, v1))[0] == d[0]);
            assert((seq![d[0]] + dict_put(t, k1, v1)).drop_first() =~= dict_put(t, k1, v1));
            if h == k2 {
                assert(b == e2 + t);
                assert((e2 + t)[0] == (k2, v2));
                assert((e2 + t).drop_first() =~= t);
                assert(dict_put(a, k2, v2) =~= e2 + dict_put(t, k1, v1));
                assert(dict_put(b, k1, v1) =~= e2 + dict_put(t, k1, v1));
            } else {
                assert(b == e2 + d);
                assert((e2 + d)[0] == (k2, v2));
                assert((e2 + d).drop_first() =~= d);
                assert(dict_put(a, k2, v2) =~= e2 + a);
                assert(dict_put(b, k1, v1) =~= e2 + a);
            }
        } else if key_lt(h, k2) {
            let a = dict_put(d, k1, v1);
            let b = dict_put(d, k2, v2);
            assert(b == seq![d[0]] + dict_put(t, k2, v2));
            assert((seq![d[0]] + dict_put(t, k2, v2))[0] == d[0]);
            assert((seq![d[0]] + dict_put(t, k2, v2)).drop_first() =~= dict_put(t, k2, v2));
            if h == k1 {
                assert(a == e1 + t);
                assert((e1 + t)[0] == (k1, v1));
                assert((e1 + t).drop_first() =~= t);
                assert(dict_put(b, k1, v1) =~= e1 + dict_put(t, k2, v2));
                assert(dict_put(a, k2, v2) =~= e1 + dict_put(t, k2, v2));
            } else {
                assert(a == e1 + d);
                assert((e1 + d)[0] == (k1, v1));
                assert((e1 + d).drop_first() =~= d);
                assert(dict_put(b, k1, v1) =~= e1 + b);
                assert(dict_put(a, k2, v2) =~= e1 + b);
            }
        } else {
            // neither key is above h: both go in front of, or onto, h
            let a = dict_put(d, k1, v1);
            let b = dict_put(d, k2, v2);
            let a0 = if h == k1 { e1 + t } else { e1 + d };
            let b0 = if h == k2 { e2 + t } else { e2 + d };
            assert(a == a0);
            assert(b == b0);
            assert(a0[0] == (k1, v1));
            assert(b0[0] == (k2, v2));
            if key_lt(k1, k2) {
                assert(a0.drop_first() =~= (if h == k1 { t } else { d }));
                assert(dict_put(a0.drop_first(), k2, v2) == (if h == k2 { e2 + t } else { e2 + d }));
                assert(dict_put(a, k2, v2) =~= e1 + b0);
                assert(dict_put(b, k1, v1) =~= e1 + b0);
            } else {
                assert(b0.drop_first() =~= (if h == k2 { t } else { d }));
                assert(dict_put(b0.drop_first(), k1, v1) == (if h == k1 { e1 + t } else { e1 + d }));
                assert(dict_put(b, k1, v1) =~= e2 + a0);
                assert(dict_put(a, k2, v2) =~= e2 + a0);
            }
        }
    }
}

pub open spec fn items_wf(s: Seq<Model>) -> bool {
    forall|i: int| 0 <= i < s.len() ==> well_formed(#[trigger] s[i])
}

pub open spec fn entries_wf(d: Seq<(Seq<char>, Model)>) -> bool {
    forall|i: int| 0 <= i < d.len() ==> well_formed(#[trigger] d[i].1)
}

proof fn lemma_items_wf_iff(s: Seq<Model>)
    ensures
        all_well_formed(s) == items_wf(s),
    decreases s.len(),
{
    if s.len() > 0 {
        lemma_items_wf_iff(s.drop_last());
        assert(items_wf(s) ==> items_wf(s.drop_last())) by {
            if items_wf(s) {
                assert forall|i: int| 0 <= i < s.drop_last().len() implies well_formed(#[trigger] s.drop_last()[i]) by {
                    assert(s.drop_last()[i] == s[i]);
                }
            }
        }
        assert(items_wf(s.drop_last()) && well_formed(s.last()) ==> items_wf(s)) by {
            if items_wf(s.drop_last()) && well_formed(s.last()) {
                assert forall|i: int| 0 <= i < s.len() implies well_formed(#[trigger] s[i]) by {
                    if i < s.len() - 1 {
                        assert(s.drop_last()[i] == s[i]);
                    }
                }
            }
        }
    }
}

proof fn lemma_entries_wf_iff(d: Seq<(Seq<char>, Model)>)
    ensures
        all_entries_well_formed(d) == entries_wf(d),
    decreases d.len(),
{
    if d.len() > 0 {
        lemma_entries_wf_iff(d.drop_last());
        assert(entries_wf(d) ==> entries_wf(d.drop_last())) by {
            if entries_wf(d) {
                assert forall|i: int| 0 <= i < d.drop_last().len() implies well_formed(#[trigger] d.drop_last()[i].1) by {
                    assert(d.drop_last()[i] == d[i]);
                }
            }
        }
        assert(entries_wf(d.drop_last()) && well_formed(d.last().1) ==> entries_wf(d)) by {
            if entries_wf(d.drop_last()) && well_formed(d.last().1) {
                assert forall|i: int| 0 <= i < d.len() implies well_formed(#[trigger] d[i].1) by {
                    if i < d.len() - 1 {
                        assert(d.drop_last()[i] == d[i]);
                    }
                }
            }
        }
    }
}

proof fn lemma_put_wf(d: Seq<(Seq<char>, Model)>, k: Seq<char>, v: Model)
    requires
        entries_wf(d),
        well_formed(v),
    ensures
        entries_wf(dict_put(d, k, v)),
    decreases d.len(),
{
    let r = dict_put(d, k, v);
    if d.len() > 0 && key_lt(d[0].0, k) {
        let t = d.drop_first();
        assert(entries_wf(t)) by {
            assert forall|i: int| 0 <= i < t.len() implies well_formed(#[trigger] t[i].1) by {
                assert(t[i] == d[i + 1]);
            }
        }
        lemma_put_wf(t, k, v);
        assert forall|j: int| 0 <= j < r.len() implies well_formed(#[trigger] r[j].1) by {
            if j > 0 {
                assert(r[j] == dict_put(t, k, v)[j - 1]);
            }
        }
    } else if d.len() > 0 {
        assert forall|j: int| 0 <= j < r.len() implies well_formed(#[trigger] r[j].1) by {
            if j > 0 && d[0].0 == k {
                assert(r[j] == d[j]);
            } else if j > 0 {
                assert(r[j] == d[j - 1]);
            }
        }
    }
}

proof fn lemma_dict_from_wf(ps: Seq<(Seq<char>, Model)>)
    requires
        entries_wf(ps),
    ensures
        sorted_keys(dict_from(ps)),
        entries_wf(dict_from(ps)),
    decreases ps.len(),
{
    if ps.len() > 0 {
        let p = ps.drop_last();
        assert(entries_wf(p)) by {
            assert forall|i: int| 0 <= i < p.len() implies well_formed(#[trigger] p[i].1) by {
                assert(p[i] == ps[i]);
            }
        }
        lemma_dict_from_wf(p);
        assert(well_formed(ps[ps.len() - 1].1));
        law_put_keeps_keys_sorted(dict_from(p), ps.last().0, ps.last().1);
        lemma_put_wf(dict_from(p), ps.last().0, ps.last().1);
    }
}

/// Every value that decoding yields is well formed: its maps have their
/// keys sorted, each once.
pub proof fn lemma_parse_wf(b: Seq<u8>)
    ensures
        parse(b) matches Ok((m, _)) ==> well_formed(m),
    decreases b.len(), 0nat, 0nat,
{
    if let Ok((t, r)) = token(b) {
        if r.len() < b.len() {
            match t {
                Tok::FixedList(n) => {
                    lemma_items_parse_wf(r, n);
                    if let Ok((xs, _)) = parse_items(r, n) {
                        lemma_items_wf_iff(xs);
                    }
                },
                Tok::OpenList => {
                    lemma_open_items_parse_wf(r);
                    if let Ok((xs, _)) = parse_open_items(r) {
                        lemma_items_wf_iff(xs);
                    }
                },
                Tok::FixedMap(n) => {
                    lemma_entries_parse_wf(r, n);
                    if let Ok((ps, _)) = parse_entries(r, n) {
                        lemma_dict_from_wf(ps);
                        lemma_entries_wf_iff(dict_from(ps));
                    }
                },
                Tok::OpenMap => {
                    lemma_open_entries_parse_wf(r);
                    if let Ok((ps, _)) = parse_open_entries(r) {
                        lemma_dict_from_wf(ps);
                        lemma_entries_wf_iff(dict_from(ps));
                    }
                },
                _ => {},
            }
        }
    }
}

proof fn lemma_items_parse_wf(b: Seq<u8>, n: nat)
    ensures
        parse_items(b, n) matches Ok((xs, _)) ==> items_wf(xs),
    decreases b.len(), 1nat, n,
{
    if n > 0 {
        lemma_items_parse_wf(b, (n - 1) as nat);
        if let Ok((xs, r)) = parse_items(b, (n - 1) as nat) {
            if r.len() <= b.len() {
                lemma_parse_wf(r);
                if let Ok((x, _)) = required(parse(r)) {
                    assert forall|i: int| 0 <= i < xs.push(x).len() implies well_formed(#[trigger] xs.push(x)[i]) by {
                        if i < xs.len() {
                            assert(xs.push(x)[i] == xs[i]);
                        }
                    }
                }
            }
        }
    }
}

proof fn lemma_open_items_parse_wf(b: Seq<u8>)
    ensures
        parse_open_items(b) matches Ok((xs, _)) ==> items_wf(xs),
    decreases b.len(), 2nat, 0nat,
{
    if let Ok((x, r)) = parse(b) {
        if r.len() < b.len() {
            lemma_parse_wf(b);
            lemma_open_items_parse_wf(r);
            if let Ok((xs, _)) = parse_open_items(r) {
                assert forall|i: int| 0 <= i < (seq![x] + xs).len() implies well_formed(#[trigger] (seq![x] + xs)[i]) by {
                    if i > 0 {
                        assert((seq![x] + xs)[i] == xs[i - 1]);
                    }
                }
            }
        }
    }
}

proof fn lemma_entries_parse_wf(b: Seq<u8>, n: nat)
    ensures
        parse_entries(b, n) matches Ok((ps, _)) ==> entries_wf(ps),
    decreases b.len(), 1nat, n,
{
    if n > 0 {
        lemma_entries_parse_wf(b, (n - 1) as nat);
        if let Ok((ps, r)) = parse_entries(b, (n - 1) as nat) {
            if let Ok((k, r2)) = parse_key(r) {
                if r2.len() <= b.len() {
                    lemma_parse_wf(r2);
                    if let Ok((v, _)) = required(parse(r2)) {
                        assert forall|i: int| 0 <= i < ps.push((k, v)).len() implies well_formed(#[trigger] ps.push((k, v))[i].1) by {
                            if i < ps.len() {
                                assert(ps.push((k, v))[i] == ps[i]);
                            }
                        }
                    }
                }
            }
        }
    }
}

proof fn lemma_open_entries_parse_wf(b: Seq<u8>)
    ensures
        parse_open_entries(b) matches Ok((ps, _)) ==> entries_wf(ps),
    decreases b.len(), 2nat, 0nat,
{
    if let Ok((k, r)) = parse_key(b) {
        if r.len() < b.len() {
            lemma_parse_wf(r);
            if let Ok((v, r2)) = required(parse(r)) {
                if r2.len() < b.len() {
                    lemma_open_entries_parse_wf(r2);
                    if let Ok((ps, _)) = parse_open_entries(r2) {
                        let all = seq![(k, v)] + ps;
                        assert forall|i: int| 0 <= i < all.len() implies well_formed(#[trigger] all[i].1) by {
                            if i > 0 {
                                assert(all[i] == ps[i - 1]);
                            }
                        }
                    }
                }
            }
        }
    }
}

} // verus!
