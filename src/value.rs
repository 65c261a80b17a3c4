//! The generic value: what any encoded datum decodes to when no target
//! shape is known, and what can be encoded without one.
use vstd::prelude::*;
use vstd::utf8::{encode_utf8, encode_utf8_decode_utf8};

verus! {

/// A decodable value. Floats are held as their IEEE-754 bit patterns.
/// The entries of a `Dict` are kept sorted by the bytes of their keys,
/// with no key twice (see `Value::wf`).
#[derive(Debug, PartialEq)]
pub enum Value {
    Null,
    I64(i64),
    U64(u64),
    F64(u64),
    Bool(bool),
    String(String),
    List(Vec<Value>),
    Dict(Vec<(String, Value)>),
}

/// The mathematical model of a `Value`.
pub enum Model {
    Null,
    I64(i64),
    U64(u64),
    F64(u64),
    Bool(bool),
    Str(Seq<char>),
    List(Seq<Model>),
    Dict(Seq<(Seq<char>, Model)>),
}

impl Value {
    pub open spec fn model(self) -> Model
        decreases self,
    {
        match self {
            Value::Null => Model::Null,
            Value::I64(n) => Model::I64(n),
            Value::U64(n) => Model::U64(n),
            Value::F64(b) => Model::F64(b),
            Value::Bool(b) => Model::Bool(b),
            Value::String(s) => Model::Str(s@),
            Value::List(items) => Model::List(models(items@)),
            Value::Dict(entries) => Model::Dict(entry_models(entries@)),
        }
    }

    /// Every map inside the value has its keys in strictly increasing order.
    pub open spec fn wf(self) -> bool {
        well_formed(self.model())
    }
}

pub open spec fn models(s: Seq<Value>) -> Seq<Model>
    decreases s,
{
    if s.len() == 0 {
        Seq::empty()
    } else {
        models(s.drop_last()).push(s.last().model())
    }
}

pub open spec fn entry_models(s: Seq<(String, Value)>) -> Seq<(Seq<char>, Model)>
    decreases s,
{
    if s.len() == 0 {
        Seq::empty()
    } else {
        entry_models(s.drop_last()).push((s.last().0@, s.last().1.model()))
    }
}

/// Byte-wise lexicographic order on `a` and `b`, compared from index `i` on.
pub open spec fn lt_from(a: Seq<u8>, b: Seq<u8>, i: int) -> bool
    decreases a.len() - i,
{
    if i >= a.len() {
        i < b.len()
    } else if i >= b.len() {
        false
    } else if a[i] != b[i] {
        a[i] < b[i]
    } else {
        lt_from(a, b, i + 1)
    }
}

/// The order of map keys: lexicographic on their UTF-8 bytes.
pub open spec fn key_lt(a: Seq<char>, b: Seq<char>) -> bool {
    lt_from(encode_utf8(a), encode_utf8(b), 0)
}

/// The keys of `d` are strictly increasing.
pub open spec fn sorted_keys(d: Seq<(Seq<char>, Model)>) -> bool {
    forall|i: int, j: int| 0 <= i < j < d.len() ==> key_lt(#[trigger] d[i].0, #[trigger] d[j].0)
}

pub open spec fn well_formed(m: Model) -> bool
    decreases m,
{
    match m {
        Model::List(items) => all_well_formed(items),
        Model::Dict(d) => sorted_keys(d) && all_entries_well_formed(d),
        _ => true,
    }
}

pub open spec fn all_well_formed(s: Seq<Model>) -> bool
    decreases s,
{
    if s.len() == 0 {
        true
    } else {
        all_well_formed(s.drop_last()) && well_formed(s.last())
    }
}

pub open spec fn all_entries_well_formed(d: Seq<(Seq<char>, Model)>) -> bool
    decreases d,
{
    if d.len() == 0 {
        true
    } else {
        all_entries_well_formed(d.drop_last()) && well_formed(d.last().1)
    }
}

/// `d` with `k` bound to `v`: the entry of key `k` is replaced in place, or
/// a new entry is put before the first key that is not below `k`.
pub open spec fn dict_put(d: Seq<(Seq<char>, Model)>, k: Seq<char>, v: Model) -> Seq<(Seq<char>, Model)>
    decreases d.len(),
{
    if d.len() == 0 {
        seq![(k, v)]
    } else if !key_lt(d[0].0, k) {
        if d[0].0 == k {
            seq![(k, v)] + d.drop_first()
        } else {
            seq![(k, v)] + d
        }
    } else {
        seq![d[0]] + dict_put(d.drop_first(), k, v)
    }
}

/// The map built by putting the pairs of `s` one after another, first to last.
pub open spec fn dict_from(s: Seq<(Seq<char>, Model)>) -> Seq<(Seq<char>, Model)>
    decreases s.len(),
{
    if s.len() == 0 {
        Seq::empty()
    } else {
        dict_put(dict_from(s.drop_last()), s.last().0, s.last().1)
    }
}

pub proof fn lemma_models_map(s: Seq<Value>)
    ensures
        models(s) == s.map_values(|x: Value| x.model()),
    decreases s.len(),
{
    if s.len() > 0 {
        lemma_models_map(s.drop_last());
        assert(models(s) =~= s.map_values(|x: Value| x.model()));
    } else {
        assert(models(s) =~= s.map_values(|x: Value| x.model()));
    }
}

pub proof fn lemma_entry_models_map(s: Seq<(String, Value)>)
    ensures
        entry_models(s) == s.map_values(|e: (String, Value)| (e.0@, e.1.model())),
    decreases s.len(),
{
    if s.len() > 0 {
        lemma_entry_models_map(s.drop_last());
    }
    assert(entry_models(s) =~= s.map_values(|e: (String, Value)| (e.0@, e.1.model())));
}

/// Whether key `a` orders before key `b`: byte-wise lexicographic order.
pub fn key_less(a: &str, b: &str) -> (r: bool)
    ensures
        r == key_lt(a@, b@),
{
    let x = a.as_bytes();
    let y = b.as_bytes();
    let mut i: usize = 0;
    while i < x.len() && i < y.len() && x[i] == y[i]
        invariant
            0 <= i <= x@.len(),
            i <= y@.len(),
            x@ == encode_utf8(a@),
            y@ == encode_utf8(b@),
            lt_from(x@, y@, 0) == lt_from(x@, y@, i as int),
        decreases x@.len() - i,
    {
        i = i + 1;
    }
    if i < x.len() && i < y.len() {
        x[i] < y[i]
    } else {
        i >= x.len() && i < y.len()
    }
}

/// Whether two keys are the same string.
pub fn key_eq(a: &str, b: &str) -> (r: bool)
    ensures
        r == (a@ == b@),
{
    let x = a.as_bytes();
    let y = b.as_bytes();
    proof {
        encode_utf8_decode_utf8(a@);
        encode_utf8_decode_utf8(b@);
    }
    if x.len() != y.len() {
        return false;
    }
    let mut i: usize = 0;
    while i < x.len()
        invariant
            0 <= i <= x@.len(),
            x@.len() == y@.len(),
            x@ == encode_utf8(a@),
            y@ == encode_utf8(b@),
            forall|j: int| 0 <= j < i ==> x@[j] == y@[j],
        decreases x@.len() - i,
    {
        if x[i] != y[i] {
            return false;
        }
        i = i + 1;
    }
    assert(x@ =~= y@);
    true
}

/// `dict_put` once the place of `k` is known: `p` is the first index whose
/// key is not below `k`.
pub proof fn lemma_dict_put_at(d: Seq<(Seq<char>, Model)>, k: Seq<char>, v: Model, p: int)
    requires
        0 <= p <= d.len(),
        forall|j: int| 0 <= j < p ==> key_lt(#[trigger] d[j].0, k),
        p == d.len() || !key_lt(d[p].0, k),
    ensures
        dict_put(d, k, v) == (if p < d.len() && d[p].0 == k {
            d.subrange(0, p).push((k, v)) + d.subrange(p + 1, d.len() as int)
        } else {
            d.subrange(0, p).push((k, v)) + d.subrange(p, d.len() as int)
        }),
    decreases p,
{
    if p == 0 {
        if d.len() == 0 {
            assert(dict_put(d, k, v) =~= d.subrange(0, p).push((k, v)) + d.subrange(p, d.len() as int));
        } else if d[0].0 == k {
            assert(dict_put(d, k, v) =~= d.subrange(0, p).push((k, v)) + d.subrange(p + 1, d.len() as int));
        } else {
            assert(dict_put(d, k, v) =~= d.subrange(0, p).push((k, v)) + d.subrange(p, d.len() as int));
        }
    } else {
        let t = d.drop_first();
        assert forall|j: int| 0 <= j < p - 1 implies key_lt(#[trigger] t[j].0, k) by {
            assert(t[j] == d[j + 1]);
        }
        lemma_dict_put_at(t, k, v, p - 1);
        assert(key_lt(d[0].0, k));
        if p < d.len() && d[p].0 == k {
            assert(dict_put(d, k, v) =~= d.subrange(0, p).push((k, v)) + d.subrange(p + 1, d.len() as int));
        } else {
            assert(dict_put(d, k, v) =~= d.subrange(0, p).push((k, v)) + d.subrange(p, d.len() as int));
        }
    }
}

/// Binds `k` to `v` in the map entries `d`, as a sorted map does.
pub fn dict_insert(d: &mut Vec<(String, Value)>, k: String, v: Value)
    ensures
        entry_models(final(d)@) == dict_put(entry_models(old(d)@), k@, v.model()),
        sorted_keys(entry_models(old(d)@)) ==> sorted_keys(entry_models(final(d)@)),
{
    let ghost e = entry_models(d@);
    proof {
        lemma_entry_models_map(d@);
    }
    let mut i: usize = 0;
    while i < d.len() && key_less(d[i].0.as_str(), k.as_str())
        invariant
            0 <= i <= d@.len(),
            d@ == old(d)@,
            e == entry_models(d@),
            e == d@.map_values(|x: (String, Value)| (x.0@, x.1.model())),
            forall|j: int| 0 <= j < i ==> key_lt(#[trigger] e[j].0, k@),
        decreases d@.len() - i,
    {
        i = i + 1;
    }
    let ghost m = v.model();
    let ghost kk = k@;
    proof {
        lemma_dict_put_at(e, kk, m, i as int);
        lemma_entry_models_map(old(d)@);
        if sorted_keys(e) {
            crate::laws::law_put_keeps_keys_sorted(e, kk, m);
        }
    }
    if i < d.len() && key_eq(d[i].0.as_str(), k.as_str()) {
        d.remove(i);
        d.insert(i, (k, v));
        proof {
            lemma_entry_models_map(d@);
            assert(entry_models(d@) =~= e.subrange(0, i as int).push((kk, m)) + e.subrange(i + 1, e.len() as int));
        }
    } else {
        d.insert(i, (k, v));
        proof {
            lemma_entry_models_map(d@);
            assert(entry_models(d@) =~= e.subrange(0, i as int).push((kk, m)) + e.subrange(i as int, e.len() as int));
        }
    }
}

} // verus!
