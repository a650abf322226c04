use vstd::prelude::*;

use crate::boolean::{bytes_at, matches_at, parse_bool_at, spec_parse_bool};
use crate::error::{PdfError, PdfErrorKind};
use crate::name::{spec_parse_name, PdfName};
use crate::numeric::{
    all_digits, digits_value, find_ws, lemma_digits_value_nonneg, lemma_find_ws_bounds,
    spec_is_digit, spec_parse_numeric, token_end, NumericModel, PdfNumeric,
};
use crate::scan::{
    is_regular, is_whitespace, lemma_skip_ws_bounds, skip_whitespace_at, skip_ws, spec_is_regular,
    spec_is_whitespace,
};
use crate::string::{spec_parse_string, PdfString};

use crate::parsable::{reads, rest_from, tail, Parsable};
verus! {

/// The identity of an indirect object: its object and generation numbers.
#[derive(Clone, Copy, Debug, PartialEq, Eq)]
pub struct IndirectData {
    pub object: usize,
    pub generation: usize,
}

/// The `null` object.
#[derive(Clone, Copy, Debug, PartialEq, Eq)]
pub struct PdfNull {}

/// An ordered sequence of objects.
#[derive(Debug, PartialEq)]
pub struct PdfArray {
    data: Vec<PdfObject>,
}

/// A dictionary from names to objects. Each key occurs once and the entries are kept in
/// increasing byte order of their keys, so `==` compares dictionaries as maps.
#[derive(Debug, PartialEq)]
pub struct PdfDict {
    data: Vec<DictEntry>,
}

/// One entry of a dictionary.
#[derive(Debug, PartialEq)]
pub struct DictEntry {
    key: PdfName,
    value: PdfObject,
}

/// A stream: its dictionary, its length and its bytes.
#[derive(Debug, PartialEq)]
pub struct PdfStream {
    info: PdfDict,
    length: usize,
    data: Vec<u8>,
}

/// What an object is.
#[derive(Debug, PartialEq)]
pub enum PdfObjectKind {
    Boolean(bool),
    Numeric(PdfNumeric),
    String(PdfString),
    Name(PdfName),
    Array(PdfArray),
    Dict(PdfDict),
    Stream(PdfStream),
    Null(PdfNull),
    Ref,
}

/// An object, with its identity when it was read as an indirect object or is a reference.
#[derive(Debug, PartialEq)]
pub struct PdfObject {
    kind: PdfObjectKind,
    indirect: Option<IndirectData>,
}

/// The value of a dictionary: its entries in order, keys as bytes.
pub type DictModel = Seq<(Seq<u8>, ObjectModel)>;

/// The mathematical value of an object's kind.
pub enum KindModel {
    Boolean(bool),
    Numeric(NumericModel),
    String(Seq<u8>),
    Name(Seq<u8>),
    Array(Seq<ObjectModel>),
    Dict(DictModel),
    Stream(DictModel, int, Seq<u8>),
    Null,
    Ref,
}

/// The mathematical value of an object.
pub struct ObjectModel {
    pub kind: KindModel,
    pub indirect: Option<IndirectData>,
}

pub open spec fn direct(kind: KindModel) -> ObjectModel {
    ObjectModel { kind, indirect: None }
}

pub closed spec fn objects_view(v: Seq<PdfObject>) -> Seq<ObjectModel>
    decreases v,
{
    Seq::new(
        v.len(),
        |k: int|
            if 0 <= k < v.len() {
                object_view(v[k])
            } else {
                direct(KindModel::Null)
            },
    )
}

pub closed spec fn entries_view(v: Seq<DictEntry>) -> DictModel
    decreases v,
{
    Seq::new(
        v.len(),
        |k: int|
            if 0 <= k < v.len() {
                (v[k].key@, object_view(v[k].value))
            } else {
                (Seq::empty(), direct(KindModel::Null))
            },
    )
}

pub closed spec fn object_view(o: PdfObject) -> ObjectModel
    decreases o,
{
    ObjectModel {
        kind: match o.kind {
            PdfObjectKind::Boolean(b) => KindModel::Boolean(b),
            PdfObjectKind::Numeric(n) => KindModel::Numeric(n@),
            PdfObjectKind::String(s) => KindModel::String(s@),
            PdfObjectKind::Name(n) => KindModel::Name(n@),
            PdfObjectKind::Array(a) => KindModel::Array(objects_view(a.data@)),
            PdfObjectKind::Dict(d) => KindModel::Dict(entries_view(d.data@)),
            PdfObjectKind::Stream(st) => KindModel::Stream(
                entries_view(st.info.data@),
                st.length as int,
                st.data@,
            ),
            PdfObjectKind::Null(_) => KindModel::Null,
            PdfObjectKind::Ref => KindModel::Ref,
        },
        indirect: o.indirect,
    }
}

impl View for PdfObject {
    type V = ObjectModel;

    closed spec fn view(&self) -> ObjectModel {
        object_view(*self)
    }
}

impl View for PdfArray {
    type V = Seq<ObjectModel>;

    closed spec fn view(&self) -> Seq<ObjectModel> {
        objects_view(self.data@)
    }
}

impl View for PdfDict {
    type V = DictModel;

    closed spec fn view(&self) -> DictModel {
        entries_view(self.data@)
    }
}

impl View for DictEntry {
    type V = (Seq<u8>, ObjectModel);

    closed spec fn view(&self) -> (Seq<u8>, ObjectModel) {
        (self.key@, object_view(self.value))
    }
}

impl View for PdfStream {
    type V = (DictModel, int, Seq<u8>);

    closed spec fn view(&self) -> (DictModel, int, Seq<u8>) {
        (entries_view(self.info.data@), self.length as int, self.data@)
    }
}

// ----- dictionaries as sequences of entries -----

/// The first index at or after `from` whose key is `k`, or -1.
pub open spec fn dict_index_from(d: DictModel, k: Seq<u8>, from: int) -> int
    decreases d.len() - from,
{
    if from < 0 || from >= d.len() {
        -1
    } else if d[from].0 == k {
        from
    } else {
        dict_index_from(d, k, from + 1)
    }
}

pub open spec fn dict_index(d: DictModel, k: Seq<u8>) -> int {
    dict_index_from(d, k, 0)
}

/// Byte-wise order of `a` and `b` from position `i` on: the first differing byte
/// decides, and a proper prefix comes first.
pub open spec fn lt_from(a: Seq<u8>, b: Seq<u8>, i: int) -> bool
    decreases a.len() - i,
{
    if i < 0 || i >= a.len() {
        0 <= i < b.len()
    } else if i >= b.len() {
        false
    } else if a[i] != b[i] {
        a[i] < b[i]
    } else {
        lt_from(a, b, i + 1)
    }
}

/// Whether key `a` orders before key `b`, byte by byte.
pub open spec fn bytes_lt(a: Seq<u8>, b: Seq<u8>) -> bool {
    lt_from(a, b, 0)
}

/// The keys stand in increasing order (so each occurs once).
pub open spec fn keys_sorted(d: DictModel) -> bool {
    forall|i: int, j: int| 0 <= i < j < d.len() ==> bytes_lt(d[i].0, d[j].0)
}

/// The first index at or after `from` whose key orders after `k`, or the length.
pub open spec fn insert_pos_from(d: DictModel, k: Seq<u8>, from: int) -> int
    decreases d.len() - from,
{
    if from < 0 || from >= d.len() {
        d.len() as int
    } else if bytes_lt(k, d[from].0) {
        from
    } else {
        insert_pos_from(d, k, from + 1)
    }
}

/// Where a new key `k` goes so that the keys stay in order.
pub open spec fn insert_pos(d: DictModel, k: Seq<u8>) -> int {
    insert_pos_from(d, k, 0)
}

/// The dictionary with `k` bound to `v`: an entry for `k` is replaced in place, else
/// one is added where the keys stay in order.
pub open spec fn dict_insert(d: DictModel, k: Seq<u8>, v: ObjectModel) -> DictModel {
    let idx = dict_index(d, k);
    if idx >= 0 {
        d.update(idx, (k, v))
    } else {
        d.insert(insert_pos(d, k), (k, v))
    }
}

proof fn lemma_lt_irreflexive(a: Seq<u8>, i: int)
    requires
        0 <= i,
    ensures
        !lt_from(a, a, i),
    decreases a.len() - i,
{
    if i < a.len() {
        lemma_lt_irreflexive(a, i + 1);
    }
}

proof fn lemma_lt_total(a: Seq<u8>, b: Seq<u8>, i: int)
    requires
        0 <= i,
        i <= a.len() && i <= b.len(),
        forall|q: int| 0 <= q < i ==> a[q] == b[q],
        a != b,
    ensures
        lt_from(a, b, i) || lt_from(b, a, i),
    decreases a.len() - i,
{
    if i >= a.len() && i >= b.len() {
        assert(a =~= b);
    } else if i < a.len() && i < b.len() && a[i] == b[i] {
        lemma_lt_total(a, b, i + 1);
    }
}

proof fn lemma_lt_transitive(a: Seq<u8>, b: Seq<u8>, c: Seq<u8>, i: int)
    requires
        0 <= i,
        lt_from(a, b, i),
        lt_from(b, c, i),
    ensures
        lt_from(a, c, i),
    decreases a.len() - i,
{
    if i < a.len() && i < b.len() && i < c.len() && a[i] == b[i] && b[i] == c[i] {
        lemma_lt_transitive(a, b, c, i + 1);
    }
}

proof fn lemma_insert_pos_from(d: DictModel, k: Seq<u8>, from: int)
    requires
        0 <= from <= d.len(),
    ensures
        from <= insert_pos_from(d, k, from) <= d.len(),
        forall|q: int| from <= q < insert_pos_from(d, k, from) ==> !bytes_lt(k, #[trigger] d[q].0),
        insert_pos_from(d, k, from) < d.len() ==> bytes_lt(k, d[insert_pos_from(d, k, from)].0),
    decreases d.len() - from,
{
    if from < d.len() && !bytes_lt(k, d[from].0) {
        lemma_insert_pos_from(d, k, from + 1);
    }
}

pub open spec fn dict_lookup(d: DictModel, k: Seq<u8>) -> Option<ObjectModel> {
    let idx = dict_index(d, k);
    if idx >= 0 {
        Some(d[idx].1)
    } else {
        None
    }
}

/// No key occurs twice.
pub open spec fn keys_unique(d: DictModel) -> bool {
    forall|i: int, j: int| 0 <= i < j < d.len() ==> d[i].0 != d[j].0
}

/// Keys in increasing order are unique.
pub proof fn lemma_sorted_unique(d: DictModel)
    requires
        keys_sorted(d),
    ensures
        keys_unique(d),
{
    assert forall|i: int, j: int| 0 <= i < j < d.len() implies d[i].0 != d[j].0 by {
        assert(bytes_lt(d[i].0, d[j].0));
        lemma_lt_irreflexive(d[i].0, 0);
    }
}

/// Binding a key keeps the keys of a dictionary in order, and the key is then bound to
/// the value.
pub proof fn lemma_dict_insert(d: DictModel, k: Seq<u8>, v: ObjectModel)
    requires
        keys_sorted(d),
    ensures
        keys_sorted(dict_insert(d, k, v)),
        keys_unique(dict_insert(d, k, v)),
        dict_lookup(dict_insert(d, k, v), k) == Some(v),
{
    lemma_dict_index_from(d, k, 0);
    let e = dict_insert(d, k, v);
    let idx = dict_index(d, k);
    if idx >= 0 {
        assert forall|i: int, j: int| 0 <= i < j < e.len() implies bytes_lt(e[i].0, e[j].0) by {
            assert(e[i].0 == d[i].0 && e[j].0 == d[j].0);
        }
        lemma_sorted_unique(e);
        assert(forall|q: int| 0 <= q < idx ==> #[trigger] e[q].0 != k) by {
            lemma_sorted_unique(d);
        }
        lemma_dict_index_first(e, k, idx);
    } else {
        let p = insert_pos(d, k);
        lemma_insert_pos_from(d, k, 0);
        assert(e =~= d.subrange(0, p).push((k, v)) + d.subrange(p, d.len() as int));
        assert forall|q: int| 0 <= q < p implies bytes_lt(#[trigger] d[q].0, k) by {
            lemma_lt_total(d[q].0, k, 0);
        }
        assert forall|i: int, j: int| 0 <= i < j < e.len() implies bytes_lt(e[i].0, e[j].0) by {
            if j < p {
                assert(e[i] == d[i] && e[j] == d[j]);
            } else if j == p {
                assert(e[i] == d[i] && e[j].0 == k);
            } else if i == p {
                assert(e[j] == d[j - 1]);
                if j - 1 > p {
                    assert(bytes_lt(d[p].0, d[j - 1].0));
                    lemma_lt_transitive(k, d[p].0, d[j - 1].0, 0);
                }
            } else if i < p {
                assert(e[i] == d[i] && e[j] == d[j - 1]);
            } else {
                assert(e[i] == d[i - 1] && e[j] == d[j - 1]);
            }
        }
        lemma_sorted_unique(e);
        assert(e[p].0 == k);
        assert(forall|q: int| 0 <= q < p ==> #[trigger] e[q].0 != k) by {
            assert forall|q: int| 0 <= q < p implies #[trigger] e[q].0 != k by {
                assert(e[q] == d[q]);
            }
        }
        lemma_dict_index_first(e, k, p);
    }
}

proof fn lemma_dict_index_first(d: DictModel, k: Seq<u8>, idx: int)
    requires
        0 <= idx < d.len(),
        d[idx].0 == k,
        forall|q: int| 0 <= q < idx ==> #[trigger] d[q].0 != k,
    ensures
        dict_index(d, k) == idx,
{
    lemma_dict_index_skip(d, k, 0, idx);
}

proof fn lemma_dict_index_skip(d: DictModel, k: Seq<u8>, from: int, idx: int)
    requires
        0 <= from <= idx < d.len(),
        d[idx].0 == k,
        forall|q: int| from <= q < idx ==> #[trigger] d[q].0 != k,
    ensures
        dict_index_from(d, k, from) == idx,
    decreases idx - from,
{
    if from < idx {
        lemma_dict_index_skip(d, k, from + 1, idx);
    }
}

pub proof fn lemma_dict_index_from(d: DictModel, k: Seq<u8>, from: int)
    requires
        0 <= from,
    ensures
        -1 <= dict_index_from(d, k, from) < d.len(),
        dict_index_from(d, k, from) >= 0 ==> dict_index_from(d, k, from) >= from && d[dict_index_from(d, k, from)].0 == k,
        dict_index_from(d, k, from) == -1 ==> forall|q: int| from <= q < d.len() ==> #[trigger] d[q].0 != k,
    decreases d.len() - from,
{
    if from < d.len() && d[from].0 != k {
        lemma_dict_index_from(d, k, from + 1);
    }
}

// ----- keywords -----

pub open spec fn null_bytes() -> Seq<u8> {
    seq![0x6eu8, 0x75, 0x6c, 0x6c]
}

pub open spec fn obj_bytes() -> Seq<u8> {
    seq![0x6fu8, 0x62, 0x6a]
}

pub open spec fn endobj_bytes() -> Seq<u8> {
    seq![0x65u8, 0x6e, 0x64, 0x6f, 0x62, 0x6a]
}

pub open spec fn stream_bytes() -> Seq<u8> {
    seq![0x73u8, 0x74, 0x72, 0x65, 0x61, 0x6d]
}

pub open spec fn endstream_bytes() -> Seq<u8> {
    seq![0x65u8, 0x6e, 0x64, 0x73, 0x74, 0x72, 0x65, 0x61, 0x6d]
}

pub open spec fn length_key() -> Seq<u8> {
    seq![0x4cu8, 0x65, 0x6e, 0x67, 0x74, 0x68]
}

/// `null` read at `i`: the next byte, if any, must not be regular; trailing whitespace
/// is consumed.
pub open spec fn spec_parse_null(s: Seq<u8>, i: int) -> Result<int, PdfErrorKind> {
    if matches_at(s, i, null_bytes()) && (i + 4 == s.len() || !spec_is_regular(s[i + 4])) {
        Ok(skip_ws(s, i + 4))
    } else {
        Err(PdfErrorKind::Parse)
    }
}

/// A token of decimal digits whose value fits in `usize`.
pub open spec fn is_uint_token(t: Seq<u8>) -> bool {
    t.len() > 0 && all_digits(t) && digits_value(t) <= usize::MAX
}

// ----- the object grammar -----

/// An object read at position `i`, chosen by its first bytes.
pub open spec fn spec_parse_object(s: Seq<u8>, i: int) -> Result<(ObjectModel, int), PdfErrorKind>
    decreases s.len() - i, 3int,
{
    if i < 0 || i > s.len() {
        Err(PdfErrorKind::Parse)
    } else if i + 1 < s.len() && s[i] == 0x3c && s[i + 1] == 0x3c {
        match spec_parse_dict(s, i) {
            Ok((d, e)) => Ok((direct(KindModel::Dict(d)), e)),
            Err(err) => Err(err),
        }
    } else if i < s.len() && s[i] == 0x5b {
        match spec_parse_array(s, i) {
            Ok((a, e)) => Ok((direct(KindModel::Array(a)), e)),
            Err(err) => Err(err),
        }
    } else if i < s.len() && (s[i] == 0x28 || s[i] == 0x3c) {
        match spec_parse_string(s, i) {
            Ok((v, e)) => Ok((direct(KindModel::String(v)), e)),
            Err(err) => Err(err),
        }
    } else if i < s.len() && s[i] == 0x2f {
        match spec_parse_name(s, i) {
            Ok((v, e)) => Ok((direct(KindModel::Name(v)), e)),
            Err(err) => Err(err),
        }
    } else if i < s.len() && (s[i] == 0x66 || s[i] == 0x74) {
        match spec_parse_bool(s, i) {
            Ok((v, e)) => Ok((direct(KindModel::Boolean(v)), e)),
            Err(err) => Err(err),
        }
    } else if i < s.len() && s[i] == 0x6e {
        match spec_parse_null(s, i) {
            Ok(e) => Ok((direct(KindModel::Null), e)),
            Err(err) => Err(err),
        }
    } else {
        match spec_parse_indirect(s, i) {
            Ok(r) => Ok(r),
            Err(_) => match spec_parse_numeric(s, i) {
                Ok((v, e)) => Ok((direct(KindModel::Numeric(v)), e)),
                Err(err) => Err(err),
            },
        }
    }
}

/// An array read at `i`: `[`, objects separated by optional whitespace, `]`.
pub open spec fn spec_parse_array(s: Seq<u8>, i: int) -> Result<(Seq<ObjectModel>, int), PdfErrorKind>
    decreases s.len() - i, 2int,
{
    if 0 <= i < s.len() && s[i] == 0x5b {
        array_items(s, i + 1, Seq::empty())
    } else {
        Err(PdfErrorKind::Parse)
    }
}

/// The rest of an array from `j` on, after the elements `acc`. An object parse that
/// consumed nothing is refused (parses always consume, so that branch is never taken).
pub open spec fn array_items(s: Seq<u8>, j: int, acc: Seq<ObjectModel>) -> Result<
    (Seq<ObjectModel>, int),
    PdfErrorKind,
>
    decreases s.len() - j, 4int,
{
    if j < 0 || j >= s.len() {
        Err(PdfErrorKind::Parse)
    } else if spec_is_whitespace(s[j]) {
        array_items(s, j + 1, acc)
    } else {
        match spec_parse_object(s, j) {
            Ok((o, e)) => if j < e <= s.len() {
                array_items(s, e, acc.push(o))
            } else {
                Err(PdfErrorKind::Parse)
            },
            Err(_) => if s[j] == 0x5d {
                Ok((acc, j + 1))
            } else {
                Err(PdfErrorKind::Parse)
            },
        }
    }
}

/// A dictionary read at `i`: `<<`, pairs of a name and an object, `>>`, and the
/// whitespace after it. A later pair for a key replaces the earlier one.
pub open spec fn spec_parse_dict(s: Seq<u8>, i: int) -> Result<(DictModel, int), PdfErrorKind>
    decreases s.len() - i, 2int,
{
    if 0 <= i && i + 1 < s.len() && s[i] == 0x3c && s[i + 1] == 0x3c {
        dict_items(s, i + 2, Seq::empty())
    } else {
        Err(PdfErrorKind::Parse)
    }
}

/// The rest of a dictionary from `j` on, after the entries `acc`: whitespace, then `>>`
/// or a key. A parse that consumed nothing is refused (it never happens).
pub open spec fn dict_items(s: Seq<u8>, j: int, acc: DictModel) -> Result<(DictModel, int), PdfErrorKind>
    decreases s.len() - j, 4int,
{
    if j < 0 || j >= s.len() {
        Err(PdfErrorKind::Parse)
    } else if spec_is_whitespace(s[j]) {
        dict_items(s, j + 1, acc)
    } else if j + 1 < s.len() && s[j] == 0x3e && s[j + 1] == 0x3e {
        Ok((acc, skip_ws(s, j + 2)))
    } else {
        match spec_parse_name(s, j) {
            Ok((k, p)) => if j < p <= s.len() {
                dict_value(s, p, k, acc)
            } else {
                Err(PdfErrorKind::Parse)
            },
            Err(err) => Err(err),
        }
    }
}

/// The value for key `k`, read from `p` on after optional whitespace, then the rest. A
/// parse that consumed nothing is refused (it never happens).
pub open spec fn dict_value(s: Seq<u8>, p: int, k: Seq<u8>, acc: DictModel) -> Result<
    (DictModel, int),
    PdfErrorKind,
>
    decreases s.len() - p, 4int,
{
    if p < 0 || p > s.len() {
        Err(PdfErrorKind::Parse)
    } else if p < s.len() && spec_is_whitespace(s[p]) {
        dict_value(s, p + 1, k, acc)
    } else {
        match spec_parse_object(s, p) {
            Ok((v, e)) => if p < e <= s.len() {
                dict_items(s, e, dict_insert(acc, k, v))
            } else {
                Err(PdfErrorKind::Parse)
            },
            Err(err) => Err(err),
        }
    }
}

/// `<object> <generation>` and what follows them: `R`, or `obj` and a body.
pub open spec fn spec_parse_indirect(s: Seq<u8>, i: int) -> Result<(ObjectModel, int), PdfErrorKind>
    decreases s.len() - i, 2int,
{
    if i < 0 || i > s.len() {
        Err(PdfErrorKind::Parse)
    } else {
        let e1 = find_ws(s, i);
        let j = skip_ws(s, e1);
        let e2 = find_ws(s, j);
        let k = skip_ws(s, e2);
        if e1 >= s.len() || !is_uint_token(s.subrange(i, e1)) {
            Err(PdfErrorKind::Parse)
        } else if e2 >= s.len() || !is_uint_token(s.subrange(j, e2)) {
            Err(PdfErrorKind::Parse)
        } else {
            let id = IndirectData {
                object: digits_value(s.subrange(i, e1)) as usize,
                generation: digits_value(s.subrange(j, e2)) as usize,
            };
            proof {
                lemma_find_ws_bounds(s, i);
                lemma_skip_ws_bounds(s, e1);
                lemma_find_ws_bounds(s, j);
                lemma_skip_ws_bounds(s, e2);
            }
            if matches_at(s, k, obj_bytes()) {
                indirect_body(s, k + 3, id)
            } else if k < s.len() && s[k] == 0x52 {
                Ok((ObjectModel { kind: KindModel::Ref, indirect: Some(id) }, k + 1))
            } else {
                Err(PdfErrorKind::Parse)
            }
        }
    }
}

/// After `obj`: an object, then `endobj`, or a stream.
pub open spec fn indirect_body(s: Seq<u8>, p: int, id: IndirectData) -> Result<
    (ObjectModel, int),
    PdfErrorKind,
>
    decreases s.len() - p, 4int,
{
    if p < 0 || p > s.len() {
        Err(PdfErrorKind::Parse)
    } else {
        let m = skip_ws(s, p);
        proof {
            lemma_skip_ws_bounds(s, p);
        }
        match spec_parse_object(s, m) {
            Err(err) => Err(err),
            Ok((o, q)) => {
                let t = skip_ws(s, q);
                if matches_at(s, t, endobj_bytes()) {
                    Ok((ObjectModel { kind: o.kind, indirect: Some(id) }, t + 6))
                } else if matches_at(s, t, stream_bytes()) {
                    stream_tail(s, t + 6, o, id)
                } else {
                    Err(PdfErrorKind::Parse)
                }
            },
        }
    }
}

/// The position after the line end that must follow `stream`, or -1.
pub open spec fn stream_start(s: Seq<u8>, r: int) -> int {
    if 0 <= r < s.len() && s[r] == 0x0a {
        r + 1
    } else if 0 <= r && r + 1 < s.len() && s[r] == 0x0d && s[r + 1] == 0x0a {
        r + 2
    } else {
        -1
    }
}

/// A stream's bytes from `r` on (just after `stream`): as many as the dictionary `o`
/// gives under `Length`, then `endstream` and `endobj`.
pub open spec fn stream_tail(s: Seq<u8>, r: int, o: ObjectModel, id: IndirectData) -> Result<
    (ObjectModel, int),
    PdfErrorKind,
> {
    let d = stream_start(s, r);
    if d < 0 {
        Err(PdfErrorKind::Parse)
    } else {
        match o.kind {
            KindModel::Dict(entries) => match dict_lookup(entries, length_key()) {
                None => Err(PdfErrorKind::MissingStreamLength),
                Some(lv) => match lv.kind {
                    KindModel::Numeric(NumericModel::Int(n)) => if n < 0 {
                        Err(PdfErrorKind::InvalidData)
                    } else if d + n > s.len() {
                        Err(PdfErrorKind::Parse)
                    } else {
                        let u = skip_ws(s, d + n);
                        let w = skip_ws(s, u + 9);
                        if !matches_at(s, u, endstream_bytes()) || !matches_at(s, w, endobj_bytes()) {
                            Err(PdfErrorKind::Parse)
                        } else {
                            Ok((
                                ObjectModel {
                                    kind: KindModel::Stream(entries, n as int, s.subrange(d, d + n)),
                                    indirect: Some(id),
                                },
                                w + 6,
                            ))
                        }
                    },
                    _ => Err(PdfErrorKind::WrongType),
                },
            },
            _ => Err(PdfErrorKind::WrongType),
        }
    }
}

} // verus!

verus! {

pub open spec fn object_result(
    r: Result<(PdfObject, usize), PdfError>,
    expected: Result<(ObjectModel, int), PdfErrorKind>,
    i: int,
    n: int,
) -> bool {
    match r {
        Ok((o, e)) => expected == Ok::<(ObjectModel, int), PdfErrorKind>((o@, e as int)) && i < e <= n,
        Err(err) => expected == Err::<(ObjectModel, int), PdfErrorKind>(err.kind),
    }
}

/// The value of a token of decimal digits, when it is one and fits in `usize`.
pub fn uint_token(t: &[u8]) -> (r: Option<usize>)
    ensures
        r == (if is_uint_token(t@) {
            Some(digits_value(t@) as usize)
        } else {
            None::<usize>
        }),
{
    let n = t.len();
    if n == 0 {
        return None;
    }
    let mut mag: usize = 0;
    let mut fits = true;
    let mut k: usize = 0;
    while k < n
        invariant
            0 <= k <= n,
            n == t@.len(),
            fits ==> mag == digits_value(t@.subrange(0, k as int)),
            !fits ==> digits_value(t@.subrange(0, k as int)) > usize::MAX,
            all_digits(t@.subrange(0, k as int)),
        decreases n - k,
    {
        let c = t[k];
        if !(0x30 <= c && c <= 0x39) {
            assert(!all_digits(t@)) by {
                assert(!spec_is_digit(t@[k as int]));
            }
            return None;
        }
        let ghost prev = t@.subrange(0, k as int);
        let ghost next = t@.subrange(0, k + 1);
        assert(next.drop_last() =~= prev);
        proof {
            lemma_digits_value_nonneg(prev);
        }
        assert(all_digits(next)) by {
            assert forall|q: int| 0 <= q < next.len() implies spec_is_digit(#[trigger] next[q]) by {
                if q < k {
                    assert(next[q] == prev[q]);
                }
            }
        }
        if fits {
            match mag.checked_mul(10) {
                Some(m) => match m.checked_add((c - 0x30) as usize) {
                    Some(v) => {
                        mag = v;
                    },
                    None => {
                        fits = false;
                    },
                },
                None => {
                    fits = false;
                },
            }
        }
        k = k + 1;
    }
    assert(t@.subrange(0, n as int) =~= t@);
    if fits {
        Some(mag)
    } else {
        None
    }
}

impl PdfNull {
    /// Reads `null` at position `i` of `b`, and the whitespace after it.
    pub fn parse_at(b: &[u8], i: usize) -> (r: Result<(PdfNull, usize), PdfError>)
        requires
            i <= b@.len(),
        ensures
            match r {
                Ok((_, e)) => spec_parse_null(b@, i as int) == Ok::<int, PdfErrorKind>(e as int) && i
                    < e <= b@.len(),
                Err(err) => spec_parse_null(b@, i as int) == Err::<int, PdfErrorKind>(err.kind),
            },
    {
        let kw: [u8; 4] = [0x6e, 0x75, 0x6c, 0x6c];
        assert(kw@ =~= null_bytes());
        if bytes_at(b, i, kw.as_slice()) && (b.len() - i == 4 || !is_regular(b[i + 4])) {
            let e = skip_whitespace_at(b, i + 4);
            Ok((PdfNull {  }, e))
        } else {
            Err(PdfError::parse_error())
        }
    }
}

/// Whether `a` orders before `b`, byte by byte.
pub fn bytes_less(a: &[u8], b: &[u8]) -> (r: bool)
    ensures
        r == bytes_lt(a@, b@),
{
    let mut i: usize = 0;
    while i < a.len() && i < b.len() && a[i] == b[i]
        invariant
            0 <= i <= a@.len(),
            i <= b@.len(),
            lt_from(a@, b@, i as int) == bytes_lt(a@, b@),
        decreases a@.len() - i,
    {
        i = i + 1;
    }
    if i >= a.len() {
        i < b.len()
    } else if i >= b.len() {
        false
    } else {
        a[i] < b[i]
    }
}

impl PdfDict {
    /// The keys stand in increasing byte order, so each occurs once and two dictionaries
    /// with the same bindings hold the same entries.
    #[verifier::type_invariant]
    spec fn sorted(&self) -> bool {
        keys_sorted(entries_view(self.data@))
    }

    pub fn new() -> (r: PdfDict)
        ensures
            r@ == Seq::<(Seq<u8>, ObjectModel)>::empty(),
    {
        let data: Vec<DictEntry> = Vec::new();
        assert(entries_view(data@) =~= Seq::<(Seq<u8>, ObjectModel)>::empty());
        let r = PdfDict { data };
        r
    }

    /// The index of the entry whose key has the bytes `key`.
    fn index_of(&self, key: &[u8]) -> (r: Option<usize>)
        ensures
            match r {
                Some(k) => dict_index(self@, key@) == k && k < self@.len(),
                None => dict_index(self@, key@) == -1,
            },
    {
        let n = self.data.len();
        let mut k: usize = 0;
        while k < n
            invariant
                0 <= k <= n,
                n == self.data@.len(),
                dict_index_from(self@, key@, k as int) == dict_index_from(self@, key@, 0),
            decreases n - k,
        {
            assert(self@[k as int].0 == self.data@[k as int].key@);
            if crate::scan::bytes_equal(self.data[k].key.bytes(), key) {
                return Some(k);
            }
            k = k + 1;
        }
        proof {
            lemma_dict_index_from(self@, key@, k as int);
        }
        None
    }

    /// Where an entry for the new key `key` goes.
    fn insert_position(&self, key: &[u8]) -> (r: usize)
        ensures
            r == insert_pos(self@, key@),
            r <= self@.len(),
    {
        let n = self.data.len();
        let mut k: usize = 0;
        proof {
            lemma_insert_pos_from(self@, key@, 0);
        }
        while k < n
            invariant
                0 <= k <= n,
                n == self.data@.len(),
                insert_pos_from(self@, key@, k as int) == insert_pos_from(self@, key@, 0),
            decreases n - k,
        {
            assert(self@[k as int].0 == self.data@[k as int].key@);
            if bytes_less(key, self.data[k].key.bytes()) {
                return k;
            }
            k = k + 1;
        }
        k
    }

    /// Binds `key` to `value`: an entry for `key` is replaced in place, else one is added.
    pub fn insert(&mut self, key: PdfName, value: PdfObject)
        ensures
            final(self)@ == dict_insert(old(self)@, key@, value@),
            keys_sorted(final(self)@),
            keys_unique(final(self)@),
    {
        proof {
            use_type_invariant(&*self);
            lemma_dict_insert(self@, key@, value@);
            lemma_dict_index_from(self@, key@, 0);
        }
        let ghost kv = (key@, value@);
        let idx = self.index_of(key.bytes());
        let pos = self.insert_position(key.bytes());
        let mut taken = PdfDict::new();
        std::mem::swap(self, &mut taken);
        let PdfDict { data } = taken;
        let mut data = data;
        let entry = DictEntry { key, value };
        match idx {
            Some(k) => {
                data.set(k, entry);
                assert(entries_view(data@) =~= old(self)@.update(k as int, kv));
            },
            None => {
                data.insert(pos, entry);
                assert(entries_view(data@) =~= old(self)@.insert(pos as int, kv));
            },
        }
        *self = PdfDict { data };
    }

    /// The value bound to the key whose bytes are `key`.
    pub fn get_by_bytes(&self, key: &[u8]) -> (r: Option<&PdfObject>)
        ensures
            match r {
                Some(v) => dict_lookup(self@, key@) == Some(v@),
                None => dict_lookup(self@, key@) is None,
            },
    {
        let n = self.data.len();
        let mut k: usize = 0;
        while k < n
            invariant
                0 <= k <= n,
                n == self.data@.len(),
                dict_index_from(self@, key@, k as int) == dict_index_from(self@, key@, 0),
            decreases n - k,
        {
            assert(self@[k as int] == (self.data@[k as int].key@, self.data@[k as int].value@));
            if crate::scan::bytes_equal(self.data[k].key.bytes(), key) {
                return Some(&self.data[k].value);
            }
            k = k + 1;
        }
        proof {
            lemma_dict_index_from(self@, key@, k as int);
        }
        None
    }

    /// A copy of the value bound to `key`, or `null` when there is none.
    pub fn get_or_null(&self, key: &PdfName) -> (r: PdfObject)
        ensures
            match dict_lookup(self@, key@) {
                Some(v) => r@ == v,
                None => r@ == direct(KindModel::Null),
            },
    {
        match self.get_by_bytes(key.bytes()) {
            Some(v) => copy_object(v),
            None => PdfObject { kind: PdfObjectKind::Null(PdfNull {  }), indirect: None },
        }
    }

    /// The value bound to `key`.
    pub fn get(&self, key: &PdfName) -> (r: Option<&PdfObject>)
        ensures
            match r {
                Some(v) => dict_lookup(self@, key@) == Some(v@),
                None => dict_lookup(self@, key@) is None,
            },
    {
        self.get_by_bytes(key.bytes())
    }

    pub fn len(&self) -> (r: usize)
        ensures
            r == self@.len(),
    {
        self.data.len()
    }

    /// Reads a dictionary at position `i` of `b`.
    pub fn parse_at(b: &[u8], i: usize) -> (r: Result<(PdfDict, usize), PdfError>)
        requires
            i <= b@.len(),
        ensures
            match r {
                Ok((d, e)) => spec_parse_dict(b@, i as int) == Ok::<(DictModel, int), PdfErrorKind>(
                    (d@, e as int),
                ) && i < e <= b@.len() && keys_sorted(d@) && keys_unique(d@),
                Err(err) => spec_parse_dict(b@, i as int) == Err::<(DictModel, int), PdfErrorKind>(
                    err.kind,
                ),
            },
        decreases b@.len() - i, 2int,
    {
        let n = b.len();
        if !(n - i > 1 && b[i] == 0x3c && b[i + 1] == 0x3c) {
            return Err(PdfError::parse_error());
        }
        let mut dict = PdfDict::new();
        let mut j: usize = i + 2;
        while j < n
            invariant
                i + 2 <= j <= n,
                n == b@.len(),
                b@[i as int] == 0x3c && b@[i + 1] == 0x3c,
                dict_items(b@, j as int, dict@) == dict_items(b@, i + 2, Seq::empty()),
            decreases n - j,
        {
            if is_whitespace(b[j]) {
                j = j + 1;
            } else if n - j > 1 && b[j] == 0x3e && b[j + 1] == 0x3e {
                let e = skip_whitespace_at(b, j + 2);
                proof {
                    use_type_invariant(&dict);
                    lemma_sorted_unique(dict@);
                }
                return Ok((dict, e));
            } else {
                match PdfName::parse_at(b, j) {
                    Err(err) => {
                        return Err(err);
                    },
                    Ok((key, p)) => {
                        let q = skip_whitespace_at(b, p);
                        proof {
                            lemma_dict_value_skip(b@, p as int, key@, dict@);
                            lemma_skip_ws_bounds(b@, p as int);
                        }
                        match parse_object_at(b, q) {
                            Err(err) => {
                                return Err(err);
                            },
                            Ok((v, e)) => {
                                dict.insert(key, v);
                                j = e;
                            },
                        }
                    },
                }
            }
        }
        Err(PdfError::parse_error())
    }
}

pub proof fn lemma_dict_value_skip(s: Seq<u8>, p: int, k: Seq<u8>, acc: DictModel)
    requires
        0 <= p <= s.len(),
    ensures
        dict_value(s, p, k, acc) == dict_value(s, skip_ws(s, p), k, acc),
    decreases s.len() - p,
{
    if p < s.len() && spec_is_whitespace(s[p]) {
        lemma_dict_value_skip(s, p + 1, k, acc);
    }
}

impl PdfArray {
    pub fn len(&self) -> (r: usize)
        ensures
            r == self@.len(),
    {
        self.data.len()
    }

    /// The element at `index`.
    pub fn get(&self, index: usize) -> (r: Option<&PdfObject>)
        ensures
            match r {
                Some(v) => index < self@.len() && v@ == self@[index as int],
                None => index >= self@.len(),
            },
    {
        if index < self.data.len() {
            Some(&self.data[index])
        } else {
            None
        }
    }

    /// Reads an array at position `i` of `b`.
    pub fn parse_at(b: &[u8], i: usize) -> (r: Result<(PdfArray, usize), PdfError>)
        requires
            i <= b@.len(),
        ensures
            match r {
                Ok((a, e)) => spec_parse_array(b@, i as int) == Ok::<
                    (Seq<ObjectModel>, int),
                    PdfErrorKind,
                >((a@, e as int)) && i < e <= b@.len(),
                Err(err) => spec_parse_array(b@, i as int) == Err::<
                    (Seq<ObjectModel>, int),
                    PdfErrorKind,
                >(err.kind),
            },
        decreases b@.len() - i, 2int,
    {
        let n = b.len();
        if i >= n || b[i] != 0x5b {
            return Err(PdfError::parse_error());
        }
        let mut data: Vec<PdfObject> = Vec::new();
        assert(objects_view(data@) =~= Seq::<ObjectModel>::empty());
        let mut j: usize = i + 1;
        while j < n
            invariant
                i < j <= n,
                n == b@.len(),
                b@[i as int] == 0x5b,
                array_items(b@, j as int, objects_view(data@)) == array_items(
                    b@,
                    i + 1,
                    Seq::empty(),
                ),
            decreases n - j,
        {
            if is_whitespace(b[j]) {
                j = j + 1;
            } else {
                match parse_object_at(b, j) {
                    Ok((o, e)) => {
                        let ghost before = data@;
                        data.push(o);
                        assert(objects_view(data@) =~= objects_view(before).push(o@));
                        j = e;
                    },
                    Err(_) => {
                        if b[j] == 0x5d {
                            return Ok((PdfArray { data }, j + 1));
                        } else {
                            return Err(PdfError::parse_error());
                        }
                    },
                }
            }
        }
        Err(PdfError::parse_error())
    }
}

/// Reads an object at position `i` of `b`, choosing the parser by the first bytes; what
/// starts otherwise is tried as an indirect object or reference, then as a number.
pub fn parse_object_at(b: &[u8], i: usize) -> (r: Result<(PdfObject, usize), PdfError>)
    requires
        i <= b@.len(),
    ensures
        object_result(r, spec_parse_object(b@, i as int), i as int, b@.len() as int),
    decreases b@.len() - i, 3int,
{
    let n = b.len();
    if n - i > 1 && b[i] == 0x3c && b[i + 1] == 0x3c {
        match PdfDict::parse_at(b, i) {
            Ok((d, e)) => Ok((PdfObject { kind: PdfObjectKind::Dict(d), indirect: None }, e)),
            Err(err) => Err(err),
        }
    } else if i < n && b[i] == 0x5b {
        match PdfArray::parse_at(b, i) {
            Ok((a, e)) => Ok((PdfObject { kind: PdfObjectKind::Array(a), indirect: None }, e)),
            Err(err) => Err(err),
        }
    } else if i < n && (b[i] == 0x28 || b[i] == 0x3c) {
        match PdfString::parse_at(b, i) {
            Ok((v, e)) => Ok((PdfObject { kind: PdfObjectKind::String(v), indirect: None }, e)),
            Err(err) => Err(err),
        }
    } else if i < n && b[i] == 0x2f {
        match PdfName::parse_at(b, i) {
            Ok((v, e)) => Ok((PdfObject { kind: PdfObjectKind::Name(v), indirect: None }, e)),
            Err(err) => Err(err),
        }
    } else if i < n && (b[i] == 0x66 || b[i] == 0x74) {
        match parse_bool_at(b, i) {
            Ok((v, e)) => Ok((PdfObject { kind: PdfObjectKind::Boolean(v), indirect: None }, e)),
            Err(err) => Err(err),
        }
    } else if i < n && b[i] == 0x6e {
        match PdfNull::parse_at(b, i) {
            Ok((v, e)) => Ok((PdfObject { kind: PdfObjectKind::Null(v), indirect: None }, e)),
            Err(err) => Err(err),
        }
    } else {
        match parse_indirect_at(b, i) {
            Ok(r) => Ok(r),
            Err(_) => match PdfNumeric::parse_at(b, i) {
                Ok((v, e)) => Ok((PdfObject { kind: PdfObjectKind::Numeric(v), indirect: None }, e)),
                Err(err) => Err(err),
            },
        }
    }
}

/// Reads `<object> <generation> R` or an indirect object at position `i` of `b`.
pub fn parse_indirect_at(b: &[u8], i: usize) -> (r: Result<(PdfObject, usize), PdfError>)
    requires
        i <= b@.len(),
    ensures
        object_result(r, spec_parse_indirect(b@, i as int), i as int, b@.len() as int),
    decreases b@.len() - i, 2int,
{
    let n = b.len();
    let e1 = token_end(b, i);
    let j = skip_whitespace_at(b, e1);
    let e2 = token_end(b, j);
    let k = skip_whitespace_at(b, e2);
    if e1 >= n {
        return Err(PdfError::parse_error());
    }
    let object = match uint_token(vstd::slice::slice_subrange(b, i, e1)) {
        Some(v) => v,
        None => {
            return Err(PdfError::parse_error());
        },
    };
    if e2 >= n {
        return Err(PdfError::parse_error());
    }
    let generation = match uint_token(vstd::slice::slice_subrange(b, j, e2)) {
        Some(v) => v,
        None => {
            return Err(PdfError::parse_error());
        },
    };
    let id = IndirectData { object, generation };
    let kw: [u8; 3] = [0x6f, 0x62, 0x6a];
    assert(kw@ =~= obj_bytes());
    if bytes_at(b, k, kw.as_slice()) {
        indirect_body_at(b, k + 3, id)
    } else if k < n && b[k] == 0x52 {
        Ok((PdfObject { kind: PdfObjectKind::Ref, indirect: Some(id) }, k + 1))
    } else {
        Err(PdfError::parse_error())
    }
}

fn indirect_body_at(b: &[u8], p: usize, id: IndirectData) -> (r: Result<(PdfObject, usize), PdfError>)
    requires
        0 < p <= b@.len(),
    ensures
        object_result(r, indirect_body(b@, p as int, id), p as int, b@.len() as int),
    decreases b@.len() - p, 4int,
{
    let n = b.len();
    let m = skip_whitespace_at(b, p);
    match parse_object_at(b, m) {
        Err(err) => Err(err),
        Ok((o, q)) => {
            let t = skip_whitespace_at(b, q);
            let endobj: [u8; 6] = [0x65, 0x6e, 0x64, 0x6f, 0x62, 0x6a];
            let stream: [u8; 6] = [0x73, 0x74, 0x72, 0x65, 0x61, 0x6d];
            assert(endobj@ =~= endobj_bytes());
            assert(stream@ =~= stream_bytes());
            if bytes_at(b, t, endobj.as_slice()) {
                Ok((PdfObject { kind: o.kind, indirect: Some(id) }, t + 6))
            } else if bytes_at(b, t, stream.as_slice()) {
                stream_tail_at(b, t + 6, o, id)
            } else {
                Err(PdfError::parse_error())
            }
        },
    }
}

fn stream_tail_at(b: &[u8], r: usize, o: PdfObject, id: IndirectData) -> (res: Result<
    (PdfObject, usize),
    PdfError,
>)
    requires
        0 < r <= b@.len(),
    ensures
        object_result(res, stream_tail(b@, r as int, o@, id), r as int, b@.len() as int),
{
    let n = b.len();
    let d: usize = if r < n && b[r] == 0x0a {
        r + 1
    } else if n - r > 1 && b[r] == 0x0d && b[r + 1] == 0x0a {
        r + 2
    } else {
        return Err(PdfError::parse_error());
    };
    match o.kind {
        PdfObjectKind::Dict(dict) => {
            let key: [u8; 6] = [0x4c, 0x65, 0x6e, 0x67, 0x74, 0x68];
            assert(key@ =~= length_key());
            let found: Result<i32, PdfErrorKind> = match dict.get_by_bytes(key.as_slice()) {
                None => Err(PdfErrorKind::MissingStreamLength),
                Some(lv) => match &lv.kind {
                    PdfObjectKind::Numeric(PdfNumeric::PdfInt(v)) => Ok(*v),
                    _ => Err(PdfErrorKind::WrongType),
                },
            };
            let len = match found {
                Ok(v) => v,
                Err(kind) => {
                    return Err(PdfError::with_kind(kind));
                },
            };
            if len < 0 {
                return Err(PdfError::with_kind(PdfErrorKind::InvalidData));
            }
            let len = len as usize;
            if n - d < len {
                return Err(PdfError::parse_error());
            }
            let data = vstd::slice::slice_to_vec(vstd::slice::slice_subrange(b, d, d + len));
            let u = skip_whitespace_at(b, d + len);
            let endstream: [u8; 9] = [0x65, 0x6e, 0x64, 0x73, 0x74, 0x72, 0x65, 0x61, 0x6d];
            let endobj: [u8; 6] = [0x65, 0x6e, 0x64, 0x6f, 0x62, 0x6a];
            assert(endstream@ =~= endstream_bytes());
            assert(endobj@ =~= endobj_bytes());
            if !bytes_at(b, u, endstream.as_slice()) {
                return Err(PdfError::parse_error());
            }
            let w = skip_whitespace_at(b, u + 9);
            if !bytes_at(b, w, endobj.as_slice()) {
                return Err(PdfError::parse_error());
            }
            let st = PdfStream { info: dict, length: len, data };
            Ok((PdfObject { kind: PdfObjectKind::Stream(st), indirect: Some(id) }, w + 6))
        },
        _ => Err(PdfError::with_kind(PdfErrorKind::WrongType)),
    }
}

impl Parsable for PdfObject {
    fn from_bytes(bytes: &[u8]) -> (r: Result<(PdfObject, &[u8]), PdfError>)
        ensures
            match r {
                Ok((v, rest)) => reads(spec_parse_object(bytes@, 0), bytes@, v@, rest@),
                Err(err) => spec_parse_object(bytes@, 0) == Err::<(ObjectModel, int), PdfErrorKind>(err.kind),
            },
    {
        match parse_object_at(bytes, 0) {
            Ok((v, e)) => Ok((v, rest_from(bytes, e))),
            Err(err) => Err(err),
        }
    }
}

impl Parsable for PdfArray {
    fn from_bytes(bytes: &[u8]) -> (r: Result<(PdfArray, &[u8]), PdfError>)
        ensures
            match r {
                Ok((v, rest)) => reads(spec_parse_array(bytes@, 0), bytes@, v@, rest@),
                Err(err) => spec_parse_array(bytes@, 0) == Err::<(Seq<ObjectModel>, int), PdfErrorKind>(err.kind),
            },
    {
        match PdfArray::parse_at(bytes, 0) {
            Ok((v, e)) => Ok((v, rest_from(bytes, e))),
            Err(err) => Err(err),
        }
    }
}

impl Parsable for PdfDict {
    fn from_bytes(bytes: &[u8]) -> (r: Result<(PdfDict, &[u8]), PdfError>)
        ensures
            match r {
                Ok((v, rest)) => reads(spec_parse_dict(bytes@, 0), bytes@, v@, rest@),
                Err(err) => spec_parse_dict(bytes@, 0) == Err::<(DictModel, int), PdfErrorKind>(err.kind),
            },
    {
        match PdfDict::parse_at(bytes, 0) {
            Ok((v, e)) => Ok((v, rest_from(bytes, e))),
            Err(err) => Err(err),
        }
    }
}

impl Parsable for PdfNull {
    fn from_bytes(bytes: &[u8]) -> (r: Result<(PdfNull, &[u8]), PdfError>)
        ensures
            match r {
                Ok((_, rest)) => spec_parse_null(bytes@, 0) matches Ok(e) && rest@ == tail(bytes@, e),
                Err(err) => spec_parse_null(bytes@, 0) == Err::<int, PdfErrorKind>(err.kind),
            },
    {
        match PdfNull::parse_at(bytes, 0) {
            Ok((v, e)) => Ok((v, rest_from(bytes, e))),
            Err(err) => Err(err),
        }
    }
}

/// A stream read at `i`: an indirect object whose body is a stream.
pub open spec fn spec_parse_stream(s: Seq<u8>, i: int) -> Result<((DictModel, int, Seq<u8>), int), PdfErrorKind> {
    match spec_parse_indirect(s, i) {
        Ok((o, e)) => match o.kind {
            KindModel::Stream(d, l, data) => Ok(((d, l, data), e)),
            _ => Err(PdfErrorKind::WrongType),
        },
        Err(err) => Err(err),
    }
}

impl Parsable for PdfStream {
    fn from_bytes(bytes: &[u8]) -> (r: Result<(PdfStream, &[u8]), PdfError>)
        ensures
            match r {
                Ok((v, rest)) => reads(spec_parse_stream(bytes@, 0), bytes@, v@, rest@),
                Err(err) => spec_parse_stream(bytes@, 0) == Err::<((DictModel, int, Seq<u8>), int), PdfErrorKind>(err.kind),
            },
    {
        match parse_indirect_at(bytes, 0) {
            Ok((o, e)) => match o.kind {
                PdfObjectKind::Stream(st) => Ok((st, rest_from(bytes, e))),
                _ => Err(PdfError::with_kind(PdfErrorKind::WrongType)),
            },
            Err(err) => Err(err),
        }
    }
}

/// The model of an object of kind `k` without identity.
pub closed spec fn kind_model(k: PdfObjectKind) -> KindModel {
    object_view(PdfObject { kind: k, indirect: None }).kind
}

impl PdfObject {
    /// A direct object of the given kind.
    pub fn new(kind: PdfObjectKind) -> (r: PdfObject)
        ensures
            r@ == direct(kind_model(kind)),
    {
        PdfObject { kind, indirect: None }
    }

    pub fn kind(&self) -> (r: &PdfObjectKind)
        ensures
            kind_model(*r) == self@.kind,
    {
        &self.kind
    }

    /// The identity of the object, when it has one.
    pub fn indirect(&self) -> (r: Option<IndirectData>)
        ensures
            r == self@.indirect,
    {
        self.indirect
    }

    /// The object with the identity `indirect`.
    pub fn as_indirect(&self, indirect: IndirectData) -> (r: PdfObject)
        ensures
            r@ == (ObjectModel { kind: self@.kind, indirect: Some(indirect) }),
    {
        PdfObject { kind: copy_kind(&self.kind), indirect: Some(indirect) }
    }

    /// The object with the identity (`object`, `generation`).
    pub fn as_indirect_raw(&self, object: usize, generation: usize) -> (r: PdfObject)
        ensures
            r@ == (ObjectModel { kind: self@.kind, indirect: Some(IndirectData { object, generation }) }),
    {
        self.as_indirect(IndirectData { object, generation })
    }

    pub fn as_bool(&self) -> (r: Result<bool, PdfError>)
        ensures
            match r {
                Ok(v) => self@.kind == KindModel::Boolean(v),
                Err(e) => !(self@.kind is Boolean) && e.kind == PdfErrorKind::WrongType,
            },
    {
        match &self.kind {
            PdfObjectKind::Boolean(v) => Ok(*v),
            _ => Err(PdfError::with_kind(PdfErrorKind::WrongType)),
        }
    }

    pub fn as_numeric(self) -> (r: Result<PdfNumeric, PdfError>)
        ensures
            match r {
                Ok(v) => self@.kind == KindModel::Numeric(v@),
                Err(e) => !(self@.kind is Numeric) && e.kind == PdfErrorKind::WrongType,
            },
    {
        match self.kind {
            PdfObjectKind::Numeric(v) => Ok(v),
            _ => Err(PdfError::with_kind(PdfErrorKind::WrongType)),
        }
    }

    pub fn as_numeric_ref(&self) -> (r: Result<&PdfNumeric, PdfError>)
        ensures
            match r {
                Ok(v) => self@.kind == KindModel::Numeric(v@),
                Err(e) => !(self@.kind is Numeric) && e.kind == PdfErrorKind::WrongType,
            },
    {
        match &self.kind {
            PdfObjectKind::Numeric(v) => Ok(v),
            _ => Err(PdfError::with_kind(PdfErrorKind::WrongType)),
        }
    }

    pub fn as_string(self) -> (r: Result<PdfString, PdfError>)
        ensures
            match r {
                Ok(v) => self@.kind == KindModel::String(v@),
                Err(e) => !(self@.kind is String) && e.kind == PdfErrorKind::WrongType,
            },
    {
        match self.kind {
            PdfObjectKind::String(v) => Ok(v),
            _ => Err(PdfError::with_kind(PdfErrorKind::WrongType)),
        }
    }

    pub fn as_string_ref(&self) -> (r: Result<&PdfString, PdfError>)
        ensures
            match r {
                Ok(v) => self@.kind == KindModel::String(v@),
                Err(e) => !(self@.kind is String) && e.kind == PdfErrorKind::WrongType,
            },
    {
        match &self.kind {
            PdfObjectKind::String(v) => Ok(v),
            _ => Err(PdfError::with_kind(PdfErrorKind::WrongType)),
        }
    }

    pub fn as_name(self) -> (r: Result<PdfName, PdfError>)
        ensures
            match r {
                Ok(v) => self@.kind == KindModel::Name(v@),
                Err(e) => !(self@.kind is Name) && e.kind == PdfErrorKind::WrongType,
            },
    {
        match self.kind {
            PdfObjectKind::Name(v) => Ok(v),
            _ => Err(PdfError::with_kind(PdfErrorKind::WrongType)),
        }
    }

    pub fn as_name_ref(&self) -> (r: Result<&PdfName, PdfError>)
        ensures
            match r {
                Ok(v) => self@.kind == KindModel::Name(v@),
                Err(e) => !(self@.kind is Name) && e.kind == PdfErrorKind::WrongType,
            },
    {
        match &self.kind {
            PdfObjectKind::Name(v) => Ok(v),
            _ => Err(PdfError::with_kind(PdfErrorKind::WrongType)),
        }
    }

    pub fn as_array(self) -> (r: Result<PdfArray, PdfError>)
        ensures
            match r {
                Ok(v) => self@.kind == KindModel::Array(v@),
                Err(e) => !(self@.kind is Array) && e.kind == PdfErrorKind::WrongType,
            },
    {
        match self.kind {
            PdfObjectKind::Array(v) => Ok(v),
            _ => Err(PdfError::with_kind(PdfErrorKind::WrongType)),
        }
    }

    pub fn as_array_ref(&self) -> (r: Result<&PdfArray, PdfError>)
        ensures
            match r {
                Ok(v) => self@.kind == KindModel::Array(v@),
                Err(e) => !(self@.kind is Array) && e.kind == PdfErrorKind::WrongType,
            },
    {
        match &self.kind {
            PdfObjectKind::Array(v) => Ok(v),
            _ => Err(PdfError::with_kind(PdfErrorKind::WrongType)),
        }
    }

    pub fn as_dict(self) -> (r: Result<PdfDict, PdfError>)
        ensures
            match r {
                Ok(v) => self@.kind == KindModel::Dict(v@),
                Err(e) => !(self@.kind is Dict) && e.kind == PdfErrorKind::WrongType,
            },
    {
        match self.kind {
            PdfObjectKind::Dict(v) => Ok(v),
            _ => Err(PdfError::with_kind(PdfErrorKind::WrongType)),
        }
    }

    pub fn as_dict_ref(&self) -> (r: Result<&PdfDict, PdfError>)
        ensures
            match r {
                Ok(v) => self@.kind == KindModel::Dict(v@),
                Err(e) => !(self@.kind is Dict) && e.kind == PdfErrorKind::WrongType,
            },
    {
        match &self.kind {
            PdfObjectKind::Dict(v) => Ok(v),
            _ => Err(PdfError::with_kind(PdfErrorKind::WrongType)),
        }
    }

    pub fn as_stream(self) -> (r: Result<PdfStream, PdfError>)
        ensures
            match r {
                Ok(v) => self@.kind == KindModel::Stream(v@.0, v@.1, v@.2),
                Err(e) => !(self@.kind is Stream) && e.kind == PdfErrorKind::WrongType,
            },
    {
        match self.kind {
            PdfObjectKind::Stream(v) => Ok(v),
            _ => Err(PdfError::with_kind(PdfErrorKind::WrongType)),
        }
    }

    pub fn as_stream_ref(&self) -> (r: Result<&PdfStream, PdfError>)
        ensures
            match r {
                Ok(v) => self@.kind == KindModel::Stream(v@.0, v@.1, v@.2),
                Err(e) => !(self@.kind is Stream) && e.kind == PdfErrorKind::WrongType,
            },
    {
        match &self.kind {
            PdfObjectKind::Stream(v) => Ok(v),
            _ => Err(PdfError::with_kind(PdfErrorKind::WrongType)),
        }
    }

    pub fn as_null(self) -> (r: Result<PdfNull, PdfError>)
        ensures
            match r {
                Ok(v) => self@.kind == KindModel::Null,
                Err(e) => !(self@.kind is Null) && e.kind == PdfErrorKind::WrongType,
            },
    {
        match self.kind {
            PdfObjectKind::Null(v) => Ok(v),
            _ => Err(PdfError::with_kind(PdfErrorKind::WrongType)),
        }
    }

    pub fn as_null_ref(&self) -> (r: Result<&PdfNull, PdfError>)
        ensures
            match r {
                Ok(v) => self@.kind == KindModel::Null,
                Err(e) => !(self@.kind is Null) && e.kind == PdfErrorKind::WrongType,
            },
    {
        match &self.kind {
            PdfObjectKind::Null(v) => Ok(v),
            _ => Err(PdfError::with_kind(PdfErrorKind::WrongType)),
        }
    }
}

impl PdfNumeric {
    /// This value as the indirect object (`object`, `generation`).
    pub fn as_indirect_raw(&self, object: usize, generation: usize) -> (r: PdfObject)
        ensures
            r@ == (ObjectModel { kind: kind_model(PdfObjectKind::Numeric(*self)), indirect: Some(IndirectData { object, generation }) }),
    {
        self.as_indirect(IndirectData { object, generation })
    }

    /// This value as an indirect object with the identity `indirect`.
    pub fn as_indirect(&self, indirect: IndirectData) -> (r: PdfObject)
        ensures
            r@ == (ObjectModel { kind: kind_model(PdfObjectKind::Numeric(*self)), indirect: Some(indirect) }),
    {
        PdfObject { kind: PdfObjectKind::Numeric(copy_numeric(self)), indirect: Some(indirect) }
    }
}

impl PdfString {
    /// This value as the indirect object (`object`, `generation`).
    pub fn as_indirect_raw(&self, object: usize, generation: usize) -> (r: PdfObject)
        ensures
            r@ == (ObjectModel { kind: kind_model(PdfObjectKind::String(*self)), indirect: Some(IndirectData { object, generation }) }),
    {
        self.as_indirect(IndirectData { object, generation })
    }

    /// This value as an indirect object with the identity `indirect`.
    pub fn as_indirect(&self, indirect: IndirectData) -> (r: PdfObject)
        ensures
            r@ == (ObjectModel { kind: kind_model(PdfObjectKind::String(*self)), indirect: Some(indirect) }),
    {
        PdfObject { kind: PdfObjectKind::String(PdfString::from_raw_bytes(self.bytes())), indirect: Some(indirect) }
    }
}

impl PdfName {
    /// This value as the indirect object (`object`, `generation`).
    pub fn as_indirect_raw(&self, object: usize, generation: usize) -> (r: PdfObject)
        ensures
            r@ == (ObjectModel { kind: kind_model(PdfObjectKind::Name(*self)), indirect: Some(IndirectData { object, generation }) }),
    {
        self.as_indirect(IndirectData { object, generation })
    }

    /// This value as an indirect object with the identity `indirect`.
    pub fn as_indirect(&self, indirect: IndirectData) -> (r: PdfObject)
        ensures
            r@ == (ObjectModel { kind: kind_model(PdfObjectKind::Name(*self)), indirect: Some(indirect) }),
    {
        PdfObject { kind: PdfObjectKind::Name(PdfName::from_raw_bytes(self.bytes())), indirect: Some(indirect) }
    }
}

impl PdfArray {
    /// This value as the indirect object (`object`, `generation`).
    pub fn as_indirect_raw(&self, object: usize, generation: usize) -> (r: PdfObject)
        ensures
            r@ == (ObjectModel { kind: kind_model(PdfObjectKind::Array(*self)), indirect: Some(IndirectData { object, generation }) }),
    {
        self.as_indirect(IndirectData { object, generation })
    }

    /// This value as an indirect object with the identity `indirect`.
    pub fn as_indirect(&self, indirect: IndirectData) -> (r: PdfObject)
        ensures
            r@ == (ObjectModel { kind: kind_model(PdfObjectKind::Array(*self)), indirect: Some(indirect) }),
    {
        PdfObject { kind: PdfObjectKind::Array(PdfArray { data: copy_objects(&self.data) }), indirect: Some(indirect) }
    }
}

impl PdfDict {
    /// This value as the indirect object (`object`, `generation`).
    pub fn as_indirect_raw(&self, object: usize, generation: usize) -> (r: PdfObject)
        ensures
            r@ == (ObjectModel { kind: kind_model(PdfObjectKind::Dict(*self)), indirect: Some(IndirectData { object, generation }) }),
    {
        self.as_indirect(IndirectData { object, generation })
    }

    /// This value as an indirect object with the identity `indirect`.
    pub fn as_indirect(&self, indirect: IndirectData) -> (r: PdfObject)
        ensures
            r@ == (ObjectModel { kind: kind_model(PdfObjectKind::Dict(*self)), indirect: Some(indirect) }),
    {
        PdfObject { kind: PdfObjectKind::Dict(copy_dict(self)), indirect: Some(indirect) }
    }
}

impl PdfStream {
    /// This value as the indirect object (`object`, `generation`).
    pub fn as_indirect_raw(&self, object: usize, generation: usize) -> (r: PdfObject)
        ensures
            r@ == (ObjectModel { kind: kind_model(PdfObjectKind::Stream(*self)), indirect: Some(IndirectData { object, generation }) }),
    {
        self.as_indirect(IndirectData { object, generation })
    }

    /// This value as an indirect object with the identity `indirect`.
    pub fn as_indirect(&self, indirect: IndirectData) -> (r: PdfObject)
        ensures
            r@ == (ObjectModel { kind: kind_model(PdfObjectKind::Stream(*self)), indirect: Some(indirect) }),
    {
        PdfObject { kind: PdfObjectKind::Stream(copy_stream(self)), indirect: Some(indirect) }
    }
}

impl PdfNull {
    /// This value as the indirect object (`object`, `generation`).
    pub fn as_indirect_raw(&self, object: usize, generation: usize) -> (r: PdfObject)
        ensures
            r@ == (ObjectModel { kind: kind_model(PdfObjectKind::Null(*self)), indirect: Some(IndirectData { object, generation }) }),
    {
        self.as_indirect(IndirectData { object, generation })
    }

    /// This value as an indirect object with the identity `indirect`.
    pub fn as_indirect(&self, indirect: IndirectData) -> (r: PdfObject)
        ensures
            r@ == (ObjectModel { kind: kind_model(PdfObjectKind::Null(*self)), indirect: Some(indirect) }),
    {
        PdfObject { kind: PdfObjectKind::Null(PdfNull {  }), indirect: Some(indirect) }
    }
}

/// A copy of `o`, with the same value.
fn copy_object(o: &PdfObject) -> (r: PdfObject)
    ensures
        r@ == o@,
    decreases o, 1int,
{
    PdfObject { kind: copy_kind(&o.kind), indirect: o.indirect }
}

/// A copy of the kind `k`, with the same value.
fn copy_kind(k: &PdfObjectKind) -> (r: PdfObjectKind)
    ensures
        kind_model(r) == kind_model(*k),
    decreases k, 0int,
{
    match k {
        PdfObjectKind::Boolean(b) => PdfObjectKind::Boolean(*b),
        PdfObjectKind::Numeric(n) => PdfObjectKind::Numeric(copy_numeric(n)),
        PdfObjectKind::String(v) => PdfObjectKind::String(PdfString::from_raw_bytes(v.bytes())),
        PdfObjectKind::Name(v) => PdfObjectKind::Name(PdfName::from_raw_bytes(v.bytes())),
        PdfObjectKind::Array(a) => PdfObjectKind::Array(PdfArray { data: copy_objects(&a.data) }),
        PdfObjectKind::Dict(d) => PdfObjectKind::Dict(copy_dict(d)),
        PdfObjectKind::Stream(st) => PdfObjectKind::Stream(copy_stream(st)),
        PdfObjectKind::Null(_) => PdfObjectKind::Null(PdfNull {  }),
        PdfObjectKind::Ref => PdfObjectKind::Ref,
    }
}

fn copy_stream(st: &PdfStream) -> (r: PdfStream)
    ensures
        r@ == st@,
    decreases st, 0int,
{
    proof {
        use_type_invariant(st);
    }
    PdfStream {
        info: copy_dict(&st.info),
        length: st.length,
        data: vstd::slice::slice_to_vec(st.data.as_slice()),
    }
}

fn copy_numeric(n: &PdfNumeric) -> (r: PdfNumeric)
    ensures
        r@ == n@,
{
    match n {
        PdfNumeric::PdfInt(v) => PdfNumeric::PdfInt(*v),
        PdfNumeric::PdfReal(x) => PdfNumeric::PdfReal(x.clone()),
    }
}

fn copy_objects(v: &Vec<PdfObject>) -> (r: Vec<PdfObject>)
    ensures
        objects_view(r@) == objects_view(v@),
    decreases v, 2int,
{
    let mut out: Vec<PdfObject> = Vec::new();
    let mut k: usize = 0;
    while k < v.len()
        invariant
            0 <= k <= v@.len(),
            out@.len() == k,
            forall|q: int| 0 <= q < k ==> #[trigger] object_view(out@[q]) == object_view(v@[q]),
        decreases v@.len() - k,
    {
        let c = copy_object(&v[k]);
        out.push(c);
        k = k + 1;
    }
    assert(objects_view(out@).len() == objects_view(v@).len());
    assert forall|q: int| 0 <= q < out@.len() implies #[trigger] objects_view(out@)[q] == objects_view(v@)[q] by {
        assert(object_view(out@[q]) == object_view(v@[q]));
    }
    assert(objects_view(out@) =~= objects_view(v@));
    out
}

fn copy_dict(d: &PdfDict) -> (r: PdfDict)
    ensures
        r@ == d@,
    decreases d, 2int,
{
    proof {
        use_type_invariant(d);
    }
    let mut out: Vec<DictEntry> = Vec::new();
    let mut k: usize = 0;
    while k < d.data.len()
        invariant
            0 <= k <= d.data@.len(),
            out@.len() == k,
            forall|q: int| 0 <= q < k ==> #[trigger] out@[q].key@ == d.data@[q].key@ && object_view(
                out@[q].value,
            ) == object_view(d.data@[q].value),
        decreases d.data@.len() - k,
    {
        let key = PdfName::from_raw_bytes(d.data[k].key.bytes());
        let value = copy_object(&d.data[k].value);
        out.push(DictEntry { key, value });
        k = k + 1;
    }
    assert(entries_view(out@) =~= entries_view(d.data@));
    PdfDict { data: out }
}

impl From<bool> for PdfObjectKind {
    fn from(value: bool) -> (r: PdfObjectKind)
        ensures
            kind_model(r) == KindModel::Boolean(value),
    {
        PdfObjectKind::Boolean(value)
    }
}

impl vstd::std_specs::convert::FromSpecImpl<bool> for PdfObjectKind {
    open spec fn obeys_from_spec() -> bool {
        true
    }

    open spec fn from_spec(value: bool) -> PdfObjectKind {
        PdfObjectKind::Boolean(value)
    }
}

impl From<bool> for PdfObject {
    /// The direct object holding `value`.
    fn from(value: bool) -> (r: PdfObject)
        ensures
            r@ == direct(KindModel::Boolean(value)),
    {
        PdfObject { kind: PdfObjectKind::Boolean(value), indirect: None }
    }
}

impl vstd::std_specs::convert::FromSpecImpl<bool> for PdfObject {
    open spec fn obeys_from_spec() -> bool {
        true
    }

    closed spec fn from_spec(value: bool) -> PdfObject {
        PdfObject { kind: PdfObjectKind::Boolean(value), indirect: None }
    }
}

impl From<PdfNumeric> for PdfObjectKind {
    fn from(value: PdfNumeric) -> (r: PdfObjectKind)
        ensures
            kind_model(r) == KindModel::Numeric(value@),
    {
        PdfObjectKind::Numeric(value)
    }
}

impl vstd::std_specs::convert::FromSpecImpl<PdfNumeric> for PdfObjectKind {
    open spec fn obeys_from_spec() -> bool {
        true
    }

    open spec fn from_spec(value: PdfNumeric) -> PdfObjectKind {
        PdfObjectKind::Numeric(value)
    }
}

impl From<PdfNumeric> for PdfObject {
    /// The direct object holding `value`.
    fn from(value: PdfNumeric) -> (r: PdfObject)
        ensures
            r@ == direct(KindModel::Numeric(value@)),
    {
        PdfObject { kind: PdfObjectKind::Numeric(value), indirect: None }
    }
}

impl vstd::std_specs::convert::FromSpecImpl<PdfNumeric> for PdfObject {
    open spec fn obeys_from_spec() -> bool {
        true
    }

    closed spec fn from_spec(value: PdfNumeric) -> PdfObject {
        PdfObject { kind: PdfObjectKind::Numeric(value), indirect: None }
    }
}

impl From<PdfString> for PdfObjectKind {
    fn from(value: PdfString) -> (r: PdfObjectKind)
        ensures
            kind_model(r) == KindModel::String(value@),
    {
        PdfObjectKind::String(value)
    }
}

impl vstd::std_specs::convert::FromSpecImpl<PdfString> for PdfObjectKind {
    open spec fn obeys_from_spec() -> bool {
        true
    }

    open spec fn from_spec(value: PdfString) -> PdfObjectKind {
        PdfObjectKind::String(value)
    }
}

impl From<PdfString> for PdfObject {
    /// The direct object holding `value`.
    fn from(value: PdfString) -> (r: PdfObject)
        ensures
            r@ == direct(KindModel::String(value@)),
    {
        PdfObject { kind: PdfObjectKind::String(value), indirect: None }
    }
}

impl vstd::std_specs::convert::FromSpecImpl<PdfString> for PdfObject {
    open spec fn obeys_from_spec() -> bool {
        true
    }

    closed spec fn from_spec(value: PdfString) -> PdfObject {
        PdfObject { kind: PdfObjectKind::String(value), indirect: None }
    }
}

impl From<PdfName> for PdfObjectKind {
    fn from(value: PdfName) -> (r: PdfObjectKind)
        ensures
            kind_model(r) == KindModel::Name(value@),
    {
        PdfObjectKind::Name(value)
    }
}

impl vstd::std_specs::convert::FromSpecImpl<PdfName> for PdfObjectKind {
    open spec fn obeys_from_spec() -> bool {
        true
    }

    open spec fn from_spec(value: PdfName) -> PdfObjectKind {
        PdfObjectKind::Name(value)
    }
}

impl From<PdfName> for PdfObject {
    /// The direct object holding `value`.
    fn from(value: PdfName) -> (r: PdfObject)
        ensures
            r@ == direct(KindModel::Name(value@)),
    {
        PdfObject { kind: PdfObjectKind::Name(value), indirect: None }
    }
}

impl vstd::std_specs::convert::FromSpecImpl<PdfName> for PdfObject {
    open spec fn obeys_from_spec() -> bool {
        true
    }

    closed spec fn from_spec(value: PdfName) -> PdfObject {
        PdfObject { kind: PdfObjectKind::Name(value), indirect: None }
    }
}

impl From<PdfArray> for PdfObjectKind {
    fn from(value: PdfArray) -> (r: PdfObjectKind)
        ensures
            kind_model(r) == KindModel::Array(value@),
    {
        PdfObjectKind::Array(value)
    }
}

impl vstd::std_specs::convert::FromSpecImpl<PdfArray> for PdfObjectKind {
    open spec fn obeys_from_spec() -> bool {
        true
    }

    open spec fn from_spec(value: PdfArray) -> PdfObjectKind {
        PdfObjectKind::Array(value)
    }
}

impl From<PdfArray> for PdfObject {
    /// The direct object holding `value`.
    fn from(value: PdfArray) -> (r: PdfObject)
        ensures
            r@ == direct(KindModel::Array(value@)),
    {
        PdfObject { kind: PdfObjectKind::Array(value), indirect: None }
    }
}

impl vstd::std_specs::convert::FromSpecImpl<PdfArray> for PdfObject {
    open spec fn obeys_from_spec() -> bool {
        true
    }

    closed spec fn from_spec(value: PdfArray) -> PdfObject {
        PdfObject { kind: PdfObjectKind::Array(value), indirect: None }
    }
}

impl From<PdfDict> for PdfObjectKind {
    fn from(value: PdfDict) -> (r: PdfObjectKind)
        ensures
            kind_model(r) == KindModel::Dict(value@),
    {
        PdfObjectKind::Dict(value)
    }
}

impl vstd::std_specs::convert::FromSpecImpl<PdfDict> for PdfObjectKind {
    open spec fn obeys_from_spec() -> bool {
        true
    }

    open spec fn from_spec(value: PdfDict) -> PdfObjectKind {
        PdfObjectKind::Dict(value)
    }
}

impl From<PdfDict> for PdfObject {
    /// The direct object holding `value`.
    fn from(value: PdfDict) -> (r: PdfObject)
        ensures
            r@ == direct(KindModel::Dict(value@)),
    {
        PdfObject { kind: PdfObjectKind::Dict(value), indirect: None }
    }
}

impl vstd::std_specs::convert::FromSpecImpl<PdfDict> for PdfObject {
    open spec fn obeys_from_spec() -> bool {
        true
    }

    closed spec fn from_spec(value: PdfDict) -> PdfObject {
        PdfObject { kind: PdfObjectKind::Dict(value), indirect: None }
    }
}

impl From<PdfStream> for PdfObjectKind {
    fn from(value: PdfStream) -> (r: PdfObjectKind)
        ensures
            kind_model(r) == KindModel::Stream(value@.0, value@.1, value@.2),
    {
        PdfObjectKind::Stream(value)
    }
}

impl vstd::std_specs::convert::FromSpecImpl<PdfStream> for PdfObjectKind {
    open spec fn obeys_from_spec() -> bool {
        true
    }

    open spec fn from_spec(value: PdfStream) -> PdfObjectKind {
        PdfObjectKind::Stream(value)
    }
}

impl From<PdfStream> for PdfObject {
    /// The direct object holding `value`.
    fn from(value: PdfStream) -> (r: PdfObject)
        ensures
            r@ == direct(KindModel::Stream(value@.0, value@.1, value@.2)),
    {
        PdfObject { kind: PdfObjectKind::Stream(value), indirect: None }
    }
}

impl vstd::std_specs::convert::FromSpecImpl<PdfStream> for PdfObject {
    open spec fn obeys_from_spec() -> bool {
        true
    }

    closed spec fn from_spec(value: PdfStream) -> PdfObject {
        PdfObject { kind: PdfObjectKind::Stream(value), indirect: None }
    }
}

impl From<PdfNull> for PdfObjectKind {
    fn from(value: PdfNull) -> (r: PdfObjectKind)
        ensures
            kind_model(r) == KindModel::Null,
    {
        PdfObjectKind::Null(value)
    }
}

impl vstd::std_specs::convert::FromSpecImpl<PdfNull> for PdfObjectKind {
    open spec fn obeys_from_spec() -> bool {
        true
    }

    open spec fn from_spec(value: PdfNull) -> PdfObjectKind {
        PdfObjectKind::Null(value)
    }
}

impl From<PdfNull> for PdfObject {
    /// The direct object holding `value`.
    fn from(value: PdfNull) -> (r: PdfObject)
        ensures
            r@ == direct(KindModel::Null),
    {
        PdfObject { kind: PdfObjectKind::Null(value), indirect: None }
    }
}

impl vstd::std_specs::convert::FromSpecImpl<PdfNull> for PdfObject {
    open spec fn obeys_from_spec() -> bool {
        true
    }

    closed spec fn from_spec(value: PdfNull) -> PdfObject {
        PdfObject { kind: PdfObjectKind::Null(value), indirect: None }
    }
}

impl From<Option<PdfObject>> for PdfObject {
    /// The object itself, or `null` for none.
    fn from(value: Option<PdfObject>) -> (r: PdfObject)
        ensures
            match value {
                Some(o) => r@ == o@,
                None => r@ == direct(KindModel::Null),
            },
    {
        match value {
            Some(o) => o,
            None => PdfObject { kind: PdfObjectKind::Null(PdfNull {  }), indirect: None },
        }
    }
}

impl vstd::std_specs::convert::FromSpecImpl<Option<PdfObject>> for PdfObject {
    open spec fn obeys_from_spec() -> bool {
        true
    }

    closed spec fn from_spec(value: Option<PdfObject>) -> PdfObject {
        match value {
            Some(o) => o,
            None => PdfObject { kind: PdfObjectKind::Null(PdfNull {  }), indirect: None },
        }
    }
}

impl Clone for PdfObject {
    fn clone(&self) -> (r: PdfObject)
        ensures
            r@ == self@,
    {
        copy_object(self)
    }
}

impl Clone for PdfObjectKind {
    fn clone(&self) -> (r: PdfObjectKind)
        ensures
            kind_model(r) == kind_model(*self),
    {
        copy_kind(self)
    }
}

impl Clone for PdfStream {
    fn clone(&self) -> (r: PdfStream)
        ensures
            r@ == self@,
    {
        copy_stream(self)
    }
}

impl Clone for DictEntry {
    fn clone(&self) -> (r: DictEntry)
        ensures
            r@ == self@,
    {
        DictEntry { key: PdfName::from_raw_bytes(self.key.bytes()), value: copy_object(&self.value) }
    }
}

impl Clone for PdfArray {
    fn clone(&self) -> (r: PdfArray)
        ensures
            r@ == self@,
    {
        PdfArray { data: copy_objects(&self.data) }
    }
}

impl Clone for PdfDict {
    fn clone(&self) -> (r: PdfDict)
        ensures
            r@ == self@,
    {
        copy_dict(self)
    }
}

impl PdfArray {
    /// The array of the objects `data`, in order.
    pub fn new(data: Vec<PdfObject>) -> (r: PdfArray)
        ensures
            r@ == objects_view(data@),
    {
        PdfArray { data }
    }
}

impl PdfStream {
    /// The length of a stream is that of its bytes.
    #[verifier::type_invariant]
    spec fn length_matches(&self) -> bool {
        self.length == self.data@.len()
    }

    /// A stream of the given dictionary, length and bytes; the length is that of the bytes.
    pub fn with_len(info: PdfDict, length: usize, data: Vec<u8>) -> (r: PdfStream)
        requires
            length == data@.len(),
        ensures
            r@ == (info@, length as int, data@),
    {
        PdfStream { info, length, data }
    }

    /// A stream of the given dictionary and bytes; the dictionary's `Length` must be an
    /// integer equal to the number of bytes.
    pub fn with_data(info: PdfDict, data: Vec<u8>) -> (r: Result<PdfStream, PdfError>)
        ensures
            match r {
                Ok(st) => st@ == (info@, data@.len() as int, data@) && (dict_lookup(
                    info@,
                    length_key(),
                ) matches Some(o) && (o.kind matches KindModel::Numeric(NumericModel::Int(n)) && n
                    == data@.len())),
                Err(e) => match dict_lookup(info@, length_key()) {
                    None => e.kind == PdfErrorKind::MissingStreamLength,
                    Some(o) => match o.kind {
                        KindModel::Numeric(NumericModel::Int(n)) => n != data@.len()
                            && e.kind == PdfErrorKind::InvalidData,
                        _ => e.kind == PdfErrorKind::WrongType,
                    },
                },
            },
    {
        let key: [u8; 6] = [0x4c, 0x65, 0x6e, 0x67, 0x74, 0x68];
        assert(key@ =~= length_key());
        let found: Result<i32, PdfErrorKind> = match info.get_by_bytes(key.as_slice()) {
            None => Err(PdfErrorKind::MissingStreamLength),
            Some(lv) => match &lv.kind {
                PdfObjectKind::Numeric(PdfNumeric::PdfInt(v)) => Ok(*v),
                _ => Err(PdfErrorKind::WrongType),
            },
        };
        match found {
            Err(kind) => Err(PdfError::with_kind(kind)),
            Ok(n) => {
                if n < 0 || n as usize != data.len() {
                    Err(PdfError::with_kind(PdfErrorKind::InvalidData))
                } else {
                    let length = data.len();
                    Ok(PdfStream { info, length, data })
                }
            },
        }
    }

    /// The stream's length, which is that of its bytes.
    pub fn len(&self) -> (r: usize)
        ensures
            r == self@.1,
            r == self@.2.len(),
    {
        proof {
            use_type_invariant(self);
        }
        self.length
    }

    pub fn info(&self) -> (r: &PdfDict)
        ensures
            r@ == self@.0,
    {
        &self.info
    }

    pub fn data(&self) -> (r: &[u8])
        ensures
            r@ == self@.2,
    {
        self.data.as_slice()
    }
}

} // verus!
