//! Serialized record trees (the shape that JSON serialization gives a KMP
//! document) and the three-way merge of field edits onto source values.
use vstd::prelude::*;
use crate::error::KmpError;

verus! {

/// A JSON number as serde keeps it: non-negative integer, negative integer,
/// or finite float (kept as its IEEE-754 bits).
#[derive(Debug, Clone, Copy, PartialEq, Eq, Structural)]
pub enum JsonNumber {
    PosInt(u64),
    NegInt(i64),
    Float(u64),
}

/// A serialized value tree.
#[derive(Debug)]
pub enum JsonValue {
    Null,
    Bool(bool),
    Number(JsonNumber),
    Text(Vec<u8>),
    Array(Vec<JsonValue>),
    Object(Vec<JsonField>),
}

/// One named field of an object, in the object's order.
#[derive(Debug)]
pub struct JsonField {
    pub key: Vec<u8>,
    pub value: JsonValue,
}

/// The mathematical value of a tree.
pub enum Json {
    Null,
    Bool(bool),
    Number(JsonNumber),
    Text(Seq<u8>),
    Array(Seq<Json>),
    Object(Seq<(Seq<u8>, Json)>),
}

impl JsonValue {
    pub open spec fn model(self) -> Json
        decreases self,
    {
        match self {
            JsonValue::Null => Json::Null,
            JsonValue::Bool(b) => Json::Bool(b),
            JsonValue::Number(n) => Json::Number(n),
            JsonValue::Text(t) => Json::Text(t@),
            JsonValue::Array(items) => Json::Array(
                Seq::new(items@.len(), |i: int| if 0 <= i < items@.len() { items@[i].model() } else { Json::Null }),
            ),
            JsonValue::Object(fields) => Json::Object(
                Seq::new(
                    fields@.len(),
                    |i: int|
                        if 0 <= i < fields@.len() {
                            (fields@[i].key@, fields@[i].value.model())
                        } else {
                            (Seq::empty(), Json::Null)
                        },
                ),
            ),
        }
    }
}

/// The two field names whose merge follows a format-specific rule.
#[derive(Debug, Clone, Copy, PartialEq, Eq, Structural)]
pub enum FieldKey {
    /// `rotation`: an Euler triple merged as one orientation.
    Rotation,
    /// `setting_2`: in ITPT records, a bitfield of which the editor shows some bits.
    Setting2,
    /// Any other field, or an array element.
    Other,
}

/// Where in a document a merged value sits.
#[derive(Debug, Clone, Copy, PartialEq, Eq, Structural)]
pub struct MergeContext {
    /// The value belongs to the ITPT section.
    pub itpt: bool,
    /// The value belongs to the STGI section.
    pub stgi: bool,
    /// The value is a section's array of records.
    pub entries_root: bool,
    /// The name of the field that holds the value.
    pub key: FieldKey,
}

/// Bytes of the field name `rotation`.
pub open spec fn rotation_name() -> Seq<u8> {
    seq![114u8, 111u8, 116u8, 97u8, 116u8, 105u8, 111u8, 110u8]
}

/// Bytes of the field name `setting_2`.
pub open spec fn setting_2_name() -> Seq<u8> {
    seq![115u8, 101u8, 116u8, 116u8, 105u8, 110u8, 103u8, 95u8, 50u8]
}

pub open spec fn classify(key: Seq<u8>) -> FieldKey {
    if key == rotation_name() {
        FieldKey::Rotation
    } else if key == setting_2_name() {
        FieldKey::Setting2
    } else {
        FieldKey::Other
    }
}

/// Context of an array element.
pub open spec fn element_context(ctx: MergeContext) -> MergeContext {
    MergeContext { entries_root: false, key: FieldKey::Other, ..ctx }
}

/// Context of the object field named `key`.
pub open spec fn field_context(ctx: MergeContext, key: Seq<u8>) -> MergeContext {
    MergeContext { entries_root: false, key: classify(key), ..ctx }
}

impl JsonNumber {
    /// The number as an unsigned integer, when it is one.
    pub open spec fn spec_as_u64(self) -> Option<u64> {
        match self {
            JsonNumber::PosInt(n) => Some(n),
            _ => None,
        }
    }

    pub fn as_u64(&self) -> (r: Option<u64>)
        ensures
            r == self.spec_as_u64(),
    {
        match self {
            JsonNumber::PosInt(n) => Some(*n),
            _ => None,
        }
    }
}

/// Numeric equality as serde compares numbers: floats by value, so that
/// positive and negative zero are equal (unlike their printed forms).
pub open spec fn number_eq(x: JsonNumber, y: JsonNumber) -> bool {
    match (x, y) {
        (JsonNumber::Float(a), JsonNumber::Float(b)) => a == b || (a & 0x7fff_ffff_ffff_ffffu64 == 0
            && b & 0x7fff_ffff_ffff_ffffu64 == 0),
        _ => x == y,
    }
}

fn number_eq_exec(x: JsonNumber, y: JsonNumber) -> (r: bool)
    ensures
        r == number_eq(x, y),
{
    match (x, y) {
        (JsonNumber::Float(a), JsonNumber::Float(b)) => a == b || (a & 0x7fff_ffff_ffff_ffffu64 == 0
            && b & 0x7fff_ffff_ffff_ffffu64 == 0),
        _ => x == y,
    }
}

/// Toggle in `old` exactly the bits that differ between `before` and `after`.
pub open spec fn apply_toggled_bits(old: u64, before: u64, after: u64) -> u64 {
    (old & !(before ^ after)) | (after & (before ^ after))
}

/// An edited rotation must still be a triple of numbers.
pub open spec fn is_number_triple(j: Json) -> bool {
    &&& j is Array
    &&& j->Array_0.len() == 3
    &&& forall|i: int| 0 <= i < 3 ==> #[trigger] j->Array_0[i] is Number
}

/// Index of the first field named `key`, searching from `j`.
pub open spec fn find_key_from(fields: Seq<(Seq<u8>, Json)>, key: Seq<u8>, j: int) -> Option<int>
    decreases fields.len() - j,
{
    if j < 0 || j >= fields.len() {
        None
    } else if fields[j].0 == key {
        Some(j)
    } else {
        find_key_from(fields, key, j + 1)
    }
}

/// Index of the first field named `key`.
pub open spec fn find_key(fields: Seq<(Seq<u8>, Json)>, key: Seq<u8>) -> Option<int> {
    find_key_from(fields, key, 0)
}

/// Three-way merge of one value: compare the editor's initial value
/// (`baseline`) with its current value and apply the changes to the source
/// value (`original`). Whole scalars are replaced, never their bytes; an
/// edited rotation replaces the whole triple; ITPT `setting_2` takes only the
/// toggled bits; arrays and objects must keep their shape, except that the
/// STGI records may be a one-record prefix of the source.
pub open spec fn merged(o: Json, b: Json, c: Json, ctx: MergeContext) -> Result<Json, KmpError>
    decreases b, 0nat,
{
    if ctx.key == FieldKey::Rotation && b != c {
        if is_number_triple(c) {
            Ok(c)
        } else {
            Err(KmpError::UnsupportedRotation)
        }
    } else {
        match (o, b, c) {
            (Json::Array(os), Json::Array(bs), Json::Array(cs)) => {
                if bs.len() != cs.len() {
                    Err(KmpError::StructuralEdit)
                } else if !(os.len() == bs.len() || (ctx.entries_root && ctx.stgi && bs.len() == 1
                    && os.len() > 0)) {
                    Err(KmpError::SnapshotStructureMismatch)
                } else {
                    match merge_items(os, bs, cs, ctx, 0) {
                        Ok(s) => Ok(Json::Array(s)),
                        Err(e) => Err(e),
                    }
                }
            },
            (Json::Object(os), Json::Object(bs), Json::Object(cs)) => {
                if !(os.len() == bs.len() && bs.len() == cs.len()) {
                    Err(KmpError::ObjectStructureMismatch)
                } else {
                    match merge_fields(os, bs, cs, ctx, 0) {
                        Ok(s) => Ok(Json::Object(s)),
                        Err(e) => Err(e),
                    }
                }
            },
            (Json::Number(on), Json::Number(bn), Json::Number(cn)) => {
                if bn == cn {
                    Ok(o)
                } else if ctx.itpt && ctx.key == FieldKey::Setting2 {
                    match (bn.spec_as_u64(), cn.spec_as_u64(), on.spec_as_u64()) {
                        (Some(x), Some(y), Some(z)) => Ok(
                            Json::Number(JsonNumber::PosInt(apply_toggled_bits(z, x, y))),
                        ),
                        _ => Err(KmpError::InvalidFlags),
                    }
                } else {
                    Ok(c)
                }
            },
            (Json::Bool(_), Json::Bool(x), Json::Bool(y)) => {
                if x == y {
                    Ok(o)
                } else {
                    Ok(c)
                }
            },
            (_, Json::Null, Json::Null) => Ok(o),
            (Json::Null, Json::Number(x), Json::Number(y)) => {
                if number_eq(x, y) {
                    Ok(o)
                } else {
                    Err(KmpError::UnsupportedScalar)
                }
            },
            _ => Err(KmpError::UnsupportedScalar),
        }
    }
}

/// Merge array elements `i..` in order, stopping at the first refusal.
pub open spec fn merge_items(os: Seq<Json>, bs: Seq<Json>, cs: Seq<Json>, ctx: MergeContext, i: int) -> Result<
    Seq<Json>,
    KmpError,
>
    decreases bs, bs.len() - i,
{
    if i < 0 || i >= bs.len() {
        Ok(os)
    } else {
        match merged(os[i], bs[i], cs[i], element_context(ctx)) {
            Ok(v) => merge_items(os.update(i, v), bs, cs, ctx, i + 1),
            Err(e) => Err(e),
        }
    }
}

/// Merge the baseline's fields `i..` in baseline order, looking up the same
/// name in the current and source objects.
pub open spec fn merge_fields(
    os: Seq<(Seq<u8>, Json)>,
    bs: Seq<(Seq<u8>, Json)>,
    cs: Seq<(Seq<u8>, Json)>,
    ctx: MergeContext,
    i: int,
) -> Result<Seq<(Seq<u8>, Json)>, KmpError>
    decreases bs, bs.len() - i,
{
    if i < 0 || i >= bs.len() {
        Ok(os)
    } else {
        let key = bs[i].0;
        match find_key(cs, key) {
            None => Err(KmpError::MissingCurrentField),
            Some(ci) => match find_key(os, key) {
                None => Err(KmpError::MissingOriginalField),
                Some(oi) => match merged(os[oi].1, bs[i].1, cs[ci].1, field_context(ctx, key)) {
                    Ok(v) => merge_fields(os.update(oi, (os[oi].0, v)), bs, cs, ctx, i + 1),
                    Err(e) => Err(e),
                },
            },
        }
    }
}

broadcast use vstd::std_specs::vec::group_vec_axioms;

/// No two fields share a name.
pub open spec fn distinct_keys(fields: Seq<(Seq<u8>, Json)>) -> bool {
    forall|i: int, j: int| 0 <= i < j < fields.len() ==> fields[i].0 != fields[j].0
}

/// Every object in the tree has distinct field names, as serialized maps do.
pub open spec fn well_formed(j: Json) -> bool
    decreases j,
{
    match j {
        Json::Array(items) => forall|i: int| 0 <= i < items.len() ==> well_formed(#[trigger] items[i]),
        Json::Object(fields) => distinct_keys(fields) && forall|i: int|
            0 <= i < fields.len() ==> well_formed(#[trigger] fields[i].1),
        _ => true,
    }
}

/// Merging a snapshot with itself never changes the source value: import
/// normalization alone (a baseline that differs from the source while the
/// user has edited nothing) can only succeed unchanged or be refused.
pub proof fn lemma_merge_without_edits_keeps_original(o: Json, b: Json, ctx: MergeContext)
    requires
        well_formed(b),
    ensures
        merged(o, b, b, ctx) matches Ok(v) ==> v == o,
    decreases b, 0nat,
{
    match (o, b) {
        (Json::Array(os), Json::Array(bs)) => {
            if os.len() >= bs.len() {
                lemma_items_without_edits(os, bs, ctx, 0);
            }
        },
        (Json::Object(os), Json::Object(bs)) => {
            lemma_fields_without_edits(os, bs, ctx, 0);
        },
        _ => {},
    }
}

proof fn lemma_items_without_edits(os: Seq<Json>, bs: Seq<Json>, ctx: MergeContext, i: int)
    requires
        forall|k: int| 0 <= k < bs.len() ==> well_formed(#[trigger] bs[k]),
        os.len() >= bs.len(),
    ensures
        merge_items(os, bs, bs, ctx, i) matches Ok(s) ==> s == os,
    decreases bs, bs.len() - i,
{
    if 0 <= i < bs.len() {
        lemma_merge_without_edits_keeps_original(os[i], bs[i], element_context(ctx));
        if let Ok(v) = merged(os[i], bs[i], bs[i], element_context(ctx)) {
            assert(os.update(i, v) =~= os);
            lemma_items_without_edits(os, bs, ctx, i + 1);
        }
    }
}

proof fn lemma_find_key_range(fields: Seq<(Seq<u8>, Json)>, key: Seq<u8>, j: int)
    ensures
        find_key_from(fields, key, j) matches Some(k) ==> 0 <= k < fields.len() && fields[k].0 == key,
    decreases fields.len() - j,
{
    if 0 <= j < fields.len() && fields[j].0 != key {
        lemma_find_key_range(fields, key, j + 1);
    }
}

proof fn lemma_find_key_unique(fields: Seq<(Seq<u8>, Json)>, i: int, j: int)
    requires
        distinct_keys(fields),
        0 <= j <= i < fields.len(),
    ensures
        find_key_from(fields, fields[i].0, j) == Some(i),
    decreases i - j,
{
    if j < i {
        assert(fields[j].0 != fields[i].0);
        lemma_find_key_unique(fields, i, j + 1);
    }
}

proof fn lemma_fields_without_edits(
    os: Seq<(Seq<u8>, Json)>,
    bs: Seq<(Seq<u8>, Json)>,
    ctx: MergeContext,
    i: int,
)
    requires
        distinct_keys(bs),
        forall|k: int| 0 <= k < bs.len() ==> well_formed(#[trigger] bs[k].1),
    ensures
        merge_fields(os, bs, bs, ctx, i) matches Ok(s) ==> s == os,
    decreases bs, bs.len() - i,
{
    if 0 <= i < bs.len() {
        let key = bs[i].0;
        lemma_find_key_unique(bs, i, 0);
        lemma_find_key_range(os, key, 0);
        if let Some(oi) = find_key(os, key) {
            let child = field_context(ctx, key);
            lemma_merge_without_edits_keeps_original(os[oi].1, bs[i].1, child);
            if let Ok(v) = merged(os[oi].1, bs[i].1, bs[i].1, child) {
                assert(os.update(oi, (os[oi].0, v)) =~= os);
                lemma_fields_without_edits(os, bs, ctx, i + 1);
            }
        }
    }
}

/// The source value `o` has the shape of the editor value `b`, so merging
/// `b` with itself goes through: arrays of the same length and objects of
/// the same size whose fields the source also has, each pair of the same
/// shape; numbers (or the nulls that stand for non-finite floats), booleans,
/// and nulls. Text is never merged.
pub open spec fn no_op_mergeable(o: Json, b: Json) -> bool
    decreases b, 0nat,
{
    match b {
        Json::Null => true,
        Json::Bool(_) => o is Bool,
        Json::Number(_) => o is Number || o is Null,
        Json::Text(_) => false,
        Json::Array(bs) => match o {
            Json::Array(os) => items_mergeable(os, bs, 0),
            _ => false,
        },
        Json::Object(bf) => match o {
            Json::Object(of) => of.len() == bf.len() && fields_mergeable(of, bf, 0),
            _ => false,
        },
    }
}

/// From item `i` on, the source items have the shape of the editor's, and
/// there are as many.
pub open spec fn items_mergeable(os: Seq<Json>, bs: Seq<Json>, i: int) -> bool
    decreases bs, bs.len() - i,
{
    if i < 0 || i >= bs.len() {
        os.len() == bs.len()
    } else {
        no_op_mergeable(os[i], bs[i]) && items_mergeable(os, bs, i + 1)
    }
}

/// From field `i` on, the source object has the editor's fields, of their
/// shape.
pub open spec fn fields_mergeable(os: Seq<(Seq<u8>, Json)>, bs: Seq<(Seq<u8>, Json)>, i: int) -> bool
    decreases bs, bs.len() - i,
{
    if i < 0 || i >= bs.len() {
        true
    } else {
        find_key(os, bs[i].0) is Some && no_op_mergeable(os[find_key(os, bs[i].0)->Some_0].1, bs[i].1)
            && fields_mergeable(os, bs, i + 1)
    }
}

/// Bit `k` of `w`.
pub open spec fn bit(w: u64, k: u64) -> u64 {
    (w >> k) & 1
}

/// ITPT flag words merge bit by bit: every bit that the editor toggled
/// (differs between the loaded and the current word) takes the current
/// value, and every other bit keeps the source word's value, so a cleared
/// flag is clear in the result, a set flag set, and unknown source bits
/// survive.
pub proof fn lemma_flag_bits_merge(o: u64, b: u64, c: u64, ctx: MergeContext)
    requires
        ctx.itpt,
        ctx.key == FieldKey::Setting2,
    ensures
        merged(
            Json::Number(JsonNumber::PosInt(o)),
            Json::Number(JsonNumber::PosInt(b)),
            Json::Number(JsonNumber::PosInt(c)),
            ctx,
        ) matches Ok(Json::Number(JsonNumber::PosInt(m))) && forall|k: u64|
            k < 64 ==> #[trigger] bit(m, k) == if bit(b, k) != bit(c, k) {
                bit(c, k)
            } else {
                bit(o, k)
            },
{
    let r = merged(
        Json::Number(JsonNumber::PosInt(o)),
        Json::Number(JsonNumber::PosInt(b)),
        Json::Number(JsonNumber::PosInt(c)),
        ctx,
    );
    if b == c {
        assert(r == Ok::<Json, KmpError>(Json::Number(JsonNumber::PosInt(o))));
    } else {
        let m = apply_toggled_bits(o, b, c);
        assert(r == Ok::<Json, KmpError>(Json::Number(JsonNumber::PosInt(m))));
        assert forall|k: u64| k < 64 implies #[trigger] bit(m, k) == if bit(b, k) != bit(c, k) {
            bit(c, k)
        } else {
            bit(o, k)
        } by {
            let bm = (m >> k) & 1;
            let bb = (b >> k) & 1;
            let bc = (c >> k) & 1;
            let bo = (o >> k) & 1;
            assert(bm == if bb != bc { bc } else { bo }) by (bit_vector)
                requires
                    m == (o & !(b ^ c)) | (c & (b ^ c)),
                    k < 64,
                    bm == (m >> k) & 1,
                    bb == (b >> k) & 1,
                    bc == (c >> k) & 1,
                    bo == (o >> k) & 1,
            ;
        }
    }
}

/// Merging a snapshot with itself succeeds and keeps the source value
/// whenever the source has the snapshot's shape: importing and normalizing
/// alone never produces an edit.
pub proof fn lemma_merge_without_edits_succeeds(o: Json, b: Json, ctx: MergeContext)
    requires
        well_formed(b),
        no_op_mergeable(o, b),
    ensures
        merged(o, b, b, ctx) == Ok::<Json, KmpError>(o),
    decreases b, 0nat,
{
    match (o, b) {
        (Json::Array(os), Json::Array(bs)) => {
            lemma_items_mergeable_len(os, bs, 0);
            lemma_items_succeed(os, bs, ctx, 0);
        },
        (Json::Object(os), Json::Object(bs)) => {
            lemma_fields_succeed(os, bs, ctx, 0);
        },
        (_, Json::Number(x)) => {
            if let Json::Null = o {
                assert(number_eq(x, x));
            }
        },
        _ => {},
    }
}

proof fn lemma_items_mergeable_len(os: Seq<Json>, bs: Seq<Json>, i: int)
    requires
        items_mergeable(os, bs, i),
    ensures
        os.len() == bs.len(),
    decreases bs.len() - i,
{
    if 0 <= i < bs.len() {
        lemma_items_mergeable_len(os, bs, i + 1);
    }
}

proof fn lemma_items_succeed(os: Seq<Json>, bs: Seq<Json>, ctx: MergeContext, i: int)
    requires
        forall|k: int| 0 <= k < bs.len() ==> well_formed(#[trigger] bs[k]),
        items_mergeable(os, bs, i),
        0 <= i,
    ensures
        merge_items(os, bs, bs, ctx, i) == Ok::<Seq<Json>, KmpError>(os),
    decreases bs, bs.len() - i,
{
    lemma_items_mergeable_len(os, bs, i);
    if i < bs.len() {
        lemma_merge_without_edits_succeeds(os[i], bs[i], element_context(ctx));
        assert(os.update(i, os[i]) =~= os);
        lemma_items_succeed(os, bs, ctx, i + 1);
    }
}

proof fn lemma_fields_succeed(os: Seq<(Seq<u8>, Json)>, bs: Seq<(Seq<u8>, Json)>, ctx: MergeContext, i: int)
    requires
        distinct_keys(bs),
        forall|k: int| 0 <= k < bs.len() ==> well_formed(#[trigger] bs[k].1),
        fields_mergeable(os, bs, i),
        0 <= i,
    ensures
        merge_fields(os, bs, bs, ctx, i) == Ok::<Seq<(Seq<u8>, Json)>, KmpError>(os),
    decreases bs, bs.len() - i,
{
    if i < bs.len() {
        let key = bs[i].0;
        lemma_find_key_unique(bs, i, 0);
        lemma_find_key_range(os, key, 0);
        let oi = find_key(os, key)->Some_0;
        lemma_merge_without_edits_succeeds(os[oi].1, bs[i].1, field_context(ctx, key));
        assert(os.update(oi, (os[oi].0, os[oi].1)) =~= os);
        lemma_fields_succeed(os, bs, ctx, i + 1);
    }
}

/// Models of a sequence of values.
pub open spec fn models(s: Seq<JsonValue>) -> Seq<Json> {
    Seq::new(s.len(), |i: int| s[i].model())
}

/// Models of a sequence of fields.
pub open spec fn field_models(s: Seq<JsonField>) -> Seq<(Seq<u8>, Json)> {
    Seq::new(s.len(), |i: int| (s[i].key@, s[i].value.model()))
}

pub(crate) proof fn lemma_array_model(v: Vec<JsonValue>)
    ensures
        JsonValue::Array(v).model() == Json::Array(models(v@)),
{
    assert(JsonValue::Array(v).model()->Array_0 =~= models(v@));
}

proof fn lemma_object_model(v: Vec<JsonField>)
    ensures
        JsonValue::Object(v).model() == Json::Object(field_models(v@)),
{
    assert(JsonValue::Object(v).model()->Object_0 =~= field_models(v@));
}

fn bytes_eq(a: &Vec<u8>, b: &Vec<u8>) -> (r: bool)
    ensures
        r == (a@ == b@),
{
    if a.len() != b.len() {
        return false;
    }
    let mut i: usize = 0;
    while i < a.len()
        invariant
            a@.len() == b@.len(),
            i <= a@.len(),
            forall|k: int| 0 <= k < i ==> a@[k] == b@[k],
        decreases a@.len() - i,
    {
        if a[i] != b[i] {
            return false;
        }
        i += 1;
    }
    assert(a@ =~= b@);
    true
}

fn classify_key(key: &Vec<u8>) -> (r: FieldKey)
    ensures
        r == classify(key@),
{
    let rotation: Vec<u8> = vec![114u8, 111u8, 116u8, 97u8, 116u8, 105u8, 111u8, 110u8];
    let setting_2: Vec<u8> = vec![115u8, 101u8, 116u8, 116u8, 105u8, 110u8, 103u8, 95u8, 50u8];
    assert(rotation@ =~= rotation_name());
    assert(setting_2@ =~= setting_2_name());
    if bytes_eq(key, &rotation) {
        FieldKey::Rotation
    } else if bytes_eq(key, &setting_2) {
        FieldKey::Setting2
    } else {
        FieldKey::Other
    }
}

/// Structural equality of two trees, the equality of their printed forms.
#[verifier::loop_isolation(false)]
pub fn json_eq(a: &JsonValue, b: &JsonValue) -> (r: bool)
    ensures
        r == (a.model() == b.model()),
    decreases a,
{
    match (a, b) {
        (JsonValue::Null, JsonValue::Null) => true,
        (JsonValue::Bool(x), JsonValue::Bool(y)) => *x == *y,
        (JsonValue::Number(x), JsonValue::Number(y)) => *x == *y,
        (JsonValue::Text(x), JsonValue::Text(y)) => bytes_eq(x, y),
        (JsonValue::Array(xs), JsonValue::Array(ys)) => {
            proof {
                lemma_array_model(*xs);
                lemma_array_model(*ys);
            }
            if xs.len() != ys.len() {
                assert(models(xs@).len() != models(ys@).len());
                return false;
            }
            let mut i: usize = 0;
            while i < xs.len()
                invariant
                    xs@.len() == ys@.len(),
                    i <= xs@.len(),
                    forall|k: int| 0 <= k < i ==> xs@[k].model() == ys@[k].model(),
                decreases xs@.len() - i,
            {
                if !json_eq(&xs[i], &ys[i]) {
                    assert(models(xs@)[i as int] != models(ys@)[i as int]);
                    return false;
                }
                i += 1;
            }
            assert(models(xs@) =~= models(ys@));
            true
        },
        (JsonValue::Object(xs), JsonValue::Object(ys)) => {
            proof {
                lemma_object_model(*xs);
                lemma_object_model(*ys);
            }
            if xs.len() != ys.len() {
                assert(field_models(xs@).len() != field_models(ys@).len());
                return false;
            }
            let mut i: usize = 0;
            while i < xs.len()
                invariant
                    xs@.len() == ys@.len(),
                    i <= xs@.len(),
                    forall|k: int|
                        0 <= k < i ==> xs@[k].key@ == ys@[k].key@ && xs@[k].value.model()
                            == ys@[k].value.model(),
                decreases xs@.len() - i,
            {
                if !bytes_eq(&xs[i].key, &ys[i].key) {
                    assert(field_models(xs@)[i as int] != field_models(ys@)[i as int]);
                    return false;
                }
                if !json_eq(&xs[i].value, &ys[i].value) {
                    assert(field_models(xs@)[i as int] != field_models(ys@)[i as int]);
                    return false;
                }
                i += 1;
            }
            assert(field_models(xs@) =~= field_models(ys@));
            true
        },
        _ => false,
    }
}

/// No value in the tree is null. Raw KMP records have no optional fields,
/// and serialization writes NaN and infinity as null, so a null marks a
/// non-finite number.
pub open spec fn no_nulls(j: Json) -> bool
    decreases j,
{
    match j {
        Json::Null => false,
        Json::Array(items) => forall|i: int| 0 <= i < items.len() ==> no_nulls(#[trigger] items[i]),
        Json::Object(fields) => forall|i: int| 0 <= i < fields.len() ==> no_nulls(#[trigger] fields[i].1),
        _ => true,
    }
}

proof fn lemma_null_item(ms: Seq<Json>, i: int)
    requires
        0 <= i < ms.len(),
        !no_nulls(ms[i]),
    ensures
        !no_nulls(Json::Array(ms)),
{
    let j = Json::Array(ms);
    assert(j->Array_0 == ms);
    if no_nulls(j) {
        assert(no_nulls(j->Array_0[i]));
    }
}

proof fn lemma_null_field(fs: Seq<(Seq<u8>, Json)>, i: int)
    requires
        0 <= i < fs.len(),
        !no_nulls(fs[i].1),
    ensures
        !no_nulls(Json::Object(fs)),
{
    let j = Json::Object(fs);
    assert(j->Object_0 == fs);
    if no_nulls(j) {
        assert(no_nulls(j->Object_0[i].1));
    }
}

/// Every scalar of the serialized tree is present and finite (see [`no_nulls`]).
#[verifier::loop_isolation(false)]
pub fn finite_scalars(v: &JsonValue) -> (r: bool)
    ensures
        r == no_nulls(v.model()),
    decreases v,
{
    match v {
        JsonValue::Null => false,
        JsonValue::Array(items) => {
            proof {
                lemma_array_model(*items);
            }
            let mut i: usize = 0;
            while i < items.len()
                invariant
                    i <= items@.len(),
                    forall|k: int| 0 <= k < i ==> no_nulls(#[trigger] models(items@)[k]),
                decreases items@.len() - i,
            {
                if !finite_scalars(&items[i]) {
                    assert(!no_nulls(models(items@)[i as int]));
                    proof {
                        lemma_null_item(models(items@), i as int);
                    }
                    return false;
                }
                i += 1;
            }
            true
        },
        JsonValue::Object(fields) => {
            proof {
                lemma_object_model(*fields);
            }
            let mut i: usize = 0;
            while i < fields.len()
                invariant
                    i <= fields@.len(),
                    forall|k: int| 0 <= k < i ==> no_nulls(#[trigger] field_models(fields@)[k].1),
                decreases fields@.len() - i,
            {
                if !finite_scalars(&fields[i].value) {
                    assert(!no_nulls(field_models(fields@)[i as int].1));
                    proof {
                        lemma_null_field(field_models(fields@), i as int);
                    }
                    return false;
                }
                i += 1;
            }
            true
        },
        _ => true,
    }
}

/// A deep copy of a tree.
#[verifier::loop_isolation(false)]
pub fn copy_json(v: &JsonValue) -> (r: JsonValue)
    ensures
        r.model() == v.model(),
    decreases v,
{
    match v {
        JsonValue::Null => JsonValue::Null,
        JsonValue::Bool(x) => JsonValue::Bool(*x),
        JsonValue::Number(x) => JsonValue::Number(*x),
        JsonValue::Text(x) => JsonValue::Text(vstd::slice::slice_to_vec(x.as_slice())),
        JsonValue::Array(xs) => {
            let mut out: Vec<JsonValue> = Vec::new();
            let mut i: usize = 0;
            while i < xs.len()
                invariant
                    i <= xs@.len(),
                    out@.len() == i,
                    forall|k: int| 0 <= k < i ==> out@[k].model() == xs@[k].model(),
                decreases xs@.len() - i,
            {
                out.push(copy_json(&xs[i]));
                i += 1;
            }
            proof {
                lemma_array_model(*xs);
                lemma_array_model(out);
                assert(models(out@) =~= models(xs@));
            }
            JsonValue::Array(out)
        },
        JsonValue::Object(xs) => {
            let mut out: Vec<JsonField> = Vec::new();
            let mut i: usize = 0;
            while i < xs.len()
                invariant
                    i <= xs@.len(),
                    out@.len() == i,
                    forall|k: int|
                        0 <= k < i ==> out@[k].key@ == xs@[k].key@ && out@[k].value.model()
                            == xs@[k].value.model(),
                decreases xs@.len() - i,
            {
                let key = vstd::slice::slice_to_vec(xs[i].key.as_slice());
                let value = copy_json(&xs[i].value);
                out.push(JsonField { key, value });
                i += 1;
            }
            proof {
                lemma_object_model(*xs);
                lemma_object_model(out);
                assert(field_models(out@) =~= field_models(xs@));
            }
            JsonValue::Object(out)
        },
    }
}

#[verifier::loop_isolation(false)]
fn is_number_triple_exec(v: &JsonValue) -> (r: bool)
    ensures
        r == is_number_triple(v.model()),
{
    match v {
        JsonValue::Array(xs) => {
            proof {
                lemma_array_model(*xs);
            }
            if xs.len() != 3 {
                return false;
            }
            let mut i: usize = 0;
            while i < 3
                invariant
                    xs@.len() == 3,
                    i <= 3,
                    forall|k: int| 0 <= k < i ==> xs@[k].model() is Number,
                decreases 3 - i,
            {
                match &xs[i] {
                    JsonValue::Number(_) => {},
                    _ => {
                        assert(!(models(xs@)[i as int] is Number));
                        return false;
                    },
                }
                i += 1;
            }
            assert forall|k: int| 0 <= k < 3 implies #[trigger] models(xs@)[k] is Number by {
                assert(xs@[k].model() is Number);
            }
            true
        },
        _ => false,
    }
}

fn find_field(fields: &Vec<JsonField>, key: &Vec<u8>) -> (r: Option<usize>)
    ensures
        r matches Some(i) ==> find_key(field_models(fields@), key@) == Some(i as int) && i
            < fields@.len(),
        r is None ==> find_key(field_models(fields@), key@) is None,
{
    let ghost fm = field_models(fields@);
    let mut j: usize = 0;
    while j < fields.len()
        invariant
            fm == field_models(fields@),
            j <= fields@.len(),
            find_key(fm, key@) == find_key_from(fm, key@, j as int),
        decreases fields@.len() - j,
    {
        if bytes_eq(&fields[j].key, key) {
            return Some(j);
        }
        j += 1;
    }
    None
}

fn element_context_exec(ctx: MergeContext) -> (r: MergeContext)
    ensures
        r == element_context(ctx),
{
    MergeContext { itpt: ctx.itpt, stgi: ctx.stgi, entries_root: false, key: FieldKey::Other }
}

fn field_context_exec(ctx: MergeContext, key: &Vec<u8>) -> (r: MergeContext)
    ensures
        r == field_context(ctx, key@),
{
    MergeContext { itpt: ctx.itpt, stgi: ctx.stgi, entries_root: false, key: classify_key(key) }
}

/// Merge the editor's changes to one value onto its source value; see
/// `merged`. Refusals leave no partial result.
#[verifier::loop_isolation(false)]
#[verifier::rlimit(50)]
pub fn merge(original: JsonValue, baseline: &JsonValue, current: &JsonValue, ctx: MergeContext) -> (r:
    Result<JsonValue, KmpError>)
    ensures
        match merged(original.model(), baseline.model(), current.model(), ctx) {
            Ok(j) => r matches Ok(v) && v.model() == j,
            Err(e) => r matches Err(f) && f == e,
        },
    decreases baseline,
{
    if ctx.key == FieldKey::Rotation && !json_eq(baseline, current) {
        if is_number_triple_exec(current) {
            return Ok(copy_json(current));
        } else {
            return Err(KmpError::UnsupportedRotation);
        }
    }
    match baseline {
        JsonValue::Array(bs) => {
            let cs = match current {
                JsonValue::Array(cs) => cs,
                _ => return Err(KmpError::UnsupportedScalar),
            };
            let os = match original {
                JsonValue::Array(os) => os,
                _ => return Err(KmpError::UnsupportedScalar),
            };
            proof {
                lemma_array_model(*bs);
                lemma_array_model(*cs);
                lemma_array_model(os);
            }
            let n = bs.len();
            if n != cs.len() {
                return Err(KmpError::StructuralEdit);
            }
            if !(os.len() == n || (ctx.entries_root && ctx.stgi && n == 1 && os.len() > 0)) {
                return Err(KmpError::SnapshotStructureMismatch);
            }
            let ghost om = models(os@);
            let ghost bm = models(bs@);
            let ghost cm = models(cs@);
            let ectx = element_context_exec(ctx);
            let mut rest = os;
            let mut out: Vec<JsonValue> = Vec::new();
            let mut i: usize = 0;
            while i < n
                invariant
                    n == bs@.len(),
                    n == cs@.len(),
                    n <= om.len(),
                    i <= n,
                    out@.len() == i,
                    out@.len() + rest@.len() == om.len(),
                    bm == models(bs@),
                    cm == models(cs@),
                    ectx == element_context(ctx),
                    merge_items(om, bm, cm, ctx, 0) == merge_items(
                        models(out@) + models(rest@),
                        bm,
                        cm,
                        ctx,
                        i as int,
                    ),
                decreases n - i,
            {
                let ghost cur = models(out@) + models(rest@);
                let item = rest.remove(0);
                assert(cur[i as int] == item.model());
                let v = match merge(item, &bs[i], &cs[i], ectx) {
                    Ok(v) => v,
                    Err(e) => return Err(e),
                };
                out.push(v);
                proof {
                    assert(models(out@) + models(rest@) =~= cur.update(i as int, v.model()));
                }
                i += 1;
            }
            let ghost fin = models(out@) + models(rest@);
            out.append(&mut rest);
            proof {
                assert(models(out@) =~= fin);
                lemma_array_model(out);
            }
            Ok(JsonValue::Array(out))
        },
        JsonValue::Object(bs) => {
            let cs = match current {
                JsonValue::Object(cs) => cs,
                _ => return Err(KmpError::UnsupportedScalar),
            };
            let os = match original {
                JsonValue::Object(os) => os,
                _ => return Err(KmpError::UnsupportedScalar),
            };
            proof {
                lemma_object_model(*bs);
                lemma_object_model(*cs);
                lemma_object_model(os);
            }
            let n = bs.len();
            if !(os.len() == n && n == cs.len()) {
                return Err(KmpError::ObjectStructureMismatch);
            }
            let ghost om = field_models(os@);
            let ghost bm = field_models(bs@);
            let ghost cm = field_models(cs@);
            let mut fields = os;
            let mut i: usize = 0;
            while i < n
                invariant
                    n == bs@.len(),
                    n == cs@.len(),
                    i <= n,
                    fields@.len() == om.len(),
                    bm == field_models(bs@),
                    cm == field_models(cs@),
                    merge_fields(om, bm, cm, ctx, 0) == merge_fields(
                        field_models(fields@),
                        bm,
                        cm,
                        ctx,
                        i as int,
                    ),
                decreases n - i,
            {
                let ghost cur = field_models(fields@);
                let key = &bs[i].key;
                let ci = match find_field(cs, key) {
                    Some(ci) => ci,
                    None => return Err(KmpError::MissingCurrentField),
                };
                let oi = match find_field(&fields, key) {
                    Some(oi) => oi,
                    None => return Err(KmpError::MissingOriginalField),
                };
                let kctx = field_context_exec(ctx, key);
                assert(bm[i as int].0 == key@);
                assert(bm[i as int].1 == bs@[i as int].value.model());
                assert(cm[ci as int].1 == cs@[ci as int].value.model());
                let f = fields.remove(oi);
                let JsonField { key: fkey, value: fvalue } = f;
                assert(cur[oi as int].1 == fvalue.model());
                assert(find_key(cm, bm[i as int].0) == Some(ci as int));
                assert(find_key(cur, bm[i as int].0) == Some(oi as int));
                assert(merge_fields(cur, bm, cm, ctx, i as int) == match merged(
                    cur[oi as int].1,
                    bm[i as int].1,
                    cm[ci as int].1,
                    field_context(ctx, bm[i as int].0),
                ) {
                    Ok(v) => merge_fields(cur.update(oi as int, (cur[oi as int].0, v)), bm, cm, ctx, i + 1),
                    Err(e) => Err(e),
                });
                let v = match merge(fvalue, &bs[i].value, &cs[ci].value, kctx) {
                    Ok(v) => v,
                    Err(e) => return Err(e),
                };
                let ghost vm = v.model();
                fields.insert(oi, JsonField { key: fkey, value: v });
                proof {
                    assert(field_models(fields@) =~= cur.update(oi as int, (cur[oi as int].0, vm)));
                }
                i += 1;
            }
            proof {
                lemma_object_model(fields);
            }
            Ok(JsonValue::Object(fields))
        },
        JsonValue::Number(bn) => {
            let cn = match current {
                JsonValue::Number(cn) => cn,
                _ => return Err(KmpError::UnsupportedScalar),
            };
            match original {
                JsonValue::Number(on) => {
                    if *bn == *cn {
                        Ok(JsonValue::Number(on))
                    } else if ctx.itpt && ctx.key == FieldKey::Setting2 {
                        match (bn.as_u64(), cn.as_u64(), on.as_u64()) {
                            (Some(x), Some(y), Some(z)) => {
                                let mask = x ^ y;
                                Ok(JsonValue::Number(JsonNumber::PosInt((z & !mask) | (y & mask))))
                            },
                            _ => Err(KmpError::InvalidFlags),
                        }
                    } else {
                        Ok(JsonValue::Number(*cn))
                    }
                },
                JsonValue::Null => {
                    if number_eq_exec(*bn, *cn) {
                        Ok(JsonValue::Null)
                    } else {
                        Err(KmpError::UnsupportedScalar)
                    }
                },
                _ => Err(KmpError::UnsupportedScalar),
            }
        },
        JsonValue::Bool(x) => {
            let y = match current {
                JsonValue::Bool(y) => y,
                _ => return Err(KmpError::UnsupportedScalar),
            };
            match original {
                JsonValue::Bool(z) => {
                    if *x == *y {
                        Ok(JsonValue::Bool(z))
                    } else {
                        Ok(JsonValue::Bool(*y))
                    }
                },
                _ => Err(KmpError::UnsupportedScalar),
            }
        },
        JsonValue::Null => {
            match current {
                JsonValue::Null => Ok(original),
                _ => Err(KmpError::UnsupportedScalar),
            }
        },
        JsonValue::Text(_) => Err(KmpError::UnsupportedScalar),
    }
}

} // verus!
