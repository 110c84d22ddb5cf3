//! The derive contract: a structural description of a record or tagged
//! union — field types, `skip`/`when`/`len` annotations, variant tags —
//! and the interpreter that sequences the codec per field and per variant
//! exactly as generated glue code would.
//!
//! The textual attribute syntax and the parsing of a type definition are a
//! build-time front end and stay outside this crate; what is modelled here
//! is the semantic contract those annotations carry.
use vstd::prelude::*;

verus! {

use crate::config::Config;
use crate::error::{Error, IoFault};
use crate::model::Model;
use crate::numbytes::{num_bytes, num_val, pow256, rcv_uint, snd_uint};
use crate::text::{strip_nuls, utf16_len, utf16_sized_bytes, utf16_take};
use crate::{FromReader, IntoWriter, Receivable, Receiver, Sendable, Sender};

/// A field or payload type the derive contract covers.
pub enum Ty {
    /// An unsigned byte.
    U8,
    /// A 16-bit unsigned integer in the configured byte order.
    U16,
    /// A 32-bit unsigned integer in the configured byte order.
    U32,
    /// A 64-bit unsigned integer in the configured byte order.
    U64,
    /// A boolean flag byte.
    Bool,
    /// A UTF-8 string, length-prefixed, or fixed-length under `len`.
    Text,
    /// A UTF-16 string, length-prefixed by byte count, or fixed-length
    /// under `len`.
    Wide,
    /// A raw byte buffer, length-prefixed, or fixed-length under `len`.
    Bytes,
    /// An optional value: a presence flag then the payload, except under
    /// `when`, where presence comes from the predicate.
    Opt(Box<Ty>),
    /// A nested record.
    Rec(Box<RecSchema>),
    /// A nested tagged union.
    Union(Box<UnionSchema>),
}

/// How two numbers are compared in a `when` predicate.
#[derive(Clone, Copy, PartialEq, Eq, Structural)]
pub enum Cmp {
    /// Strictly greater.
    Gt,
    /// Strictly less.
    Lt,
    /// Equal.
    Eq,
    /// Not equal.
    Ne,
    /// Greater or equal.
    Ge,
    /// Less or equal.
    Le,
}

/// A `when` predicate: an earlier numeric sibling field compared against a
/// literal.
#[derive(Clone, Copy, PartialEq, Eq, Structural)]
pub struct Pred {
    /// The index of the earlier sibling field the predicate reads.
    pub field: usize,
    /// The comparison applied.
    pub op: Cmp,
    /// The literal compared against.
    pub rhs: u64,
}

/// Where a `len` annotation takes its byte count from.
#[derive(Clone, Copy, PartialEq, Eq, Structural)]
pub enum LenSrc {
    /// The value of an earlier numeric sibling field.
    Field(usize),
    /// A literal count.
    Lit(usize),
}

/// The annotation on one record field.
#[derive(Clone, Copy, PartialEq, Eq, Structural)]
pub enum Attr {
    /// No annotation: the field's own codec.
    Plain,
    /// `skip`: absent from the wire; decoded as the type's default.
    Skip,
    /// `when(predicate)`: the payload's wire presence is conditional.
    When(Pred),
    /// `len(source)`: the fixed-length wire form with that byte count.
    Len(LenSrc),
}

/// One record field: its type and its annotation.
pub struct FieldSchema {
    /// The field's type.
    pub ty: Ty,
    /// The field's annotation.
    pub attr: Attr,
}

/// The structural description of a record: its fields in declaration
/// order.
pub struct RecSchema {
    /// The fields, in declaration order.
    pub fields: Vec<FieldSchema>,
}

/// The wire width of a tagged union's tag.
#[derive(Clone, Copy, PartialEq, Eq, Structural)]
pub enum TagWidth {
    /// One byte, the default.
    One,
    /// Two bytes in the configured byte order.
    Two,
    /// Four bytes in the configured byte order.
    Four,
}

/// One variant of a tagged union: its resolved tag and its payload type,
/// if it carries one.
pub struct VariantSchema {
    /// The tag value on the wire.
    pub tag: u32,
    /// The payload type, or `None` for a unit variant.
    pub payload: Option<Ty>,
}

/// The structural description of a tagged union.
pub struct UnionSchema {
    /// The tag's wire width.
    pub width: TagWidth,
    /// The variants, in declaration order, with resolved tags.
    pub variants: Vec<VariantSchema>,
}

/// A runtime value conforming to a [`Ty`].
#[derive(PartialEq, Eq, Debug)]
pub enum Value {
    /// An unsigned byte.
    U8(u8),
    /// A 16-bit unsigned integer.
    U16(u16),
    /// A 32-bit unsigned integer.
    U32(u32),
    /// A 64-bit unsigned integer.
    U64(u64),
    /// A boolean.
    Bool(bool),
    /// UTF-8 text.
    Text(String),
    /// UTF-16 text.
    Wide(String),
    /// A raw byte buffer.
    Bytes(Vec<u8>),
    /// An optional value.
    Opt(Option<Box<Value>>),
    /// A record: its field values in declaration order.
    Rec(Vec<Value>),
    /// A union value: the chosen variant's index and its payload, if any.
    Case(usize, Option<Box<Value>>),
}

/// The mathematical model of a [`Value`]: text as its characters, buffers
/// as their bytes, composites structurally.
pub enum VModel {
    /// An unsigned byte.
    U8(u8),
    /// A 16-bit unsigned integer.
    U16(u16),
    /// A 32-bit unsigned integer.
    U32(u32),
    /// A 64-bit unsigned integer.
    U64(u64),
    /// A boolean.
    Bool(bool),
    /// UTF-8 text, by its characters.
    Text(Seq<char>),
    /// UTF-16 text, by its characters.
    Wide(Seq<char>),
    /// A raw byte buffer, by its bytes.
    Bytes(Seq<u8>),
    /// An optional value.
    Opt(Option<Box<VModel>>),
    /// A record's field values.
    Rec(Seq<VModel>),
    /// A union value: variant index and payload.
    Case(usize, Option<Box<VModel>>),
}

/// The model of a runtime value.
pub open spec fn value_model(v: Value) -> VModel
    decreases v, 1int,
{
    match v {
        Value::U8(x) => VModel::U8(x),
        Value::U16(x) => VModel::U16(x),
        Value::U32(x) => VModel::U32(x),
        Value::U64(x) => VModel::U64(x),
        Value::Bool(x) => VModel::Bool(x),
        Value::Text(s) => VModel::Text(s@),
        Value::Wide(s) => VModel::Wide(s@),
        Value::Bytes(b) => VModel::Bytes(b@),
        Value::Opt(o) => VModel::Opt(
            match o {
                Some(b) => Some(Box::new(value_model(*b))),
                None => None,
            },
        ),
        Value::Rec(vs) => VModel::Rec(value_models(vs@)),
        Value::Case(i, p) => VModel::Case(
            i,
            match p {
                Some(b) => Some(Box::new(value_model(*b))),
                None => None,
            },
        ),
    }
}

/// The models of a sequence of runtime values, in order.
pub open spec fn value_models(vs: Seq<Value>) -> Seq<VModel>
    decreases vs, 0int,
{
    if vs.len() == 0 {
        Seq::empty()
    } else {
        seq![value_model(vs[0])] + value_models(vs.skip(1))
    }
}

/// `value_models` maps the sequence element by element.
pub proof fn lemma_value_models(vs: Seq<Value>)
    ensures
        value_models(vs).len() == vs.len(),
        forall|i: int| 0 <= i < vs.len() ==> value_models(vs)[i] == value_model(#[trigger] vs[i]),
    decreases vs.len(),
{
    if vs.len() > 0 {
        lemma_value_models(vs.skip(1));
        assert forall|i: int| 0 <= i < vs.len() implies value_models(vs)[i] == value_model(
            #[trigger] vs[i],
        ) by {
            if i > 0 {
                assert(value_models(vs)[i] == value_models(vs.skip(1))[i - 1]);
                assert(vs.skip(1)[i - 1] == vs[i]);
            }
        };
    }
}

impl Model for Value {
    type M = VModel;

    open spec fn model(&self) -> VModel {
        value_model(*self)
    }
}

/// The numeric reading of a model, where it has one: what `when`
/// predicates and `len` sources consume.
pub open spec fn scalar_of(m: VModel) -> Option<u64> {
    match m {
        VModel::U8(x) => Some(x as u64),
        VModel::U16(x) => Some(x as u64),
        VModel::U32(x) => Some(x as u64),
        VModel::U64(x) => Some(x),
        _ => None,
    }
}

/// Whether a `when` predicate holds over the record's field models.
pub open spec fn pred_holds(p: Pred, ms: Seq<VModel>) -> bool {
    if p.field < ms.len() {
        match scalar_of(ms[p.field as int]) {
            Some(x) => match p.op {
                Cmp::Gt => x > p.rhs,
                Cmp::Lt => x < p.rhs,
                Cmp::Eq => x == p.rhs,
                Cmp::Ne => x != p.rhs,
                Cmp::Ge => x >= p.rhs,
                Cmp::Le => x <= p.rhs,
            },
            None => false,
        }
    } else {
        false
    }
}

/// Whether a numeric type can feed a predicate or a length source.
pub open spec fn ty_numeric(t: Ty) -> bool {
    t is U8 || t is U16 || t is U32 || t is U64
}

/// Whether a type can take the fixed-length wire form of a `len`
/// annotation.
pub open spec fn ty_sizable(t: Ty) -> bool {
    t is Text || t is Wide || t is Bytes
}

/// The exclusive upper bound of a tag width.
pub open spec fn tag_limit(w: TagWidth) -> nat {
    match w {
        TagWidth::One => 0x100,
        TagWidth::Two => 0x1_0000,
        TagWidth::Four => 0x1_0000_0000,
    }
}

/// The byte count of a tag width.
pub open spec fn tag_len(w: TagWidth) -> nat {
    match w {
        TagWidth::One => 1,
        TagWidth::Two => 2,
        TagWidth::Four => 4,
    }
}

/// Well-formedness of a type description.
pub open spec fn ty_wf(t: Ty) -> bool
    decreases t,
{
    match t {
        Ty::Opt(inner) => ty_wf(*inner) && !(*inner is Opt),
        Ty::Rec(rs) => rec_wf(*rs),
        Ty::Union(us) => union_wf(*us),
        _ => true,
    }
}

/// Well-formedness of a record description: each `when` field is optional
/// and reads an earlier numeric field; each `len` field is text or bytes
/// and reads an earlier numeric field or a literal.
pub open spec fn rec_wf(rs: RecSchema) -> bool
    decreases rs,
{
    forall|i: int|
        0 <= i < rs.fields@.len() ==> field_wf(rs.fields@, #[trigger] rs.fields@[i], i)
}

/// Well-formedness of one field within its record.
pub open spec fn field_wf(fs: Seq<FieldSchema>, f: FieldSchema, i: int) -> bool
    decreases f,
{
    ty_wf(f.ty) && match f.attr {
        Attr::Plain => true,
        Attr::Skip => !(f.ty is Rec) && !(f.ty is Union),
        Attr::When(p) => f.ty is Opt && p.field < i && ty_numeric(fs[p.field as int].ty)
            && fs[p.field as int].attr is Plain,
        Attr::Len(src) => ty_sizable(f.ty) && match src {
            LenSrc::Lit(n) => true,
            LenSrc::Field(j) => j < i && ty_numeric(fs[j as int].ty) && fs[j as int].attr
                is Plain,
        },
    }
}

/// Well-formedness of a union description: at least one variant, distinct
/// tags, each below the tag width's bound, each payload well-formed.
pub open spec fn union_wf(us: UnionSchema) -> bool
    decreases us,
{
    &&& us.variants@.len() > 0
    &&& forall|i: int|
        0 <= i < us.variants@.len() ==> (#[trigger] us.variants@[i].tag as nat) < tag_limit(
            us.width,
        )
    &&& forall|i: int, j: int|
        0 <= i < j < us.variants@.len() ==> (#[trigger] us.variants@[i].tag) != (
        #[trigger] us.variants@[j].tag)
    &&& forall|i: int|
        0 <= i < us.variants@.len() ==> match #[trigger] us.variants@[i].payload {
            Some(t) => ty_wf(t),
            None => true,
        }
}

/// Whether a model conforms to a type.
pub open spec fn fits(m: VModel, t: Ty) -> bool
    decreases t,
{
    match t {
        Ty::U8 => m is U8,
        Ty::U16 => m is U16,
        Ty::U32 => m is U32,
        Ty::U64 => m is U64,
        Ty::Bool => m is Bool,
        Ty::Text => m is Text,
        Ty::Wide => m is Wide,
        Ty::Bytes => m is Bytes,
        Ty::Opt(inner) => match m {
            VModel::Opt(o) => match o {
                Some(b) => fits(*b, *inner),
                None => true,
            },
            _ => false,
        },
        Ty::Rec(rs) => match m {
            VModel::Rec(ms) => rec_fits(ms, rs.fields@),
            _ => false,
        },
        Ty::Union(us) => case_fits(m, *us),
    }
}

/// Whether a model conforms to a tagged-union description: a known
/// variant index with a payload exactly when the variant declares one.
pub open spec fn case_fits(m: VModel, us: UnionSchema) -> bool
    decreases us,
{
    match m {
        VModel::Case(i, p) => i < us.variants@.len() && (match (
            p,
            us.variants@[i as int].payload,
        ) {
            (Some(pm), Some(pt)) => fits(*pm, pt),
            (None, None) => true,
            _ => false,
        }),
        _ => false,
    }
}

/// Whether a record's field models conform to its field types, one for
/// one.
pub open spec fn rec_fits(ms: Seq<VModel>, fs: Seq<FieldSchema>) -> bool
    decreases fs,
{
    ms.len() == fs.len() && forall|i: int|
        0 <= i < fs.len() ==> fits(ms[i], (#[trigger] fs[i]).ty)
}

/// The default model of a type: what a `skip` field decodes to. A record
/// or union cannot be skipped, so their defaults are never consulted.
pub open spec fn default_model(t: Ty) -> VModel {
    match t {
        Ty::U8 => VModel::U8(0),
        Ty::U16 => VModel::U16(0),
        Ty::U32 => VModel::U32(0),
        Ty::U64 => VModel::U64(0),
        Ty::Bool => VModel::Bool(false),
        Ty::Text => VModel::Text(Seq::empty()),
        Ty::Wide => VModel::Wide(Seq::empty()),
        Ty::Bytes => VModel::Bytes(Seq::empty()),
        Ty::Opt(inner) => VModel::Opt(None),
        Ty::Rec(rs) => VModel::Rec(Seq::empty()),
        Ty::Union(us) => VModel::Case(0, None),
    }
}

/// The index of the variant carrying `tag`, searched in declaration
/// order.
pub open spec fn find_tag(vars: Seq<VariantSchema>, tag: u32) -> Option<int>
    decreases vars.len(),
{
    if vars.len() == 0 {
        None
    } else if vars[0].tag == tag {
        Some(0int)
    } else {
        match find_tag(vars.skip(1), tag) {
            Some(i) => Some(i + 1),
            None => None,
        }
    }
}

/// A found tag names a variant with exactly that tag.
pub proof fn lemma_find_tag(vars: Seq<VariantSchema>, tag: u32)
    ensures
        find_tag(vars, tag) matches Some(i) ==> 0 <= i < vars.len() && vars[i].tag == tag,
        find_tag(vars, tag) is None ==> forall|i: int| 0 <= i < vars.len() ==> (#[trigger] vars[i].tag) != tag,
    decreases vars.len(),
{
    if vars.len() > 0 {
        lemma_find_tag(vars.skip(1), tag);
        match find_tag(vars.skip(1), tag) {
            Some(i) => {
                assert(vars.skip(1)[i] == vars[i + 1]);
            },
            None => {
                assert forall|i: int| 0 <= i < vars.len() && vars[0].tag != tag implies (
                #[trigger] vars[i].tag) != tag by {
                    if i > 0 {
                        assert(vars.skip(1)[i - 1] == vars[i]);
                    }
                };
            },
        }
    }
}

/// With distinct tags, looking up a variant's own tag finds that variant.
pub proof fn lemma_find_tag_of(vars: Seq<VariantSchema>, i: int)
    requires
        0 <= i < vars.len(),
        forall|a: int, b: int|
            0 <= a < b < vars.len() ==> (#[trigger] vars[a].tag) != (#[trigger] vars[b].tag),
    ensures
        find_tag(vars, vars[i].tag) == Some(i),
    decreases vars.len(),
{
    if i > 0 {
        assert(vars[0].tag != vars[i].tag);
        assert forall|a: int, b: int| 0 <= a < b < vars.skip(1).len() implies (
        #[trigger] vars.skip(1)[a].tag) != (#[trigger] vars.skip(1)[b].tag) by {
            assert(vars.skip(1)[a] == vars[a + 1]);
            assert(vars.skip(1)[b] == vars[b + 1]);
        };
        lemma_find_tag_of(vars.skip(1), i - 1);
        assert(vars.skip(1)[i - 1] == vars[i]);
    }
}

/// The fixed-length wire form a `len` annotation produces, by type.
pub open spec fn sized_wire(t: Ty, m: VModel, n: int, c: Config) -> Seq<u8> {
    match (t, m) {
        (Ty::Text, VModel::Text(cs)) => {
            let b = vstd::utf8::encode_utf8(cs);
            if n <= b.len() {
                b.take(n)
            } else {
                b + Seq::new((n - b.len()) as nat, |i: int| 0u8)
            }
        },
        (Ty::Wide, VModel::Wide(cs)) => utf16_sized_bytes(c.endian, cs, n as nat),
        (Ty::Bytes, VModel::Bytes(bs)) => if n <= bs.len() {
            bs.take(n)
        } else {
            bs + Seq::new((n - bs.len()) as nat, |i: int| 0u8)
        },
        _ => Seq::empty(),
    }
}

/// Parses the fixed-length wire form a `len` annotation prescribes:
/// exactly `n` bytes, with trailing NUL padding stripped from text.
pub open spec fn sized_parse(t: Ty, s: Seq<u8>, n: int, c: Config) -> Option<VModel> {
    match t {
        Ty::Text => match <String as FromReader>::parse_sized(s, n, c) {
            Some(cs) => Some(VModel::Text(cs)),
            None => None,
        },
        Ty::Wide => if n >= 0 {
            match utf16_take(c.endian, s, n as nat) {
                Some(cs) => Some(VModel::Wide(strip_nuls(cs))),
                None => None,
            }
        } else {
            None
        },
        Ty::Bytes => if 0 <= n <= s.len() {
            Some(VModel::Bytes(s.take(n)))
        } else {
            None
        },
        _ => None,
    }
}

/// Whether encoding a value of this type succeeds: every length-prefixed
/// part is within the maximum-size policy.
pub open spec fn val_ok(t: Ty, m: VModel, c: Config) -> bool
    decreases t, 1int, 0int,
{
    match t {
        Ty::Text => match m {
            VModel::Text(cs) => vstd::utf8::encode_utf8(cs).len() <= c.spec_max(),
            _ => true,
        },
        Ty::Wide => match m {
            VModel::Wide(cs) => utf16_len(cs) <= c.spec_max() && utf16_len(cs) <= usize::MAX,
            _ => true,
        },
        Ty::Bytes => match m {
            VModel::Bytes(bs) => bs.len() <= c.spec_max(),
            _ => true,
        },
        Ty::Opt(inner) => match m {
            VModel::Opt(o) => match o {
                Some(b) => val_ok(*inner, *b, c),
                None => true,
            },
            _ => true,
        },
        Ty::Rec(rs) => match m {
            VModel::Rec(ms) => rec_ok(rs.fields@, ms, 0, c),
            _ => true,
        },
        Ty::Union(us) => union_ok(*us, m, c),
        _ => true,
    }
}

/// Whether encoding a union value succeeds.
pub open spec fn union_ok(us: UnionSchema, m: VModel, c: Config) -> bool
    decreases us, 0int, 0int,
{
    match m {
        VModel::Case(i, p) => match p {
            Some(pm) => if i < us.variants@.len() {
                match us.variants@[i as int].payload {
                    Some(pt) => val_ok(pt, *pm, c),
                    None => true,
                }
            } else {
                true
            },
            None => true,
        },
        _ => true,
    }
}

/// Whether encoding a record's fields from `i` on succeeds.
pub open spec fn rec_ok(fs: Seq<FieldSchema>, ms: Seq<VModel>, i: int, c: Config) -> bool
    decreases fs, 0int, fs.len() - i,
{
    if i < 0 || i >= fs.len() || ms.len() != fs.len() {
        true
    } else {
        let ok_here = match fs[i].attr {
            Attr::Skip => true,
            Attr::Len(src) => true,
            Attr::When(p) => match fs[i].ty {
                Ty::Opt(inner) => match ms[i] {
                    VModel::Opt(o) => match o {
                        Some(b) => val_ok(*inner, *b, c),
                        None => true,
                    },
                    _ => true,
                },
                _ => true,
            },
            Attr::Plain => val_ok(fs[i].ty, ms[i], c),
        };
        ok_here && rec_ok(fs, ms, i + 1, c)
    }
}

/// The byte count a `len` annotation resolves to; an over-wide sibling
/// value wraps modulo the range of `usize`, as a machine-word cast does.
pub open spec fn len_src_of_total(src: LenSrc, ms: Seq<VModel>) -> usize {
    match src {
        LenSrc::Lit(n) => n,
        LenSrc::Field(j) => if j < ms.len() {
            match scalar_of(ms[j as int]) {
                Some(x) => ((x as nat) % (usize::MAX as nat + 1)) as usize,
                None => 0,
            }
        } else {
            0
        },
    }
}

/// The wire form of a value of the given type.
pub open spec fn val_wire(t: Ty, m: VModel, c: Config) -> Seq<u8>
    decreases t, 1int, 0int,
{
    match t {
        Ty::U8 => match m {
            VModel::U8(x) => seq![x],
            _ => Seq::empty(),
        },
        Ty::U16 => match m {
            VModel::U16(x) => num_bytes(c.endian, x as nat, 2),
            _ => Seq::empty(),
        },
        Ty::U32 => match m {
            VModel::U32(x) => num_bytes(c.endian, x as nat, 4),
            _ => Seq::empty(),
        },
        Ty::U64 => match m {
            VModel::U64(x) => num_bytes(c.endian, x as nat, 8),
            _ => Seq::empty(),
        },
        Ty::Bool => match m {
            VModel::Bool(b) => seq![if b { 1u8 } else { 0u8 }],
            _ => Seq::empty(),
        },
        Ty::Text => match m {
            VModel::Text(cs) => crate::text::str_wire(cs, c),
            _ => Seq::empty(),
        },
        Ty::Wide => match m {
            VModel::Wide(cs) => crate::text::utf16_wire(c, c.endian, cs),
            _ => Seq::empty(),
        },
        Ty::Bytes => match m {
            VModel::Bytes(bs) => crate::endian::len_wire(bs.len(), c) + bs,
            _ => Seq::empty(),
        },
        Ty::Opt(inner) => match m {
            VModel::Opt(o) => match o {
                Some(b) => seq![1u8] + val_wire(*inner, *b, c),
                None => seq![0u8],
            },
            _ => Seq::empty(),
        },
        Ty::Rec(rs) => match m {
            VModel::Rec(ms) => rec_wire(rs.fields@, ms, 0, c),
            _ => Seq::empty(),
        },
        Ty::Union(us) => union_wire(*us, m, c),
    }
}

/// The wire form of a union value: its variant's tag in the declared
/// width, then the payload, if the variant carries one.
pub open spec fn union_wire(us: UnionSchema, m: VModel, c: Config) -> Seq<u8>
    decreases us, 0int, 0int,
{
    match m {
        VModel::Case(i, p) => if i < us.variants@.len() {
            num_bytes(c.endian, us.variants@[i as int].tag as nat, tag_len(us.width)) + (match (
                p,
                us.variants@[i as int].payload,
            ) {
                (Some(pm), Some(pt)) => val_wire(pt, *pm, c),
                _ => Seq::empty(),
            })
        } else {
            Seq::empty()
        },
        _ => Seq::empty(),
    }
}

/// The wire form of a record's fields from `i` on: each field's wire form
/// in declaration order.
pub open spec fn rec_wire(fs: Seq<FieldSchema>, ms: Seq<VModel>, i: int, c: Config) -> Seq<u8>
    decreases fs, 2int, fs.len() - i,
{
    if i < 0 || i >= fs.len() || ms.len() != fs.len() {
        Seq::empty()
    } else {
        field_wire_at(fs, ms, i, c) + rec_wire(fs, ms, i + 1, c)
    }
}

/// The wire form of field `i`, inlined for the record recursion.
pub open spec fn field_wire_at(fs: Seq<FieldSchema>, ms: Seq<VModel>, i: int, c: Config) -> Seq<
    u8,
>
    decreases fs, 1int, 0int,
{
    if 0 <= i < fs.len() && ms.len() == fs.len() {
        match fs[i].attr {
            Attr::Skip => Seq::empty(),
            Attr::When(p) => match fs[i].ty {
                Ty::Opt(inner) => match ms[i] {
                    VModel::Opt(o) => match o {
                        Some(b) => val_wire(*inner, *b, c),
                        None => Seq::empty(),
                    },
                    _ => Seq::empty(),
                },
                _ => Seq::empty(),
            },
            Attr::Len(src) => sized_wire(fs[i].ty, ms[i], len_src_of_total(src, ms) as int, c),
            Attr::Plain => val_wire(fs[i].ty, ms[i], c),
        }
    } else {
        Seq::empty()
    }
}

/// Parses a value of the given type from the front of `s`.
pub open spec fn val_parse(t: Ty, s: Seq<u8>, c: Config) -> Option<(VModel, int)>
    decreases t, 1int, 0int,
{
    match t {
        Ty::U8 => if s.len() >= 1 {
            Some((VModel::U8(s[0]), 1int))
        } else {
            None
        },
        Ty::U16 => if s.len() >= 2 {
            Some((VModel::U16(num_val(c.endian, s.take(2)) as u16), 2int))
        } else {
            None
        },
        Ty::U32 => if s.len() >= 4 {
            Some((VModel::U32(num_val(c.endian, s.take(4)) as u32), 4int))
        } else {
            None
        },
        Ty::U64 => if s.len() >= 8 {
            Some((VModel::U64(num_val(c.endian, s.take(8)) as u64), 8int))
        } else {
            None
        },
        Ty::Bool => if s.len() >= 1 {
            Some((VModel::Bool(s[0] != 0), 1int))
        } else {
            None
        },
        Ty::Text => match crate::text::str_parse(s, c) {
            Some((cs, n)) => Some((VModel::Text(cs), n)),
            None => None,
        },
        Ty::Wide => match crate::text::utf16_parse(c, c.endian, s) {
            Some((cs, n)) => Some((VModel::Wide(cs), n)),
            None => None,
        },
        Ty::Bytes => match <Vec<u8> as Receivable>::parse(s, c) {
            Some((bs, n)) => Some((VModel::Bytes(bs), n)),
            None => None,
        },
        Ty::Opt(inner) => if s.len() < 1 {
            None
        } else if s[0] == 0 {
            Some((VModel::Opt(None), 1int))
        } else {
            match val_parse(*inner, s.skip(1), c) {
                Some((m, n)) => Some((VModel::Opt(Some(Box::new(m))), n + 1)),
                None => None,
            }
        },
        Ty::Rec(rs) => match rec_parse(rs.fields@, 0, Seq::empty(), s, c) {
            Some((ms, n)) => Some((VModel::Rec(ms), n)),
            None => None,
        },
        Ty::Union(us) => union_parse(*us, s, c),
    }
}

/// Parses a union value: a tag of the declared width, dispatched against
/// the variants' tags, then the matched variant's payload, if any.
pub open spec fn union_parse(us: UnionSchema, s: Seq<u8>, c: Config) -> Option<(VModel, int)>
    decreases us, 0int, 0int,
{
    let tl = tag_len(us.width) as int;
    if s.len() >= tl {
        let tag = num_val(c.endian, s.take(tl)) as u32;
        match find_tag(us.variants@, tag) {
            Some(i) => if 0 <= i < us.variants@.len() {
                match us.variants@[i].payload {
                    Some(pt) => match val_parse(pt, s.skip(tl), c) {
                        Some((m, n)) => Some((VModel::Case(i as usize, Some(Box::new(m))), n + tl)),
                        None => None,
                    },
                    None => Some((VModel::Case(i as usize, None), tl)),
                }
            } else {
                None
            },
            None => None,
        }
    } else {
        None
    }
}

/// Parses a record's fields from `i` on, extending the already-decoded
/// prefix `acc`, whose values the `when` predicates and `len` sources of
/// later fields consult: the full field models and the bytes consumed.
pub open spec fn rec_parse(
    fs: Seq<FieldSchema>,
    i: int,
    acc: Seq<VModel>,
    s: Seq<u8>,
    c: Config,
) -> Option<(Seq<VModel>, int)>
    decreases fs, 2int, fs.len() - i,
{
    if i < 0 || i > fs.len() || acc.len() != i {
        None
    } else if i == fs.len() {
        Some((acc, 0int))
    } else {
        match fs[i].attr {
            Attr::Skip => rec_parse(fs, i + 1, acc.push(default_model(fs[i].ty)), s, c),
            Attr::When(p) => match fs[i].ty {
                Ty::Opt(inner) => if pred_holds(p, acc) {
                    match val_parse(*inner, s, c) {
                        Some((m, n)) => match rec_parse(
                            fs,
                            i + 1,
                            acc.push(VModel::Opt(Some(Box::new(m)))),
                            s.skip(n),
                            c,
                        ) {
                            Some((ms, n2)) => Some((ms, n + n2)),
                            None => None,
                        },
                        None => None,
                    }
                } else {
                    rec_parse(fs, i + 1, acc.push(VModel::Opt(None)), s, c)
                },
                _ => None,
            },
            Attr::Len(src) => {
                let n = len_src_of_total(src, acc) as int;
                match sized_parse(fs[i].ty, s, n, c) {
                    Some(m) => match rec_parse(fs, i + 1, acc.push(m), s.skip(n), c) {
                        Some((ms, n2)) => Some((ms, n + n2)),
                        None => None,
                    },
                    None => None,
                }
            },
            Attr::Plain => match val_parse(fs[i].ty, s, c) {
                Some((m, n)) => match rec_parse(fs, i + 1, acc.push(m), s.skip(n), c) {
                    Some((ms, n2)) => Some((ms, n + n2)),
                    None => None,
                },
                None => None,
            },
        }
    }
}

/// A successful value parse consumes at least nothing and no more than
/// the bytes it was given.
pub proof fn lemma_val_parse_bounds(t: Ty, s: Seq<u8>, c: Config)
    ensures
        val_parse(t, s, c) matches Some((m, n)) ==> 0 <= n <= s.len(),
    decreases t, 1int, 0int,
{
    match t {
        Ty::Text => {
            crate::endian::lemma_len_parse_bounds(s, c);
        },
        Ty::Wide => {
            crate::endian::lemma_len_parse_bounds(s, c);
            match crate::endian::len_parse(s, c) {
                Some((nb, k)) => {
                    crate::text::lemma_utf16_take_bound(c.endian, s.skip(k), nb as nat);
                },
                None => {},
            }
        },
        Ty::Bytes => {
            crate::endian::lemma_len_parse_bounds(s, c);
        },
        Ty::Opt(inner) => {
            if s.len() >= 1 && s[0] != 0 {
                lemma_val_parse_bounds(*inner, s.skip(1), c);
            }
        },
        Ty::Rec(rs) => {
            lemma_rec_parse_bounds(rs.fields@, 0, Seq::empty(), s, c);
        },
        Ty::Union(us) => {
            lemma_union_parse_bounds(*us, s, c);
        },
        _ => {},
    }
}

/// A successful record parse consumes at least nothing and no more than
/// the bytes it was given, and yields one model per field.
pub proof fn lemma_rec_parse_bounds(
    fs: Seq<FieldSchema>,
    i: int,
    acc: Seq<VModel>,
    s: Seq<u8>,
    c: Config,
)
    ensures
        rec_parse(fs, i, acc, s, c) matches Some((ms, n)) ==> 0 <= n <= s.len() && ms.len()
            == fs.len(),
    decreases fs, 2int, fs.len() - i,
{
    if 0 <= i < fs.len() && acc.len() == i {
        match fs[i].attr {
            Attr::Skip => {
                lemma_rec_parse_bounds(fs, i + 1, acc.push(default_model(fs[i].ty)), s, c);
            },
            Attr::When(p) => {
                match fs[i].ty {
                    Ty::Opt(inner) => {
                        if pred_holds(p, acc) {
                            lemma_val_parse_bounds(*inner, s, c);
                            match val_parse(*inner, s, c) {
                                Some((m, n)) => {
                                    lemma_rec_parse_bounds(
                                        fs,
                                        i + 1,
                                        acc.push(VModel::Opt(Some(Box::new(m)))),
                                        s.skip(n),
                                        c,
                                    );
                                },
                                None => {},
                            }
                        } else {
                            lemma_rec_parse_bounds(fs, i + 1, acc.push(VModel::Opt(None)), s, c);
                        }
                    },
                    _ => {},
                }
            },
            Attr::Len(src) => {
                let n = len_src_of_total(src, acc) as int;
                lemma_sized_parse_bounds(fs[i].ty, s, n, c);
                match sized_parse(fs[i].ty, s, n, c) {
                    Some(m) => {
                        lemma_rec_parse_bounds(fs, i + 1, acc.push(m), s.skip(n), c);
                    },
                    None => {},
                }
            },
            Attr::Plain => {
                lemma_val_parse_bounds(fs[i].ty, s, c);
                match val_parse(fs[i].ty, s, c) {
                    Some((m, n)) => {
                        lemma_rec_parse_bounds(fs, i + 1, acc.push(m), s.skip(n), c);
                    },
                    None => {},
                }
            },
        }
    }
}

/// A successful fixed-length parse had at least its whole count
/// available.
pub proof fn lemma_sized_parse_bounds(t: Ty, s: Seq<u8>, n: int, c: Config)
    ensures
        sized_parse(t, s, n, c) is Some ==> 0 <= n <= s.len(),
{
    if t is Wide && n >= 0 {
        crate::text::lemma_utf16_take_bound(c.endian, s, n as nat);
    }
}

/// A successful union parse consumes at least its tag and no more than
/// the bytes it was given.
pub proof fn lemma_union_parse_bounds(us: UnionSchema, s: Seq<u8>, c: Config)
    ensures
        union_parse(us, s, c) matches Some((m, n)) ==> 0 <= n <= s.len(),
    decreases us, 0int, 0int,
{
    let tl = tag_len(us.width) as int;
    if s.len() >= tl {
        let tag = num_val(c.endian, s.take(tl)) as u32;
        match find_tag(us.variants@, tag) {
            Some(i) => {
                if 0 <= i < us.variants@.len() {
                    match us.variants@[i].payload {
                        Some(pt) => {
                            lemma_val_parse_bounds(pt, s.skip(tl), c);
                        },
                        None => {},
                    }
                }
            },
            None => {},
        }
    }
}

/// Appending one value extends the model sequence by that value's model.
pub proof fn lemma_value_models_push(vs: Seq<Value>, v: Value)
    ensures
        value_models(vs.push(v)) == value_models(vs).push(value_model(v)),
    decreases vs.len(),
{
    lemma_value_models(vs.push(v));
    lemma_value_models(vs);
    assert forall|i: int| 0 <= i < vs.len() + 1 implies value_models(vs.push(v))[i]
        == value_models(vs).push(value_model(v))[i] by {
        if i < vs.len() {
            assert(vs.push(v)[i] == vs[i]);
        } else {
            assert(vs.push(v)[i] == v);
        }
    };
    assert(value_models(vs.push(v)) =~= value_models(vs).push(value_model(v)));
}

/// A record parse only extends the already-decoded prefix: the first `i`
/// models of the result are exactly `acc`.
pub proof fn lemma_rec_parse_prefix(
    fs: Seq<FieldSchema>,
    i: int,
    acc: Seq<VModel>,
    s: Seq<u8>,
    c: Config,
)
    ensures
        rec_parse(fs, i, acc, s, c) matches Some((ms, n)) ==> ms.len() == fs.len() && ms.take(i)
            == acc,
    decreases fs, 3int, fs.len() - i,
{
    lemma_rec_parse_bounds(fs, i, acc, s, c);
    if 0 <= i <= fs.len() && acc.len() == i {
        if i == fs.len() {
            match rec_parse(fs, i, acc, s, c) {
                Some((ms, n)) => {
                    assert(ms.take(i) =~= acc);
                },
                None => {},
            }
        } else if rec_parse(fs, i, acc, s, c) is Some {
            let stepped = rec_parse_step_models(fs, i, acc, s, c);
            let rest = rec_parse_step_rest(fs, i, acc, s, c);
            if stepped.len() == i + 1 {
                lemma_rec_parse_prefix(fs, i + 1, stepped, rest, c);
                match rec_parse(fs, i + 1, stepped, rest, c) {
                    Some((ms, n)) => {
                        assert(ms.take(i + 1) == stepped);
                        assert(ms.take(i) =~= ms.take(i + 1).take(i));
                        assert(stepped.take(i) =~= acc);
                    },
                    None => {},
                }
            }
        }
    }
}

/// The models after one step of a record parse: the prefix extended by
/// field `i`'s decoded model.
pub open spec fn rec_parse_step_models(
    fs: Seq<FieldSchema>,
    i: int,
    acc: Seq<VModel>,
    s: Seq<u8>,
    c: Config,
) -> Seq<VModel> {
    match fs[i].attr {
        Attr::Skip => acc.push(default_model(fs[i].ty)),
        Attr::When(p) => if pred_holds(p, acc) {
            match fs[i].ty {
                Ty::Opt(inner) => acc.push(
                    VModel::Opt(Some(Box::new((val_parse(*inner, s, c))->Some_0.0))),
                ),
                _ => acc,
            }
        } else {
            acc.push(VModel::Opt(None))
        },
        Attr::Len(src) => acc.push(
            (sized_parse(fs[i].ty, s, len_src_of_total(src, acc) as int, c))->Some_0,
        ),
        Attr::Plain => acc.push((val_parse(fs[i].ty, s, c))->Some_0.0),
    }
}

/// The bytes left after one step of a record parse.
pub open spec fn rec_parse_step_rest(
    fs: Seq<FieldSchema>,
    i: int,
    acc: Seq<VModel>,
    s: Seq<u8>,
    c: Config,
) -> Seq<u8> {
    match fs[i].attr {
        Attr::Skip => s,
        Attr::When(p) => if pred_holds(p, acc) {
            match fs[i].ty {
                Ty::Opt(inner) => s.skip((val_parse(*inner, s, c))->Some_0.1),
                _ => s,
            }
        } else {
            s
        },
        Attr::Len(src) => s.skip(len_src_of_total(src, acc) as int),
        Attr::Plain => s.skip((val_parse(fs[i].ty, s, c))->Some_0.1),
    }
}

/// A `skip`-annotated field is absent from the wire: whatever the bytes,
/// decoding always yields that field's default value.
pub proof fn lemma_skip_field_default(rs: RecSchema, s: Seq<u8>, c: Config, k: int)
    requires
        0 <= k < rs.fields@.len(),
        rs.fields@[k].attr is Skip,
        rec_parse(rs.fields@, 0, Seq::empty(), s, c) is Some,
    ensures
        rec_parse(rs.fields@, 0, Seq::empty(), s, c) matches Some((ms, n)) ==> ms[k]
            == default_model(rs.fields@[k].ty),
{
    lemma_field_decodes(rs.fields@, 0, Seq::empty(), s, c, k);
}

/// A `when`-annotated field's decoded presence is re-derived from the
/// predicate over the fields decoded before it — never from what was
/// actually sent for the field.
pub proof fn lemma_when_field_presence(rs: RecSchema, s: Seq<u8>, c: Config, k: int)
    requires
        0 <= k < rs.fields@.len(),
        rs.fields@[k].attr is When,
        rec_parse(rs.fields@, 0, Seq::empty(), s, c) is Some,
    ensures
        rec_parse(rs.fields@, 0, Seq::empty(), s, c) matches Some((ms, n)) ==> ms[k] is Opt && (
        ms[k]->Opt_0 is Some <==> pred_holds(rs.fields@[k].attr->When_0, ms.take(k))),
{
    lemma_field_decodes(rs.fields@, 0, Seq::empty(), s, c, k);
}

/// How field `k` of a successful record parse was decoded, by its
/// annotation: a `skip` field is its type's default, and a `when` field is
/// present exactly when its predicate holds over the earlier fields.
proof fn lemma_field_decodes(
    fs: Seq<FieldSchema>,
    i: int,
    acc: Seq<VModel>,
    s: Seq<u8>,
    c: Config,
    k: int,
)
    requires
        0 <= i <= k < fs.len(),
        acc.len() == i,
        rec_parse(fs, i, acc, s, c) is Some,
    ensures
        rec_parse(fs, i, acc, s, c) matches Some((ms, n)) ==> {
            &&& (fs[k].attr is Skip ==> ms[k] == default_model(fs[k].ty))
            &&& (fs[k].attr is When ==> ms[k] is Opt && (ms[k]->Opt_0 is Some <==> pred_holds(
                fs[k].attr->When_0,
                ms.take(k),
            )))
        },
    decreases fs, 4int, fs.len() - i,
{
    lemma_rec_parse_bounds(fs, i, acc, s, c);
    lemma_rec_parse_prefix(fs, i, acc, s, c);
    let stepped = rec_parse_step_models(fs, i, acc, s, c);
    let rest = rec_parse_step_rest(fs, i, acc, s, c);
    if stepped.len() == i + 1 {
        lemma_rec_parse_prefix(fs, i + 1, stepped, rest, c);
        if i == k {
            match rec_parse(fs, i + 1, stepped, rest, c) {
                Some((ms, n)) => {
                    assert(ms.take(k + 1) == stepped);
                    assert(ms[k] == stepped[k]);
                    assert(ms.take(k) =~= stepped.take(k));
                    assert(stepped.take(k) =~= acc);
                },
                None => {},
            }
        } else {
            lemma_field_decodes(fs, i + 1, stepped, rest, c, k);
        }
    }
}

/// A `skip`-annotated field contributes nothing to a record's wire form.
pub proof fn lemma_skip_field_omitted(
    fs: Seq<FieldSchema>,
    ms: Seq<VModel>,
    i: int,
    c: Config,
)
    requires
        0 <= i < fs.len(),
        fs[i].attr is Skip,
    ensures
        field_wire_at(fs, ms, i, c) == Seq::<u8>::empty(),
{
}

/// A `when`-annotated field whose value is absent contributes nothing to
/// a record's wire form: the payload bytes are omitted entirely, with no
/// presence flag in their place.
pub proof fn lemma_when_none_omitted(fs: Seq<FieldSchema>, ms: Seq<VModel>, i: int, c: Config)
    requires
        0 <= i < fs.len(),
        ms.len() == fs.len(),
        fs[i].attr is When,
        ms[i] == VModel::Opt(None::<Box<VModel>>),
    ensures
        field_wire_at(fs, ms, i, c) == Seq::<u8>::empty(),
{
}

/// A sent union value is dispatched back to the very variant it was sent
/// as: the tag decodes to the variant's index, and a unit variant is
/// complete after its tag. For a payload-carrying variant, the payload's
/// own decode behaviour is taken as a premise, so this law composes with
/// the payload type's round trip.
pub proof fn lemma_union_dispatch(us: UnionSchema, m: VModel, c: Config, rest: Seq<u8>)
    requires
        union_wf(us),
        case_fits(m, us),
        (match m {
            VModel::Case(i, p) => match (p, us.variants@[i as int].payload) {
                (Some(pm), Some(pt)) => val_parse(pt, val_wire(pt, *pm, c) + rest, c) == Some(
                    (*pm, val_wire(pt, *pm, c).len() as int),
                ),
                _ => true,
            },
            _ => true,
        }),
    ensures
        union_parse(us, union_wire(us, m, c) + rest, c) == Some(
            (m, union_wire(us, m, c).len() as int),
        ),
{
    match m {
        VModel::Case(i, p) => {
            let tl = tag_len(us.width);
            let tag = us.variants@[i as int].tag;
            let tw = num_bytes(c.endian, tag as nat, tl);
            crate::numbytes::lemma_num_bytes_len(c.endian, tag as nat, tl);
            crate::numbytes::lemma_pow256_values();
            assert(tag_limit(us.width) <= pow256(tl));
            let s = union_wire(us, m, c) + rest;
            match (p, us.variants@[i as int].payload) {
                (Some(pm), Some(pt)) => {
                    let pw = val_wire(pt, *pm, c);
                    assert(union_wire(us, m, c) + rest =~= tw + (pw + rest));
                    assert(s.take(tl as int) =~= tw);
                    crate::numbytes::lemma_num_round_small(c.endian, tag as nat, tl);
                    lemma_find_tag_of(us.variants@, i as int);
                    assert(s.skip(tl as int) =~= pw + rest);
                },
                (None, None) => {
                    assert(union_wire(us, m, c) =~= tw + Seq::<u8>::empty());
                    assert(s.take(tl as int) =~= tw);
                    crate::numbytes::lemma_num_round_small(c.endian, tag as nat, tl);
                    lemma_find_tag_of(us.variants@, i as int);
                    assert(union_wire(us, m, c).len() == tl);
                },
                _ => {},
            }
        },
        _ => {},
    }
}

/// Whether a value's wire form decodes back unchanged: every
/// length-prefixed part fits the configured length representation.
pub open spec fn val_faithful(t: Ty, m: VModel, c: Config) -> bool
    decreases t, 1int, 0int,
{
    match t {
        Ty::Text => match m {
            VModel::Text(cs) => crate::endian::len_fits(
                vstd::utf8::encode_utf8(cs).len() as nat,
                c,
            ),
            _ => true,
        },
        Ty::Wide => match m {
            VModel::Wide(cs) => crate::endian::len_fits(utf16_len(cs), c),
            _ => true,
        },
        Ty::Bytes => match m {
            VModel::Bytes(bs) => crate::endian::len_fits(bs.len(), c),
            _ => true,
        },
        Ty::Opt(inner) => match m {
            VModel::Opt(o) => match o {
                Some(b) => val_faithful(*inner, *b, c),
                None => true,
            },
            _ => true,
        },
        Ty::Rec(rs) => match m {
            VModel::Rec(ms) => rec_faithful(rs.fields@, ms, 0, c),
            _ => true,
        },
        Ty::Union(us) => match m {
            VModel::Case(i, p) => match p {
                Some(pm) => if i < us.variants@.len() {
                    match us.variants@[i as int].payload {
                        Some(pt) => val_faithful(pt, *pm, c),
                        None => true,
                    }
                } else {
                    true
                },
                None => true,
            },
            _ => true,
        },
        _ => true,
    }
}

/// Whether a record's fields from `i` on decode back unchanged.
pub open spec fn rec_faithful(fs: Seq<FieldSchema>, ms: Seq<VModel>, i: int, c: Config) -> bool
    decreases fs, 2int, fs.len() - i,
{
    if i < 0 || i >= fs.len() || ms.len() != fs.len() {
        true
    } else {
        val_faithful(fs[i].ty, ms[i], c) && rec_faithful(fs, ms, i + 1, c)
    }
}

/// Whether a type carries no annotation anywhere: a record of such a type
/// is sent field for field with no `skip`, `when` or `len` rule in play.
pub open spec fn all_plain(t: Ty) -> bool
    decreases t, 1int, 0int,
{
    match t {
        Ty::Opt(inner) => all_plain(*inner),
        Ty::Rec(rs) => rec_all_plain(rs.fields@, 0),
        Ty::Union(us) => union_all_plain(*us),
        _ => true,
    }
}

/// Whether a record's fields from `i` on are all unannotated.
pub open spec fn rec_all_plain(fs: Seq<FieldSchema>, i: int) -> bool
    decreases fs, 2int, fs.len() - i,
{
    if i < 0 || i >= fs.len() {
        true
    } else {
        fs[i].attr is Plain && all_plain(fs[i].ty) && rec_all_plain(fs, i + 1)
    }
}

/// Whether every payload of a union is unannotated.
pub open spec fn union_all_plain(us: UnionSchema) -> bool
    decreases us, 0int, 0int,
{
    forall|i: int|
        0 <= i < us.variants@.len() ==> match #[trigger] us.variants@[i].payload {
            Some(pt) => all_plain(pt),
            None => true,
        }
}

/// Every sent value of an unannotated, well-formed type decodes back to
/// the identical model, consuming exactly its own wire form: the round
/// trip of the derive contract, short of the documented lossy
/// annotations.
#[verifier::rlimit(100)]
#[verifier::spinoff_prover]
pub proof fn lemma_val_round(t: Ty, m: VModel, c: Config, rest: Seq<u8>)
    requires
        ty_wf(t),
        all_plain(t),
        fits(m, t),
        val_ok(t, m, c),
        val_faithful(t, m, c),
    ensures
        val_parse(t, val_wire(t, m, c) + rest, c) == Some((m, val_wire(t, m, c).len() as int)),
    decreases t, 3int, 0int,
{
    crate::numbytes::lemma_pow256_values();
    let w = val_wire(t, m, c);
    let s = w + rest;
    match t {
        Ty::U8 => {
            assert(s[0] == m->U8_0);
        },
        Ty::U16 => {
            crate::numbytes::lemma_num_bytes_len(c.endian, m->U16_0 as nat, 2);
            assert(s.take(2) =~= w);
            crate::numbytes::lemma_num_round_small(c.endian, m->U16_0 as nat, 2);
        },
        Ty::U32 => {
            crate::numbytes::lemma_num_bytes_len(c.endian, m->U32_0 as nat, 4);
            assert(s.take(4) =~= w);
            crate::numbytes::lemma_num_round_small(c.endian, m->U32_0 as nat, 4);
        },
        Ty::U64 => {
            crate::numbytes::lemma_num_bytes_len(c.endian, m->U64_0 as nat, 8);
            assert(s.take(8) =~= w);
            crate::numbytes::lemma_num_round_small(c.endian, m->U64_0 as nat, 8);
        },
        Ty::Bool => {
            assert(s[0] == (if m->Bool_0 { 1u8 } else { 0u8 }));
        },
        Ty::Text => {
            crate::text::lemma_str_round(m->Text_0, c, rest);
        },
        Ty::Wide => {
            crate::text::lemma_utf16_round(c, c.endian, m->Wide_0, rest);
        },
        Ty::Bytes => {
            let bs = m->Bytes_0;
            let lw = crate::endian::len_wire(bs.len(), c);
            assert(w + rest =~= lw + (bs + rest));
            crate::endian::lemma_len_round(bs.len() as usize, c, bs + rest);
            let k = lw.len() as int;
            assert((w + rest).subrange(k, k + bs.len() as int) =~= bs);
        },
        Ty::Opt(inner) => {
            match m->Opt_0 {
                Some(b) => {
                    assert(w[0] == 1u8);
                    assert(s.skip(1) =~= val_wire(*inner, *b, c) + rest);
                    lemma_val_round(*inner, *b, c, rest);
                },
                None => {
                    assert(s[0] == 0u8);
                },
            }
        },
        Ty::Rec(rs) => {
            let ms = m->Rec_0;
            assert(rec_fits(ms, rs.fields@));
            assert(rec_wf(*rs));
            assert(rec_all_plain(rs.fields@, 0));
            lemma_rec_round(rs.fields@, ms, 0, c, rest);
            assert(ms.take(0) =~= Seq::<VModel>::empty());
        },
        Ty::Union(us) => {
            let i = m->Case_0;
            assert(case_fits(m, *us));
            assert(i < us.variants@.len());
            assert(union_wf(*us));
            assert(union_all_plain(*us));
            match us.variants@[i as int].payload {
                Some(pt) => {
                    assert(ty_wf(pt));
                    assert(all_plain(pt));
                    match m->Case_1 {
                        Some(pm) => {
                            assert(union_ok(*us, m, c));
                            assert(val_ok(pt, *pm, c));
                            assert(val_faithful(pt, *pm, c));
                            lemma_val_round(pt, *pm, c, rest);
                        },
                        None => {},
                    }
                },
                None => {},
            }
            lemma_union_dispatch(*us, m, c, rest);
        },
    }
}

/// Every sent record of unannotated fields decodes back field for field;
/// the record half of [`lemma_val_round`].
pub proof fn lemma_rec_round(
    fs: Seq<FieldSchema>,
    ms: Seq<VModel>,
    i: int,
    c: Config,
    rest: Seq<u8>,
)
    requires
        0 <= i <= fs.len(),
        ms.len() == fs.len(),
        rec_all_plain(fs, i),
        forall|j: int| i <= j < fs.len() ==> field_wf(fs, #[trigger] fs[j], j),
        rec_ok(fs, ms, i, c),
        rec_faithful(fs, ms, i, c),
        forall|j: int| i <= j < fs.len() ==> fits(#[trigger] ms[j], fs[j].ty),
    ensures
        rec_parse(fs, i, ms.take(i), rec_wire(fs, ms, i, c) + rest, c) == Some(
            (ms, rec_wire(fs, ms, i, c).len() as int),
        ),
    decreases fs, 4int, fs.len() - i,
{
    let w = rec_wire(fs, ms, i, c);
    let s = w + rest;
    if i == fs.len() {
        assert(ms.take(i) =~= ms);
    } else {
        let t0 = fs[i].ty;
        let w0 = val_wire(t0, ms[i], c);
        let wr = rec_wire(fs, ms, i + 1, c);
        assert(field_wire_at(fs, ms, i, c) == w0);
        assert(s =~= w0 + (wr + rest));
        lemma_val_round(t0, ms[i], c, wr + rest);
        assert(s.skip(w0.len() as int) =~= wr + rest);
        lemma_rec_round(fs, ms, i + 1, c, rest);
        assert(ms.take(i).push(ms[i]) =~= ms.take(i + 1));
    }
}

/// The default value of a type: what a `skip` field is reconstructed as.
pub fn default_value(t: &Ty) -> (r: Value)
    ensures
        r.model() == default_model(*t),
{
    match t {
        Ty::U8 => Value::U8(0),
        Ty::U16 => Value::U16(0),
        Ty::U32 => Value::U32(0),
        Ty::U64 => Value::U64(0),
        Ty::Bool => Value::Bool(false),
        Ty::Text => Value::Text(String::new()),
        Ty::Wide => Value::Wide(String::new()),
        Ty::Bytes => Value::Bytes(Vec::new()),
        Ty::Opt(_) => Value::Opt(None),
        Ty::Rec(_) => {
            let vs: Vec<Value> = Vec::new();
            proof {
                lemma_value_models(vs@);
                assert(value_models(vs@) =~= Seq::<VModel>::empty());
            }
            Value::Rec(vs)
        },
        Ty::Union(_) => Value::Case(0, None),
    }
}

/// Evaluates a `when` predicate over already-decoded sibling fields.
fn eval_pred(p: Pred, vals: &Vec<Value>) -> (r: bool)
    ensures
        r == pred_holds(p, value_models(vals@)),
{
    proof {
        lemma_value_models(vals@);
    }
    if p.field < vals.len() {
        let x: Option<u64> = match &vals[p.field] {
            Value::U8(v) => Some(*v as u64),
            Value::U16(v) => Some(*v as u64),
            Value::U32(v) => Some(*v as u64),
            Value::U64(v) => Some(*v),
            _ => None,
        };
        match x {
            Some(x) => match p.op {
                Cmp::Gt => x > p.rhs,
                Cmp::Lt => x < p.rhs,
                Cmp::Eq => x == p.rhs,
                Cmp::Ne => x != p.rhs,
                Cmp::Ge => x >= p.rhs,
                Cmp::Le => x <= p.rhs,
            },
            None => false,
        }
    } else {
        false
    }
}

/// Resolves a `len` source over already-decoded sibling fields; an
/// over-wide sibling value wraps as a machine-word cast does.
fn eval_len_src(src: LenSrc, vals: &Vec<Value>) -> (r: usize)
    ensures
        r == len_src_of_total(src, value_models(vals@)),
{
    proof {
        lemma_value_models(vals@);
    }
    match src {
        LenSrc::Lit(n) => n,
        LenSrc::Field(j) => {
            if j < vals.len() {
                let x: Option<u64> = match &vals[j] {
                    Value::U8(v) => Some(*v as u64),
                    Value::U16(v) => Some(*v as u64),
                    Value::U32(v) => Some(*v as u64),
                    Value::U64(v) => Some(*v),
                    _ => None,
                };
                match x {
                    Some(m) => {
                        if m <= (usize::MAX as u64) {
                            proof {
                                vstd::arithmetic::div_mod::lemma_small_mod(
                                    m as nat,
                                    usize::MAX as nat + 1,
                                );
                            }
                            m as usize
                        } else {
                            proof {
                                assert(usize::MAX as nat + 1 <= u64::MAX as nat);
                            }
                            (m % (usize::MAX as u64 + 1)) as usize
                        }
                    },
                    None => 0,
                }
            } else {
                0
            }
        },
    }
}

/// Sends one value of the given type: the derive contract's plain field
/// form.
pub fn send_value<S: Sender>(v: &Value, t: &Ty, writer: &mut S, c: Config) -> (r: Result<
    (),
    Error,
>)
    requires
        fits(v.model(), *t),
    ensures
        old(writer).accepts() && val_ok(*t, v.model(), c) ==> (r matches Ok(()) && final(
            writer
        ).accepts() && final(writer).sent() == old(writer).sent() + val_wire(*t, v.model(), c)),
        old(writer).accepts() && !val_ok(*t, v.model(), c) ==> (r matches Err(e) && e
            == Error::DataTooLarge(c.spec_max())),
    decreases *t, 1int, 0int,
{
    match t {
        Ty::U8 => match v {
            Value::U8(x) => x.snd_to(writer, c),
            _ => Err(Error::Other("value does not match its declared type")),
        },
        Ty::U16 => match v {
            Value::U16(x) => snd_uint(writer, c.endian, *x as u128, 2),
            _ => Err(Error::Other("value does not match its declared type")),
        },
        Ty::U32 => match v {
            Value::U32(x) => snd_uint(writer, c.endian, *x as u128, 4),
            _ => Err(Error::Other("value does not match its declared type")),
        },
        Ty::U64 => match v {
            Value::U64(x) => snd_uint(writer, c.endian, *x as u128, 8),
            _ => Err(Error::Other("value does not match its declared type")),
        },
        Ty::Bool => match v {
            Value::Bool(x) => x.snd_to(writer, c),
            _ => Err(Error::Other("value does not match its declared type")),
        },
        Ty::Text => match v {
            Value::Text(s) => crate::text::snd_str(writer, c, s.as_str()),
            _ => Err(Error::Other("value does not match its declared type")),
        },
        Ty::Wide => match v {
            Value::Wide(s) => crate::text::snd_utf16(writer, c, c.endian, s),
            _ => Err(Error::Other("value does not match its declared type")),
        },
        Ty::Bytes => match v {
            Value::Bytes(b) => b.snd_to(writer, c),
            _ => Err(Error::Other("value does not match its declared type")),
        },
        Ty::Opt(inner) => match v {
            Value::Opt(o) => match o {
                Some(bx) => {
                    let r0 = 1u8.snd_to(writer, c);
                    match r0 {
                        Ok(()) => (),
                        Err(err) => {
                            return Err(err);
                        },
                    }
                    send_value(&**bx, &**inner, writer, c)
                },
                None => 0u8.snd_to(writer, c),
            },
            _ => Err(Error::Other("value does not match its declared type")),
        },
        Ty::Rec(rs) => match v {
            Value::Rec(vs) => send_struct(vs, &**rs, writer, c),
            _ => Err(Error::Other("value does not match its declared type")),
        },
        Ty::Union(us) => send_enum(v, &**us, writer, c),
    }
}

/// Sends a record's fields from `i` on, as generated glue for a `struct`
/// would: each field in declaration order, honoring its annotation.
fn send_fields<S: Sender>(
    vs: &Vec<Value>,
    fs: &Vec<FieldSchema>,
    i: usize,
    writer: &mut S,
    c: Config,
) -> (r: Result<(), Error>)
    requires
        rec_fits(value_models(vs@), fs@),
        i <= fs@.len(),
    ensures
        old(writer).accepts() && rec_ok(fs@, value_models(vs@), i as int, c) ==> (r matches Ok(())
            && final(writer).accepts() && final(writer).sent() == old(writer).sent() + rec_wire(
            fs@,
            value_models(vs@),
            i as int,
            c,
        )),
        old(writer).accepts() && !rec_ok(fs@, value_models(vs@), i as int, c) ==> (r matches Err(
            e,
        ) && e == Error::DataTooLarge(c.spec_max())),
    decreases fs@, 2int, fs@.len() - i,
{
    proof {
        lemma_value_models(vs@);
    }
    let n = fs.len();
    if i >= n {
        return Ok(());
    }
    let ghost ms = value_models(vs@);
    let f = &fs[i];
    let r0: Result<(), Error> = match &f.attr {
        Attr::Skip => Ok(()),
        Attr::When(p) => {
            match &f.ty {
                Ty::Opt(inner) => match &vs[i] {
                    Value::Opt(o) => match o {
                        Some(bx) => send_value(&**bx, &**inner, writer, c),
                        None => Ok(()),
                    },
                    _ => Ok(()),
                },
                _ => Ok(()),
            }
        },
        Attr::Len(src) => {
            let n2 = eval_len_src(*src, vs);
            match (&f.ty, &vs[i]) {
                (Ty::Text, Value::Text(s)) => crate::text::snd_str_sized(
                    writer,
                    s.as_str(),
                    n2,
                    c,
                ),
                (Ty::Wide, Value::Wide(s)) => crate::text::snd_utf16_sized(
                    writer,
                    c.endian,
                    s,
                    n2,
                ),
                (Ty::Bytes, Value::Bytes(b)) => b.into_writer(writer, n2, c),
                _ => Ok(()),
            }
        },
        Attr::Plain => send_value(&vs[i], &f.ty, writer, c),
    };
    match r0 {
        Ok(()) => (),
        Err(err) => {
            return Err(err);
        },
    }
    let rr = send_fields(vs, fs, i + 1, writer, c);
    proof {
        assert((old(writer).sent() + field_wire_at(fs@, ms, i as int, c)) + rec_wire(
            fs@,
            ms,
            i + 1,
            c,
        ) =~= old(writer).sent() + (field_wire_at(fs@, ms, i as int, c) + rec_wire(
            fs@,
            ms,
            i + 1,
            c,
        )));
    }
    rr
}

/// Sends a record: every field in declaration order, honoring `skip`,
/// `when` and `len`, as the derive's generated glue for a `struct` does.
pub fn send_struct<S: Sender>(vs: &Vec<Value>, rs: &RecSchema, writer: &mut S, c: Config) -> (r:
    Result<(), Error>)
    requires
        rec_fits(value_models(vs@), rs.fields@),
    ensures
        old(writer).accepts() && rec_ok(rs.fields@, value_models(vs@), 0, c) ==> (r matches Ok(())
            && final(writer).accepts() && final(writer).sent() == old(writer).sent() + rec_wire(
            rs.fields@,
            value_models(vs@),
            0,
            c,
        )),
        old(writer).accepts() && !rec_ok(rs.fields@, value_models(vs@), 0, c) ==> (r matches Err(
            e,
        ) && e == Error::DataTooLarge(c.spec_max())),
    decreases rs.fields@, 3int, 0int,
{
    send_fields(vs, &rs.fields, 0, writer, c)
}

/// Sends a union value: its variant's tag in the declared width, then the
/// payload if the variant carries one, as the derive's generated glue for
/// an `enum` does.
pub fn send_enum<S: Sender>(v: &Value, us: &UnionSchema, writer: &mut S, c: Config) -> (r: Result<
    (),
    Error,
>)
    requires
        case_fits(v.model(), *us),
    ensures
        old(writer).accepts() && union_ok(*us, v.model(), c) ==> (r matches Ok(()) && final(
            writer
        ).accepts() && final(writer).sent() == old(writer).sent() + union_wire(*us, v.model(), c)),
        old(writer).accepts() && !union_ok(*us, v.model(), c) ==> (r matches Err(e) && e
            == Error::DataTooLarge(c.spec_max())),
    decreases us.variants@, 1int, 0int,
{
    match v {
        Value::Case(i, p) => {
            let vr = &us.variants[*i];
            let tag = vr.tag;
            let tl: usize = match us.width {
                TagWidth::One => 1,
                TagWidth::Two => 2,
                TagWidth::Four => 4,
            };
            let r0 = snd_uint(writer, c.endian, tag as u128, tl);
            match r0 {
                Ok(()) => (),
                Err(err) => {
                    return Err(err);
                },
            }
            match (p, &vr.payload) {
                (Some(bx), Some(pt)) => send_value(&**bx, pt, writer, c),
                _ => Ok(()),
            }
        },
        _ => Err(Error::Other("value does not match its declared type")),
    }
}

/// `find_tag` returns the first matching variant: a match at `i` with no
/// earlier match is found at `i`.
pub proof fn lemma_find_tag_first(vars: Seq<VariantSchema>, tag: u32, i: int)
    requires
        0 <= i < vars.len(),
        vars[i].tag == tag,
        forall|j: int| 0 <= j < i ==> (#[trigger] vars[j].tag) != tag,
    ensures
        find_tag(vars, tag) == Some(i),
    decreases vars.len(),
{
    if i > 0 {
        assert(vars[0].tag != tag);
        assert(vars.skip(1)[i - 1] == vars[i]);
        assert forall|j: int| 0 <= j < i - 1 implies (#[trigger] vars.skip(1)[j].tag) != tag by {
            assert(vars.skip(1)[j] == vars[j + 1]);
        };
        lemma_find_tag_first(vars.skip(1), tag, i - 1);
    }
}

/// Receives one value of the given type; the counterpart of
/// [`send_value`].
pub fn receive_value<R: Receiver>(t: &Ty, reader: &mut R, c: Config) -> (r: Result<Value, Error>)
    ensures
        val_parse(*t, old(reader).remaining(), c) matches Some((m, n)) ==> (r matches Ok(v)
            && v.model() == m && final(reader).remaining() == old(reader).remaining().skip(n)),
        val_parse(*t, old(reader).remaining(), c) is None ==> r is Err,
    decreases *t, 1int, 0int,
{
    match t {
        Ty::U8 => {
            let x = u8::rcv_from(reader, c)?;
            Ok(Value::U8(x))
        },
        Ty::U16 => {
            proof {
                crate::numbytes::lemma_pow256_values();
            }
            let w = rcv_uint(reader, c.endian, 2)?;
            Ok(Value::U16(w as u16))
        },
        Ty::U32 => {
            proof {
                crate::numbytes::lemma_pow256_values();
            }
            let w = rcv_uint(reader, c.endian, 4)?;
            Ok(Value::U32(w as u32))
        },
        Ty::U64 => {
            proof {
                crate::numbytes::lemma_pow256_values();
            }
            let w = rcv_uint(reader, c.endian, 8)?;
            Ok(Value::U64(w as u64))
        },
        Ty::Bool => {
            let x = bool::rcv_from(reader, c)?;
            Ok(Value::Bool(x))
        },
        Ty::Text => {
            let st = crate::text::rcv_str(reader, c)?;
            Ok(Value::Text(st))
        },
        Ty::Wide => {
            let st = crate::text::rcv_utf16(reader, c, c.endian)?;
            Ok(Value::Wide(st))
        },
        Ty::Bytes => {
            let b = <Vec<u8> as Receivable>::rcv_from(reader, c)?;
            Ok(Value::Bytes(b))
        },
        Ty::Opt(inner) => {
            let ghost s0 = reader.remaining();
            let flag = u8::rcv_from(reader, c)?;
            if flag != 0 {
                proof {
                    assert(s0[0] == flag);
                }
                let pv = receive_value(&**inner, reader, c);
                match pv {
                    Ok(v) => {
                        proof {
                            lemma_val_parse_bounds(*(*inner), s0.skip(1), c);
                            match val_parse(*(*inner), s0.skip(1), c) {
                                Some((m, n)) => {
                                    assert(s0.skip(1).skip(n) =~= s0.skip(n + 1));
                                },
                                None => {},
                            }
                        }
                        Ok(Value::Opt(Some(Box::new(v))))
                    },
                    Err(err) => Err(err),
                }
            } else {
                Ok(Value::Opt(None))
            }
        },
        Ty::Rec(rs) => {
            let vals = receive_struct(&**rs, reader, c)?;
            Ok(Value::Rec(vals))
        },
        Ty::Union(us) => receive_enum(&**us, reader, c),
    }
}

/// Receives a record's remaining fields, extending the already-decoded
/// prefix in `vals`, whose values the `when` predicates and `len` sources
/// of later fields consult.
fn receive_fields<R: Receiver>(
    fs: &Vec<FieldSchema>,
    vals: Vec<Value>,
    reader: &mut R,
    c: Config,
) -> (r: Result<Vec<Value>, Error>)
    requires
        vals@.len() <= fs@.len(),
    ensures
        rec_parse(fs@, vals@.len() as int, value_models(vals@), old(reader).remaining(), c)
            matches Some((ms, n)) ==> (r matches Ok(out) && value_models(out@) == ms && final(
            reader
        ).remaining() == old(reader).remaining().skip(n)),
        rec_parse(fs@, vals@.len() as int, value_models(vals@), old(reader).remaining(), c)
            is None ==> r is Err,
    decreases fs@, 2int, fs@.len() - vals@.len(),
{
    proof {
        lemma_value_models(vals@);
    }
    let mut vals = vals;
    let i = vals.len();
    if i == fs.len() {
        proof {
            assert(old(reader).remaining().skip(0) =~= old(reader).remaining());
        }
        return Ok(vals);
    }
    let ghost s0 = reader.remaining();
    let ghost acc = value_models(vals@);
    let f = &fs[i];
    match &f.attr {
        Attr::Skip => {
            let dv = default_value(&f.ty);
            proof {
                lemma_value_models_push(vals@, dv);
            }
            vals.push(dv);
            receive_fields(fs, vals, reader, c)
        },
        Attr::When(p) => {
            match &f.ty {
                Ty::Opt(inner) => {
                    if eval_pred(*p, &vals) {
                        let pv = match receive_value(&**inner, reader, c) {
                            Ok(v) => v,
                            Err(err) => {
                                return Err(err);
                            },
                        };
                        let nv = Value::Opt(Some(Box::new(pv)));
                        proof {
                            lemma_val_parse_bounds(*(*inner), s0, c);
                            lemma_value_models_push(vals@, nv);
                        }
                        vals.push(nv);
                        let rr = receive_fields(fs, vals, reader, c);
                        proof {
                            let n = (val_parse(*(*inner), s0, c))->Some_0.1;
                            lemma_rec_parse_bounds(
                                fs@,
                                i + 1,
                                acc.push(VModel::Opt(Some(Box::new((val_parse(*(*inner), s0, c))->Some_0.0)))),
                                s0.skip(n),
                                c,
                            );
                            match rec_parse(
                                fs@,
                                i + 1,
                                acc.push(VModel::Opt(Some(Box::new((val_parse(*(*inner), s0, c))->Some_0.0)))),
                                s0.skip(n),
                                c,
                            ) {
                                Some((ms2, n2)) => {
                                    assert(s0.skip(n).skip(n2) =~= s0.skip(n + n2));
                                },
                                None => {},
                            }
                        }
                        rr
                    } else {
                        let nv = Value::Opt(None);
                        proof {
                            lemma_value_models_push(vals@, nv);
                        }
                        vals.push(nv);
                        receive_fields(fs, vals, reader, c)
                    }
                },
                _ => Err(Error::Other("a conditional field must be optional")),
            }
        },
        Attr::Len(src) => {
            let n2 = eval_len_src(*src, &vals);
            let nv: Value = match &f.ty {
                Ty::Text => {
                    let st = match String::from_reader(reader, n2, c) {
                        Ok(st) => st,
                        Err(err) => {
                            return Err(err);
                        },
                    };
                    Value::Text(st)
                },
                Ty::Wide => {
                    let mut cv = match crate::text::rcv_utf16_budget(reader, c.endian, n2) {
                        Ok(cv) => cv,
                        Err(err) => {
                            return Err(err);
                        },
                    };
                    crate::text::strip_nuls_vec(&mut cv);
                    Value::Wide(crate::text::string_from_chars(cv))
                },
                Ty::Bytes => {
                    let b = match reader.rcv_all(n2) {
                        Ok(b) => b,
                        Err(err) => {
                            return Err(err);
                        },
                    };
                    Value::Bytes(b)
                },
                _ => {
                    return Err(Error::Other("a sized field must be text or bytes"));
                },
            };
            proof {
                lemma_sized_parse_bounds(f.ty, s0, n2 as int, c);
                lemma_value_models_push(vals@, nv);
                assert(nv.model() == (sized_parse(f.ty, s0, n2 as int, c))->Some_0);
            }
            vals.push(nv);
            let rr = receive_fields(fs, vals, reader, c);
            proof {
                let m = (sized_parse(f.ty, s0, n2 as int, c))->Some_0;
                lemma_rec_parse_bounds(fs@, i + 1, acc.push(m), s0.skip(n2 as int), c);
                match rec_parse(fs@, i + 1, acc.push(m), s0.skip(n2 as int), c) {
                    Some((ms2, nn)) => {
                        assert(s0.skip(n2 as int).skip(nn) =~= s0.skip(n2 + nn));
                    },
                    None => {},
                }
            }
            rr
        },
        Attr::Plain => {
            let pv = match receive_value(&f.ty, reader, c) {
                Ok(v) => v,
                Err(err) => {
                    return Err(err);
                },
            };
            proof {
                lemma_val_parse_bounds(f.ty, s0, c);
                lemma_value_models_push(vals@, pv);
            }
            vals.push(pv);
            let rr = receive_fields(fs, vals, reader, c);
            proof {
                let n = (val_parse(f.ty, s0, c))->Some_0.1;
                let m = (val_parse(f.ty, s0, c))->Some_0.0;
                lemma_rec_parse_bounds(fs@, i + 1, acc.push(m), s0.skip(n), c);
                match rec_parse(fs@, i + 1, acc.push(m), s0.skip(n), c) {
                    Some((ms2, n2)) => {
                        assert(s0.skip(n).skip(n2) =~= s0.skip(n + n2));
                    },
                    None => {},
                }
            }
            rr
        },
    }
}

/// Receives a record: every field in declaration order, reconstructing
/// `skip` fields as defaults and re-deriving `when` presence from the
/// predicate over earlier fields; the counterpart of [`send_struct`].
pub fn receive_struct<R: Receiver>(rs: &RecSchema, reader: &mut R, c: Config) -> (r: Result<
    Vec<Value>,
    Error,
>)
    ensures
        rec_parse(rs.fields@, 0, Seq::empty(), old(reader).remaining(), c) matches Some((ms, n))
            ==> (r matches Ok(vals) && value_models(vals@) == ms && final(reader).remaining()
            == old(reader).remaining().skip(n)),
        rec_parse(rs.fields@, 0, Seq::empty(), old(reader).remaining(), c) is None ==> r is Err,
    decreases rs.fields@, 3int, 0int,
{
    let vals: Vec<Value> = Vec::new();
    proof {
        lemma_value_models(vals@);
        assert(value_models(vals@) =~= Seq::<VModel>::empty());
    }
    receive_fields(&rs.fields, vals, reader, c)
}

/// Receives a union value: a tag of the declared width, dispatched
/// against the variants' tags; an unrecognized tag fails with
/// [`Error::InvalidTag`]; the counterpart of [`send_enum`].
pub fn receive_enum<R: Receiver>(us: &UnionSchema, reader: &mut R, c: Config) -> (r: Result<
    Value,
    Error,
>)
    ensures
        union_parse(*us, old(reader).remaining(), c) matches Some((m, n)) ==> (r matches Ok(v)
            && v.model() == m && final(reader).remaining() == old(reader).remaining().skip(n)),
        union_parse(*us, old(reader).remaining(), c) is None ==> (r matches Err(e)
            && union_tag_fault(*us, old(reader).remaining(), c, e)),
    decreases us.variants@, 1int, 0int,
{
    proof {
        crate::numbytes::lemma_pow256_values();
    }
    let ghost s0 = reader.remaining();
    let tl: usize = match us.width {
        TagWidth::One => 1,
        TagWidth::Two => 2,
        TagWidth::Four => 4,
    };
    let w = rcv_uint(reader, c.endian, tl)?;
    let tag: u32 = w as u32;
    let n = us.variants.len();
    let mut idx: usize = 0;
    while idx < n && us.variants[idx].tag != tag
        invariant
            idx <= n,
            n == us.variants@.len(),
            forall|j: int| 0 <= j < idx ==> (#[trigger] us.variants@[j].tag) != tag,
        decreases n - idx,
    {
        idx = idx + 1;
    }
    if idx == n {
        proof {
            lemma_find_tag(us.variants@, tag);
            match find_tag(us.variants@, tag) {
                Some(i) => {
                    assert(false);
                },
                None => {},
            }
        }
        return Err(Error::InvalidTag(tag));
    }
    proof {
        lemma_find_tag_first(us.variants@, tag, idx as int);
    }
    let vr = &us.variants[idx];
    match &vr.payload {
        Some(pt) => {
            let ghost s1 = reader.remaining();
            let pv = match receive_value(pt, reader, c) {
                Ok(v) => v,
                Err(err) => {
                    return Err(err);
                },
            };
            proof {
                lemma_val_parse_bounds(us.variants@[idx as int].payload->Some_0, s1, c);
                match val_parse(us.variants@[idx as int].payload->Some_0, s1, c) {
                    Some((m, n2)) => {
                        assert(s0.skip(tl as int).skip(n2) =~= s0.skip(n2 + tl));
                    },
                    None => {},
                }
            }
            Ok(Value::Case(idx, Some(Box::new(pv))))
        },
        None => Ok(Value::Case(idx, None)),
    }
}

/// The tag after `t` in declaration order, wrapping at the top of `u32`.
pub open spec fn next_tag(t: u32) -> u32 {
    if t == u32::MAX {
        0
    } else {
        (t + 1) as u32
    }
}

/// The tags a run of variant declarations resolves to: a running counter
/// from `next`, reset by each explicit discriminant, with the following
/// variants continuing from it.
pub open spec fn tags_from(discs: Seq<Option<u32>>, next: u32) -> Seq<u32>
    decreases discs.len(),
{
    if discs.len() == 0 {
        Seq::empty()
    } else {
        let t = match discs[0] {
            Some(d) => d,
            None => next,
        };
        seq![t] + tags_from(discs.skip(1), next_tag(t))
    }
}

/// Resolves variant tags from optional explicit discriminants: tags start
/// at zero and increment per variant in declaration order; an explicit
/// discriminant resets the counter, and the following variants continue
/// from it.
pub fn resolve_tags(discs: &Vec<Option<u32>>) -> (r: Vec<u32>)
    ensures
        r@ == tags_from(discs@, 0),
{
    let n = discs.len();
    let mut out: Vec<u32> = Vec::new();
    let mut next: u32 = 0;
    let mut i: usize = 0;
    proof {
        assert(discs@.skip(0) =~= discs@);
    }
    while i < n
        invariant
            i <= n,
            n == discs@.len(),
            out@.len() == i,
            tags_from(discs@, 0) == out@ + tags_from(discs@.skip(i as int), next),
        decreases n - i,
    {
        let t: u32 = match discs[i] {
            Some(d) => d,
            None => next,
        };
        proof {
            let rem = discs@.skip(i as int);
            assert(rem[0] == discs@[i as int]);
            assert(rem.skip(1) =~= discs@.skip(i + 1));
            assert(tags_from(rem, next) == seq![t] + tags_from(discs@.skip(i + 1), next_tag(t)));
            assert(out@.push(t) + tags_from(discs@.skip(i + 1), next_tag(t)) =~= out@ + tags_from(
                rem,
                next,
            ));
        }
        out.push(t);
        next = if t == u32::MAX {
            0
        } else {
            t + 1
        };
        i = i + 1;
    }
    proof {
        assert(discs@.skip(n as int) =~= Seq::<Option<u32>>::empty());
        assert(out@ + tags_from(discs@.skip(n as int), next) =~= out@);
    }
    out
}

/// The numeric value of one digit character under a radix.
pub open spec fn digit_val(ch: char, radix: u32) -> Option<u32> {
    let cp = ch as u32;
    let d: u32 = if ('0' as u32) <= cp && cp <= ('9' as u32) {
        (cp - ('0' as u32)) as u32
    } else if ('a' as u32) <= cp && cp <= ('f' as u32) {
        (cp - ('a' as u32) + 10) as u32
    } else if ('A' as u32) <= cp && cp <= ('F' as u32) {
        (cp - ('A' as u32) + 10) as u32
    } else {
        radix
    };
    if d < radix {
        Some(d)
    } else {
        None
    }
}

/// The value of a digit sequence under a radix, continued from `acc`:
/// `None` when a character is no digit of the radix.
pub open spec fn digits_val(cs: Seq<char>, radix: u32, acc: nat) -> Option<nat>
    decreases cs.len(),
{
    if cs.len() == 0 {
        Some(acc)
    } else {
        match digit_val(cs[0], radix) {
            Some(d) => digits_val(cs.skip(1), radix, (acc * radix + d) as nat),
            None => None,
        }
    }
}

/// The number an integer literal denotes: a `0x`, `0b` or `0o` prefix
/// selects the radix, else decimal; `None` when a character is no digit
/// or the digits are missing.
pub open spec fn int_literal_val(cs: Seq<char>) -> Option<nat> {
    if cs.len() >= 2 && cs[0] == '0' && (cs[1] == 'x' || cs[1] == 'b' || cs[1] == 'o') {
        let radix: u32 = if cs[1] == 'x' {
            16
        } else if cs[1] == 'b' {
            2
        } else {
            8
        };
        if cs.len() == 2 {
            None
        } else {
            digits_val(cs.skip(2), radix, 0)
        }
    } else {
        if cs.len() == 0 {
            None
        } else {
            digits_val(cs, 10, 0)
        }
    }
}

/// The value of digits never falls below the accumulator they continue.
proof fn lemma_digits_val_mono(cs: Seq<char>, radix: u32, acc: nat)
    requires
        radix >= 2,
    ensures
        digits_val(cs, radix, acc) matches Some(v) ==> v >= acc,
    decreases cs.len(),
{
    if cs.len() > 0 {
        match digit_val(cs[0], radix) {
            Some(d) => {
                lemma_digits_val_mono(cs.skip(1), radix, (acc * radix + d) as nat);
                assert(acc * radix + d >= acc) by (nonlinear_arith)
                    requires
                        radix >= 2,
                        acc >= 0,
                        d >= 0,
                ;
            },
            None => {},
        }
    }
}

/// Parses the integer literal of a variant discriminant: a `0x`, `0b` or
/// `0o` prefix selects the radix, else decimal; `None` on an invalid
/// character, missing digits, or a value beyond `u32`.
#[verifier::loop_isolation(false)]
#[verifier::rlimit(60)]
#[verifier::spinoff_prover]
pub fn parse_int(s: &str) -> (r: Option<u32>)
    ensures
        (match int_literal_val(s@) {
            Some(v) => if v <= u32::MAX {
                r == Some(v as u32)
            } else {
                r is None
            },
            None => r is None,
        }),
{
    let cs = crate::text::chars_vec(s);
    let n = cs.len();
    let (radix, start): (u32, usize) = if n >= 2 && {
        let c0 = cs[0];
        let c1 = cs[1];
        c0 == '0' && (c1 == 'x' || c1 == 'b' || c1 == 'o')
    } {
        let c1 = cs[1];
        (
            if c1 == 'x' {
                16
            } else if c1 == 'b' {
                2
            } else {
                8
            },
            2,
        )
    } else {
        (10, 0)
    };
    if n == start {
        return None;
    }
    let ghost digits = cs@.skip(start as int);
    proof {
        assert(cs@.skip(0) =~= cs@);
    }
    let mut acc: u32 = 0;
    let mut i: usize = start;
    proof {
        lemma_digits_val_mono(digits, radix, 0);
        assert(digits.skip(0) =~= digits);
    }
    while i < n
        invariant
            start <= i <= n,
            n == cs@.len(),
            radix == 16 || radix == 10 || radix == 8 || radix == 2,
            digits == cs@.skip(start as int),
            digits_val(digits, radix, 0) == digits_val(
                digits.skip((i - start) as int),
                radix,
                acc as nat,
            ),
        decreases n - i,
    {
        let ch = cs[i];
        let cp = ch as u32;
        let d: u32 = if cp >= ('0' as u32) && cp <= ('9' as u32) {
            cp - ('0' as u32)
        } else if cp >= ('a' as u32) && cp <= ('f' as u32) {
            cp - ('a' as u32) + 10
        } else if cp >= ('A' as u32) && cp <= ('F' as u32) {
            cp - ('A' as u32) + 10
        } else {
            radix
        };
        let ghost rem = digits.skip((i - start) as int);
        proof {
            assert(rem[0] == cs@[i as int]);
            assert(rem.skip(1) =~= digits.skip((i + 1 - start) as int));
            if d < radix {
                assert(digit_val(rem[0], radix) == Some(d));
            }
        }
        if d >= radix {
            proof {
                assert(digit_val(cs@[i as int], radix) is None);
            }
            return None;
        }
        if acc > (u32::MAX - d) / radix {
            proof {
                assert((acc as nat) * (radix as nat) + d > u32::MAX) by (nonlinear_arith)
                    requires
                        radix >= 2,
                        d < radix,
                        acc as nat > ((u32::MAX - d) as nat / radix as nat),
                        acc <= u32::MAX,
                ;
                lemma_digits_val_mono(rem.skip(1), radix, ((acc as nat) * (radix as nat) + d) as nat);
            }
            return None;
        }
        proof {
            assert((acc as nat) * (radix as nat) + d <= u32::MAX) by (nonlinear_arith)
                requires
                    radix >= 2,
                    d < radix,
                    acc as nat <= ((u32::MAX - d) as nat / radix as nat),
            ;
        }
        acc = acc * radix + d;
        i = i + 1;
    }
    proof {
        assert(digits.skip((n - start) as int) =~= Seq::<char>::empty());
        assert(digits_val(digits, radix, 0) == Some(acc as nat));
        assert(cs@.skip(0) =~= cs@);
        assert(int_literal_val(s@) == Some(acc as nat));
    }
    Some(acc)
}

/// The error an unrecognized union tag reports: [`Error::InvalidTag`] with
/// the tag that was read.
pub open spec fn union_tag_fault(us: UnionSchema, s: Seq<u8>, c: Config, e: Error) -> bool {
    let tl = tag_len(us.width) as int;
    if s.len() >= tl {
        let tag = num_val(c.endian, s.take(tl)) as u32;
        if find_tag(us.variants@, tag) is None {
            e == Error::InvalidTag(tag)
        } else {
            true
        }
    } else {
        e == Error::Io(IoFault::UnexpectedEof)
    }
}

} // verus!
