//! The described form of a block: what a stored schema says of each of its fields.
use vstd::prelude::*;

use super::attr::{
    classify_attrs, has_attr, is_bstack_static, kind_of, metas_in, mode_said, parse_attr, parsed,
    read_metas, Attr,
};
use super::block::{block_view, expand, planned_block, BlockPlan, Param};
use super::field::Field;
use super::kind::{Kind, Mode};
use super::problem::Problem;
use super::shape::{
    array_shape, dims_of, field_foreign_target, foreign_target, lens, option_inner, option_of,
    peeled, unopt, vec_info, vec_shape, VecInfo, VecShape,
};
use super::syntax::{meta_views, Meta, MetaView};
use super::ty::{texts, LenExpr, Ty};

verus! {

/// The shape of a field.
pub enum Shape<'a> {
    /// One byte.
    Byte,
    /// Plain bytes, as many as this type takes.
    Pod(&'a Ty),
    /// A block of this type, referred to in this way, or lying in the field.
    Block(Kind, &'a Ty),
    Optional(Box<Shape<'a>>),
    List(Box<Shape<'a>>),
    Array(&'a LenExpr, Box<Shape<'a>>),
}

/// [`Shape`], as a value.
pub enum Form {
    Byte,
    Pod(Ty),
    Block(Kind, Ty),
    Optional(Box<Form>),
    List(Box<Form>),
    Array(LenExpr, Box<Form>),
}

/// The shape as a value.
pub open spec fn form(s: Shape) -> Form
    decreases s,
{
    match s {
        Shape::Byte => Form::Byte,
        Shape::Pod(t) => Form::Pod(*t),
        Shape::Block(k, t) => Form::Block(k, *t),
        Shape::Optional(inner) => Form::Optional(Box::new(form(*inner))),
        Shape::List(inner) => Form::List(Box::new(form(*inner))),
        Shape::Array(n, inner) => Form::Array(*n, Box::new(form(*inner))),
    }
}

/// The shape of a value that is no container: a tuple has none.
pub open spec fn leaf_form(ty: Ty, kind: Kind) -> Result<Form, Problem> {
    if ty is Tuple {
        Err(Problem::TupleInClass)
    } else if kind == Kind::Pod {
        Ok(Form::Pod(ty))
    } else {
        Ok(Form::Block(kind, ty))
    }
}

/// Arrays of these lengths round a shape, the first length outermost.
pub open spec fn in_arrays(dims: Seq<LenExpr>, inner: Form) -> Form
    decreases dims.len(),
{
    if dims.len() == 0 {
        inner
    } else {
        Form::Array(dims[0], Box::new(in_arrays(dims.drop_first(), inner)))
    }
}

/// The shape of a type without an outer `Option`; the kind is that of its leaf.
pub open spec fn bare_form(ty: Ty, kind: Kind) -> Result<Form, Problem> {
    match vec_shape(ty) {
        Some(VecShape::Text) => Ok(Form::List(Box::new(Form::Byte))),
        Some(VecShape::Of(elem)) => match leaf_form(elem, kind) {
            Err(p) => Err(p),
            Ok(f) => Ok(Form::List(Box::new(f))),
        },
        None => if ty is Array {
            if unopt(peeled(ty)) is Array {
                Err(Problem::OptionOfArray)
            } else {
                match leaf_form(unopt(peeled(ty)), kind) {
                    Err(p) => Err(p),
                    Ok(f) => {
                        let f = if option_of(peeled(ty)) is Some {
                            Form::Optional(Box::new(f))
                        } else {
                            f
                        };
                        Ok(in_arrays(dims_of(ty), f))
                    },
                }
            }
        } else {
            leaf_form(ty, kind)
        },
    }
}

/// The shape of a field: of a variable of the class, and of a pointer to another file, there is
/// none.
pub open spec fn field_form(attrs: Seq<Option<String>>, ty: Ty) -> Result<Form, Problem> {
    match kind_of(attrs) {
        Err(p) => Err(p),
        Ok(kind) => if has_attr(attrs, "bstack_static"@) {
            Err(Problem::ClassVariable)
        } else if foreign_target(ty) is Some {
            Err(Problem::ForeignInClass)
        } else {
            match option_of(ty) {
                Some(inner) => match bare_form(inner, kind) {
                    Err(p) => Err(p),
                    Ok(f) => Ok(Form::Optional(Box::new(f))),
                },
                None => bare_form(ty, kind),
            }
        },
    }
}

/// A result whose shape is this one.
pub open spec fn forms(r: Result<Shape, Problem>, want: Result<Form, Problem>) -> bool {
    match want {
        Err(p) => r matches Err(q) && p == q,
        Ok(f) => r matches Ok(s) && form(s) == f,
    }
}

fn leaf_shape<'a>(ty: &'a Ty, kind: Kind) -> (r: Result<Shape<'a>, Problem>)
    ensures
        forms(r, leaf_form(*ty, kind)),
{
    if let Ty::Tuple { elems: _ } = ty {
        return Err(Problem::TupleInClass);
    }
    match kind {
        Kind::Pod => Ok(Shape::Pod(ty)),
        _ => Ok(Shape::Block(kind, ty)),
    }
}

fn nest<'a>(dims: &Vec<&'a LenExpr>, leaf: Shape<'a>) -> (r: Shape<'a>)
    ensures
        form(r) == in_arrays(lens(dims@), form(leaf)),
{
    let ghost start = form(leaf);
    let mut acc = leaf;
    let mut i: usize = dims.len();
    assert(lens(dims@).skip(i as int) =~= Seq::empty());
    while i > 0
        invariant
            i <= dims@.len(),
            form(acc) == in_arrays(lens(dims@).skip(i as int), start),
        decreases i,
    {
        i -= 1;
        let ghost rest = lens(dims@).skip(i as int);
        assert(rest.drop_first() =~= lens(dims@).skip(i + 1));
        assert(rest[0] == *dims@[i as int]);
        acc = Shape::Array(dims[i], Box::new(acc));
    }
    assert(lens(dims@).skip(0) =~= lens(dims@));
    acc
}

fn bare_shape<'a>(ty: &'a Ty, kind: Kind) -> (r: Result<Shape<'a>, Problem>)
    ensures
        forms(r, bare_form(*ty, kind)),
{
    match vec_info(ty) {
        Some(VecInfo::Text) => {
            assert(form(Shape::Byte) == Form::Byte);
            return Ok(Shape::List(Box::new(Shape::Byte)));
        },
        Some(VecInfo::Of(elem)) => {
            return match leaf_shape(elem, kind) {
                Err(p) => Err(p),
                Ok(s) => Ok(Shape::List(Box::new(s))),
            };
        },
        None => {},
    }
    if let Ty::Array { elem: _, len: _ } = ty {
        let a = match array_shape(ty) {
            Err(p) => {
                return Err(p);
            },
            Ok(a) => a,
        };
        let leaf = match leaf_shape(a.leaf, kind) {
            Err(p) => {
                return Err(p);
            },
            Ok(s) => s,
        };
        let leaf = if a.nullable {
            Shape::Optional(Box::new(leaf))
        } else {
            leaf
        };
        return Ok(nest(&a.dims, leaf));
    }
    leaf_shape(ty, kind)
}

/// The shape of a field.
pub fn field_shape<'a>(field: &'a Field) -> (r: Result<Shape<'a>, Problem>)
    ensures
        forms(r, field_form(field.attrs@, field.ty)),
{
    let kind = match classify_attrs(&field.attrs) {
        Err(p) => {
            return Err(p);
        },
        Ok(k) => k,
    };
    if is_bstack_static(&field.attrs) {
        return Err(Problem::ClassVariable);
    }
    if field_foreign_target(&field.ty).is_some() {
        return Err(Problem::ForeignInClass);
    }
    match option_inner(&field.ty) {
        Some(inner) => match bare_shape(inner, kind) {
            Err(p) => Err(p),
            Ok(s) => Ok(Shape::Optional(Box::new(s))),
        },
        None => bare_shape(&field.ty, kind),
    }
}

/// The shapes of fields; the first field that has none decides.
pub open spec fn field_forms(fields: Seq<Field>) -> Result<Seq<Form>, Problem>
    decreases fields.len(),
{
    if fields.len() == 0 {
        Ok(Seq::empty())
    } else {
        match field_forms(fields.drop_last()) {
            Err(p) => Err(p),
            Ok(before) => match field_form(fields.last().attrs@, fields.last().ty) {
                Err(p) => Err(p),
                Ok(f) => Ok(before.push(f)),
            },
        }
    }
}

/// What a schema says of a block: how it is owned, and the shape of each field.
pub struct ClassPlan<'a> {
    pub rc: bool,
    pub weak: bool,
    pub fields: Vec<Shape<'a>>,
}

/// The shapes as values.
pub open spec fn all_forms(v: Seq<Shape>) -> Seq<Form> {
    v.map_values(|s: Shape| form(s))
}

proof fn lemma_forms_prefix(fields: Seq<Field>, n: int)
    requires
        0 <= n <= fields.len(),
        field_forms(fields.take(n)) is Err,
    ensures
        field_forms(fields) == field_forms(fields.take(n)),
    decreases fields.len(),
{
    if n == fields.len() {
        assert(fields.take(n) =~= fields);
    } else {
        assert(fields.drop_last().take(n) =~= fields.take(n));
        lemma_forms_prefix(fields.drop_last(), n);
    }
}

fn field_shapes<'a>(fields: &'a Vec<Field>) -> (r: Result<Vec<Shape<'a>>, Problem>)
    ensures
        match field_forms(fields@) {
            Err(p) => r matches Err(q) && p == q,
            Ok(want) => r matches Ok(v) && all_forms(v@) == want,
        },
{
    let mut out: Vec<Shape<'a>> = Vec::new();
    let mut i: usize = 0;
    assert(fields@.take(0) =~= Seq::empty());
    assert(all_forms(out@) =~= Seq::empty());
    while i < fields.len()
        invariant
            i <= fields@.len(),
            field_forms(fields@.take(i as int)) == Ok::<Seq<Form>, Problem>(all_forms(out@)),
        decreases fields@.len() - i,
    {
        assert(fields@.take(i + 1).drop_last() =~= fields@.take(i as int));
        assert(fields@.take(i + 1).last() == fields@[i as int]);
        match field_shape(&fields[i]) {
            Err(p) => {
                proof {
                    lemma_forms_prefix(fields@, i + 1);
                }
                return Err(p);
            },
            Ok(s) => {
                let ghost before = out@;
                out.push(s);
                assert(all_forms(out@) =~= all_forms(before).push(form(s)));
            },
        }
        i += 1;
    }
    assert(fields@.take(i as int) =~= fields@);
    Ok(out)
}

/// What is made of a described struct: its arguments, what the schema says of it, and all that
/// is made of any struct.
pub struct Described<'a> {
    pub attr: Attr,
    pub class: ClassPlan<'a>,
    pub block: BlockPlan<'a>,
}

/// Whether this is what is made of a struct with the arguments `attr`, whose fields have these
/// shapes.
pub open spec fn described(
    attr: Attr,
    allow_deprecated: bool,
    fields: Seq<Field>,
    shapes: Seq<Form>,
    r: Result<Described, Problem>,
) -> bool {
    match planned_block(attr, allow_deprecated, Seq::empty(), fields) {
        Err(p) => r matches Err(q) && p == q,
        Ok(plan) => {
            &&& r matches Ok(d)
            &&& d.attr == attr
            &&& d.class.rc == (attr.mode != Mode::Plain)
            &&& d.class.weak == (attr.mode == Mode::RcWeak)
            &&& all_forms(d.class.fields@) == shapes
            &&& block_view(d.block) == plan
            &&& d.block.names.types@.len() == 0
            &&& d.block.names.consts@.len() == 0
            &&& !d.block.names.lifetime
        },
    }
}

/// Whether this is what is made of a struct with these arguments and fields.
pub open spec fn described_by(
    metas: Seq<MetaView>,
    allow_deprecated: bool,
    fields: Seq<Field>,
    r: Result<Described, Problem>,
) -> bool {
    match mode_said(metas) {
        Err(p) => r matches Err(q) && p == q,
        Ok(_) => match field_forms(fields) {
            Err(p) => r matches Err(q) && p == q,
            Ok(shapes) => exists|attr: Attr| #[trigger]
                parsed(metas, Ok(attr)) && described(attr, allow_deprecated, fields, shapes, r),
        },
    }
}

/// What is made of a described struct with these arguments and fields. A struct with generic
/// parameters has no one layout that a schema could describe. The arguments, the shapes and
/// then the rest are looked at, and the first thing that is wrong decides.
pub fn expand_struct<'a>(
    generic: bool,
    metas: Vec<Meta>,
    allow_deprecated: bool,
    fields: &'a Vec<Field>,
) -> (r: Result<Described<'a>, Problem>)
    ensures
        if generic {
            r matches Err(p) && p == Problem::GenericClass
        } else {
            described_by(meta_views(metas@), allow_deprecated, fields@, r)
        },
{
    if generic {
        return Err(Problem::GenericClass);
    }
    let attr = match parse_attr(metas) {
        Err(p) => {
            return Err(p);
        },
        Ok(a) => a,
    };
    let shapes = match field_shapes(fields) {
        Err(p) => {
            return Err(p);
        },
        Ok(v) => v,
    };
    let none: Vec<Param> = Vec::new();
    assert(none@ =~= Seq::empty());
    assert(parsed(meta_views(metas@), Ok(attr)));
    let block = match expand(&attr, allow_deprecated, &none, fields) {
        Err(p) => {
            return Err(p);
        },
        Ok(b) => b,
    };
    assert(texts(block.names.types@).len() == 0);
    assert(texts(block.names.consts@).len() == 0);
    let class = ClassPlan {
        rc: attr.mode != Mode::Plain,
        weak: attr.mode == Mode::RcWeak,
        fields: shapes,
    };
    Ok(Described { attr, class, block })
}

/// What is made of a described struct whose arguments are this text; see [`expand_struct`].
pub fn expand_struct_text<'a>(
    generic: bool,
    text: &str,
    allow_deprecated: bool,
    fields: &'a Vec<Field>,
) -> (r: Result<Described<'a>, Problem>)
    ensures
        if generic {
            r matches Err(p) && p == Problem::GenericClass
        } else {
            match metas_in(text@) {
                Err(p) => r matches Err(q) && p == q,
                Ok(metas) => described_by(metas, allow_deprecated, fields@, r),
            }
        },
{
    if generic {
        return Err(Problem::GenericClass);
    }
    match read_metas(text) {
        Err(p) => Err(p),
        Ok(metas) => expand_struct(false, metas, allow_deprecated, fields),
    }
}

/// A described enum is not supported.
pub fn expand_enum() -> (r: Result<(), Problem>)
    ensures
        r matches Err(p) && p == Problem::ClassOfEnum,
{
    Err(Problem::ClassOfEnum)
}

} // verus!
