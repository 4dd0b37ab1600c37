//! What is made of a field: the form that it takes in a block, and the ways to change it.
use vstd::prelude::*;
use vstd::string::*;

use super::attr::{classify_attrs, has_attr, is_bstack_mut, kind_of};
use super::field::Field;
use super::kind::Kind;
use super::problem::Problem;
use super::shape::{
    array_shape, check_container_nesting, dims_mention, dims_of, field_foreign_target,
    foreign_inner, foreign_of, foreign_problem, foreign_target, is_called, is_str, nesting_problem,
    option_inner, option_of, peeled, reject_nested_const_dims, unopt, validate_foreign_target,
    vec_info, vec_shape, VecInfo, VecShape,
};
use super::ty::{mentions, texts, type_mentions_any, Ty};

verus! {

/// The form that a field takes in a block.
pub enum FieldForm<'a> {
    /// A pointer to a block of this type in any file.
    Foreign(&'a Ty),
    /// A text: a descriptor of its bytes.
    Text,
    /// A descriptor of elements of this type.
    List(&'a Ty),
    /// An array of descriptors; this is the whole type.
    ListArray(&'a Ty),
    /// An array of pointers to blocks in any file; this is the whole type.
    ForeignArray(&'a Ty),
    /// An array of references, or of blocks; this is the whole type.
    BlockArray(&'a Ty),
    /// A tuple with pointers to blocks in any file.
    ForeignTuple(&'a Ty),
    /// A tuple of plain bytes.
    PodTuple(&'a Ty),
    /// A block of this type, in the field itself.
    Embed(&'a Ty),
    /// Plain bytes, or one reference.
    Scalar(&'a Ty),
}

/// [`FieldForm`], as a value.
pub enum FormView {
    Foreign(Ty),
    Text,
    List(Ty),
    ListArray(Ty),
    ForeignArray(Ty),
    BlockArray(Ty),
    ForeignTuple(Ty),
    PodTuple(Ty),
    Embed(Ty),
    Scalar(Ty),
}

/// The form as a value.
pub open spec fn form_view(f: FieldForm) -> FormView {
    match f {
        FieldForm::Foreign(t) => FormView::Foreign(*t),
        FieldForm::Text => FormView::Text,
        FieldForm::List(t) => FormView::List(*t),
        FieldForm::ListArray(t) => FormView::ListArray(*t),
        FieldForm::ForeignArray(t) => FormView::ForeignArray(*t),
        FieldForm::BlockArray(t) => FormView::BlockArray(*t),
        FieldForm::ForeignTuple(t) => FormView::ForeignTuple(*t),
        FieldForm::PodTuple(t) => FormView::PodTuple(*t),
        FieldForm::Embed(t) => FormView::Embed(*t),
        FieldForm::Scalar(t) => FormView::Scalar(*t),
    }
}

/// What is made of a field.
pub struct FieldPlan<'a> {
    pub kind: Kind,
    /// Whether the field can be empty.
    pub nullable: bool,
    /// Whether it gets ways to change it.
    pub mutable: bool,
    /// Whether it was written as a reference, and taken for its target.
    pub coerced: bool,
    pub form: FieldForm<'a>,
}

/// [`FieldPlan`], as a value.
pub struct PlanView {
    pub kind: Kind,
    pub nullable: bool,
    pub mutable: bool,
    pub coerced: bool,
    pub form: FormView,
}

/// The plan as a value.
pub open spec fn plan_view(p: FieldPlan) -> PlanView {
    PlanView {
        kind: p.kind,
        nullable: p.nullable,
        mutable: p.mutable,
        coerced: p.coerced,
        form: form_view(p.form),
    }
}

/// The type without a leading `&`.
pub open spec fn unref(ty: Ty) -> Ty {
    match ty {
        Ty::Reference { elem, others } => *elem,
        _ => ty,
    }
}

/// Whether a type names `Foreign` anywhere.
pub open spec fn names_foreign(ty: Ty) -> bool {
    mentions(ty, seq!["Foreign"@])
}

/// The form of an array whose elements are no plain bytes, or why it has none.
pub open spec fn array_form(ty: Ty, kind: Kind, consts: Seq<Seq<char>>) -> Option<
    Result<FormView, Problem>,
> {
    let leaf = unopt(peeled(ty));
    let nested = dims_of(ty).len() > 1 && dims_mention(dims_of(ty), consts);
    if !(ty is Array) {
        None
    } else if vec_shape(leaf) is Some {
        Some(
            if nested {
                Err(Problem::NestedConstArray)
            } else {
                Ok(FormView::ListArray(ty))
            },
        )
    } else {
        match foreign_of(leaf) {
            Some(target) => Some(
                match foreign_problem(kind, target) {
                    Some(p) => Err(p),
                    None => if nested {
                        Err(Problem::NestedConstArray)
                    } else {
                        Ok(FormView::ForeignArray(ty))
                    },
                },
            ),
            None => if kind == Kind::Pod {
                None
            } else if leaf is Array {
                Some(Err(Problem::OptionOfArray))
            } else if nested {
                Some(Err(Problem::NestedConstArray))
            } else {
                Some(Ok(FormView::BlockArray(ty)))
            },
        }
    }
}

/// The form of a type that is no vector, no pointer and no array of such.
pub open spec fn plain_form(ty: Ty, kind: Kind) -> Result<FormView, Problem> {
    match ty {
        Ty::Tuple { elems } => match foreign_target(ty) {
            Some(target) => match foreign_problem(kind, target) {
                Some(p) => Err(p),
                None => Ok(FormView::ForeignTuple(ty)),
            },
            None => if kind == Kind::Pod {
                Ok(FormView::PodTuple(ty))
            } else if kind == Kind::Embed {
                Ok(FormView::Embed(ty))
            } else {
                Ok(FormView::Scalar(ty))
            },
        },
        _ => if kind == Kind::Embed {
            Ok(FormView::Embed(ty))
        } else {
            Ok(FormView::Scalar(ty))
        },
    }
}

/// The form of a field of the type `ty`, and whether it can be empty. Plain bytes keep their
/// whole type, an `Option` with it.
pub open spec fn form_of(ty: Ty, kind: Kind, consts: Seq<Seq<char>>) -> Result<
    (FormView, bool),
    Problem,
> {
    let t = unopt(ty);
    let nullable = option_of(ty) is Some;
    match foreign_of(t) {
        Some(target) => match foreign_problem(kind, target) {
            Some(p) => Err(p),
            None => Ok((FormView::Foreign(target), nullable)),
        },
        None => if is_called(t, "str"@) {
            Ok((FormView::Text, nullable))
        } else {
            match vec_shape(t) {
                Some(VecShape::Text) => Ok((FormView::Text, nullable)),
                Some(VecShape::Of(elem)) => Ok((FormView::List(elem), nullable)),
                None => match array_form(t, kind, consts) {
                    Some(Ok(f)) => Ok((f, nullable)),
                    Some(Err(p)) => Err(p),
                    None => {
                        let stored = if kind == Kind::Pod {
                            (ty, false)
                        } else {
                            (t, nullable)
                        };
                        match plain_form(stored.0, kind) {
                            Ok(f) => Ok((f, stored.1)),
                            Err(p) => Err(p),
                        }
                    },
                },
            }
        },
    }
}

/// What is made of a field.
pub open spec fn planned(field: Field, consts: Seq<Seq<char>>) -> Result<PlanView, Problem> {
    match kind_of(field.attrs@) {
        Err(p) => Err(p),
        Ok(kind) => {
            let ty = unref(field.ty);
            let mutable = has_attr(field.attrs@, "bstack_mut"@);
            match nesting_problem(ty) {
                Some(p) => Err(p),
                None => if names_foreign(ty) && foreign_target(ty) is None {
                    Err(Problem::ForeignInOddPlace)
                } else if mutable && names_foreign(ty) && foreign_of(unopt(ty)) is None {
                    Err(Problem::MutableForeignContainer)
                } else {
                    match form_of(ty, kind, consts) {
                        Err(p) => Err(p),
                        Ok((form, nullable)) => Ok(
                            PlanView {
                                kind,
                                nullable,
                                mutable,
                                coerced: field.ty is Reference,
                                form,
                            },
                        ),
                    }
                },
            }
        },
    }
}

/// A result whose form is this one.
pub open spec fn forms_as(
    r: Result<(FieldForm, bool), Problem>,
    want: Result<(FormView, bool), Problem>,
) -> bool {
    match want {
        Err(p) => r matches Err(q) && p == q,
        Ok((f, n)) => r matches Ok(x) && form_view(x.0) == f && x.1 == n,
    }
}

/// A result whose plan is this one.
pub open spec fn plans_as(r: Result<FieldPlan, Problem>, want: Result<PlanView, Problem>) -> bool {
    match want {
        Err(p) => r matches Err(q) && p == q,
        Ok(v) => r matches Ok(x) && plan_view(x) == v,
    }
}

fn names_foreign_type(ty: &Ty) -> (r: bool)
    ensures
        r == names_foreign(*ty),
{
    let mut one: Vec<String> = Vec::new();
    one.push("Foreign".to_owned());
    assert(texts(one@) =~= seq!["Foreign"@]);
    type_mentions_any(ty, &one)
}

fn array_of<'a>(ty: &'a Ty, kind: Kind, consts: &Vec<String>) -> (r: Option<
    Result<FieldForm<'a>, Problem>,
>)
    ensures
        match array_form(*ty, kind, texts(consts@)) {
            None => r is None,
            Some(Err(p)) => r matches Some(Err(q)) && p == q,
            Some(Ok(f)) => r matches Some(Ok(x)) && form_view(x) == f,
        },
{
    match ty {
        Ty::Array { elem: _, len: _ } => {},
        _ => {
            return None;
        },
    }
    let shape = match array_shape(ty) {
        Err(p) => {
            return match kind {
                Kind::Pod => None,
                _ => Some(Err(p)),
            };
        },
        Ok(s) => s,
    };
    if vec_info(shape.leaf).is_some() {
        return match reject_nested_const_dims(&shape.dims, consts) {
            Err(p) => Some(Err(p)),
            Ok(_) => Some(Ok(FieldForm::ListArray(ty))),
        };
    }
    if let Some(target) = foreign_inner(shape.leaf) {
        if let Err(p) = validate_foreign_target(kind, target) {
            return Some(Err(p));
        }
        return match reject_nested_const_dims(&shape.dims, consts) {
            Err(p) => Some(Err(p)),
            Ok(_) => Some(Ok(FieldForm::ForeignArray(ty))),
        };
    }
    match kind {
        Kind::Pod => None,
        _ => match reject_nested_const_dims(&shape.dims, consts) {
            Err(p) => Some(Err(p)),
            Ok(_) => Some(Ok(FieldForm::BlockArray(ty))),
        },
    }
}

fn plain<'a>(ty: &'a Ty, kind: Kind) -> (r: Result<FieldForm<'a>, Problem>)
    ensures
        match plain_form(*ty, kind) {
            Err(p) => r matches Err(q) && p == q,
            Ok(f) => r matches Ok(x) && form_view(x) == f,
        },
{
    if let Ty::Tuple { elems: _ } = ty {
        if let Some(target) = field_foreign_target(ty) {
            return match validate_foreign_target(kind, target) {
                Err(p) => Err(p),
                Ok(_) => Ok(FieldForm::ForeignTuple(ty)),
            };
        }
        if let Kind::Pod = kind {
            return Ok(FieldForm::PodTuple(ty));
        }
    }
    match kind {
        Kind::Embed => Ok(FieldForm::Embed(ty)),
        _ => Ok(FieldForm::Scalar(ty)),
    }
}

fn form_for<'a>(ty: &'a Ty, kind: Kind, consts: &Vec<String>) -> (r: Result<
    (FieldForm<'a>, bool),
    Problem,
>)
    ensures
        forms_as(r, form_of(*ty, kind, texts(consts@))),
{
    let (t, nullable): (&'a Ty, bool) = match option_inner(ty) {
        Some(inner) => (inner, true),
        None => (ty, false),
    };
    if let Some(target) = foreign_inner(t) {
        return match validate_foreign_target(kind, target) {
            Err(p) => Err(p),
            Ok(_) => Ok((FieldForm::Foreign(target), nullable)),
        };
    }
    if is_str(t) {
        return Ok((FieldForm::Text, nullable));
    }
    match vec_info(t) {
        Some(VecInfo::Text) => {
            return Ok((FieldForm::Text, nullable));
        },
        Some(VecInfo::Of(elem)) => {
            return Ok((FieldForm::List(elem), nullable));
        },
        None => {},
    }
    match array_of(t, kind, consts) {
        Some(Err(p)) => {
            return Err(p);
        },
        Some(Ok(f)) => {
            return Ok((f, nullable));
        },
        None => {},
    }
    let (stored, empty): (&'a Ty, bool) = match kind {
        Kind::Pod => (ty, false),
        _ => (t, nullable),
    };
    match plain(stored, kind) {
        Err(p) => Err(p),
        Ok(f) => Ok((f, empty)),
    }
}

/// What is made of a field.
pub fn plan_field<'a>(field: &'a Field, consts: &Vec<String>) -> (r: Result<FieldPlan<'a>, Problem>)
    ensures
        plans_as(r, planned(*field, texts(consts@))),
{
    let kind = match classify_attrs(&field.attrs) {
        Err(p) => {
            return Err(p);
        },
        Ok(k) => k,
    };
    let (ty, coerced): (&'a Ty, bool) = match &field.ty {
        Ty::Reference { elem, others: _ } => (&**elem, true),
        _ => (&field.ty, false),
    };
    let mutable: bool = is_bstack_mut(&field.attrs);
    if let Err(p) = check_container_nesting(ty) {
        return Err(p);
    }
    let foreign: bool = names_foreign_type(ty);
    if foreign && field_foreign_target(ty).is_none() {
        return Err(Problem::ForeignInOddPlace);
    }
    if mutable && foreign {
        let inner: &'a Ty = match option_inner(ty) {
            Some(t) => t,
            None => ty,
        };
        if foreign_inner(inner).is_none() {
            return Err(Problem::MutableForeignContainer);
        }
    }
    match form_for(ty, kind, consts) {
        Err(p) => Err(p),
        Ok((form, nullable)) => Ok(FieldPlan { kind, nullable, mutable, coerced, form }),
    }
}

/// A way to change a field.
#[derive(Clone, Copy, Debug, PartialEq, Eq, Structural)]
pub enum Mutator {
    /// Overwrite it.
    SetAll,
    /// Put a value in and hand the old one out.
    ReplaceAll,
    /// Overwrite one element.
    SetAt,
    /// Put one element in and hand the old one out.
    ReplaceAt,
}

/// The ways to change a field. What owns something can only be replaced, so that the old value
/// is never dropped on the floor; a single weak reference is always set, which releases the old
/// one.
pub open spec fn mutators(p: PlanView) -> Seq<Mutator> {
    match p.form {
        FormView::Scalar(_) => if p.kind == Kind::Weak {
            seq![Mutator::SetAll]
        } else if !p.mutable {
            Seq::empty()
        } else if p.kind == Kind::Pod {
            seq![Mutator::SetAll]
        } else if p.kind == Kind::Ref {
            seq![Mutator::SetAll, Mutator::ReplaceAll]
        } else if p.kind == Kind::Owned || p.kind == Kind::Strong {
            seq![Mutator::ReplaceAll]
        } else {
            Seq::empty()
        },
        FormView::PodTuple(_) => if p.mutable {
            seq![Mutator::SetAll]
        } else {
            Seq::empty()
        },
        FormView::BlockArray(_) => if !p.mutable {
            Seq::empty()
        } else if p.kind == Kind::Owned || p.kind == Kind::Strong {
            seq![Mutator::ReplaceAt, Mutator::ReplaceAll]
        } else if p.kind == Kind::Ref {
            seq![Mutator::ReplaceAt, Mutator::ReplaceAll, Mutator::SetAt, Mutator::SetAll]
        } else {
            Seq::empty()
        },
        FormView::Foreign(_) => if !p.mutable {
            Seq::empty()
        } else if p.kind == Kind::Ref {
            seq![Mutator::ReplaceAll, Mutator::SetAll]
        } else {
            seq![Mutator::ReplaceAll]
        },
        _ => Seq::empty(),
    }
}

/// Whether a failed constructor gives back what it took for the field: an owner, a counted
/// reference or a block, or several of them. Plain bytes, borrowed references, pointers to other
/// files and weak references are not the constructor's to give back.
pub open spec fn hands_back(p: PlanView) -> bool {
    match p.form {
        FormView::Embed(_) => true,
        FormView::Scalar(_) => p.kind == Kind::Owned || p.kind == Kind::Strong,
        FormView::List(_) => p.kind == Kind::Owned || p.kind == Kind::Strong,
        FormView::ListArray(_) => p.kind == Kind::Owned || p.kind == Kind::Strong,
        FormView::BlockArray(_) => p.kind == Kind::Owned || p.kind == Kind::Strong || p.kind
            == Kind::Embed,
        _ => false,
    }
}

/// How many bytes a single field takes: those of a value of its type, those of a block of its
/// type, or those of an offset.
pub open spec fn slot_len(kind: Kind, value: u64, block: u64) -> u64 {
    match kind {
        Kind::Pod => value,
        Kind::Embed => block,
        _ => 8,
    }
}

/// How many bytes a single field takes, where a value of its type takes `value` bytes and a
/// block of its type `block`.
pub fn raw_slice_len(kind: Kind, value: u64, block: u64) -> (r: u64)
    ensures
        r == slot_len(kind, value, block),
{
    match kind {
        Kind::Pod => value,
        Kind::Embed => block,
        _ => 8,
    }
}

impl<'a> FieldPlan<'a> {
    /// The ways to change the field.
    pub fn mutators(&self) -> (r: Vec<Mutator>)
        ensures
            r@ == mutators(plan_view(*self)),
    {
        let owning: bool = match self.kind {
            Kind::Owned => true,
            Kind::Strong => true,
            _ => false,
        };
        let borrowed: bool = match self.kind {
            Kind::Ref => true,
            _ => false,
        };
        let mut out: Vec<Mutator> = Vec::new();
        match &self.form {
            FieldForm::Scalar(_) => match self.kind {
                Kind::Weak => out.push(Mutator::SetAll),
                _ => if self.mutable {
                    if borrowed || self.kind == Kind::Pod {
                        out.push(Mutator::SetAll);
                    }
                    if borrowed || owning {
                        out.push(Mutator::ReplaceAll);
                    }
                },
            },
            FieldForm::PodTuple(_) => if self.mutable {
                out.push(Mutator::SetAll);
            },
            FieldForm::BlockArray(_) => if self.mutable {
                if borrowed || owning {
                    out.push(Mutator::ReplaceAt);
                    out.push(Mutator::ReplaceAll);
                }
                if borrowed {
                    out.push(Mutator::SetAt);
                    out.push(Mutator::SetAll);
                }
            },
            FieldForm::Foreign(_) => if self.mutable {
                out.push(Mutator::ReplaceAll);
                if borrowed {
                    out.push(Mutator::SetAll);
                }
            },
            _ => {},
        }
        assert(out@ =~= mutators(plan_view(*self)));
        out
    }

    /// Whether a failed constructor gives back what it took for the field.
    pub fn hands_back(&self) -> (r: bool)
        ensures
            r == hands_back(plan_view(*self)),
    {
        let owning: bool = match self.kind {
            Kind::Owned => true,
            Kind::Strong => true,
            _ => false,
        };
        match &self.form {
            FieldForm::Embed(_) => true,
            FieldForm::Scalar(_) => owning,
            FieldForm::List(_) => owning,
            FieldForm::ListArray(_) => owning,
            FieldForm::BlockArray(_) => owning || self.kind == Kind::Embed,
            _ => false,
        }
    }
}

/// A field that owns its target is never overwritten: the only ways to change it hand the old
/// value out.
pub proof fn law_owners_are_only_replaced(field: Field, consts: Seq<Seq<char>>, m: Mutator)
    requires
        planned(field, consts) matches Ok(p) && (p.kind == Kind::Owned || p.kind == Kind::Strong)
            && mutators(p).contains(m),
    ensures
        m == Mutator::ReplaceAll || m == Mutator::ReplaceAt,
{
}

/// The name of a way to change the field `name`.
pub open spec fn mutator_name(m: Mutator, name: Seq<char>) -> Seq<char> {
    match m {
        Mutator::SetAll => "set_"@ + name,
        Mutator::ReplaceAll => "replace_"@ + name,
        Mutator::SetAt => "set_"@ + name + "_at"@,
        Mutator::ReplaceAt => "replace_"@ + name + "_at"@,
    }
}

fn around(before: &str, name: &str, after: &str) -> (r: String)
    ensures
        r@ == before@ + name@ + after@,
{
    let mut out = before.to_owned();
    out.append(name);
    out.append(after);
    out
}

/// The name of a way to change the field `name`.
pub fn name_mutator(m: Mutator, name: &str) -> (r: String)
    ensures
        r@ == mutator_name(m, name@),
{
    proof {
        reveal_strlit("");
        assert("set_"@ + name@ + ""@ =~= "set_"@ + name@);
        assert("replace_"@ + name@ + ""@ =~= "replace_"@ + name@);
    }
    match m {
        Mutator::SetAll => around("set_", name, ""),
        Mutator::ReplaceAll => around("replace_", name, ""),
        Mutator::SetAt => around("set_", name, "_at"),
        Mutator::ReplaceAt => around("replace_", name, "_at"),
    }
}

/// The name of the way to read the field `name`.
pub fn name_getter(name: &str) -> (r: String)
    ensures
        r@ == "get_"@ + name@,
{
    proof {
        reveal_strlit("");
        assert("get_"@ + name@ + ""@ =~= "get_"@ + name@);
    }
    around("get_", name, "")
}

/// The name of the way to the bytes of the field `name`.
pub fn name_raw_slice(name: &str) -> (r: String)
    ensures
        r@ == "raw_"@ + name@ + "_slice"@,
{
    around("raw_", name, "_slice")
}

} // verus!
