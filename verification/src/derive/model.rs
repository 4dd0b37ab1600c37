//! The pieces that fields and variants add to what is generated for a type.
use vstd::prelude::*;

verus! {

/// What one field adds, or several in order. `T` is a piece, `P` a type.
pub struct FieldParts<T, P> {
    /// What lies in the block.
    pub on_disk_fields: Vec<T>,
    /// Ways to read and to change it.
    pub accessors: Vec<T>,
    /// Ways to wire it after the block was made.
    pub setters: Vec<T>,
    /// What the constructor takes.
    pub ctor_params: Vec<T>,
    /// What the constructor does first.
    pub ctor_preps: Vec<T>,
    /// What the constructor stores.
    pub ctor_inits: Vec<T>,
    /// What a failed constructor gives back.
    pub ctor_handback: Vec<T>,
    /// The types of what is given back.
    pub ctor_handback_ty: Vec<T>,
    /// What the constructor does once the block is written.
    pub ctor_post: Vec<T>,
    /// How it is released.
    pub drop_stmts: Vec<T>,
    /// How it is copied.
    pub clone_stmts: Vec<T>,
    /// What is kept when the block is taken apart.
    pub mv_caps: Vec<T>,
    /// The types of what comes out.
    pub mv_types: Vec<T>,
    /// How it comes out.
    pub mv_recon: Vec<T>,
    /// What else has to be there.
    pub wrapper_defs: Vec<T>,
    /// The types that have to be plain bytes.
    pub pod_types: Vec<P>,
    /// Whether a reference was taken for its target.
    pub ref_coerced: bool,
}

/// [`FieldParts`], as a value.
#[verifier::ext_equal]
pub struct FieldPartsView<T, P> {
    pub on_disk_fields: Seq<T>,
    pub accessors: Seq<T>,
    pub setters: Seq<T>,
    pub ctor_params: Seq<T>,
    pub ctor_preps: Seq<T>,
    pub ctor_inits: Seq<T>,
    pub ctor_handback: Seq<T>,
    pub ctor_handback_ty: Seq<T>,
    pub ctor_post: Seq<T>,
    pub drop_stmts: Seq<T>,
    pub clone_stmts: Seq<T>,
    pub mv_caps: Seq<T>,
    pub mv_types: Seq<T>,
    pub mv_recon: Seq<T>,
    pub wrapper_defs: Seq<T>,
    pub pod_types: Seq<P>,
    pub ref_coerced: bool,
}

impl<T, P> View for FieldParts<T, P> {
    type V = FieldPartsView<T, P>;

    open spec fn view(&self) -> FieldPartsView<T, P> {
        FieldPartsView {
            on_disk_fields: self.on_disk_fields@,
            accessors: self.accessors@,
            setters: self.setters@,
            ctor_params: self.ctor_params@,
            ctor_preps: self.ctor_preps@,
            ctor_inits: self.ctor_inits@,
            ctor_handback: self.ctor_handback@,
            ctor_handback_ty: self.ctor_handback_ty@,
            ctor_post: self.ctor_post@,
            drop_stmts: self.drop_stmts@,
            clone_stmts: self.clone_stmts@,
            mv_caps: self.mv_caps@,
            mv_types: self.mv_types@,
            mv_recon: self.mv_recon@,
            wrapper_defs: self.wrapper_defs@,
            pod_types: self.pod_types@,
            ref_coerced: self.ref_coerced,
        }
    }
}

impl<T, P> FieldPartsView<T, P> {
    /// No pieces at all.
    pub open spec fn nothing() -> FieldPartsView<T, P> {
        FieldPartsView {
            on_disk_fields: Seq::empty(),
            accessors: Seq::empty(),
            setters: Seq::empty(),
            ctor_params: Seq::empty(),
            ctor_preps: Seq::empty(),
            ctor_inits: Seq::empty(),
            ctor_handback: Seq::empty(),
            ctor_handback_ty: Seq::empty(),
            ctor_post: Seq::empty(),
            drop_stmts: Seq::empty(),
            clone_stmts: Seq::empty(),
            mv_caps: Seq::empty(),
            mv_types: Seq::empty(),
            mv_recon: Seq::empty(),
            wrapper_defs: Seq::empty(),
            pod_types: Seq::empty(),
            ref_coerced: false,
        }
    }

    /// These pieces, and then the others.
    pub open spec fn then_those(self, other: FieldPartsView<T, P>) -> FieldPartsView<T, P> {
        FieldPartsView {
            on_disk_fields: self.on_disk_fields + other.on_disk_fields,
            accessors: self.accessors + other.accessors,
            setters: self.setters + other.setters,
            ctor_params: self.ctor_params + other.ctor_params,
            ctor_preps: self.ctor_preps + other.ctor_preps,
            ctor_inits: self.ctor_inits + other.ctor_inits,
            ctor_handback: self.ctor_handback + other.ctor_handback,
            ctor_handback_ty: self.ctor_handback_ty + other.ctor_handback_ty,
            ctor_post: self.ctor_post + other.ctor_post,
            drop_stmts: self.drop_stmts + other.drop_stmts,
            clone_stmts: self.clone_stmts + other.clone_stmts,
            mv_caps: self.mv_caps + other.mv_caps,
            mv_types: self.mv_types + other.mv_types,
            mv_recon: self.mv_recon + other.mv_recon,
            wrapper_defs: self.wrapper_defs + other.wrapper_defs,
            pod_types: self.pod_types + other.pod_types,
            ref_coerced: self.ref_coerced || other.ref_coerced,
        }
    }
}

impl<T, P> FieldParts<T, P> {
    /// No pieces at all.
    pub fn new() -> (r: FieldParts<T, P>)
        ensures
            r@ == FieldPartsView::<T, P>::nothing(),
    {
        let r = FieldParts {
            on_disk_fields: Vec::new(),
            accessors: Vec::new(),
            setters: Vec::new(),
            ctor_params: Vec::new(),
            ctor_preps: Vec::new(),
            ctor_inits: Vec::new(),
            ctor_handback: Vec::new(),
            ctor_handback_ty: Vec::new(),
            ctor_post: Vec::new(),
            drop_stmts: Vec::new(),
            clone_stmts: Vec::new(),
            mv_caps: Vec::new(),
            mv_types: Vec::new(),
            mv_recon: Vec::new(),
            wrapper_defs: Vec::new(),
            pod_types: Vec::new(),
            ref_coerced: false,
        };
        assert(r@ =~= FieldPartsView::<T, P>::nothing());
        r
    }

    /// Add the pieces of another field behind these.
    pub fn merge(&mut self, mut other: FieldParts<T, P>)
        ensures
            final(self)@ == old(self)@.then_those(other@),
    {
        let ghost mine = self@;
        let ghost theirs = other@;
        self.on_disk_fields.append(&mut other.on_disk_fields);
        self.accessors.append(&mut other.accessors);
        self.setters.append(&mut other.setters);
        self.ctor_params.append(&mut other.ctor_params);
        self.ctor_preps.append(&mut other.ctor_preps);
        self.ctor_inits.append(&mut other.ctor_inits);
        self.ctor_handback.append(&mut other.ctor_handback);
        self.ctor_handback_ty.append(&mut other.ctor_handback_ty);
        self.ctor_post.append(&mut other.ctor_post);
        self.drop_stmts.append(&mut other.drop_stmts);
        self.clone_stmts.append(&mut other.clone_stmts);
        self.mv_caps.append(&mut other.mv_caps);
        self.mv_types.append(&mut other.mv_types);
        self.mv_recon.append(&mut other.mv_recon);
        self.wrapper_defs.append(&mut other.wrapper_defs);
        self.pod_types.append(&mut other.pod_types);
        self.ref_coerced = self.ref_coerced || other.ref_coerced;
        assert(self@ =~= mine.then_those(theirs));
    }
}

/// What one variant adds, or several in order. `T` is a piece, `P` a type.
pub struct VariantParts<T, P> {
    /// The variant in its owned form.
    pub data_variants: Vec<T>,
    /// The variant in its borrowed form.
    pub view_variants: Vec<T>,
    /// How it is made.
    pub new_arms: Vec<T>,
    /// How it is read.
    pub read_arms: Vec<T>,
    /// How it is taken apart.
    pub move_arms: Vec<T>,
    /// Which blocks are left where it cannot be taken apart.
    pub raw_arms: Vec<T>,
    /// How it is released.
    pub drop_arms: Vec<T>,
    /// How it is copied.
    pub clone_arms: Vec<T>,
    /// How much room it needs.
    pub payload_sizes: Vec<T>,
    /// The types that have to be plain bytes.
    pub pod_types: Vec<P>,
    /// The types that have to be embeddable.
    pub embed_types: Vec<T>,
    /// Whether a block lies in the payload.
    pub has_embed: bool,
    /// Whether the payload is looked at.
    pub needs_payload: bool,
    /// Whether there is a counted reference.
    pub has_shared: bool,
    /// Whether there is a weak reference.
    pub has_weak: bool,
    /// Whether there is a pointer to another file.
    pub has_foreign: bool,
}

/// [`VariantParts`], as a value.
#[verifier::ext_equal]
pub struct VariantPartsView<T, P> {
    pub data_variants: Seq<T>,
    pub view_variants: Seq<T>,
    pub new_arms: Seq<T>,
    pub read_arms: Seq<T>,
    pub move_arms: Seq<T>,
    pub raw_arms: Seq<T>,
    pub drop_arms: Seq<T>,
    pub clone_arms: Seq<T>,
    pub payload_sizes: Seq<T>,
    pub pod_types: Seq<P>,
    pub embed_types: Seq<T>,
    pub has_embed: bool,
    pub needs_payload: bool,
    pub has_shared: bool,
    pub has_weak: bool,
    pub has_foreign: bool,
}

impl<T, P> View for VariantParts<T, P> {
    type V = VariantPartsView<T, P>;

    open spec fn view(&self) -> VariantPartsView<T, P> {
        VariantPartsView {
            data_variants: self.data_variants@,
            view_variants: self.view_variants@,
            new_arms: self.new_arms@,
            read_arms: self.read_arms@,
            move_arms: self.move_arms@,
            raw_arms: self.raw_arms@,
            drop_arms: self.drop_arms@,
            clone_arms: self.clone_arms@,
            payload_sizes: self.payload_sizes@,
            pod_types: self.pod_types@,
            embed_types: self.embed_types@,
            has_embed: self.has_embed,
            needs_payload: self.needs_payload,
            has_shared: self.has_shared,
            has_weak: self.has_weak,
            has_foreign: self.has_foreign,
        }
    }
}

impl<T, P> VariantPartsView<T, P> {
    /// No pieces at all.
    pub open spec fn nothing() -> VariantPartsView<T, P> {
        VariantPartsView {
            data_variants: Seq::empty(),
            view_variants: Seq::empty(),
            new_arms: Seq::empty(),
            read_arms: Seq::empty(),
            move_arms: Seq::empty(),
            raw_arms: Seq::empty(),
            drop_arms: Seq::empty(),
            clone_arms: Seq::empty(),
            payload_sizes: Seq::empty(),
            pod_types: Seq::empty(),
            embed_types: Seq::empty(),
            has_embed: false,
            needs_payload: false,
            has_shared: false,
            has_weak: false,
            has_foreign: false,
        }
    }

    /// These pieces, and then the others.
    pub open spec fn then_those(self, other: VariantPartsView<T, P>) -> VariantPartsView<T, P> {
        VariantPartsView {
            data_variants: self.data_variants + other.data_variants,
            view_variants: self.view_variants + other.view_variants,
            new_arms: self.new_arms + other.new_arms,
            read_arms: self.read_arms + other.read_arms,
            move_arms: self.move_arms + other.move_arms,
            raw_arms: self.raw_arms + other.raw_arms,
            drop_arms: self.drop_arms + other.drop_arms,
            clone_arms: self.clone_arms + other.clone_arms,
            payload_sizes: self.payload_sizes + other.payload_sizes,
            pod_types: self.pod_types + other.pod_types,
            embed_types: self.embed_types + other.embed_types,
            has_embed: self.has_embed || other.has_embed,
            needs_payload: self.needs_payload || other.needs_payload,
            has_shared: self.has_shared || other.has_shared,
            has_weak: self.has_weak || other.has_weak,
            has_foreign: self.has_foreign || other.has_foreign,
        }
    }
}

impl<T, P> VariantParts<T, P> {
    /// No pieces at all.
    pub fn new() -> (r: VariantParts<T, P>)
        ensures
            r@ == VariantPartsView::<T, P>::nothing(),
    {
        let r = VariantParts {
            data_variants: Vec::new(),
            view_variants: Vec::new(),
            new_arms: Vec::new(),
            read_arms: Vec::new(),
            move_arms: Vec::new(),
            raw_arms: Vec::new(),
            drop_arms: Vec::new(),
            clone_arms: Vec::new(),
            payload_sizes: Vec::new(),
            pod_types: Vec::new(),
            embed_types: Vec::new(),
            has_embed: false,
            needs_payload: false,
            has_shared: false,
            has_weak: false,
            has_foreign: false,
        };
        assert(r@ =~= VariantPartsView::<T, P>::nothing());
        r
    }

    /// Add the pieces of another variant behind these.
    pub fn merge(&mut self, mut other: VariantParts<T, P>)
        ensures
            final(self)@ == old(self)@.then_those(other@),
    {
        let ghost mine = self@;
        let ghost theirs = other@;
        self.data_variants.append(&mut other.data_variants);
        self.view_variants.append(&mut other.view_variants);
        self.new_arms.append(&mut other.new_arms);
        self.read_arms.append(&mut other.read_arms);
        self.move_arms.append(&mut other.move_arms);
        self.raw_arms.append(&mut other.raw_arms);
        self.drop_arms.append(&mut other.drop_arms);
        self.clone_arms.append(&mut other.clone_arms);
        self.payload_sizes.append(&mut other.payload_sizes);
        self.pod_types.append(&mut other.pod_types);
        self.embed_types.append(&mut other.embed_types);
        self.has_embed = self.has_embed || other.has_embed;
        self.needs_payload = self.needs_payload || other.needs_payload;
        self.has_shared = self.has_shared || other.has_shared;
        self.has_weak = self.has_weak || other.has_weak;
        self.has_foreign = self.has_foreign || other.has_foreign;
        assert(self@ =~= mine.then_those(theirs));
    }
}

/// It does not matter in which groups the pieces of fields are put together, only in which order.
pub proof fn law_field_parts_group<T, P>(
    a: FieldPartsView<T, P>,
    b: FieldPartsView<T, P>,
    c: FieldPartsView<T, P>,
)
    ensures
        a.then_those(b).then_those(c) == a.then_those(b.then_those(c)),
        a.then_those(FieldPartsView::nothing()) == a,
        FieldPartsView::nothing().then_those(a) == a,
{
    assert(a.then_those(b).then_those(c) =~= a.then_those(b.then_those(c)));
    assert(a.then_those(FieldPartsView::nothing()) =~= a);
    assert(FieldPartsView::nothing().then_those(a) =~= a);
}

/// It does not matter in which groups the pieces of variants are put together, only in which
/// order.
pub proof fn law_variant_parts_group<T, P>(
    a: VariantPartsView<T, P>,
    b: VariantPartsView<T, P>,
    c: VariantPartsView<T, P>,
)
    ensures
        a.then_those(b).then_those(c) == a.then_those(b.then_those(c)),
        a.then_those(VariantPartsView::nothing()) == a,
        VariantPartsView::nothing().then_those(a) == a,
{
    assert(a.then_those(b).then_those(c) =~= a.then_those(b.then_those(c)));
    assert(a.then_those(VariantPartsView::nothing()) =~= a);
    assert(VariantPartsView::nothing().then_those(a) =~= a);
}

} // verus!
