//! The record types of the catalog, and their mathematical views.
//!
//! A product's cost is held in cents, so that money stays exact integer
//! arithmetic. Ids are generated by the store, starting at 1.

use vstd::prelude::*;

verus! {

/// A stored product row.
#[derive(Debug, Clone, PartialEq)]
pub struct Product {
    pub id: i32,
    pub name: String,
    /// Cost in cents.
    pub cost: u64,
    pub active: bool,
}

/// The fields of a product not yet inserted (no id).
#[derive(Debug, Clone, PartialEq)]
pub struct NewProduct {
    pub name: String,
    /// Cost in cents.
    pub cost: u64,
    pub active: bool,
}

/// A stored variant dimension (e.g. "size"); names are unique.
#[derive(Debug, Clone, PartialEq)]
pub struct Variant {
    pub id: i32,
    pub name: String,
}

/// A variant dimension not yet inserted (no id).
#[derive(Debug, Clone, PartialEq)]
pub struct NewVariant {
    pub name: String,
}

/// A stored association row: one concrete value of one variant for one
/// product.
#[derive(Debug, Clone, PartialEq)]
pub struct ProductVariant {
    pub id: i32,
    pub product_id: i32,
    pub variant_id: i32,
    pub value: Option<String>,
}

/// An association row not yet inserted (no id).
#[derive(Debug, Clone, PartialEq)]
pub struct NewProductVariant {
    pub product_id: i32,
    pub variant_id: i32,
    pub value: Option<String>,
}

/// One variant group of a creation request: a dimension name and its values
/// in order. Empty values are kept, not skipped.
#[derive(Debug, Clone, PartialEq)]
pub struct NewVariantValue {
    pub variant: NewVariant,
    pub values: Vec<Option<String>>,
}

/// A full creation request: the product fields plus its variant groups in
/// order.
#[derive(Debug, Clone, PartialEq)]
pub struct NewCompleteProduct {
    pub product: NewProduct,
    pub variants: Vec<NewVariantValue>,
}

/// A variant descriptor of an update request; the name is used to find or
/// create the variant.
#[derive(Debug, Clone, PartialEq)]
pub struct FormVariant {
    pub id: Option<i32>,
    pub name: String,
}

/// An association descriptor of an update request: an existing row (id
/// present) to overwrite, or a new row (id absent) to append.
#[derive(Debug, Clone, PartialEq)]
pub struct FormProductVariant {
    pub id: Option<i32>,
    pub variant_id: Option<i32>,
    pub product_id: i32,
    pub value: Option<String>,
}

/// One change entry of an update request.
#[derive(Debug, Clone, PartialEq)]
pub struct FormProductVariantComplete {
    pub variant: Option<FormVariant>,
    pub product_variant: FormProductVariant,
}

/// A full update request: replacement product fields plus change entries in
/// order.
#[derive(Debug, Clone, PartialEq)]
pub struct FormProduct {
    pub product: NewProduct,
    pub variants: Vec<FormProductVariantComplete>,
}

/// What an operation of the store can fail with.
#[derive(Debug, Clone, PartialEq, Eq, Structural)]
pub enum StoreError {
    /// The product or association addressed by id does not exist.
    NotFound,
    /// A reference does not resolve: a supplied variant or product id names
    /// no row, or an entry carries neither a variant id nor a descriptor.
    ConstraintViolation,
}

/// Mathematical view of a product row.
pub ghost struct ProductView {
    pub id: int,
    pub name: Seq<char>,
    pub cost: int,
    pub active: bool,
}

/// Mathematical view of a variant row.
pub ghost struct VariantView {
    pub id: int,
    pub name: Seq<char>,
}

/// Mathematical view of an association row.
pub ghost struct AssocView {
    pub id: int,
    pub product_id: int,
    pub variant_id: int,
    pub value: Option<Seq<char>>,
}

/// Mathematical view of the fields of a product to insert or to overwrite.
pub ghost struct NewProductView {
    pub name: Seq<char>,
    pub cost: int,
    pub active: bool,
}

/// Mathematical view of one variant group of a creation request.
pub ghost struct GroupView {
    pub name: Seq<char>,
    pub values: Seq<Option<Seq<char>>>,
}

/// Mathematical view of a whole creation request.
pub ghost struct CreateView {
    pub product: NewProductView,
    pub groups: Seq<GroupView>,
}

/// Mathematical view of one change entry of an update request.
pub ghost struct EntryView {
    /// Name carried by the variant descriptor, if one was supplied.
    pub variant_name: Option<Seq<char>>,
    /// Id of the association row to overwrite; absent means append.
    pub assoc_id: Option<int>,
    /// Variant id to use directly, if one was supplied.
    pub variant_id: Option<int>,
    /// Product the association belongs to.
    pub product_id: int,
    /// The target value.
    pub value: Option<Seq<char>>,
}

pub open spec fn opt_str_view(o: Option<String>) -> Option<Seq<char>> {
    match o {
        Some(s) => Some(s@),
        None => None,
    }
}

impl View for Product {
    type V = ProductView;

    open spec fn view(&self) -> ProductView {
        ProductView { id: self.id as int, name: self.name@, cost: self.cost as int, active: self.active }
    }
}

impl View for Variant {
    type V = VariantView;

    open spec fn view(&self) -> VariantView {
        VariantView { id: self.id as int, name: self.name@ }
    }
}

impl View for ProductVariant {
    type V = AssocView;

    open spec fn view(&self) -> AssocView {
        AssocView {
            id: self.id as int,
            product_id: self.product_id as int,
            variant_id: self.variant_id as int,
            value: opt_str_view(self.value),
        }
    }
}

impl View for NewProductVariant {
    type V = AssocView;

    open spec fn view(&self) -> AssocView {
        AssocView {
            id: 0,
            product_id: self.product_id as int,
            variant_id: self.variant_id as int,
            value: opt_str_view(self.value),
        }
    }
}

impl View for NewProduct {
    type V = NewProductView;

    open spec fn view(&self) -> NewProductView {
        NewProductView { name: self.name@, cost: self.cost as int, active: self.active }
    }
}

impl View for NewVariantValue {
    type V = GroupView;

    open spec fn view(&self) -> GroupView {
        GroupView {
            name: self.variant.name@,
            values: self.values@.map_values(|v: Option<String>| opt_str_view(v)),
        }
    }
}

impl View for NewCompleteProduct {
    type V = CreateView;

    open spec fn view(&self) -> CreateView {
        CreateView { product: self.product@, groups: groups_view(self.variants@) }
    }
}

impl View for FormProductVariantComplete {
    type V = EntryView;

    open spec fn view(&self) -> EntryView {
        EntryView {
            variant_name: match self.variant {
                Some(f) => Some(f.name@),
                None => None,
            },
            assoc_id: match self.product_variant.id {
                Some(i) => Some(i as int),
                None => None,
            },
            variant_id: match self.product_variant.variant_id {
                Some(i) => Some(i as int),
                None => None,
            },
            product_id: self.product_variant.product_id as int,
            value: opt_str_view(self.product_variant.value),
        }
    }
}

/// The groups of a creation request, as views, in order.
pub open spec fn groups_view(v: Seq<NewVariantValue>) -> Seq<GroupView> {
    v.map_values(|g: NewVariantValue| g@)
}

/// The change entries of an update request, as views, in order.
pub open spec fn entries_view(v: Seq<FormProductVariantComplete>) -> Seq<EntryView> {
    v.map_values(|e: FormProductVariantComplete| e@)
}

} // verus!
