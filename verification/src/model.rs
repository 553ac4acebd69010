//! The mathematical model of the store: its state as three sequences of
//! rows plus the id counters, the well-formedness invariant, and the state
//! transition of every operation.
//!
//! Each executable operation of `store` promises that its new state equals
//! the corresponding function here applied to the old state, so everything
//! provable of these functions holds of the running store.

use vstd::prelude::*;

use crate::models::{
    AssocView, EntryView, GroupView, NewProductView, ProductView, StoreError, VariantView,
};
use crate::text::contains_substr;

verus! {

/// The whole store state: three relations and the three id counters, one
/// per relation, holding the largest id handed out so far.
pub ghost struct StoreView {
    pub products: Seq<ProductView>,
    pub variants: Seq<VariantView>,
    pub assocs: Seq<AssocView>,
    pub product_ctr: int,
    pub variant_ctr: int,
    pub assoc_ctr: int,
}

/// Product rows sit in insertion order: ids strictly increase along the
/// sequence and never exceed the counter.
pub open spec fn products_ordered(ps: Seq<ProductView>, ctr: int) -> bool {
    &&& forall|i: int| #![trigger ps[i]] 0 <= i < ps.len() ==> 1 <= ps[i].id && ps[i].id <= ctr
    &&& forall|i: int, j: int| #![trigger ps[i], ps[j]]
        0 <= i < j < ps.len() ==> ps[i].id < ps[j].id
}

/// Variant rows: ids strictly increase and stay below the counter.
pub open spec fn variants_ordered(vs: Seq<VariantView>, ctr: int) -> bool {
    &&& forall|i: int| #![trigger vs[i]] 0 <= i < vs.len() ==> 1 <= vs[i].id && vs[i].id <= ctr
    &&& forall|i: int, j: int| #![trigger vs[i], vs[j]]
        0 <= i < j < vs.len() ==> vs[i].id < vs[j].id
}

/// No two variant rows carry the same name.
pub open spec fn variant_names_unique(vs: Seq<VariantView>) -> bool {
    forall|i: int, j: int| #![trigger vs[i], vs[j]]
        0 <= i < vs.len() && 0 <= j < vs.len() && i != j ==> vs[i].name != vs[j].name
}

/// Association rows: ids strictly increase and stay below the counter.
pub open spec fn assocs_ordered(assocs: Seq<AssocView>, ctr: int) -> bool {
    &&& forall|i: int| #![trigger assocs[i]]
        0 <= i < assocs.len() ==> 1 <= assocs[i].id && assocs[i].id <= ctr
    &&& forall|i: int, j: int| #![trigger assocs[i], assocs[j]]
        0 <= i < j < assocs.len() ==> assocs[i].id < assocs[j].id
}

/// Referential integrity: every association points at an existing product
/// and an existing variant.
pub open spec fn assocs_reference(
    assocs: Seq<AssocView>,
    ps: Seq<ProductView>,
    vs: Seq<VariantView>,
) -> bool {
    forall|i: int| #![trigger assocs[i]]
        0 <= i < assocs.len() ==> has_product(ps, assocs[i].product_id) && has_variant(
            vs,
            assocs[i].variant_id,
        )
}

impl StoreView {
    /// The store invariant: counters non-negative, every relation in
    /// insertion order with unique ids, variant names unique, and every
    /// association referencing existing rows.
    pub open spec fn wf(self) -> bool {
        &&& 0 <= self.product_ctr
        &&& 0 <= self.variant_ctr
        &&& 0 <= self.assoc_ctr
        &&& products_ordered(self.products, self.product_ctr)
        &&& variants_ordered(self.variants, self.variant_ctr)
        &&& variant_names_unique(self.variants)
        &&& assocs_ordered(self.assocs, self.assoc_ctr)
        &&& assocs_reference(self.assocs, self.products, self.variants)
    }
}

/// Some product row carries this id.
pub open spec fn has_product(ps: Seq<ProductView>, id: int) -> bool {
    exists|i: int| 0 <= i < ps.len() && (#[trigger] ps[i]).id == id
}

/// The position of the product row with this id.
pub open spec fn product_idx(ps: Seq<ProductView>, id: int) -> int {
    choose|i: int| 0 <= i < ps.len() && (#[trigger] ps[i]).id == id
}

/// The product row with this id.
pub open spec fn product_of(ps: Seq<ProductView>, id: int) -> ProductView {
    ps[product_idx(ps, id)]
}

/// Some variant row carries this id.
pub open spec fn has_variant(vs: Seq<VariantView>, id: int) -> bool {
    exists|i: int| 0 <= i < vs.len() && (#[trigger] vs[i]).id == id
}

/// The position of the variant row with this id.
pub open spec fn variant_idx(vs: Seq<VariantView>, id: int) -> int {
    choose|i: int| 0 <= i < vs.len() && (#[trigger] vs[i]).id == id
}

/// The variant row with this id.
pub open spec fn variant_of(vs: Seq<VariantView>, id: int) -> VariantView {
    vs[variant_idx(vs, id)]
}

/// Some variant row carries this name.
pub open spec fn has_variant_named(vs: Seq<VariantView>, name: Seq<char>) -> bool {
    exists|i: int| 0 <= i < vs.len() && (#[trigger] vs[i]).name == name
}

/// The position of the variant row with this name.
pub open spec fn variant_named_idx(vs: Seq<VariantView>, name: Seq<char>) -> int {
    choose|i: int| 0 <= i < vs.len() && (#[trigger] vs[i]).name == name
}

/// The variant row with this name.
pub open spec fn variant_named(vs: Seq<VariantView>, name: Seq<char>) -> VariantView {
    vs[variant_named_idx(vs, name)]
}

/// Some association row carries this id.
pub open spec fn has_assoc(assocs: Seq<AssocView>, id: int) -> bool {
    exists|i: int| 0 <= i < assocs.len() && (#[trigger] assocs[i]).id == id
}

/// The position of the association row with this id.
pub open spec fn assoc_idx(assocs: Seq<AssocView>, id: int) -> int {
    choose|i: int| 0 <= i < assocs.len() && (#[trigger] assocs[i]).id == id
}

/// The association row with this id.
pub open spec fn assoc_of(assocs: Seq<AssocView>, id: int) -> AssocView {
    assocs[assoc_idx(assocs, id)]
}

/// Under unique product ids, the row at any index carrying `id` is the row
/// `product_of` names.
pub proof fn lemma_product_of_at(ps: Seq<ProductView>, ctr: int, id: int, i: int)
    requires
        products_ordered(ps, ctr),
        0 <= i < ps.len(),
        ps[i].id == id,
    ensures
        has_product(ps, id),
        product_idx(ps, id) == i,
        product_of(ps, id) == ps[i],
{
    assert(has_product(ps, id));
    let j = product_idx(ps, id);
    if j < i {
        assert(ps[j].id < ps[i].id);
    } else if j > i {
        assert(ps[i].id < ps[j].id);
    }
}

/// Under unique variant ids, the row at any index carrying `id` is the row
/// `variant_of` names.
pub proof fn lemma_variant_of_at(vs: Seq<VariantView>, ctr: int, id: int, i: int)
    requires
        variants_ordered(vs, ctr),
        0 <= i < vs.len(),
        vs[i].id == id,
    ensures
        has_variant(vs, id),
        variant_idx(vs, id) == i,
        variant_of(vs, id) == vs[i],
{
    assert(has_variant(vs, id));
    let j = variant_idx(vs, id);
    if j < i {
        assert(vs[j].id < vs[i].id);
    } else if j > i {
        assert(vs[i].id < vs[j].id);
    }
}

/// Under unique variant names, the row at any index carrying `name` is the
/// row `variant_named` names.
pub proof fn lemma_variant_named_at(vs: Seq<VariantView>, name: Seq<char>, i: int)
    requires
        variant_names_unique(vs),
        0 <= i < vs.len(),
        vs[i].name == name,
    ensures
        has_variant_named(vs, name),
        variant_named_idx(vs, name) == i,
        variant_named(vs, name) == vs[i],
{
    assert(has_variant_named(vs, name));
    let j = variant_named_idx(vs, name);
    if j != i {
        assert(vs[j].name != vs[i].name);
    }
}

/// Under unique association ids, the row at any index carrying `id` is the
/// row `assoc_of` names.
pub proof fn lemma_assoc_of_at(assocs: Seq<AssocView>, ctr: int, id: int, i: int)
    requires
        assocs_ordered(assocs, ctr),
        0 <= i < assocs.len(),
        assocs[i].id == id,
    ensures
        has_assoc(assocs, id),
        assoc_idx(assocs, id) == i,
        assoc_of(assocs, id) == assocs[i],
{
    assert(has_assoc(assocs, id));
    let j = assoc_idx(assocs, id);
    if j < i {
        assert(assocs[j].id < assocs[i].id);
    } else if j > i {
        assert(assocs[i].id < assocs[j].id);
    }
}

/// The number of values over all groups: the number of association rows a
/// creation request yields.
pub open spec fn total_values(gs: Seq<GroupView>) -> nat
    decreases gs.len(),
{
    if gs.len() == 0 {
        0
    } else {
        total_values(gs.drop_last()) + gs.last().values.len()
    }
}

/// All values of all groups, flattened in input order.
pub open spec fn all_values(gs: Seq<GroupView>) -> Seq<Option<Seq<char>>>
    decreases gs.len(),
{
    if gs.len() == 0 {
        Seq::empty()
    } else {
        all_values(gs.drop_last()) + gs.last().values
    }
}

/// The product row a creation request inserts, with the next generated id.
pub open spec fn insert_product(s: StoreView, np: NewProductView) -> StoreView {
    StoreView {
        products: s.products.push(
            ProductView {
                id: s.product_ctr + 1,
                name: np.name,
                cost: np.cost,
                active: np.active,
            },
        ),
        product_ctr: s.product_ctr + 1,
        ..s
    }
}

/// Find a variant by name; create it with the next generated id when the
/// name is new. Returns the new state and the resolved variant id.
pub open spec fn resolve_variant(s: StoreView, name: Seq<char>) -> (StoreView, int) {
    if has_variant_named(s.variants, name) {
        (s, variant_named(s.variants, name).id)
    } else {
        (
            StoreView {
                variants: s.variants.push(VariantView { id: s.variant_ctr + 1, name }),
                variant_ctr: s.variant_ctr + 1,
                ..s
            },
            s.variant_ctr + 1,
        )
    }
}

/// The association rows one group appends: sequential ids from `actr + 1`,
/// all pointing at product `pid` and variant `vid`, values in input order.
pub open spec fn assoc_block(
    actr: int,
    pid: int,
    vid: int,
    values: Seq<Option<Seq<char>>>,
) -> Seq<AssocView> {
    Seq::new(
        values.len(),
        |k: int| AssocView { id: actr + 1 + k, product_id: pid, variant_id: vid, value: values[k] },
    )
}

/// Append one association row per value of a group.
pub open spec fn append_values(
    s: StoreView,
    pid: int,
    vid: int,
    values: Seq<Option<Seq<char>>>,
) -> StoreView {
    StoreView {
        assocs: s.assocs + assoc_block(s.assoc_ctr, pid, vid, values),
        assoc_ctr: s.assoc_ctr + values.len(),
        ..s
    }
}

/// One variant group of a creation request: resolve the variant, then
/// append one association per value.
pub open spec fn apply_group(s: StoreView, pid: int, g: GroupView) -> StoreView {
    let r = resolve_variant(s, g.name);
    append_values(r.0, pid, r.1, g.values)
}

/// All variant groups of a creation request, in input order.
pub open spec fn apply_groups(s: StoreView, pid: int, gs: Seq<GroupView>) -> StoreView
    decreases gs.len(),
{
    if gs.len() == 0 {
        s
    } else {
        apply_group(apply_groups(s, pid, gs.drop_last()), pid, gs.last())
    }
}

/// The whole creation path: insert the product row, then apply every
/// variant group against the new product's id.
pub open spec fn create_model(s: StoreView, np: NewProductView, gs: Seq<GroupView>) -> StoreView {
    apply_groups(insert_product(s, np), s.product_ctr + 1, gs)
}

/// The machine limit on a creation request: the generated ids must fit in
/// `i32`.
pub open spec fn create_pre(s: StoreView, gs: Seq<GroupView>) -> bool {
    &&& s.product_ctr + 1 <= i32::MAX
    &&& s.variant_ctr + gs.len() <= i32::MAX
    &&& s.assoc_ctr + total_values(gs) <= i32::MAX
}

/// What one group leaves untouched and how it moves the counters.
pub proof fn lemma_apply_group_frame(s: StoreView, pid: int, g: GroupView)
    ensures
        ({
            let t = apply_group(s, pid, g);
            &&& t.products == s.products
            &&& t.product_ctr == s.product_ctr
            &&& t.variants.take(s.variants.len() as int) == s.variants
            &&& s.variants.len() <= t.variants.len() <= s.variants.len() + 1
            &&& s.variant_ctr <= t.variant_ctr <= s.variant_ctr + 1
            &&& t.assocs.take(s.assocs.len() as int) == s.assocs
            &&& t.assocs.len() == s.assocs.len() + g.values.len()
            &&& t.assoc_ctr == s.assoc_ctr + g.values.len()
        }),
{
    let r = resolve_variant(s, g.name);
    let t = apply_group(s, pid, g);
    assert(t.assocs.take(s.assocs.len() as int) =~= s.assocs);
    if !has_variant_named(s.variants, g.name) {
        assert(t.variants.take(s.variants.len() as int) =~= s.variants);
    } else {
        assert(t.variants.take(s.variants.len() as int) =~= s.variants);
    }
}

/// What a whole creation request leaves untouched and how it moves the
/// counters.
pub proof fn lemma_apply_groups_frame(s: StoreView, pid: int, gs: Seq<GroupView>)
    ensures
        ({
            let t = apply_groups(s, pid, gs);
            &&& t.products == s.products
            &&& t.product_ctr == s.product_ctr
            &&& t.variants.take(s.variants.len() as int) == s.variants
            &&& s.variants.len() <= t.variants.len() <= s.variants.len() + gs.len()
            &&& s.variant_ctr <= t.variant_ctr <= s.variant_ctr + gs.len()
            &&& t.assocs.take(s.assocs.len() as int) == s.assocs
            &&& t.assocs.len() == s.assocs.len() + total_values(gs)
            &&& t.assoc_ctr == s.assoc_ctr + total_values(gs)
        }),
    decreases gs.len(),
{
    if gs.len() == 0 {
    } else {
        let m = apply_groups(s, pid, gs.drop_last());
        lemma_apply_groups_frame(s, pid, gs.drop_last());
        lemma_apply_group_frame(m, pid, gs.last());
        let t = apply_groups(s, pid, gs);
        assert(t.variants.take(s.variants.len() as int) =~= s.variants) by {
            assert(t.variants.take(m.variants.len() as int) == m.variants);
            assert(m.variants.take(s.variants.len() as int) == s.variants);
            assert(forall|i: int|
                0 <= i < s.variants.len() ==> t.variants[i] == #[trigger] s.variants[i]);
        }
        assert(t.assocs.take(s.assocs.len() as int) =~= s.assocs) by {
            assert(t.assocs.take(m.assocs.len() as int) == m.assocs);
            assert(m.assocs.take(s.assocs.len() as int) == s.assocs);
            assert(forall|i: int|
                0 <= i < s.assocs.len() ==> t.assocs[i] == #[trigger] s.assocs[i]);
        }
    }
}

/// The association rows of one product, in insertion order.
pub open spec fn assocs_for(assocs: Seq<AssocView>, pid: int) -> Seq<AssocView> {
    assocs.filter(|a: AssocView| a.product_id == pid)
}

/// The association rows of one product, each joined with its variant row.
pub open spec fn joined_for(s: StoreView, pid: int) -> Seq<(AssocView, VariantView)> {
    assocs_for(s.assocs, pid).map_values(
        |a: AssocView| (a, variant_of(s.variants, a.variant_id)),
    )
}

/// The product rows whose name contains the pattern, in insertion order.
pub open spec fn matching_products(ps: Seq<ProductView>, pat: Seq<char>) -> Seq<ProductView> {
    ps.filter(|p: ProductView| contains_substr(p.name, pat))
}

/// The view of an optional row cap.
pub open spec fn limit_view(limit: Option<u16>) -> Option<int> {
    match limit {
        Some(l) => Some(l as int),
        None => None,
    }
}

/// The first rows of a listing, capped when a limit is given.
pub open spec fn limited(ps: Seq<ProductView>, limit: Option<int>) -> Seq<ProductView> {
    match limit {
        None => ps,
        Some(l) => if l < ps.len() {
            ps.take(l)
        } else {
            ps
        },
    }
}

/// Overwrite the name, cost and active fields of the product row with this
/// id; every other row stays.
pub open spec fn replace_product(
    ps: Seq<ProductView>,
    id: int,
    np: NewProductView,
) -> Seq<ProductView> {
    ps.map_values(
        |p: ProductView|
            if p.id == id {
                ProductView { id: p.id, name: np.name, cost: np.cost, active: np.active }
            } else {
                p
            },
    )
}

/// Overwrite the variant id and value of the association row with this id;
/// its own id and product stay, and every other row stays.
pub open spec fn set_assoc(
    assocs: Seq<AssocView>,
    aid: int,
    vid: int,
    value: Option<Seq<char>>,
) -> Seq<AssocView> {
    assocs.map_values(
        |a: AssocView|
            if a.id == aid {
                AssocView { id: a.id, product_id: a.product_id, variant_id: vid, value }
            } else {
                a
            },
    )
}

/// The variant id one change entry works with: the supplied id when present
/// (it must then name an existing variant), else found or created from the
/// supplied descriptor name. An entry carrying neither is refused.
pub open spec fn resolve_entry_variant(s: StoreView, e: EntryView) -> Result<
    (StoreView, int),
    StoreError,
> {
    match e.variant_id {
        Some(vid) => if has_variant(s.variants, vid) {
            Ok((s, vid))
        } else {
            Err(StoreError::ConstraintViolation)
        },
        None => match e.variant_name {
            Some(name) => Ok(resolve_variant(s, name)),
            None => Err(StoreError::ConstraintViolation),
        },
    }
}

/// One change entry: overwrite the addressed association row in place, or
/// append a brand-new row when no association id was supplied.
pub open spec fn apply_entry(s: StoreView, e: EntryView) -> Result<StoreView, StoreError> {
    match resolve_entry_variant(s, e) {
        Err(err) => Err(err),
        Ok(r) => {
            let s1 = r.0;
            let vid = r.1;
            match e.assoc_id {
                Some(aid) => if has_assoc(s1.assocs, aid) {
                    Ok(StoreView { assocs: set_assoc(s1.assocs, aid, vid, e.value), ..s1 })
                } else {
                    Err(StoreError::NotFound)
                },
                None => if has_product(s1.products, e.product_id) {
                    Ok(
                        StoreView {
                            assocs: s1.assocs.push(
                                AssocView {
                                    id: s1.assoc_ctr + 1,
                                    product_id: e.product_id,
                                    variant_id: vid,
                                    value: e.value,
                                },
                            ),
                            assoc_ctr: s1.assoc_ctr + 1,
                            ..s1
                        },
                    )
                } else {
                    Err(StoreError::ConstraintViolation)
                },
            }
        },
    }
}

/// All change entries in input order; the first failure wins and nothing of
/// a failed run survives.
pub open spec fn apply_entries(s: StoreView, es: Seq<EntryView>) -> Result<StoreView, StoreError>
    decreases es.len(),
{
    if es.len() == 0 {
        Ok(s)
    } else {
        match apply_entries(s, es.drop_last()) {
            Err(err) => Err(err),
            Ok(s1) => apply_entry(s1, es.last()),
        }
    }
}

/// The whole update path: overwrite the product row, then apply every
/// change entry; fails with `NotFound` when the product does not exist.
pub open spec fn update_model(
    s: StoreView,
    id: int,
    np: NewProductView,
    es: Seq<EntryView>,
) -> Result<StoreView, StoreError> {
    if has_product(s.products, id) {
        apply_entries(StoreView { products: replace_product(s.products, id, np), ..s }, es)
    } else {
        Err(StoreError::NotFound)
    }
}

/// The machine limit on an update request: the generated ids must fit in
/// `i32`.
pub open spec fn update_pre(s: StoreView, es: Seq<EntryView>) -> bool {
    &&& s.variant_ctr + es.len() <= i32::MAX
    &&& s.assoc_ctr + es.len() <= i32::MAX
}

/// The whole deletion path: drop the product row and every association of
/// it. Variants stay; counters stay, so ids are never reused.
pub open spec fn delete_model(s: StoreView, id: int) -> StoreView {
    StoreView {
        products: s.products.filter(|p: ProductView| p.id != id),
        assocs: s.assocs.filter(|a: AssocView| a.product_id != id),
        ..s
    }
}

/// One more group adds its own value count to the total.
pub proof fn lemma_total_values_succ(gs: Seq<GroupView>, g: int)
    requires
        0 <= g < gs.len(),
    ensures
        total_values(gs.take(g + 1)) == total_values(gs.take(g)) + gs[g].values.len(),
{
    assert(gs.take(g + 1).drop_last() =~= gs.take(g));
}

/// A prefix never counts more values than the whole.
pub proof fn lemma_total_values_take_le(gs: Seq<GroupView>, g: int)
    requires
        0 <= g <= gs.len(),
    ensures
        total_values(gs.take(g)) <= total_values(gs),
    decreases gs.len() - g,
{
    if g == gs.len() {
        assert(gs.take(g) =~= gs);
    } else {
        lemma_total_values_succ(gs, g);
        lemma_total_values_take_le(gs, g + 1);
    }
}

/// Inserting the product row keeps the invariant; the new row carries the
/// next id and is present afterwards.
pub proof fn lemma_insert_product_wf(s: StoreView, np: NewProductView)
    requires
        s.wf(),
    ensures
        insert_product(s, np).wf(),
        has_product(insert_product(s, np).products, s.product_ctr + 1),
{
    let t = insert_product(s, np);
    assert(t.products[s.products.len() as int].id == s.product_ctr + 1);
    assert(forall|i: int|
        0 <= i < t.assocs.len() ==> has_product(t.products, (#[trigger] t.assocs[i]).product_id))
        by {
        assert(forall|i: int|
            0 <= i < s.assocs.len() ==> has_product(s.products, (#[trigger] s.assocs[i]).product_id));
        assert forall|i: int| 0 <= i < t.assocs.len() implies has_product(
            t.products,
            (#[trigger] t.assocs[i]).product_id,
        ) by {
            let pid = t.assocs[i].product_id;
            let j = product_idx(s.products, pid);
            assert(t.products[j] == s.products[j]);
        }
    }
}

/// One group keeps the invariant when the product it points at exists.
pub proof fn lemma_apply_group_wf(s: StoreView, pid: int, g: GroupView)
    requires
        s.wf(),
        has_product(s.products, pid),
    ensures
        apply_group(s, pid, g).wf(),
{
    let r = resolve_variant(s, g.name);
    let s1 = r.0;
    let vid = r.1;
    let t = apply_group(s, pid, g);
    if has_variant_named(s.variants, g.name) {
        let i = variant_named_idx(s.variants, g.name);
        assert(has_variant(s1.variants, vid));
    } else {
        assert(s1.variants[s.variants.len() as int].id == s.variant_ctr + 1);
        assert(has_variant(s1.variants, vid));
        assert(variant_names_unique(s1.variants)) by {
            assert(forall|i: int| #![trigger s.variants[i]]
                0 <= i < s.variants.len() ==> s.variants[i].name != g.name);
        }
        assert(forall|i: int|
            0 <= i < s.assocs.len() ==> has_variant(
                s1.variants,
                (#[trigger] s.assocs[i]).variant_id,
            )) by {
            assert forall|i: int| 0 <= i < s.assocs.len() implies has_variant(
                s1.variants,
                (#[trigger] s.assocs[i]).variant_id,
            ) by {
                let j = variant_idx(s.variants, s.assocs[i].variant_id);
                assert(s1.variants[j] == s.variants[j]);
            }
        }
    }
    assert(assocs_ordered(t.assocs, t.assoc_ctr)) by {
        assert(forall|i: int| #![trigger t.assocs[i]]
            0 <= i < s.assocs.len() ==> t.assocs[i] == s.assocs[i]);
        assert(forall|k: int| #![trigger t.assocs[s.assocs.len() + k]]
            0 <= k < g.values.len() ==> t.assocs[s.assocs.len() + k].id == s.assoc_ctr + 1 + k);
    }
    assert(assocs_reference(t.assocs, t.products, t.variants)) by {
        assert forall|i: int| 0 <= i < t.assocs.len() implies has_product(
            t.products,
            (#[trigger] t.assocs[i]).product_id,
        ) && has_variant(t.variants, t.assocs[i].variant_id) by {
            if i < s.assocs.len() {
                assert(t.assocs[i] == s.assocs[i]);
                let j = variant_idx(s.variants, s.assocs[i].variant_id);
                assert(t.variants[j] == s.variants[j]);
            } else {
                assert(t.assocs[i].product_id == pid);
                assert(t.assocs[i].variant_id == vid);
            }
        }
    }
}

/// A whole run of groups keeps the invariant.
pub proof fn lemma_apply_groups_wf(s: StoreView, pid: int, gs: Seq<GroupView>)
    requires
        s.wf(),
        has_product(s.products, pid),
    ensures
        apply_groups(s, pid, gs).wf(),
    decreases gs.len(),
{
    if gs.len() > 0 {
        let m = apply_groups(s, pid, gs.drop_last());
        lemma_apply_groups_wf(s, pid, gs.drop_last());
        lemma_apply_groups_frame(s, pid, gs.drop_last());
        lemma_apply_group_wf(m, pid, gs.last());
    }
}

/// The whole creation path keeps the invariant.
pub proof fn lemma_create_model_wf(s: StoreView, np: NewProductView, gs: Seq<GroupView>)
    requires
        s.wf(),
    ensures
        create_model(s, np, gs).wf(),
{
    lemma_insert_product_wf(s, np);
    lemma_apply_groups_wf(insert_product(s, np), s.product_ctr + 1, gs);
}

/// Filtering keeps every surviving row a row of the input sequence, in the
/// same relative order of any strictly increasing key.
pub proof fn lemma_filter_keeps_order<A>(s: Seq<A>, key: spec_fn(A) -> int, pred: spec_fn(A) -> bool)
    requires
        forall|i: int, j: int| #![trigger s[i], s[j]] 0 <= i < j < s.len() ==> key(s[i]) < key(s[j]),
    ensures
        s.filter(pred).len() <= s.len(),
        forall|i: int| #![trigger s.filter(pred)[i]]
            0 <= i < s.filter(pred).len() ==> s.contains(s.filter(pred)[i]),
        forall|i: int, j: int| #![trigger s.filter(pred)[i], s.filter(pred)[j]]
            0 <= i < j < s.filter(pred).len() ==> key(s.filter(pred)[i]) < key(s.filter(pred)[j]),
    decreases s.len(),
{
    reveal(Seq::filter);
    let out = s.filter(pred);
    if s.len() > 0 {
        let dl = s.drop_last();
        lemma_filter_keeps_order(dl, key, pred);
        let sub = dl.filter(pred);
        assert(forall|i: int| #![trigger dl[i]] 0 <= i < dl.len() ==> dl[i] == s[i]);
        assert forall|i: int| 0 <= i < out.len() implies s.contains(out[i]) by {
            if i < sub.len() {
                let j = choose|j: int| 0 <= j < dl.len() && dl[j] == sub[i];
                assert(s[j] == out[i]);
            } else {
                assert(out[i] == s[s.len() - 1]);
            }
        }
        assert forall|i: int, j: int| 0 <= i < j < out.len() implies key(out[i]) < key(out[j]) by {
            if j < sub.len() {
            } else if pred(s.last()) {
                assert(out[j] == s[s.len() - 1]);
                let k = choose|k: int| 0 <= k < dl.len() && dl[k] == sub[i];
                assert(s[k] == out[i]);
                assert(key(s[k]) < key(s[s.len() - 1]));
            }
        }
    }
}

/// A filter whose test every element passes keeps the sequence whole.
pub proof fn lemma_filter_all<A>(s: Seq<A>, pred: spec_fn(A) -> bool)
    requires
        forall|i: int| 0 <= i < s.len() ==> pred(#[trigger] s[i]),
    ensures
        s.filter(pred) == s,
    decreases s.len(),
{
    reveal(Seq::filter);
    if s.len() > 0 {
        assert(forall|i: int| 0 <= i < s.drop_last().len() ==> s.drop_last()[i] == #[trigger] s[i]);
        lemma_filter_all(s.drop_last(), pred);
        assert(s.filter(pred) =~= s);
    }
}

/// A filter whose test no element passes leaves nothing.
pub proof fn lemma_filter_none<A>(s: Seq<A>, pred: spec_fn(A) -> bool)
    requires
        forall|i: int| 0 <= i < s.len() ==> !pred(#[trigger] s[i]),
    ensures
        s.filter(pred) == Seq::<A>::empty(),
    decreases s.len(),
{
    reveal(Seq::filter);
    if s.len() == 0 {
        assert(s.filter(pred) =~= Seq::<A>::empty());
    } else {
        assert(forall|i: int| 0 <= i < s.drop_last().len() ==> s.drop_last()[i] == #[trigger] s[i]);
        lemma_filter_none(s.drop_last(), pred);
    }
}

/// One change entry keeps the invariant.
pub proof fn lemma_apply_entry_wf(s: StoreView, e: EntryView)
    requires
        s.wf(),
    ensures
        apply_entry(s, e) matches Ok(t) ==> t.wf(),
{
    if apply_entry(s, e) is Ok {
        let t = apply_entry(s, e)->Ok_0;
        let r = resolve_entry_variant(s, e);
        let s1 = r->Ok_0.0;
        let vid = r->Ok_0.1;
        assert(s1.wf() && has_variant(s1.variants, vid) && s1.products == s.products
            && s1.assocs == s.assocs && s1.assoc_ctr == s.assoc_ctr) by {
            match e.variant_id {
                Some(_) => {},
                None => {
                    let name = e.variant_name->0;
                    if has_variant_named(s.variants, name) {
                        let i = variant_named_idx(s.variants, name);
                        assert(has_variant(s.variants, vid));
                    } else {
                        assert(s1.variants[s.variants.len() as int].id == s.variant_ctr + 1);
                        assert(has_variant(s1.variants, vid));
                        assert(variant_names_unique(s1.variants)) by {
                            assert(forall|i: int| #![trigger s.variants[i]]
                                0 <= i < s.variants.len() ==> s.variants[i].name != name);
                        }
                        assert forall|i: int| 0 <= i < s.assocs.len() implies has_variant(
                            s1.variants,
                            (#[trigger] s.assocs[i]).variant_id,
                        ) by {
                            let j = variant_idx(s.variants, s.assocs[i].variant_id);
                            assert(s1.variants[j] == s.variants[j]);
                        }
                    }
                },
            }
        }
        match e.assoc_id {
            Some(aid) => {
                let na = set_assoc(s1.assocs, aid, vid, e.value);
                assert(forall|i: int| #![trigger na[i]]
                    0 <= i < na.len() ==> na[i].id == s1.assocs[i].id && na[i].product_id
                        == s1.assocs[i].product_id);
                assert forall|i: int| 0 <= i < na.len() implies has_product(
                    t.products,
                    (#[trigger] na[i]).product_id,
                ) && has_variant(t.variants, na[i].variant_id) by {
                    assert(has_product(s1.products, s1.assocs[i].product_id));
                    if na[i].variant_id != vid {
                        assert(na[i] == s1.assocs[i]);
                        assert(has_variant(s1.variants, s1.assocs[i].variant_id));
                    }
                }
            },
            None => {
                assert(t.assocs[s1.assocs.len() as int].id == s1.assoc_ctr + 1);
                assert(forall|i: int| #![trigger t.assocs[i]]
                    0 <= i < s1.assocs.len() ==> t.assocs[i] == s1.assocs[i]);
            },
        }
    }
}

/// A whole run of change entries keeps the invariant.
pub proof fn lemma_apply_entries_wf(s: StoreView, es: Seq<EntryView>)
    requires
        s.wf(),
    ensures
        apply_entries(s, es) matches Ok(t) ==> t.wf(),
    decreases es.len(),
{
    if es.len() > 0 {
        lemma_apply_entries_wf(s, es.drop_last());
        if apply_entries(s, es.drop_last()) is Ok {
            lemma_apply_entry_wf(apply_entries(s, es.drop_last())->Ok_0, es.last());
        }
    }
}

/// Running one more entry continues from the state the previous ones
/// reached.
pub proof fn lemma_apply_entries_step(s: StoreView, es: Seq<EntryView>, k: int, m: StoreView)
    requires
        0 <= k < es.len(),
        apply_entries(s, es.take(k)) == Ok::<StoreView, StoreError>(m),
    ensures
        apply_entries(s, es.take(k + 1)) == apply_entry(m, es[k]),
{
    assert(es.take(k + 1).drop_last() =~= es.take(k));
    assert(es.take(k + 1).last() == es[k]);
}

/// Once a prefix fails, the whole run fails the same way: nothing after the
/// first failure counts.
pub proof fn lemma_apply_entries_prefix_stops(s: StoreView, es: Seq<EntryView>, k: int)
    requires
        0 <= k <= es.len(),
        apply_entries(s, es.take(k)) is Err,
    ensures
        apply_entries(s, es) == apply_entries(s, es.take(k)),
    decreases es.len() - k,
{
    if k == es.len() {
        assert(es.take(k) =~= es);
    } else {
        assert(es.take(k + 1).drop_last() =~= es.take(k));
        assert(apply_entries(s, es.take(k + 1)) == apply_entries(s, es.take(k)));
        lemma_apply_entries_prefix_stops(s, es, k + 1);
    }
}

/// Overwriting the product row's fields keeps the invariant: ids do not
/// move, so ordering and every reference survive.
pub proof fn lemma_replace_product_wf(s: StoreView, id: int, np: NewProductView)
    requires
        s.wf(),
    ensures
        (StoreView { products: replace_product(s.products, id, np), ..s }).wf(),
        (has_product(replace_product(s.products, id, np), id) == has_product(s.products, id)),
{
    let rp = replace_product(s.products, id, np);
    assert(forall|i: int| #![trigger rp[i]] 0 <= i < rp.len() ==> rp[i].id == s.products[i].id);
    assert forall|i: int| 0 <= i < s.assocs.len() implies has_product(
        rp,
        (#[trigger] s.assocs[i]).product_id,
    ) by {
        let j = product_idx(s.products, s.assocs[i].product_id);
        assert(rp[j].id == s.products[j].id);
    }
    if has_product(s.products, id) {
        let j = product_idx(s.products, id);
        assert(rp[j].id == id);
    }
    if has_product(rp, id) {
        let j = product_idx(rp, id);
        assert(s.products[j].id == id);
    }
}

/// The whole update path keeps the invariant.
pub proof fn lemma_update_model_wf(s: StoreView, id: int, np: NewProductView, es: Seq<EntryView>)
    requires
        s.wf(),
    ensures
        update_model(s, id, np, es) matches Ok(t) ==> t.wf(),
{
    if has_product(s.products, id) {
        lemma_replace_product_wf(s, id, np);
        lemma_apply_entries_wf(
            StoreView { products: replace_product(s.products, id, np), ..s },
            es,
        );
    }
}

/// The whole deletion path keeps the invariant: surviving associations
/// point at surviving products, untouched variants, and ids stay ordered.
pub proof fn lemma_delete_model_wf(s: StoreView, id: int)
    requires
        s.wf(),
    ensures
        delete_model(s, id).wf(),
        !has_product(delete_model(s, id).products, id),
{
    let t = delete_model(s, id);
    lemma_filter_keeps_order(s.products, |p: ProductView| p.id, |p: ProductView| p.id != id);
    lemma_filter_keeps_order(s.assocs, |a: AssocView| a.id, |a: AssocView| a.product_id != id);
    assert(products_ordered(t.products, t.product_ctr)) by {
        assert forall|i: int| 0 <= i < t.products.len() implies 1 <= (
        #[trigger] t.products[i]).id && t.products[i].id <= t.product_ctr by {
            let j = choose|j: int| 0 <= j < s.products.len() && s.products[j] == t.products[i];
        }
    }
    assert(assocs_ordered(t.assocs, t.assoc_ctr)) by {
        assert forall|i: int| 0 <= i < t.assocs.len() implies 1 <= (#[trigger] t.assocs[i]).id
            && t.assocs[i].id <= t.assoc_ctr by {
            let j = choose|j: int| 0 <= j < s.assocs.len() && s.assocs[j] == t.assocs[i];
        }
    }
    assert(assocs_reference(t.assocs, t.products, t.variants)) by {
        assert forall|i: int| 0 <= i < t.assocs.len() implies has_product(
            t.products,
            (#[trigger] t.assocs[i]).product_id,
        ) && has_variant(t.variants, t.assocs[i].variant_id) by {
            Seq::lemma_filter_pred(s.assocs, |a: AssocView| a.product_id != id, i);
            let j = choose|j: int| 0 <= j < s.assocs.len() && s.assocs[j] == t.assocs[i];
            assert(s.assocs[j] == t.assocs[i]);
            assert(has_variant(s.variants, s.assocs[j].variant_id));
            let pj = product_idx(s.products, s.assocs[j].product_id);
            Seq::lemma_filter_contains(s.products, |p: ProductView| p.id != id, pj);
            let pk = choose|pk: int|
                0 <= pk < t.products.len() && t.products[pk] == s.products[pj];
            assert(t.products[pk].id == t.assocs[i].product_id);
        }
    }
    assert forall|i: int| 0 <= i < t.products.len() implies (#[trigger] t.products[i]).id
        != id by {
        Seq::lemma_filter_pred(s.products, |p: ProductView| p.id != id, i);
    }
}

} // verus!
