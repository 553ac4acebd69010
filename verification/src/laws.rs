//! The laws of the store, proved once of the model; every operation's
//! contract equates the running store with that model, so they hold of every
//! run.

use vstd::prelude::*;

use crate::model::{
    apply_entries, apply_entry, apply_group, assoc_block, assocs_for, create_model, delete_model,
    has_product, has_variant, has_variant_named, insert_product, joined_for,
    lemma_apply_groups_frame, lemma_apply_groups_wf, lemma_create_model_wf, lemma_delete_model_wf,
    lemma_filter_all, lemma_filter_keeps_order, lemma_filter_none, lemma_insert_product_wf,
    lemma_total_values_succ, lemma_variant_named_at, lemma_variant_of_at, replace_product,
    resolve_entry_variant, resolve_variant, set_assoc, total_values, update_model, variant_named,
    variant_named_idx, variant_of, StoreView,
};
use crate::models::{
    AssocView, CreateView, EntryView, GroupView, NewProductView, ProductView, StoreError,
    VariantView,
};

verus! {

/// Law: an update addressing one association by id keeps every association's
/// id and product, leaves every row but the addressed one exactly as it was,
/// and writes only the addressed row's value (and variant id, when one is
/// supplied); product rows keep their ids and every product but the updated
/// one stays whole.
pub proof fn lemma_update_one_association(
    s: StoreView,
    id: int,
    np: NewProductView,
    e: EntryView,
)
    requires
        s.wf(),
        e.assoc_id is Some,
    ensures
        match update_model(s, id, np, seq![e]) {
            Ok(t) => {
                &&& t.assocs.len() == s.assocs.len()
                &&& forall|i: int| #![trigger t.assocs[i]]
                    0 <= i < s.assocs.len() ==> t.assocs[i].id == s.assocs[i].id
                        && t.assocs[i].product_id == s.assocs[i].product_id
                &&& forall|i: int| #![trigger t.assocs[i]]
                    0 <= i < s.assocs.len() && s.assocs[i].id != e.assoc_id->0 ==> t.assocs[i]
                        == s.assocs[i]
                &&& forall|i: int| #![trigger t.assocs[i]]
                    0 <= i < s.assocs.len() && s.assocs[i].id == e.assoc_id->0 ==> t.assocs[i].value
                        == e.value && (e.variant_id is Some ==> t.assocs[i].variant_id
                        == e.variant_id->0)
                &&& t.products.len() == s.products.len()
                &&& forall|i: int| #![trigger t.products[i]]
                    0 <= i < s.products.len() ==> t.products[i].id == s.products[i].id
                &&& forall|i: int| #![trigger t.products[i]]
                    0 <= i < s.products.len() && s.products[i].id != id ==> t.products[i]
                        == s.products[i]
            },
            Err(_) => true,
        },
{
    let es = seq![e];
    assert(es.drop_last() =~= Seq::<EntryView>::empty());
    assert(es.last() == e);
    if has_product(s.products, id) {
        let base = StoreView { products: replace_product(s.products, id, np), ..s };
        assert(apply_entries(base, es.drop_last()) == Ok::<StoreView, StoreError>(base));
        assert(update_model(s, id, np, es) == apply_entry(base, e));
        if apply_entry(base, e) is Ok {
            let t = apply_entry(base, e)->Ok_0;
            let vid = resolve_entry_variant(base, e)->Ok_0.1;
            let s1 = resolve_entry_variant(base, e)->Ok_0.0;
            assert(s1.assocs == s.assocs);
            assert(t.assocs == set_assoc(s1.assocs, e.assoc_id->0, vid, e.value));
            assert(t.products == base.products);
        }
    }
}

/// One change entry never moves a row: every association present before it
/// keeps its position, id and product.
proof fn lemma_apply_entry_keeps_ids(m: StoreView, e: EntryView)
    ensures
        apply_entry(m, e) matches Ok(t) ==> t.assocs.len() >= m.assocs.len() && t.products
            == m.products && (forall|i: int| #![trigger t.assocs[i]]
            0 <= i < m.assocs.len() ==> t.assocs[i].id == m.assocs[i].id && t.assocs[i].product_id
                == m.assocs[i].product_id),
{
}

/// A whole run of change entries never moves a row.
proof fn lemma_apply_entries_keeps_ids(s: StoreView, es: Seq<EntryView>)
    ensures
        apply_entries(s, es) matches Ok(t) ==> t.assocs.len() >= s.assocs.len() && t.products
            == s.products && (forall|i: int| #![trigger t.assocs[i]]
            0 <= i < s.assocs.len() ==> t.assocs[i].id == s.assocs[i].id && t.assocs[i].product_id
                == s.assocs[i].product_id),
    decreases es.len(),
{
    if es.len() > 0 {
        lemma_apply_entries_keeps_ids(s, es.drop_last());
        if apply_entries(s, es.drop_last()) is Ok {
            lemma_apply_entry_keeps_ids(apply_entries(s, es.drop_last())->Ok_0, es.last());
        }
    }
}

/// Law: no update, whatever its entries, alters an association's id or
/// moves it to another product; rows are only overwritten in place or
/// appended. Product rows likewise keep their ids and count.
pub proof fn lemma_update_keeps_ids(s: StoreView, id: int, np: NewProductView, es: Seq<EntryView>)
    requires
        s.wf(),
    ensures
        update_model(s, id, np, es) matches Ok(t) ==> {
            &&& t.assocs.len() >= s.assocs.len()
            &&& forall|i: int| #![trigger t.assocs[i]]
                0 <= i < s.assocs.len() ==> t.assocs[i].id == s.assocs[i].id
                    && t.assocs[i].product_id == s.assocs[i].product_id
            &&& t.products.len() == s.products.len()
            &&& forall|i: int| #![trigger t.products[i]]
                0 <= i < s.products.len() ==> t.products[i].id == s.products[i].id
        },
{
    if has_product(s.products, id) {
        let base = StoreView { products: replace_product(s.products, id, np), ..s };
        lemma_apply_entries_keeps_ids(base, es);
    }
}

/// Law: an update entry carrying a variant descriptor and no association id
/// appends exactly one association row; when the descriptor's name is new it
/// creates exactly one variant row for it, and when the name already exists
/// it reuses that row's id and creates nothing.
pub proof fn lemma_update_new_variant(s: StoreView, id: int, np: NewProductView, e: EntryView)
    requires
        s.wf(),
        e.assoc_id is None,
        e.variant_id is None,
        e.variant_name is Some,
    ensures
        match update_model(s, id, np, seq![e]) {
            Ok(t) => {
                let name = e.variant_name->0;
                let vid = if has_variant_named(s.variants, name) {
                    variant_named(s.variants, name).id
                } else {
                    s.variant_ctr + 1
                };
                &&& t.assocs == s.assocs.push(
                    AssocView {
                        id: s.assoc_ctr + 1,
                        product_id: e.product_id,
                        variant_id: vid,
                        value: e.value,
                    },
                )
                &&& has_variant_named(s.variants, name) ==> t.variants == s.variants
                &&& !has_variant_named(s.variants, name) ==> t.variants == s.variants.push(
                    VariantView { id: s.variant_ctr + 1, name },
                )
            },
            Err(_) => true,
        },
{
    let es = seq![e];
    assert(es.drop_last() =~= Seq::<EntryView>::empty());
    assert(es.last() == e);
    if has_product(s.products, id) {
        let base = StoreView { products: replace_product(s.products, id, np), ..s };
        assert(apply_entries(base, es.drop_last()) == Ok::<StoreView, StoreError>(base));
        assert(update_model(s, id, np, es) == apply_entry(base, e));
        let name = e.variant_name->0;
        assert(base.variants == s.variants);
        assert(resolve_entry_variant(base, e) == Ok::<(StoreView, int), StoreError>(
            resolve_variant(base, name),
        ));
    }
}

/// Law: after a deletion the product is gone — a lookup of its id fails and
/// no listed row carries it — while every other product survives unchanged,
/// and no association of a surviving product is lost.
pub proof fn lemma_delete_then_gone(s: StoreView, id: int)
    requires
        s.wf(),
    ensures
        ({
            let t = delete_model(s, id);
            &&& t.wf()
            &&& !has_product(t.products, id)
            &&& forall|i: int| #![trigger t.products[i]]
                0 <= i < t.products.len() ==> t.products[i].id != id && s.products.contains(
                    t.products[i],
                )
            &&& forall|i: int| #![trigger s.products[i]]
                0 <= i < s.products.len() && s.products[i].id != id ==> t.products.contains(
                    s.products[i],
                )
            &&& forall|pid: int|
                pid != id && #[trigger] has_product(s.products, pid) ==> joined_for(t, pid)
                    == joined_for(s, pid)
        }),
{
    broadcast use vstd::seq::Seq::lemma_filter_pred;
    broadcast use vstd::seq::Seq::lemma_filter_contains;

    let t = delete_model(s, id);
    let ppred = |p: ProductView| p.id != id;
    let apred = |a: AssocView| a.product_id != id;
    lemma_delete_model_wf(s, id);
    lemma_filter_keeps_order(s.products, |p: ProductView| p.id, ppred);
    assert forall|i: int|
        0 <= i < t.products.len() implies (#[trigger] t.products[i]).id != id
        && s.products.contains(t.products[i]) by {
        assert(ppred(s.products.filter(ppred)[i]));
    }
    assert forall|pid: int| pid != id && #[trigger] has_product(s.products, pid) implies joined_for(
        t,
        pid,
    ) == joined_for(s, pid) by {
        lemma_filter_keeps_order(s.assocs, |a: AssocView| a.id, apred);
        assert(t.assocs == s.assocs.filter(apred));
        lemma_assocs_for_double_filter(s.assocs, id, pid);
        assert(assocs_for(t.assocs, pid) == assocs_for(s.assocs, pid));
        assert(t.variants == s.variants);
        assert(joined_for(t, pid) =~= joined_for(s, pid)) by {
            assert(forall|k: int|
                0 <= k < assocs_for(s.assocs, pid).len() ==> #[trigger] joined_for(s, pid)[k]
                    == (assocs_for(s.assocs, pid)[k], variant_of(
                    s.variants,
                    assocs_for(s.assocs, pid)[k].variant_id,
                )));
            assert(forall|k: int|
                0 <= k < assocs_for(t.assocs, pid).len() ==> #[trigger] joined_for(t, pid)[k]
                    == (assocs_for(t.assocs, pid)[k], variant_of(
                    t.variants,
                    assocs_for(t.assocs, pid)[k].variant_id,
                )));
        }
    }
}

/// The claim of `lemma_create_associations` about one created row: the row
/// for group `g`'s value `k` sits at offset total(gs.take(g)) + k after the
/// old rows, carries exactly that value and a variant named like its group,
/// and reuses the existing variant id when the name already had a row.
pub open spec fn created_row_ok(
    s: StoreView,
    np: NewProductView,
    gs: Seq<GroupView>,
    g: int,
    k: int,
) -> bool {
    let t = create_model(s, np, gs);
    let a = t.assocs[s.assocs.len() + total_values(gs.take(g)) + k];
    &&& s.assocs.len() + total_values(gs.take(g)) + k < t.assocs.len()
    &&& a.value == gs[g].values[k]
    &&& has_variant(t.variants, a.variant_id)
    &&& variant_of(t.variants, a.variant_id).name == gs[g].name
    &&& (has_variant_named(s.variants, gs[g].name) ==> a.variant_id == variant_named(
        s.variants,
        gs[g].name,
    ).id)
}

/// Law: a creation request with groups g of values V(g) appends exactly
/// Σ|V(g)| association rows after the existing ones, with sequential ids
/// from the counter, all pointing at the new product. The row at offset
/// total(gs.take(g)) + k among them carries group g's k-th value, in input
/// order, and a variant whose name is group g's name; a group whose name
/// already had a variant row reuses that row's id.
pub proof fn lemma_create_associations(s: StoreView, np: NewProductView, gs: Seq<GroupView>)
    requires
        s.wf(),
    ensures
        ({
            let t = create_model(s, np, gs);
            let pid = s.product_ctr + 1;
            &&& t.wf()
            &&& t.assocs.len() == s.assocs.len() + total_values(gs)
            &&& t.assocs.take(s.assocs.len() as int) == s.assocs
            &&& forall|n: int| #![trigger t.assocs[n]]
                s.assocs.len() <= n < t.assocs.len() ==> t.assocs[n].id == s.assoc_ctr + 1 + (n
                    - s.assocs.len()) && t.assocs[n].product_id == pid
            &&& forall|g: int, k: int|
                0 <= g < gs.len() && 0 <= k < gs[g].values.len() ==> #[trigger] created_row_ok(
                    s,
                    np,
                    gs,
                    g,
                    k,
                )
        }),
    decreases gs.len(),
{
    let t = create_model(s, np, gs);
    let pid = s.product_ctr + 1;
    let ins = insert_product(s, np);
    lemma_insert_product_wf(s, np);
    lemma_apply_groups_wf(ins, pid, gs);
    lemma_apply_groups_frame(ins, pid, gs);
    if gs.len() == 0 {
    } else {
        let gsp = gs.drop_last();
        let tp = create_model(s, np, gsp);
        lemma_create_associations(s, np, gsp);
        lemma_apply_groups_frame(ins, pid, gsp);
        lemma_apply_groups_wf(ins, pid, gsp);
        let g_last = gs.last();
        assert(t == apply_group(tp, pid, g_last));
        let rv = resolve_variant(tp, g_last.name);
        let m1 = rv.0;
        let vid = rv.1;
        let block = assoc_block(tp.assoc_ctr, pid, vid, g_last.values);
        assert(t.assocs == tp.assocs + block);
        assert(gs.take(gs.len() - 1) =~= gsp);
        assert(total_values(gs) == total_values(gsp) + g_last.values.len());
        assert(tp.assocs.len() == s.assocs.len() + total_values(gsp));
        assert(tp.assoc_ctr == s.assoc_ctr + total_values(gsp));

        // The freshly resolved variant is present in the final registry
        // under the group's name, reusing an existing id when there was one.
        assert(t.variants == m1.variants);
        if has_variant_named(tp.variants, g_last.name) {
            let i = variant_named_idx(tp.variants, g_last.name);
            lemma_variant_named_at(tp.variants, g_last.name, i);
            assert(m1 == tp && vid == tp.variants[i].id);
            lemma_variant_of_at(t.variants, t.variant_ctr, vid, i);
        } else {
            assert(m1.variants == tp.variants.push(
                VariantView { id: tp.variant_ctr + 1, name: g_last.name },
            ));
            assert(vid == tp.variant_ctr + 1);
            lemma_variant_of_at(t.variants, t.variant_ctr, vid, tp.variants.len() as int);
        }
        assert(has_variant(t.variants, vid) && variant_of(t.variants, vid).name == g_last.name);
        if has_variant_named(s.variants, g_last.name) {
            let j = variant_named_idx(s.variants, g_last.name);
            assert(0 <= j < s.variants.len() && s.variants[j].name == g_last.name);
            assert(tp.variants.take(s.variants.len() as int) == s.variants);
            assert(tp.variants[j] == s.variants[j]);
            lemma_variant_named_at(tp.variants, g_last.name, j);
            assert(vid == variant_named(s.variants, g_last.name).id);
        }

        assert forall|n: int|
            s.assocs.len() <= n < t.assocs.len() implies (#[trigger] t.assocs[n]).id == s.assoc_ctr
            + 1 + (n - s.assocs.len()) && t.assocs[n].product_id == pid by {
            if n < tp.assocs.len() {
                assert(t.assocs[n] == tp.assocs[n]);
            } else {
                assert(t.assocs[n] == block[n - tp.assocs.len()]);
            }
        }

        assert forall|g: int, k: int|
            0 <= g < gs.len() && 0 <= k < gs[g].values.len() implies #[trigger] created_row_ok(
            s,
            np,
            gs,
            g,
            k,
        ) by {
            lemma_total_values_succ(gs, g);
            crate::model::lemma_total_values_take_le(gs, g + 1);
            let n = s.assocs.len() + total_values(gs.take(g)) + k;
            if g < gs.len() - 1 {
                assert(gs.take(g) =~= gsp.take(g));
                assert(gs[g] == gsp[g]);
                assert(created_row_ok(s, np, gsp, g, k));
                lemma_total_values_succ(gsp, g);
                crate::model::lemma_total_values_take_le(gsp, g + 1);
                assert(n < tp.assocs.len());
                assert(t.assocs[n] == tp.assocs[n]);
                let a = tp.assocs[n];
                let i = crate::model::variant_idx(tp.variants, a.variant_id);
                assert(0 <= i < tp.variants.len() && tp.variants[i].id == a.variant_id);
                assert(t.variants.take(tp.variants.len() as int) == tp.variants) by {
                    assert(t.variants.take(tp.variants.len() as int) =~= tp.variants);
                }
                assert(t.variants[i] == tp.variants[i]);
                lemma_variant_of_at(t.variants, t.variant_ctr, a.variant_id, i);
                lemma_variant_of_at(tp.variants, tp.variant_ctr, a.variant_id, i);
                assert(variant_of(t.variants, a.variant_id) == variant_of(
                    tp.variants,
                    a.variant_id,
                ));
                assert(created_row_ok(s, np, gs, g, k));
            } else {
                assert(g == gs.len() - 1);
                assert(gs.take(g) =~= gsp);
                assert(n == tp.assocs.len() + k);
                assert(t.assocs[n] == block[k]);
                assert(block[k].variant_id == vid);
                assert(block[k].value == g_last.values[k]);
                assert(gs[g] == g_last);
                assert(created_row_ok(s, np, gs, g, k));
            }
        }
    }
}

/// Law: the join of the freshly created product returns exactly the newly
/// appended association rows, in order — its `show` group is the values as
/// supplied, nothing more and nothing less.
pub proof fn lemma_create_join_is_new_rows(s: StoreView, np: NewProductView, gs: Seq<GroupView>)
    requires
        s.wf(),
    ensures
        ({
            let t = create_model(s, np, gs);
            let pid = s.product_ctr + 1;
            assocs_for(t.assocs, pid) == t.assocs.skip(s.assocs.len() as int)
        }),
{
    let t = create_model(s, np, gs);
    let pid = s.product_ctr + 1;
    lemma_create_associations(s, np, gs);
    let keep = |a: AssocView| a.product_id == pid;
    let tail = t.assocs.skip(s.assocs.len() as int);
    assert forall|i: int| 0 <= i < s.assocs.len() implies !keep(#[trigger] s.assocs[i]) by {
        let j = crate::model::product_idx(s.products, s.assocs[i].product_id);
        assert(s.products[j].id <= s.product_ctr);
    }
    lemma_filter_none(s.assocs, keep);
    assert forall|i: int| 0 <= i < tail.len() implies keep(#[trigger] tail[i]) by {
        assert(tail[i] == t.assocs[s.assocs.len() + i]);
    }
    lemma_filter_all(tail, keep);
    assert(t.assocs =~= s.assocs + tail) by {
        assert(forall|i: int|
            0 <= i < s.assocs.len() ==> #[trigger] t.assocs[i] == t.assocs.take(
                s.assocs.len() as int,
            )[i]);
    }
    vstd::seq::Seq::filter_distributes_over_add(s.assocs, tail, keep);
    assert(assocs_for(t.assocs, pid) == s.assocs.filter(keep) + tail.filter(keep));
    assert(Seq::<AssocView>::empty() + tail =~= tail);
}

/// A whole run of creation requests, applied in order.
pub open spec fn create_many(s: StoreView, reqs: Seq<CreateView>) -> StoreView
    decreases reqs.len(),
{
    if reqs.len() == 0 {
        s
    } else {
        create_model(create_many(s, reqs.drop_last()), reqs.last().product, reqs.last().groups)
    }
}

/// Law: creating one more product disturbs no existing product's join — its
/// association rows and their variants read back exactly as before.
pub proof fn lemma_create_preserves_joined(
    s: StoreView,
    np: NewProductView,
    gs: Seq<GroupView>,
    pid: int,
)
    requires
        s.wf(),
        pid <= s.product_ctr,
    ensures
        joined_for(create_model(s, np, gs), pid) == joined_for(s, pid),
{
    let t = create_model(s, np, gs);
    lemma_create_associations(s, np, gs);
    lemma_apply_groups_frame(insert_product(s, np), s.product_ctr + 1, gs);
    assert(insert_product(s, np).variants == s.variants);
    assert(t.variants.take(s.variants.len() as int) == s.variants);
    assert(t.variants.len() >= s.variants.len());
    let keep = |a: AssocView| a.product_id == pid;
    let tail = t.assocs.skip(s.assocs.len() as int);
    assert forall|i: int| 0 <= i < tail.len() implies !keep(#[trigger] tail[i]) by {
        assert(tail[i] == t.assocs[s.assocs.len() + i]);
    }
    lemma_filter_none(tail, keep);
    assert(t.assocs =~= s.assocs + tail) by {
        assert(forall|i: int|
            0 <= i < s.assocs.len() ==> #[trigger] t.assocs[i] == t.assocs.take(
                s.assocs.len() as int,
            )[i]);
    }
    vstd::seq::Seq::filter_distributes_over_add(s.assocs, tail, keep);
    assert(assocs_for(t.assocs, pid) =~= assocs_for(s.assocs, pid));
    let rows = assocs_for(s.assocs, pid);
    lemma_filter_keeps_order(s.assocs, |x: AssocView| x.id, keep);
    assert(joined_for(t, pid).len() == rows.len());
    assert(joined_for(s, pid).len() == rows.len());
    assert forall|n: int| 0 <= n < rows.len() implies #[trigger] joined_for(t, pid)[n]
        == joined_for(s, pid)[n] by {
        let a = rows[n];
        assert(joined_for(t, pid)[n] == (a, variant_of(t.variants, a.variant_id)));
        assert(joined_for(s, pid)[n] == (a, variant_of(s.variants, a.variant_id)));
        assert(s.assocs.contains(a));
        let j = choose|j: int| 0 <= j < s.assocs.len() && s.assocs[j] == a;
        assert(has_variant(s.variants, a.variant_id));
        let i = crate::model::variant_idx(s.variants, a.variant_id);
        assert(0 <= i < s.variants.len() && s.variants[i].id == a.variant_id);
        assert(t.variants[i] == t.variants.take(s.variants.len() as int)[i]);
        assert(t.variants[i] == s.variants[i]);
        lemma_variant_of_at(t.variants, t.variant_ctr, a.variant_id, i);
        lemma_variant_of_at(s.variants, s.variant_ctr, a.variant_id, i);
    }
    assert(joined_for(t, pid) =~= joined_for(s, pid));
}

/// The claim of `lemma_list_round_trip` about one request: request `i`'s
/// product sits at position i after the old rows, carries the next id in
/// sequence and the requested fields, and its join in the final state reads
/// exactly as it did right after its own creation.
pub open spec fn round_trip_row_ok(s: StoreView, reqs: Seq<CreateView>, i: int) -> bool {
    let t = create_many(s, reqs);
    let p = t.products[s.products.len() + i];
    &&& p.id == s.product_ctr + 1 + i
    &&& p.name == reqs[i].product.name
    &&& p.cost == reqs[i].product.cost
    &&& p.active == reqs[i].product.active
    &&& joined_for(t, p.id) == joined_for(create_many(s, reqs.take(i + 1)), p.id)
}

/// Law: after creating products from requests r(0)..r(j-1) in order, the
/// listing holds the old products unchanged and then one product per
/// request, in request order, with sequential ids and the requested fields;
/// each one's join reads exactly as it did right after its own creation —
/// later creations do not disturb it.
pub proof fn lemma_list_round_trip(s: StoreView, reqs: Seq<CreateView>)
    requires
        s.wf(),
    ensures
        ({
            let t = create_many(s, reqs);
            &&& t.wf()
            &&& t.product_ctr == s.product_ctr + reqs.len()
            &&& t.products.len() == s.products.len() + reqs.len()
            &&& t.products.take(s.products.len() as int) == s.products
            &&& forall|i: int|
                0 <= i < reqs.len() ==> #[trigger] round_trip_row_ok(s, reqs, i)
        }),
    decreases reqs.len(),
{
    if reqs.len() > 0 {
        let rp = reqs.drop_last();
        let tp = create_many(s, rp);
        lemma_list_round_trip(s, rp);
        let t = create_many(s, reqs);
        let last = reqs.last();
        lemma_create_model_wf(tp, last.product, last.groups);
        lemma_insert_product_wf(tp, last.product);
        lemma_apply_groups_frame(insert_product(tp, last.product), tp.product_ctr + 1, last.groups);
        assert(t.products == tp.products.push(
            ProductView {
                id: tp.product_ctr + 1,
                name: last.product.name,
                cost: last.product.cost,
                active: last.product.active,
            },
        ));
        assert(t.products.take(s.products.len() as int) =~= s.products) by {
            assert(forall|i: int|
                0 <= i < s.products.len() ==> #[trigger] t.products[i] == tp.products[i]);
            assert(forall|i: int|
                0 <= i < s.products.len() ==> #[trigger] tp.products[i] == tp.products.take(
                    s.products.len() as int,
                )[i]);
        }
        assert forall|i: int| 0 <= i < reqs.len() implies #[trigger] round_trip_row_ok(
            s,
            reqs,
            i,
        ) by {
            if i < reqs.len() - 1 {
                assert(rp[i] == reqs[i]);
                assert(round_trip_row_ok(s, rp, i));
                let p = tp.products[s.products.len() + i];
                assert(t.products[s.products.len() + i] == p);
                assert(p.id == s.product_ctr + 1 + i);
                assert(p.id <= tp.product_ctr);
                lemma_create_preserves_joined(tp, last.product, last.groups, p.id);
                assert(rp.take(i + 1) =~= reqs.take(i + 1));
            } else {
                assert(reqs.take(i + 1) =~= reqs);
            }
        }
    }
}

/// Dropping one product's rows and then joining for another product reads
/// the same rows as joining directly.
proof fn lemma_assocs_for_double_filter(assocs: Seq<AssocView>, dropped: int, pid: int)
    requires
        pid != dropped,
    ensures
        assocs_for(assocs.filter(|a: AssocView| a.product_id != dropped), pid) == assocs_for(
            assocs,
            pid,
        ),
    decreases assocs.len(),
{
    reveal(Seq::filter);
    let apred = |a: AssocView| a.product_id != dropped;
    let keep = |a: AssocView| a.product_id == pid;
    if assocs.len() == 0 {
        assert(assocs.filter(apred) == assocs);
    } else {
        let dl = assocs.drop_last();
        let x = assocs.last();
        lemma_assocs_for_double_filter(dl, dropped, pid);
        assert(assocs.filter(apred) == if apred(x) {
            dl.filter(apred).push(x)
        } else {
            dl.filter(apred)
        });
        if apred(x) {
            dl.filter(apred).lemma_filter_push(x, keep);
        }
    }
}

} // verus!
