//! The executable store: three in-memory relations behind one handle.
//!
//! Every operation promises that the new state equals the corresponding
//! transition of `model` applied to the old state, so the model's laws hold
//! of the running store. Operations that can fail leave the state exactly as
//! it was.

use vstd::prelude::*;

use crate::model::{
    append_values, apply_entries, apply_entry, apply_group, apply_groups, assoc_block,
    create_model, create_pre, delete_model, has_assoc, has_product, has_variant,
    has_variant_named, insert_product, joined_for, lemma_apply_entries_prefix_stops,
    lemma_apply_entries_step, lemma_apply_entry_wf, lemma_apply_groups_frame,
    lemma_apply_groups_wf, lemma_assoc_of_at, lemma_create_model_wf, lemma_delete_model_wf,
    lemma_insert_product_wf, lemma_product_of_at, lemma_replace_product_wf,
    lemma_total_values_succ, lemma_total_values_take_le, lemma_update_model_wf,
    lemma_variant_named_at, lemma_variant_of_at, limit_view, limited, matching_products,
    product_of, replace_product, resolve_entry_variant, resolve_variant, set_assoc, total_values,
    update_model, update_pre, variant_of, StoreView,
};
use crate::models::{
    entries_view, groups_view, opt_str_view, AssocView, FormProduct, NewCompleteProduct,
    NewProduct, Product, ProductVariant, ProductView, StoreError, Variant, VariantView,
};
use crate::text::str_contains;

verus! {

/// The catalog store: products, variants and their associations, plus the
/// three id counters. All access goes through the operations below.
pub struct Store {
    products: Vec<Product>,
    variants: Vec<Variant>,
    assocs: Vec<ProductVariant>,
    product_ctr: i32,
    variant_ctr: i32,
    assoc_ctr: i32,
}

/// The view of a joined result row.
pub open spec fn pair_view(pr: (ProductVariant, Variant)) -> (AssocView, VariantView) {
    (pr.0@, pr.1@)
}

/// The view of a joined result sequence.
pub open spec fn pairs_view(v: Seq<(ProductVariant, Variant)>) -> Seq<(AssocView, VariantView)> {
    v.map_values(|pr: (ProductVariant, Variant)| pair_view(pr))
}

/// The state a fresh store starts in: nothing stored, no id handed out.
pub open spec fn empty_store() -> StoreView {
    StoreView {
        products: Seq::empty(),
        variants: Seq::empty(),
        assocs: Seq::empty(),
        product_ctr: 0,
        variant_ctr: 0,
        assoc_ctr: 0,
    }
}

impl View for Store {
    type V = StoreView;

    closed spec fn view(&self) -> StoreView {
        StoreView {
            products: self.products@.map_values(|p: Product| p@),
            variants: self.variants@.map_values(|v: Variant| v@),
            assocs: self.assocs@.map_values(|a: ProductVariant| a@),
            product_ctr: self.product_ctr as int,
            variant_ctr: self.variant_ctr as int,
            assoc_ctr: self.assoc_ctr as int,
        }
    }
}

fn clone_opt_string(o: &Option<String>) -> (r: Option<String>)
    ensures
        r == *o,
{
    match o {
        Some(s) => Some(s.clone()),
        None => None,
    }
}

fn clone_product(p: &Product) -> (r: Product)
    ensures
        r == *p,
{
    Product { id: p.id, name: p.name.clone(), cost: p.cost, active: p.active }
}

fn clone_variant(v: &Variant) -> (r: Variant)
    ensures
        r == *v,
{
    Variant { id: v.id, name: v.name.clone() }
}

fn clone_assoc(a: &ProductVariant) -> (r: ProductVariant)
    ensures
        r == *a,
{
    ProductVariant {
        id: a.id,
        product_id: a.product_id,
        variant_id: a.variant_id,
        value: clone_opt_string(&a.value),
    }
}

fn clone_products(v: &Vec<Product>) -> (r: Vec<Product>)
    ensures
        r@ == v@,
{
    let mut r: Vec<Product> = Vec::new();
    let mut i: usize = 0;
    while i < v.len()
        invariant
            i <= v@.len(),
            r@ == v@.take(i as int),
        decreases v@.len() - i,
    {
        r.push(clone_product(&v[i]));
        proof {
            assert(r@ =~= v@.take(i as int + 1));
        }
        i = i + 1;
    }
    proof {
        assert(v@.take(v@.len() as int) =~= v@);
    }
    r
}

fn clone_variants(v: &Vec<Variant>) -> (r: Vec<Variant>)
    ensures
        r@ == v@,
{
    let mut r: Vec<Variant> = Vec::new();
    let mut i: usize = 0;
    while i < v.len()
        invariant
            i <= v@.len(),
            r@ == v@.take(i as int),
        decreases v@.len() - i,
    {
        r.push(clone_variant(&v[i]));
        proof {
            assert(r@ =~= v@.take(i as int + 1));
        }
        i = i + 1;
    }
    proof {
        assert(v@.take(v@.len() as int) =~= v@);
    }
    r
}

fn clone_assocs(v: &Vec<ProductVariant>) -> (r: Vec<ProductVariant>)
    ensures
        r@ == v@,
{
    let mut r: Vec<ProductVariant> = Vec::new();
    let mut i: usize = 0;
    while i < v.len()
        invariant
            i <= v@.len(),
            r@ == v@.take(i as int),
        decreases v@.len() - i,
    {
        r.push(clone_assoc(&v[i]));
        proof {
            assert(r@ =~= v@.take(i as int + 1));
        }
        i = i + 1;
    }
    proof {
        assert(v@.take(v@.len() as int) =~= v@);
    }
    r
}

impl Store {
    /// The store invariant, stated over the view.
    pub open spec fn wf(&self) -> bool {
        self@.wf()
    }

    /// An empty store.
    pub fn new() -> (s: Store)
        ensures
            s.wf(),
            s@ == empty_store(),
    {
        let s = Store {
            products: Vec::new(),
            variants: Vec::new(),
            assocs: Vec::new(),
            product_ctr: 0,
            variant_ctr: 0,
            assoc_ctr: 0,
        };
        proof {
            assert(s@.products =~= empty_store().products);
            assert(s@.variants =~= empty_store().variants);
            assert(s@.assocs =~= empty_store().assocs);
        }
        s
    }

    /// The position of the product row with this id, scanning in insertion
    /// order.
    fn find_product_pos(&self, id: i32) -> (r: Option<usize>)
        ensures
            match r {
                Some(i) => i < self.products@.len() && self@.products[i as int].id == id as int
                    && (forall|k: int| #![trigger self@.products[k]]
                    0 <= k < i ==> self@.products[k].id != id as int),
                None => !has_product(self@.products, id as int),
            },
    {
        let mut i: usize = 0;
        while i < self.products.len()
            invariant
                i <= self.products@.len(),
                forall|k: int| #![trigger self@.products[k]]
                    0 <= k < i ==> self@.products[k].id != id as int,
            decreases self.products@.len() - i,
        {
            if self.products[i].id == id {
                return Some(i);
            }
            i = i + 1;
        }
        None
    }

    /// The position of the association row with this id.
    fn find_assoc_pos(&self, id: i32) -> (r: Option<usize>)
        ensures
            match r {
                Some(i) => i < self.assocs@.len() && self@.assocs[i as int].id == id as int && (
                forall|k: int| #![trigger self@.assocs[k]]
                    0 <= k < i ==> self@.assocs[k].id != id as int),
                None => !has_assoc(self@.assocs, id as int),
            },
    {
        let mut i: usize = 0;
        while i < self.assocs.len()
            invariant
                i <= self.assocs@.len(),
                forall|k: int| #![trigger self@.assocs[k]]
                    0 <= k < i ==> self@.assocs[k].id != id as int,
            decreases self.assocs@.len() - i,
        {
            if self.assocs[i].id == id {
                return Some(i);
            }
            i = i + 1;
        }
        None
    }

    /// Whether some variant row carries this id.
    fn variant_exists(&self, id: i32) -> (r: bool)
        ensures
            r == has_variant(self@.variants, id as int),
    {
        let mut i: usize = 0;
        while i < self.variants.len()
            invariant
                i <= self.variants@.len(),
                forall|k: int| #![trigger self@.variants[k]]
                    0 <= k < i ==> self@.variants[k].id != id as int,
            decreases self.variants@.len() - i,
        {
            if self.variants[i].id == id {
                proof {
                    assert(self@.variants[i as int].id == id as int);
                }
                return true;
            }
            i = i + 1;
        }
        false
    }

    /// The variant row with this id, which must exist.
    fn variant_row(&self, id: i32) -> (v: Variant)
        requires
            self.wf(),
            has_variant(self@.variants, id as int),
        ensures
            v@ == variant_of(self@.variants, id as int),
    {
        let mut i: usize = 0;
        while i < self.variants.len()
            invariant
                self.wf(),
                i <= self.variants@.len(),
                forall|k: int| #![trigger self@.variants[k]]
                    0 <= k < i ==> self@.variants[k].id != id as int,
            decreases self.variants@.len() - i,
        {
            if self.variants[i].id == id {
                proof {
                    lemma_variant_of_at(self@.variants, self@.variant_ctr, id as int, i as int);
                }
                return clone_variant(&self.variants[i]);
            }
            i = i + 1;
        }
        // Never reached: a full scan contradicts `has_variant`.
        proof {
            assert(false);
        }
        Variant { id, name: String::new() }
    }

    /// Find the variant with this name, creating it with the next generated
    /// id when the name is new; the registry's find-or-create step.
    fn resolve_or_create(&mut self, name: &String) -> (vid: i32)
        requires
            old(self).wf(),
            old(self)@.variant_ctr + 1 <= i32::MAX,
        ensures
            final(self)@ == resolve_variant(old(self)@, name@).0,
            vid as int == resolve_variant(old(self)@, name@).1,
    {
        let ghost s0 = self@;
        let mut i: usize = 0;
        while i < self.variants.len()
            invariant
                self@ == s0,
                s0.wf(),
                i <= self.variants@.len(),
                forall|k: int| #![trigger self@.variants[k]]
                    0 <= k < i ==> self@.variants[k].name != name@,
            decreases self.variants@.len() - i,
        {
            if self.variants[i].name == *name {
                proof {
                    lemma_variant_named_at(s0.variants, name@, i as int);
                }
                return self.variants[i].id;
            }
            i = i + 1;
        }
        proof {
            assert(forall|k: int|
                0 <= k < s0.variants.len() ==> (#[trigger] s0.variants[k]).name != name@);
            assert(!has_variant_named(s0.variants, name@));
        }
        let vid = self.variant_ctr + 1;
        self.variant_ctr = vid;
        self.variants.push(Variant { id: vid, name: name.clone() });
        proof {
            assert(self@.variants =~= s0.variants.push(
                VariantView { id: s0.variant_ctr + 1, name: name@ },
            ));
            assert(self@ == resolve_variant(s0, name@).0);
        }
        vid
    }

    /// Insert one product row with its variant groups: resolve or create
    /// each group's variant, then append one association row per value, all
    /// in input order. Returns the new product's id.
    pub fn create_product(&mut self, new_product: NewCompleteProduct) -> (r: Result<
        i32,
        StoreError,
    >)
        requires
            old(self).wf(),
            create_pre(old(self)@, groups_view(new_product.variants@)),
        ensures
            final(self)@ == create_model(
                old(self)@,
                new_product.product@,
                groups_view(new_product.variants@),
            ),
            final(self).wf(),
            r == Ok::<i32, StoreError>(((old(self)@.product_ctr + 1) as i32)),
    {
        let ghost s0 = self@;
        let ghost gvs = groups_view(new_product.variants@);
        let ghost npv = new_product.product@;
        let NewCompleteProduct { product, variants } = new_product;
        let NewProduct { name, cost, active } = product;
        let pid = self.product_ctr + 1;
        self.product_ctr = pid;
        self.products.push(Product { id: pid, name, cost, active });
        let ghost s1 = self@;
        proof {
            assert(s1.products =~= s0.products.push(
                ProductView {
                    id: s0.product_ctr + 1,
                    name: npv.name,
                    cost: npv.cost,
                    active: npv.active,
                },
            ));
            assert(s1 == insert_product(s0, npv));
            lemma_insert_product_wf(s0, npv);
        }
        let mut g: usize = 0;
        while g < variants.len()
            invariant
                gvs == groups_view(variants@),
                g <= variants@.len(),
                gvs.len() == variants@.len(),
                s1 == insert_product(s0, npv),
                s1.wf(),
                has_product(s1.products, s0.product_ctr + 1),
                pid as int == s0.product_ctr + 1,
                create_pre(s0, gvs),
                s1.variant_ctr == s0.variant_ctr,
                s1.assoc_ctr == s0.assoc_ctr,
                self@ == apply_groups(s1, pid as int, gvs.take(g as int)),
            decreases variants@.len() - g,
        {
            let ghost m = self@;
            proof {
                lemma_apply_groups_wf(s1, pid as int, gvs.take(g as int));
                lemma_apply_groups_frame(s1, pid as int, gvs.take(g as int));
                lemma_total_values_succ(gvs, g as int);
                lemma_total_values_take_le(gvs, g as int + 1);
            }
            let group = &variants[g];
            let ghost gv = gvs[g as int];
            proof {
                assert(gv == variants@[g as int]@);
            }
            let vid = self.resolve_or_create(&group.variant.name);
            let ghost m2 = self@;
            let ghost vals = gv.values;
            proof {
                assert(m2 == resolve_variant(m, gv.name).0);
                assert(vid as int == resolve_variant(m, gv.name).1);
                assert(m2.assocs == m.assocs && m2.assoc_ctr == m.assoc_ctr && m2.products
                    == m.products && m2.product_ctr == m.product_ctr);
                assert(m.assoc_ctr == s0.assoc_ctr + total_values(gvs.take(g as int)));
                assert(vals == group.values@.map_values(|v: Option<String>| opt_str_view(v)));
            }
            let mut j: usize = 0;
            while j < group.values.len()
                invariant
                    group.values@.len() == vals.len(),
                    vals == group.values@.map_values(|v: Option<String>| opt_str_view(v)),
                    j <= vals.len(),
                    pid as int == s0.product_ctr + 1,
                    self@.assocs == m2.assocs + assoc_block(
                        m2.assoc_ctr,
                        pid as int,
                        vid as int,
                        vals.take(j as int),
                    ),
                    self@.assoc_ctr == m2.assoc_ctr + j,
                    m2.assoc_ctr + vals.len() <= i32::MAX,
                    self@.products == m2.products,
                    self@.variants == m2.variants,
                    self@.product_ctr == m2.product_ctr,
                    self@.variant_ctr == m2.variant_ctr,
                decreases vals.len() - j,
            {
                proof {
                    assert(self@.assocs.len() == m2.assocs.len() + j);
                }
                let value = clone_opt_string(&group.values[j]);
                let aid = self.assoc_ctr + 1;
                self.assoc_ctr = aid;
                self.assocs.push(
                    ProductVariant { id: aid, product_id: pid, variant_id: vid, value },
                );
                proof {
                    assert(vals.take(j as int + 1) =~= vals.take(j as int).push(vals[j as int]));
                    assert(value == group.values@[j as int]);
                    assert(opt_str_view(value) == vals[j as int]);
                    assert(self@.assocs.len() == m2.assocs.len() + j + 1);
                    assert(self@.assocs[m2.assocs.len() + j as int] == AssocView {
                        id: m2.assoc_ctr + j + 1,
                        product_id: pid as int,
                        variant_id: vid as int,
                        value: vals[j as int],
                    });
                    let ghost rhs = m2.assocs + assoc_block(
                        m2.assoc_ctr,
                        pid as int,
                        vid as int,
                        vals.take(j as int + 1),
                    );
                    let ghost prev = m2.assocs + assoc_block(
                        m2.assoc_ctr,
                        pid as int,
                        vid as int,
                        vals.take(j as int),
                    );
                    assert forall|t: int| 0 <= t < m2.assocs.len() + j + 1 implies self@.assocs[t]
                        == rhs[t] by {
                        if t < m2.assocs.len() + j {
                            assert(self@.assocs[t] == prev[t]);
                        }
                    }
                    assert(self@.assocs =~= rhs);
                }
                j = j + 1;
            }
            proof {
                assert(vals.take(vals.len() as int) =~= vals);
                assert(self@ == append_values(m2, pid as int, vid as int, vals));
                assert(self@ == apply_group(m, pid as int, gv));
                assert(gvs.take(g as int + 1).drop_last() =~= gvs.take(g as int));
                assert(gvs.take(g as int + 1).last() == gv);
                assert(self@ == apply_groups(s1, pid as int, gvs.take(g as int + 1)));
            }
            g = g + 1;
        }
        proof {
            assert(gvs.take(gvs.len() as int) =~= gvs);
            assert(self@ == create_model(s0, npv, gvs));
            lemma_create_model_wf(s0, npv, gvs);
        }
        Ok(pid)
    }

    /// The association rows of one product joined with their variants, in
    /// insertion order.
    fn associations_of(&self, pid: i32) -> (out: Vec<(ProductVariant, Variant)>)
        requires
            self.wf(),
        ensures
            pairs_view(out@) == joined_for(self@, pid as int),
    {
        broadcast use vstd::seq::Seq::lemma_filter_push;
        broadcast use vstd::seq::Seq::lemma_push_map_commute;

        let ghost pred = |a: AssocView| a.product_id == pid as int;
        let ghost joiner = |a: AssocView| (a, variant_of(self@.variants, a.variant_id));
        let mut out: Vec<(ProductVariant, Variant)> = Vec::new();
        let mut i: usize = 0;
        proof {
            assert(self@.assocs.take(0).filter(pred) =~= Seq::<AssocView>::empty()) by {
                vstd::seq::Seq::lemma_filter_len(self@.assocs.take(0), pred);
            }
            assert(pairs_view(out@) =~= self@.assocs.take(0).filter(pred).map_values(joiner));
        }
        while i < self.assocs.len()
            invariant
                self.wf(),
                i <= self.assocs@.len(),
                pairs_view(out@) == self@.assocs.take(i as int).filter(pred).map_values(joiner),
                pred == (|a: AssocView| a.product_id == pid as int),
                joiner == (|a: AssocView| (a, variant_of(self@.variants, a.variant_id))),
            decreases self.assocs@.len() - i,
        {
            let ghost prefix = self@.assocs.take(i as int);
            let ghost x = self@.assocs[i as int];
            proof {
                assert(self@.assocs.take(i as int + 1) =~= prefix.push(x));
                prefix.lemma_filter_push(x, pred);
            }
            let ghost f1 = prefix.filter(pred);
            if self.assocs[i].product_id == pid {
                proof {
                    assert(has_variant(self@.variants, self@.assocs[i as int].variant_id));
                }
                let v = self.variant_row(self.assocs[i].variant_id);
                let a = clone_assoc(&self.assocs[i]);
                let ghost old_out = out@;
                out.push((a, v));
                proof {
                    assert(self@.assocs.take(i as int + 1).filter(pred) == f1.push(x));
                    assert(pairs_view(old_out).len() == old_out.len());
                    assert(f1.map_values(joiner).len() == f1.len());
                    assert(old_out.len() == f1.len());
                    assert(pairs_view(out@).len() == out@.len());
                    assert forall|t: int| 0 <= t < out@.len() implies pairs_view(out@)[t]
                        == f1.push(x).map_values(joiner)[t] by {
                        assert(pairs_view(out@)[t] == pair_view(out@[t]));
                        assert(f1.push(x).map_values(joiner)[t] == joiner(f1.push(x)[t]));
                        if t < old_out.len() {
                            assert(out@[t] == old_out[t]);
                            assert(f1.push(x)[t] == f1[t]);
                            assert(pairs_view(old_out)[t] == pair_view(old_out[t]));
                            assert(f1.map_values(joiner)[t] == joiner(f1[t]));
                            assert(pairs_view(old_out)[t] == f1.map_values(joiner)[t]);
                        } else {
                            assert(out@[t] == (a, v));
                            assert(f1.push(x)[t] == x);
                            assert(a@ == x);
                            assert(v@ == variant_of(self@.variants, x.variant_id));
                        }
                    }
                    assert(pairs_view(out@) =~= f1.push(x).map_values(joiner));
                    assert(pairs_view(out@) == self@.assocs.take(i as int + 1).filter(
                        pred,
                    ).map_values(joiner));
                }
            } else {
                proof {
                    assert(self@.assocs.take(i as int + 1).filter(pred) == f1);
                    assert(pairs_view(out@) == self@.assocs.take(i as int + 1).filter(
                        pred,
                    ).map_values(joiner));
                }
            }
            i = i + 1;
        }
        proof {
            assert(self@.assocs.take(self@.assocs.len() as int) =~= self@.assocs);
        }
        out
    }

    /// One product by id, with its associations joined with their variants,
    /// in insertion order; `NotFound` when no product carries the id.
    pub fn show_product(&self, id: i32) -> (r: Result<
        (Product, Vec<(ProductVariant, Variant)>),
        StoreError,
    >)
        requires
            self.wf(),
        ensures
            match r {
                Ok(pair) => has_product(self@.products, id as int) && pair.0@ == product_of(
                    self@.products,
                    id as int,
                ) && pairs_view(pair.1@) == joined_for(self@, id as int),
                Err(e) => e == StoreError::NotFound && !has_product(self@.products, id as int),
            },
    {
        match self.find_product_pos(id) {
            Some(i) => {
                proof {
                    lemma_product_of_at(self@.products, self@.product_ctr, id as int, i as int);
                }
                let product = clone_product(&self.products[i]);
                let pairs = self.associations_of(id);
                Ok((product, pairs))
            },
            None => Err(StoreError::NotFound),
        }
    }

    /// All products in insertion order, optionally capped, each with its
    /// associations joined with their variants.
    pub fn list_products(&self, limit: Option<u16>) -> (r: Result<
        Vec<(Product, Vec<(ProductVariant, Variant)>)>,
        StoreError,
    >)
        requires
            self.wf(),
        ensures
            ({
                let sel = limited(self@.products, limit_view(limit));
                match r {
                    Ok(rows) => rows@.len() == sel.len() && (forall|i: int|
                        0 <= i < sel.len() ==> (#[trigger] rows@[i]).0@ == sel[i] && pairs_view(
                            rows@[i].1@,
                        ) == joined_for(self@, sel[i].id)),
                    Err(_) => false,
                }
            }),
    {
        let ghost sel = limited(self@.products, limit_view(limit));
        let n: usize = match limit {
            Some(l) => {
                let l = l as usize;
                if l < self.products.len() {
                    l
                } else {
                    self.products.len()
                }
            },
            None => self.products.len(),
        };
        proof {
            assert(n == sel.len());
            assert(forall|i: int| 0 <= i < n ==> #[trigger] sel[i] == self@.products[i]);
        }
        let mut rows: Vec<(Product, Vec<(ProductVariant, Variant)>)> = Vec::new();
        let mut i: usize = 0;
        while i < n
            invariant
                self.wf(),
                i <= n,
                n <= self.products@.len(),
                rows@.len() == i,
                forall|t: int|
                    0 <= t < i ==> (#[trigger] rows@[t]).0@ == self@.products[t] && pairs_view(
                        rows@[t].1@,
                    ) == joined_for(self@, self@.products[t].id),
            decreases n - i,
        {
            let product = clone_product(&self.products[i]);
            let pid = product.id;
            let pairs = self.associations_of(pid);
            rows.push((product, pairs));
            i = i + 1;
        }
        Ok(rows)
    }

    /// The products whose name contains the pattern, in insertion order,
    /// each with its associations joined with their variants.
    pub fn search_products(&self, search: String) -> (r: Result<
        Vec<(Product, Vec<(ProductVariant, Variant)>)>,
        StoreError,
    >)
        requires
            self.wf(),
        ensures
            ({
                let sel = matching_products(self@.products, search@);
                match r {
                    Ok(rows) => rows@.len() == sel.len() && (forall|i: int|
                        0 <= i < sel.len() ==> (#[trigger] rows@[i]).0@ == sel[i] && pairs_view(
                            rows@[i].1@,
                        ) == joined_for(self@, sel[i].id)),
                    Err(_) => false,
                }
            }),
    {
        broadcast use vstd::seq::Seq::lemma_filter_push;

        let ghost pred = |p: ProductView| crate::text::contains_substr(p.name, search@);
        let mut rows: Vec<(Product, Vec<(ProductVariant, Variant)>)> = Vec::new();
        let mut i: usize = 0;
        proof {
            assert(self@.products.take(0).filter(pred) =~= Seq::<ProductView>::empty()) by {
                vstd::seq::Seq::lemma_filter_len(self@.products.take(0), pred);
            }
        }
        while i < self.products.len()
            invariant
                self.wf(),
                i <= self.products@.len(),
                pred == (|p: ProductView| crate::text::contains_substr(p.name, search@)),
                ({
                    let m = self@.products.take(i as int).filter(pred);
                    rows@.len() == m.len() && (forall|t: int|
                        0 <= t < m.len() ==> (#[trigger] rows@[t]).0@ == m[t] && pairs_view(
                            rows@[t].1@,
                        ) == joined_for(self@, m[t].id))
                }),
            decreases self.products@.len() - i,
        {
            let ghost prefix = self@.products.take(i as int);
            let ghost x = self@.products[i as int];
            let ghost f1 = prefix.filter(pred);
            proof {
                assert(self@.products.take(i as int + 1) =~= prefix.push(x));
                prefix.lemma_filter_push(x, pred);
            }
            if str_contains(self.products[i].name.as_str(), search.as_str()) {
                let product = clone_product(&self.products[i]);
                let pid = product.id;
                let pairs = self.associations_of(pid);
                let ghost old_rows = rows@;
                rows.push((product, pairs));
                proof {
                    assert(self@.products.take(i as int + 1).filter(pred) == f1.push(x));
                    assert(rows@.len() == f1.push(x).len());
                    assert forall|t: int| 0 <= t < f1.push(x).len() implies (
                    #[trigger] rows@[t]).0@ == f1.push(x)[t] && pairs_view(rows@[t].1@)
                        == joined_for(self@, f1.push(x)[t].id) by {
                        if t < f1.len() {
                            assert(rows@[t] == old_rows[t]);
                            assert(f1.push(x)[t] == f1[t]);
                        } else {
                            assert(rows@[t] == (product, pairs));
                            assert(f1.push(x)[t] == x);
                            assert(product@ == x);
                        }
                    }
                }
            } else {
                proof {
                    assert(self@.products.take(i as int + 1).filter(pred) == f1);
                }
            }
            i = i + 1;
        }
        proof {
            assert(self@.products.take(self@.products.len() as int) =~= self@.products);
        }
        Ok(rows)
    }

    /// Remove one product and all its association rows; `NotFound` when no
    /// product carries the id. Variants and counters stay, so ids are never
    /// reused.
    pub fn delete_product(&mut self, id: i32) -> (r: Result<(), StoreError>)
        requires
            old(self).wf(),
        ensures
            match r {
                Ok(_) => has_product(old(self)@.products, id as int) && final(self)@
                    == delete_model(old(self)@, id as int) && final(self).wf(),
                Err(e) => e == StoreError::NotFound && !has_product(
                    old(self)@.products,
                    id as int,
                ) && final(self)@ == old(self)@,
            },
    {
        broadcast use vstd::seq::Seq::lemma_filter_push;
        broadcast use vstd::seq::Seq::lemma_filter_len;

        let ghost s0 = self@;
        if let None = self.find_product_pos(id) {
            return Err(StoreError::NotFound);
        }
        let ghost ppred = |p: ProductView| p.id != id as int;
        let ghost apred = |a: AssocView| a.product_id != id as int;
        let ghost pview = |p: Product| p@;
        let ghost aview = |a: ProductVariant| a@;
        let mut kept_products: Vec<Product> = Vec::new();
        let mut i: usize = 0;
        proof {
            assert(s0.products.take(0).filter(ppred) =~= Seq::<ProductView>::empty());
            assert(kept_products@.map_values(pview) =~= s0.products.take(0).filter(ppred));
        }
        while i < self.products.len()
            invariant
                self@ == s0,
                i <= self.products@.len(),
                ppred == (|p: ProductView| p.id != id as int),
                pview == (|p: Product| p@),
                kept_products@.map_values(pview) == s0.products.take(i as int).filter(ppred),
            decreases self.products@.len() - i,
        {
            let ghost prefix = s0.products.take(i as int);
            let ghost x = s0.products[i as int];
            let ghost f1 = prefix.filter(ppred);
            proof {
                assert(s0.products.take(i as int + 1) =~= prefix.push(x));
                prefix.lemma_filter_push(x, ppred);
                assert(kept_products@.map_values(pview).len() == kept_products@.len());
            }
            if self.products[i].id != id {
                let ghost old_kept = kept_products@;
                kept_products.push(clone_product(&self.products[i]));
                proof {
                    assert(s0.products.take(i as int + 1).filter(ppred) == f1.push(x));
                    assert forall|t: int| 0 <= t < kept_products@.len() implies kept_products@
                        .map_values(pview)[t] == f1.push(x)[t] by {
                        assert(kept_products@.map_values(pview)[t] == pview(kept_products@[t]));
                        if t < old_kept.len() {
                            assert(kept_products@[t] == old_kept[t]);
                            assert(f1.push(x)[t] == f1[t]);
                            assert(old_kept.map_values(pview)[t] == pview(old_kept[t]));
                        } else {
                            assert(f1.push(x)[t] == x);
                        }
                    }
                    assert(kept_products@.map_values(pview) =~= f1.push(x));
                }
            } else {
                proof {
                    assert(s0.products.take(i as int + 1).filter(ppred) == f1);
                }
            }
            i = i + 1;
        }
        let mut kept_assocs: Vec<ProductVariant> = Vec::new();
        let mut j: usize = 0;
        proof {
            assert(s0.assocs.take(0).filter(apred) =~= Seq::<AssocView>::empty());
            assert(kept_assocs@.map_values(aview) =~= s0.assocs.take(0).filter(apred));
        }
        while j < self.assocs.len()
            invariant
                self@ == s0,
                j <= self.assocs@.len(),
                apred == (|a: AssocView| a.product_id != id as int),
                aview == (|a: ProductVariant| a@),
                kept_assocs@.map_values(aview) == s0.assocs.take(j as int).filter(apred),
            decreases self.assocs@.len() - j,
        {
            let ghost prefix = s0.assocs.take(j as int);
            let ghost x = s0.assocs[j as int];
            let ghost f1 = prefix.filter(apred);
            proof {
                assert(s0.assocs.take(j as int + 1) =~= prefix.push(x));
                prefix.lemma_filter_push(x, apred);
                assert(kept_assocs@.map_values(aview).len() == kept_assocs@.len());
            }
            if self.assocs[j].product_id != id {
                let ghost old_kept = kept_assocs@;
                kept_assocs.push(clone_assoc(&self.assocs[j]));
                proof {
                    assert(s0.assocs.take(j as int + 1).filter(apred) == f1.push(x));
                    assert forall|t: int| 0 <= t < kept_assocs@.len() implies kept_assocs@
                        .map_values(aview)[t] == f1.push(x)[t] by {
                        assert(kept_assocs@.map_values(aview)[t] == aview(kept_assocs@[t]));
                        if t < old_kept.len() {
                            assert(kept_assocs@[t] == old_kept[t]);
                            assert(f1.push(x)[t] == f1[t]);
                            assert(old_kept.map_values(aview)[t] == aview(old_kept[t]));
                        } else {
                            assert(f1.push(x)[t] == x);
                        }
                    }
                    assert(kept_assocs@.map_values(aview) =~= f1.push(x));
                }
            } else {
                proof {
                    assert(s0.assocs.take(j as int + 1).filter(apred) == f1);
                }
            }
            j = j + 1;
        }
        self.products = kept_products;
        self.assocs = kept_assocs;
        proof {
            assert(s0.products.take(s0.products.len() as int) =~= s0.products);
            assert(s0.assocs.take(s0.assocs.len() as int) =~= s0.assocs);
            assert(self@ == delete_model(s0, id as int));
            lemma_delete_model_wf(s0, id as int);
        }
        Ok(())
    }

    /// A deep copy with the same state.
    fn clone_store(&self) -> (r: Store)
        ensures
            r@ == self@,
    {
        Store {
            products: clone_products(&self.products),
            variants: clone_variants(&self.variants),
            assocs: clone_assocs(&self.assocs),
            product_ctr: self.product_ctr,
            variant_ctr: self.variant_ctr,
            assoc_ctr: self.assoc_ctr,
        }
    }

    /// Overwrite one product's fields, then run every change entry in input
    /// order: overwrite the addressed association, or append a new one,
    /// resolving or creating its variant first. One failure rolls the whole
    /// update back. Returns the product id on success.
    pub fn update_product(&mut self, id: i32, form: FormProduct) -> (r: Result<i32, StoreError>)
        requires
            old(self).wf(),
            update_pre(old(self)@, entries_view(form.variants@)),
        ensures
            match update_model(
                old(self)@,
                id as int,
                form.product@,
                entries_view(form.variants@),
            ) {
                Ok(t) => r == Ok::<i32, StoreError>(id) && final(self)@ == t && final(self).wf(),
                Err(e) => r == Err::<i32, StoreError>(e) && final(self)@ == old(self)@,
            },
    {
        let ghost s0 = self@;
        let ghost esv = entries_view(form.variants@);
        let ghost npv = form.product@;
        let pos = match self.find_product_pos(id) {
            Some(p) => p,
            None => {
                return Err(StoreError::NotFound);
            },
        };
        proof {
            lemma_product_of_at(s0.products, s0.product_ctr, id as int, pos as int);
        }
        let mut work = self.clone_store();
        let FormProduct { product, variants: varforms } = form;
        let NewProduct { name, cost, active } = product;
        work.products[pos] = Product { id, name, cost, active };
        proof {
            let rp = replace_product(s0.products, id as int, npv);
            assert forall|t: int| 0 <= t < work@.products.len() implies work@.products[t]
                == rp[t] by {
                if t != pos {
                    if t < pos {
                        assert(s0.products[t].id < s0.products[pos as int].id);
                    } else {
                        assert(s0.products[pos as int].id < s0.products[t].id);
                    }
                }
            }
            assert(work@.products =~= rp);
            assert(work@ == StoreView { products: rp, ..s0 });
            lemma_replace_product_wf(s0, id as int, npv);
        }
        let ghost base = work@;
        proof {
            assert(update_model(s0, id as int, npv, esv) == apply_entries(base, esv));
            assert(apply_entries(base, esv.take(0)) == Ok::<StoreView, StoreError>(base));
        }
        let mut k: usize = 0;
        while k < varforms.len()
            invariant
                esv == entries_view(varforms@),
                k <= varforms@.len(),
                esv.len() == varforms@.len(),
                self@ == s0,
                s0 == old(self)@,
                npv == form.product@,
                esv == entries_view(form.variants@),
                s0.wf(),
                base.wf(),
                base.variant_ctr == s0.variant_ctr,
                base.assoc_ctr == s0.assoc_ctr,
                s0.variant_ctr + esv.len() <= i32::MAX,
                s0.assoc_ctr + esv.len() <= i32::MAX,
                apply_entries(base, esv.take(k as int)) == Ok::<StoreView, StoreError>(work@),
                work@.wf(),
                work@.variant_ctr <= base.variant_ctr + k,
                work@.assoc_ctr <= base.assoc_ctr + k,
                update_model(s0, id as int, npv, esv) == apply_entries(base, esv),
            decreases varforms@.len() - k,
        {
            let entry = &varforms[k];
            let ghost ev = esv[k as int];
            let ghost m = work@;
            proof {
                assert(ev == varforms@[k as int]@);
            }
            let vid: i32;
            match entry.product_variant.variant_id {
                Some(v) => {
                    if !work.variant_exists(v) {
                        proof {
                            assert(apply_entry(m, ev) == Err::<StoreView, StoreError>(
                                StoreError::ConstraintViolation,
                            ));
                            lemma_apply_entries_step(base, esv, k as int, m);
                            lemma_apply_entries_prefix_stops(base, esv, k as int + 1);
                        }
                        return Err(StoreError::ConstraintViolation);
                    }
                    vid = v;
                },
                None => {
                    match &entry.variant {
                        Some(fv) => {
                            vid = work.resolve_or_create(&fv.name);
                            proof {
                                assert(ev.variant_name == Some(fv.name@));
                            }
                        },
                        None => {
                            proof {
                                assert(apply_entry(m, ev) == Err::<StoreView, StoreError>(
                                    StoreError::ConstraintViolation,
                                ));
                                lemma_apply_entries_step(base, esv, k as int, m);
                                lemma_apply_entries_prefix_stops(base, esv, k as int + 1);
                            }
                            return Err(StoreError::ConstraintViolation);
                        },
                    }
                },
            }
            let ghost m1 = work@;
            proof {
                assert(resolve_entry_variant(m, ev) == Ok::<(StoreView, int), StoreError>(
                    (m1, vid as int),
                ));
                assert(m1.assocs == m.assocs && m1.assoc_ctr == m.assoc_ctr && m1.products
                    == m.products && m1.variant_ctr <= m.variant_ctr + 1);
            }
            match entry.product_variant.id {
                Some(aid) => {
                    match work.find_assoc_pos(aid) {
                        Some(p) => {
                            proof {
                                lemma_assoc_of_at(m1.assocs, m1.assoc_ctr, aid as int, p as int);
                            }
                            let value = clone_opt_string(&entry.product_variant.value);
                            let keep_pid = work.assocs[p].product_id;
                            work.assocs[p] = ProductVariant {
                                id: aid,
                                product_id: keep_pid,
                                variant_id: vid,
                                value,
                            };
                            proof {
                                let sa = set_assoc(m1.assocs, aid as int, vid as int, ev.value);
                                assert forall|t: int| 0 <= t < work@.assocs.len() implies work@
                                    .assocs[t] == sa[t] by {
                                    if t != p {
                                        if t < p {
                                            assert(m1.assocs[t].id < m1.assocs[p as int].id);
                                        } else {
                                            assert(m1.assocs[p as int].id < m1.assocs[t].id);
                                        }
                                    }
                                }
                                assert(work@.assocs =~= sa);
                                assert(work@ == StoreView { assocs: sa, ..m1 });
                                assert(apply_entry(m, ev) == Ok::<StoreView, StoreError>(work@));
                            }
                        },
                        None => {
                            proof {
                                assert(apply_entry(m, ev) == Err::<StoreView, StoreError>(
                                    StoreError::NotFound,
                                ));
                                lemma_apply_entries_step(base, esv, k as int, m);
                                lemma_apply_entries_prefix_stops(base, esv, k as int + 1);
                            }
                            return Err(StoreError::NotFound);
                        },
                    }
                },
                None => {
                    match work.find_product_pos(entry.product_variant.product_id) {
                        Some(q) => {
                            proof {
                                assert(m1.products[q as int].id == ev.product_id);
                                assert(has_product(m1.products, ev.product_id));
                            }
                            let value = clone_opt_string(&entry.product_variant.value);
                            let aid2 = work.assoc_ctr + 1;
                            work.assoc_ctr = aid2;
                            let ghost mid = work@;
                            work.assocs.push(
                                ProductVariant {
                                    id: aid2,
                                    product_id: entry.product_variant.product_id,
                                    variant_id: vid,
                                    value,
                                },
                            );
                            proof {
                                assert(work@.assocs =~= m1.assocs.push(
                                    AssocView {
                                        id: m1.assoc_ctr + 1,
                                        product_id: ev.product_id,
                                        variant_id: vid as int,
                                        value: ev.value,
                                    },
                                ));
                                assert(apply_entry(m, ev) == Ok::<StoreView, StoreError>(work@));
                            }
                        },
                        None => {
                            proof {
                                assert(apply_entry(m, ev) == Err::<StoreView, StoreError>(
                                    StoreError::ConstraintViolation,
                                ));
                                lemma_apply_entries_step(base, esv, k as int, m);
                                lemma_apply_entries_prefix_stops(base, esv, k as int + 1);
                            }
                            return Err(StoreError::ConstraintViolation);
                        },
                    }
                },
            }
            proof {
                lemma_apply_entries_step(base, esv, k as int, m);
                assert(apply_entries(base, esv.take(k as int + 1)) == Ok::<
                    StoreView,
                    StoreError,
                >(work@));
                lemma_apply_entry_wf(m, ev);
            }
            k = k + 1;
        }
        proof {
            assert(esv.take(esv.len() as int) =~= esv);
            assert(update_model(s0, id as int, npv, esv) == Ok::<StoreView, StoreError>(work@));
            lemma_update_model_wf(s0, id as int, npv, esv);
        }
        *self = work;
        Ok(id)
    }

    /// Whether a creation request fits the machine limit on generated ids;
    /// `create_product` asks for exactly this.
    pub fn can_create(&self, new_product: &NewCompleteProduct) -> (r: bool)
        requires
            self.wf(),
        ensures
            r == create_pre(self@, groups_view(new_product.variants@)),
    {
        let ghost gvs = groups_view(new_product.variants@);
        if self.product_ctr == i32::MAX {
            return false;
        }
        let headroom_v: usize = (i32::MAX - self.variant_ctr) as usize;
        if new_product.variants.len() > headroom_v {
            return false;
        }
        let headroom_a: usize = (i32::MAX - self.assoc_ctr) as usize;
        let mut total: usize = 0;
        let mut g: usize = 0;
        while g < new_product.variants.len()
            invariant
                gvs == groups_view(new_product.variants@),
                g <= new_product.variants@.len(),
                gvs.len() == new_product.variants@.len(),
                total == total_values(gvs.take(g as int)),
                total <= headroom_a,
                headroom_a == i32::MAX - self@.assoc_ctr,
                self@.assoc_ctr >= 0,
            decreases new_product.variants@.len() - g,
        {
            proof {
                lemma_total_values_succ(gvs, g as int);
            }
            let len = new_product.variants[g].values.len();
            proof {
                assert(gvs[g as int].values.len() == len) by {
                    assert(gvs[g as int] == new_product.variants@[g as int]@);
                }
            }
            if len > headroom_a - total {
                proof {
                    lemma_total_values_take_le(gvs, g as int + 1);
                }
                return false;
            }
            total = total + len;
            g = g + 1;
        }
        proof {
            assert(gvs.take(gvs.len() as int) =~= gvs);
        }
        true
    }

    /// Whether an update request fits the machine limit on generated ids;
    /// `update_product` asks for exactly this.
    pub fn can_update(&self, form: &FormProduct) -> (r: bool)
        requires
            self.wf(),
        ensures
            r == update_pre(self@, entries_view(form.variants@)),
    {
        let headroom_v: usize = (i32::MAX - self.variant_ctr) as usize;
        if form.variants.len() > headroom_v {
            return false;
        }
        let headroom_a: usize = (i32::MAX - self.assoc_ctr) as usize;
        if form.variants.len() > headroom_a {
            return false;
        }
        true
    }
}

} // verus!
