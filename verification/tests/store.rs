use shoe_store::models::{
    FormProduct, FormProductVariant, FormProductVariantComplete, FormVariant, NewCompleteProduct,
    NewProduct, NewVariant, NewVariantValue, Product, ProductVariant, StoreError, Variant,
};
use shoe_store::store::Store;

fn sizes_group() -> Vec<NewVariantValue> {
    vec![NewVariantValue {
        variant: NewVariant {
            name: "size".to_string(),
        },
        values: vec![
            Some(12.to_string()),
            Some(14.to_string()),
            Some(16.to_string()),
            Some(18.to_string()),
        ],
    }]
}

fn complete(name: &str, cost: u64, variants: Vec<NewVariantValue>) -> NewCompleteProduct {
    NewCompleteProduct {
        product: NewProduct {
            name: name.to_string(),
            cost,
            active: true,
        },
        variants,
    }
}

fn size_rows(start_id: i32, for_product_id: i32) -> Vec<(ProductVariant, Variant)> {
    ["12", "14", "16", "18"]
        .iter()
        .enumerate()
        .map(|(k, v)| {
            (
                ProductVariant {
                    id: start_id + 1 + k as i32,
                    product_id: for_product_id,
                    variant_id: 1,
                    value: Some(v.to_string()),
                },
                Variant {
                    id: 1,
                    name: "size".to_string(),
                },
            )
        })
        .collect()
}

#[test]
fn dal_create_product_test() {
    let mut store = Store::new();
    store
        .create_product(complete("boots", 1323, sizes_group()))
        .unwrap();
    store
        .create_product(complete("high heels", 2099, sizes_group()))
        .unwrap();
    store
        .create_product(complete("running shoes", 1099, sizes_group()))
        .unwrap();

    assert_eq!(
        store.list_products(None).unwrap(),
        vec![
            (
                Product {
                    id: 1,
                    name: "boots".to_string(),
                    cost: 1323,
                    active: true
                },
                size_rows(0, 1)
            ),
            (
                Product {
                    id: 2,
                    name: "high heels".to_string(),
                    cost: 2099,
                    active: true
                },
                size_rows(4, 2)
            ),
            (
                Product {
                    id: 3,
                    name: "running shoes".to_string(),
                    cost: 1099,
                    active: true
                },
                size_rows(8, 3)
            )
        ]
    );
}

#[test]
fn dal_show_product_test() {
    let mut store = Store::new();
    let product_id = store
        .create_product(complete("boots", 1323, sizes_group()))
        .unwrap();
    assert_eq!(
        store.show_product(product_id).unwrap(),
        (
            Product {
                id: 1,
                name: "boots".to_string(),
                cost: 1323,
                active: true
            },
            size_rows(0, 1)
        )
    );
}

#[test]
fn dal_search_products_test() {
    let mut store = Store::new();
    let one_size = vec![NewVariantValue {
        variant: NewVariant {
            name: "size".to_string(),
        },
        values: vec![Some(12.to_string())],
    }];
    store
        .create_product(complete("boots", 1323, one_size.clone()))
        .unwrap();
    store
        .create_product(complete("high heels", 2099, one_size.clone()))
        .unwrap();
    store
        .create_product(complete("running shoes", 1099, one_size.clone()))
        .unwrap();

    assert_eq!(
        store.search_products("shoes".to_string()).unwrap(),
        vec![(
            Product {
                id: 3,
                name: "running shoes".to_string(),
                cost: 1099,
                active: true
            },
            vec![(
                ProductVariant {
                    id: 3,
                    product_id: 3,
                    variant_id: 1,
                    value: Some("12".to_string()),
                },
                Variant {
                    id: 1,
                    name: "size".to_string(),
                }
            )]
        )]
    );
}

#[test]
fn list_products_limit_test() {
    let mut store = Store::new();
    for name in [
        "Boots",
        "High Heels",
        "Running Shoes",
        "Tennis Shoes",
        "Hiking Boots",
        "Flip Flops",
    ] {
        store
            .create_product(complete(name, 1000, sizes_group()))
            .unwrap();
    }
    let all = store.list_products(None).unwrap();
    assert_eq!(all.len(), 6);
    let capped = store.list_products(Some(5)).unwrap();
    assert_eq!(capped.len(), 5);
    assert_eq!(capped[..], all[..5]);
    let over = store.list_products(Some(100)).unwrap();
    assert_eq!(over, all);
    let none = store.list_products(Some(0)).unwrap();
    assert_eq!(none.len(), 0);
}

#[test]
fn variant_reused_across_products_test() {
    let mut store = Store::new();
    let first = store
        .create_product(complete("boots", 1323, sizes_group()))
        .unwrap();
    let second = store
        .create_product(complete("sandals", 900, sizes_group()))
        .unwrap();
    let (_, first_rows) = store.show_product(first).unwrap();
    let (_, second_rows) = store.show_product(second).unwrap();
    // Both products share the one "size" variant row.
    for (assoc, variant) in first_rows.iter().chain(second_rows.iter()) {
        assert_eq!(assoc.variant_id, 1);
        assert_eq!(
            variant,
            &Variant {
                id: 1,
                name: "size".to_string()
            }
        );
    }
    // Association ids keep counting up instead of restarting per product.
    assert_eq!(
        second_rows.iter().map(|r| r.0.id).collect::<Vec<i32>>(),
        vec![5, 6, 7, 8]
    );
}

#[test]
fn empty_values_are_kept_test() {
    let mut store = Store::new();
    let id = store
        .create_product(complete(
            "boots",
            1323,
            vec![NewVariantValue {
                variant: NewVariant {
                    name: "size".to_string(),
                },
                values: vec![None, Some("12".to_string()), None],
            }],
        ))
        .unwrap();
    let (_, rows) = store.show_product(id).unwrap();
    assert_eq!(
        rows.iter()
            .map(|r| r.0.value.clone())
            .collect::<Vec<Option<String>>>(),
        vec![None, Some("12".to_string()), None]
    );
}

#[test]
fn product_without_variants_test() {
    let mut store = Store::new();
    let id = store.create_product(complete("boots", 1323, vec![])).unwrap();
    let (product, rows) = store.show_product(id).unwrap();
    assert_eq!(product.id, 1);
    assert_eq!(rows, vec![]);
    let listed = store.list_products(None).unwrap();
    assert_eq!(listed.len(), 1);
    assert_eq!(listed[0].1, vec![]);
}

#[test]
fn show_product_not_found_test() {
    let store = Store::new();
    assert_eq!(store.show_product(1), Err(StoreError::NotFound));
}

#[test]
fn delete_product_not_found_test() {
    let mut store = Store::new();
    assert_eq!(store.delete_product(7), Err(StoreError::NotFound));
}

#[test]
fn delete_product_removes_from_list_test() {
    let mut store = Store::new();
    let first = store
        .create_product(complete("boots", 1323, sizes_group()))
        .unwrap();
    let second = store
        .create_product(complete("sandals", 900, sizes_group()))
        .unwrap();
    store.delete_product(first).unwrap();
    assert_eq!(store.show_product(first), Err(StoreError::NotFound));
    let listed = store.list_products(None).unwrap();
    assert_eq!(listed.len(), 1);
    assert_eq!(listed[0].0.id, second);
    // The survivor keeps its own associations.
    assert_eq!(listed[0].1, size_rows(4, 2));
}

#[test]
fn update_product_not_found_test() {
    let mut store = Store::new();
    let result = store.update_product(
        9,
        FormProduct {
            product: NewProduct {
                name: "x".to_string(),
                cost: 1,
                active: true,
            },
            variants: vec![],
        },
    );
    assert_eq!(result, Err(StoreError::NotFound));
}

#[test]
fn update_rolls_back_on_bad_variant_id_test() {
    let mut store = Store::new();
    let id = store
        .create_product(complete("boots", 1323, sizes_group()))
        .unwrap();
    let before = store.show_product(id).unwrap();
    let result = store.update_product(
        id,
        FormProduct {
            product: NewProduct {
                name: "renamed".to_string(),
                cost: 1,
                active: false,
            },
            variants: vec![FormProductVariantComplete {
                variant: None,
                product_variant: FormProductVariant {
                    id: None,
                    product_id: id,
                    variant_id: Some(999),
                    value: Some("12".to_string()),
                },
            }],
        },
    );
    assert_eq!(result, Err(StoreError::ConstraintViolation));
    // Nothing of the failed update survives, not even the field overwrite.
    assert_eq!(store.show_product(id).unwrap(), before);
}

#[test]
fn update_entry_without_variant_reference_test() {
    let mut store = Store::new();
    let id = store
        .create_product(complete("boots", 1323, sizes_group()))
        .unwrap();
    let result = store.update_product(
        id,
        FormProduct {
            product: NewProduct {
                name: "boots".to_string(),
                cost: 1323,
                active: true,
            },
            variants: vec![FormProductVariantComplete {
                variant: None,
                product_variant: FormProductVariant {
                    id: None,
                    product_id: id,
                    variant_id: None,
                    value: Some("12".to_string()),
                },
            }],
        },
    );
    assert_eq!(result, Err(StoreError::ConstraintViolation));
}

#[test]
fn update_missing_association_test() {
    let mut store = Store::new();
    let id = store
        .create_product(complete("boots", 1323, sizes_group()))
        .unwrap();
    let result = store.update_product(
        id,
        FormProduct {
            product: NewProduct {
                name: "boots".to_string(),
                cost: 1323,
                active: true,
            },
            variants: vec![FormProductVariantComplete {
                variant: None,
                product_variant: FormProductVariant {
                    id: Some(999),
                    product_id: id,
                    variant_id: Some(1),
                    value: Some("12".to_string()),
                },
            }],
        },
    );
    assert_eq!(result, Err(StoreError::NotFound));
}

#[test]
fn update_new_association_for_missing_product_test() {
    let mut store = Store::new();
    let id = store
        .create_product(complete("boots", 1323, sizes_group()))
        .unwrap();
    let result = store.update_product(
        id,
        FormProduct {
            product: NewProduct {
                name: "boots".to_string(),
                cost: 1323,
                active: true,
            },
            variants: vec![FormProductVariantComplete {
                variant: None,
                product_variant: FormProductVariant {
                    id: None,
                    product_id: 42,
                    variant_id: Some(1),
                    value: Some("12".to_string()),
                },
            }],
        },
    );
    assert_eq!(result, Err(StoreError::ConstraintViolation));
}

#[test]
fn update_reuses_existing_variant_by_name_test() {
    let mut store = Store::new();
    let id = store
        .create_product(complete("boots", 1323, sizes_group()))
        .unwrap();
    // The descriptor names "size", which already exists: no new variant row.
    store
        .update_product(
            id,
            FormProduct {
                product: NewProduct {
                    name: "boots".to_string(),
                    cost: 1323,
                    active: true,
                },
                variants: vec![FormProductVariantComplete {
                    variant: Some(FormVariant {
                        id: None,
                        name: "size".to_string(),
                    }),
                    product_variant: FormProductVariant {
                        id: None,
                        product_id: id,
                        variant_id: None,
                        value: Some("20".to_string()),
                    },
                }],
            },
        )
        .unwrap();
    let (_, rows) = store.show_product(id).unwrap();
    assert_eq!(rows.len(), 5);
    assert_eq!(
        rows[4],
        (
            ProductVariant {
                id: 5,
                product_id: 1,
                variant_id: 1,
                value: Some("20".to_string()),
            },
            Variant {
                id: 1,
                name: "size".to_string(),
            }
        )
    );
}

#[test]
fn search_no_match_test() {
    let mut store = Store::new();
    store
        .create_product(complete("boots", 1323, sizes_group()))
        .unwrap();
    assert_eq!(store.search_products("heels".to_string()).unwrap(), vec![]);
}

#[test]
fn search_is_case_sensitive_test() {
    let mut store = Store::new();
    store
        .create_product(complete("running shoes", 1099, sizes_group()))
        .unwrap();
    assert_eq!(store.search_products("Shoes".to_string()).unwrap(), vec![]);
    assert_eq!(store.search_products("shoes".to_string()).unwrap().len(), 1);
}

#[test]
fn search_empty_pattern_matches_all_test() {
    let mut store = Store::new();
    store
        .create_product(complete("boots", 1323, sizes_group()))
        .unwrap();
    store
        .create_product(complete("sandals", 900, sizes_group()))
        .unwrap();
    assert_eq!(store.search_products("".to_string()).unwrap().len(), 2);
}
