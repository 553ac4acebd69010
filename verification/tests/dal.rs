use shoe_store::models::{
    FormProduct, FormProductVariant, FormProductVariantComplete, FormVariant, NewCompleteProduct,
    NewProduct, NewVariant, NewVariantValue, Product, ProductVariant, Variant,
};
use shoe_store::store::Store;

#[test]
fn create_product_test() {
    let mut store = Store::new();
    let variant = NewVariant {
        name: "size".to_string(),
    };
    let variant_values = vec![
        Some(12.to_string()),
        Some(14.to_string()),
        Some(16.to_string()),
        Some(18.to_string()),
    ];
    let variants = vec![NewVariantValue {
        variant: variant.clone(),
        values: variant_values.clone(),
    }];

    store
        .create_product(NewCompleteProduct {
            product: NewProduct {
                name: "boots".to_string(),
                cost: 1323,
                active: true,
            },
            variants: variants.clone(),
        })
        .unwrap();
    store
        .create_product(NewCompleteProduct {
            product: NewProduct {
                name: "high heels".to_string(),
                cost: 2099,
                active: true,
            },
            variants: variants.clone(),
        })
        .unwrap();
    store
        .create_product(NewCompleteProduct {
            product: NewProduct {
                name: "running shoes".to_string(),
                cost: 1099,
                active: true,
            },
            variants: variants.clone(),
        })
        .unwrap();

    let variants_result = |start_id: i32, for_product_id: i32| {
        vec![
            (
                ProductVariant {
                    id: start_id + 1,
                    product_id: for_product_id,
                    variant_id: 1,
                    value: Some("12".to_string()),
                },
                Variant {
                    id: 1,
                    name: variant.name.to_string(),
                },
            ),
            (
                ProductVariant {
                    id: start_id + 2,
                    product_id: for_product_id,
                    variant_id: 1,
                    value: Some("14".to_string()),
                },
                Variant {
                    id: 1,
                    name: variant.name.to_string(),
                },
            ),
            (
                ProductVariant {
                    id: start_id + 3,
                    product_id: for_product_id,
                    variant_id: 1,
                    value: Some("16".to_string()),
                },
                Variant {
                    id: 1,
                    name: variant.name.to_string(),
                },
            ),
            (
                ProductVariant {
                    id: start_id + 4,
                    product_id: for_product_id,
                    variant_id: 1,
                    value: Some("18".to_string()),
                },
                Variant {
                    id: 1,
                    name: variant.name.to_string(),
                },
            ),
        ]
    };

    assert_eq!(
        store.list_products(None).unwrap(),
        vec![
            (
                Product {
                    id: 1,
                    name: "boots".to_string(),
                    cost: 1323,
                    active: true
                },
                variants_result(0 * variant_values.len() as i32, 1)
            ),
            (
                Product {
                    id: 2,
                    name: "high heels".to_string(),
                    cost: 2099,
                    active: true
                },
                variants_result(1 * variant_values.len() as i32, 2)
            ),
            (
                Product {
                    id: 3,
                    name: "running shoes".to_string(),
                    cost: 1099,
                    active: true
                },
                variants_result(2 * variant_values.len() as i32, 3)
            )
        ]
    );
}

#[test]
fn show_product_test() {
    let mut store = Store::new();
    let product_id = store
        .create_product(NewCompleteProduct {
            product: NewProduct {
                name: "boots".to_string(),
                cost: 1323,
                active: true,
            },
            variants: vec![NewVariantValue {
                variant: NewVariant {
                    name: "size".to_string(),
                },
                values: vec![
                    Some(12.to_string()),
                    Some(14.to_string()),
                    Some(16.to_string()),
                    Some(18.to_string()),
                ],
            }],
        })
        .unwrap();

    assert_eq!(
        store.show_product(product_id).unwrap(),
        (
            Product {
                id: 1,
                name: "boots".to_string(),
                cost: 1323,
                active: true
            },
            vec![
                (
                    ProductVariant {
                        id: 1,
                        product_id: 1,
                        variant_id: 1,
                        value: Some("12".to_string()),
                    },
                    Variant {
                        id: 1,
                        name: "size".to_string()
                    }
                ),
                (
                    ProductVariant {
                        id: 2,
                        product_id: 1,
                        variant_id: 1,
                        value: Some("14".to_string()),
                    },
                    Variant {
                        id: 1,
                        name: "size".to_string()
                    }
                ),
                (
                    ProductVariant {
                        id: 3,
                        product_id: 1,
                        variant_id: 1,
                        value: Some("16".to_string()),
                    },
                    Variant {
                        id: 1,
                        name: "size".to_string()
                    }
                ),
                (
                    ProductVariant {
                        id: 4,
                        product_id: 1,
                        variant_id: 1,
                        value: Some("18".to_string()),
                    },
                    Variant {
                        id: 1,
                        name: "size".to_string()
                    }
                )
            ]
        )
    );
}

#[test]
fn search_products_test() {
    let mut store = Store::new();
    let variants = vec![NewVariantValue {
        variant: NewVariant {
            name: "size".to_string(),
        },
        values: vec![Some(12.to_string())],
    }];

    store
        .create_product(NewCompleteProduct {
            product: NewProduct {
                name: "boots".to_string(),
                cost: 1323,
                active: true,
            },
            variants: variants.clone(),
        })
        .unwrap();
    store
        .create_product(NewCompleteProduct {
            product: NewProduct {
                name: "high heels".to_string(),
                cost: 2099,
                active: true,
            },
            variants: variants.clone(),
        })
        .unwrap();
    store
        .create_product(NewCompleteProduct {
            product: NewProduct {
                name: "running shoes".to_string(),
                cost: 1099,
                active: true,
            },
            variants: variants.clone(),
        })
        .unwrap();

    assert_eq!(
        store.search_products("shoes".to_string()).unwrap(),
        vec![(
            Product {
                id: 3,
                name: "running shoes".to_string(),
                cost: 1099,
                active: true
            },
            vec![(
                ProductVariant {
                    id: 3,
                    product_id: 3,
                    variant_id: 1,
                    value: Some("12".to_string()),
                },
                Variant {
                    id: 1,
                    name: "size".to_string(),
                }
            )]
        )]
    );
}

#[test]
fn update_product_test() {
    let mut store = Store::new();
    let created_product_id = store
        .create_product(NewCompleteProduct {
            product: NewProduct {
                name: "boots".to_string(),
                cost: 1323,
                active: true,
            },
            variants: vec![NewVariantValue {
                variant: NewVariant {
                    name: "size".to_string(),
                },
                values: vec![
                    Some(12.to_string()),
                    Some(14.to_string()),
                    Some(16.to_string()),
                    Some(18.to_string()),
                ],
            }],
        })
        .unwrap();

    let (_, current_product_variants) = store.show_product(created_product_id).unwrap();
    let product_variant = &current_product_variants[0].0;

    store
        .update_product(
            created_product_id,
            FormProduct {
                product: NewProduct {
                    name: "high heels".to_string(),
                    cost: 1425,
                    active: false,
                },
                variants: vec![
                    FormProductVariantComplete {
                        variant: Some(FormVariant {
                            id: None,
                            name: "color".to_string(),
                        }),
                        product_variant: FormProductVariant {
                            id: None,
                            product_id: created_product_id,
                            variant_id: None,
                            value: Some("Blue".to_string()),
                        },
                    },
                    FormProductVariantComplete {
                        variant: None,
                        product_variant: FormProductVariant {
                            id: Some(product_variant.id),
                            product_id: created_product_id,
                            variant_id: Some(product_variant.variant_id),
                            value: Some(50.to_string()),
                        },
                    },
                ],
            },
        )
        .unwrap();

    assert_eq!(
        store.show_product(created_product_id).unwrap(),
        (
            Product {
                id: 1,
                name: "high heels".to_string(),
                cost: 1425,
                active: false
            },
            vec![
                (
                    ProductVariant {
                        id: 1,
                        product_id: 1,
                        variant_id: 1,
                        value: Some("50".to_string()),
                    },
                    Variant {
                        id: 1,
                        name: "size".to_string(),
                    }
                ),
                (
                    ProductVariant {
                        id: 2,
                        product_id: 1,
                        variant_id: 1,
                        value: Some("14".to_string()),
                    },
                    Variant {
                        id: 1,
                        name: "size".to_string(),
                    }
                ),
                (
                    ProductVariant {
                        id: 3,
                        product_id: 1,
                        variant_id: 1,
                        value: Some("16".to_string()),
                    },
                    Variant {
                        id: 1,
                        name: "size".to_string(),
                    }
                ),
                (
                    ProductVariant {
                        id: 4,
                        product_id: 1,
                        variant_id: 1,
                        value: Some("18".to_string()),
                    },
                    Variant {
                        id: 1,
                        name: "size".to_string(),
                    }
                ),
                (
                    ProductVariant {
                        id: 5,
                        product_id: 1,
                        variant_id: 2,
                        value: Some("Blue".to_string()),
                    },
                    Variant {
                        id: 2,
                        name: "color".to_string(),
                    }
                )
            ]
        )
    );
}

#[test]
#[should_panic(expected = "NotFound")]
fn delete_product_test() {
    let mut store = Store::new();
    let created_product_id = store
        .create_product(NewCompleteProduct {
            product: NewProduct {
                name: "boots".to_string(),
                cost: 1323,
                active: true,
            },
            variants: vec![NewVariantValue {
                variant: NewVariant {
                    name: "size".to_string(),
                },
                values: vec![
                    Some(12.to_string()),
                    Some(14.to_string()),
                    Some(16.to_string()),
                    Some(18.to_string()),
                ],
            }],
        })
        .unwrap();

    store.delete_product(created_product_id).unwrap();
    store.show_product(created_product_id).unwrap();
}
