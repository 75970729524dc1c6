//! The mapping store: stability, uniqueness and the shape of generated
//! identifiers.

use id_obfuscation_proxy::id_mapping::IdMapping;

fn is_hex(b: u8) -> bool {
    (48..=57).contains(&b) || (97..=102).contains(&b)
}

#[test]
fn same_original_gets_same_replacement() {
    let mut store = IdMapping::new();
    let first = store.get_or_create_mapping(b"box");
    let second = store.get_or_create_mapping(b"box");
    assert_eq!(first, second);
}

#[test]
fn distinct_originals_get_distinct_replacements() {
    let mut store = IdMapping::new();
    let names: Vec<String> = (0..8).map(|n| format!("name{}", n)).collect();
    let mut generated: Vec<Vec<u8>> = Vec::new();
    for name in &names {
        generated.push(store.get_or_create_mapping(name.as_bytes()));
    }
    for a in 0..generated.len() {
        for b in 0..generated.len() {
            if a != b {
                assert_ne!(generated[a], generated[b]);
            }
        }
    }
}

#[test]
fn generated_identifier_shape() {
    let mut store = IdMapping::new();
    let generated = store.get_or_create_mapping(b"header");
    assert!(generated.len() >= 4);
    assert_eq!(&generated[..3], b"id_");
    assert!(generated[3..].iter().all(|&b| is_hex(b)));
    assert_ne!(generated, b"header".to_vec());
}

#[test]
fn replacement_differs_per_store_instance_original() {
    let mut store = IdMapping::new();
    let g_a = store.get_or_create_mapping(b"a");
    let g_b = store.get_or_create_mapping(b"b");
    assert_ne!(g_a, g_b);
    // and the earlier pairing is still intact
    assert_eq!(store.get_or_create_mapping(b"a"), g_a);
}
