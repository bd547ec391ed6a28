use landsurvey::dxf::{push_decimal, push_layer, LayerTable};

#[test]
fn duplicate_layer_keeps_first_color() {
    let mut d = LayerTable::new();
    d.add_layer("L", 3);
    d.add_layer("L", 1);
    assert_eq!(d.len(), 1);
    assert_eq!(d.layer(0).1, 3);
}

#[test]
fn layers_keep_registration_order() {
    let mut d = LayerTable::new();
    d.add_layer("LS-TIN-TOP", 3);
    d.add_layer("LS-CUTFILL", 1);
    d.add_layer("LS-TIN-TOP", 5);
    assert_eq!(d.len(), 2);
    assert_eq!(d.layer(0), ("LS-TIN-TOP", 3));
    assert_eq!(d.layer(1), ("LS-CUTFILL", 1));
}

#[test]
fn layer_names_are_case_sensitive() {
    let mut d = LayerTable::new();
    d.add_layer("a", 1);
    d.add_layer("A", 2);
    assert_eq!(d.len(), 2);
}

#[test]
fn layer_entry_text() {
    let mut s = String::from("x");
    push_layer(&mut s, "LS-TIN-TOP", 3);
    assert_eq!(s, "x0\nLAYER\n2\nLS-TIN-TOP\n70\n0\n62\n3\n6\nCONTINUOUS\n");
    let mut t = String::new();
    push_layer(&mut t, "N", -12);
    assert_eq!(t, "0\nLAYER\n2\nN\n70\n0\n62\n-12\n6\nCONTINUOUS\n");
}

#[test]
fn decimal_formatting_matches_std() {
    for n in [0i64, 7, 10, 99, 100, 256, -1, -10, 1234567890, i64::MAX, i64::MIN] {
        let mut s = String::new();
        push_decimal(&mut s, n);
        assert_eq!(s, n.to_string());
    }
}

#[test]
fn empty_table_holds_layer_zero() {
    let d = LayerTable::new();
    assert_eq!(
        d.tables_section(),
        "0\nSECTION\n2\nTABLES\n0\nTABLE\n2\nLAYER\n70\n1\n\
         0\nLAYER\n2\n0\n70\n0\n62\n7\n6\nCONTINUOUS\n\
         0\nENDTAB\n0\nENDSEC\n"
    );
}

#[test]
fn table_lists_every_layer_with_its_count() {
    let mut d = LayerTable::new();
    d.add_layer("LS-TIN-TOP", 3);
    d.add_layer("LS-CUTFILL", 1);
    let t = d.tables_section();
    assert!(t.starts_with("0\nSECTION\n2\nTABLES\n0\nTABLE\n2\nLAYER\n70\n2\n"));
    assert!(t.contains("\n2\nLS-TIN-TOP\n70\n0\n62\n3\n"));
    assert!(t.contains("\n2\nLS-CUTFILL\n70\n0\n62\n1\n"));
    assert!(t.ends_with("0\nENDTAB\n0\nENDSEC\n"));
    assert_eq!(t.matches("0\nLAYER\n2\n").count(), 2);
}
