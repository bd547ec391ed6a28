use landsurvey::pnezd::{records, PnezdRecord};

struct Point {
    number: String,
    northing: f64,
    description: String,
}

/// Points and skipped lines, reading the coordinates as the importer does.
fn parse(text: &str) -> (Vec<Point>, usize) {
    let mut points = Vec::new();
    let mut skipped = 0;
    for r in records(text) {
        match r {
            PnezdRecord::Short => skipped += 1,
            PnezdRecord::Fields(f) => {
                match (
                    f.northing.parse::<f64>(),
                    f.easting.parse::<f64>(),
                    f.elevation.parse::<f64>(),
                ) {
                    (Ok(n), Ok(_), Ok(_)) => points.push(Point {
                        number: f.number,
                        northing: n,
                        description: f.description,
                    }),
                    _ => skipped += 1,
                }
            }
        }
    }
    (points, skipped)
}

#[test]
fn parses_basic_records_and_skips_junk() {
    // Comment + blank line are ignored; one unparseable line is skipped.
    let text = "\
# control points
1, 5000.00, 5000.00, 100.0, CP1
2, 5100.50, 5050.25, 101.2, IRON PIN, NE corner

garbage line
3, 5200, 5100, 102
";
    let (points, skipped) = parse(text);
    assert_eq!(points.len(), 3);
    assert_eq!(skipped, 1);
    assert_eq!(points[0].number, "1");
    assert_eq!(points[0].northing, 5000.0);
    // Description keeps embedded commas.
    assert_eq!(points[1].description, "IRON PIN, NE corner");
    // Missing description is empty, not an error.
    assert_eq!(points[2].description, "");
}

#[test]
fn records_are_trimmed_fields() {
    let rs = records("  7 ,  1.5,2.5 , 3.5 ,  STAKE  \r\n#c\n  \n1,2,3\n");
    assert_eq!(rs.len(), 2);
    match &rs[0] {
        PnezdRecord::Fields(f) => {
            assert_eq!(f.number, "7");
            assert_eq!(f.northing, "1.5");
            assert_eq!(f.easting, "2.5");
            assert_eq!(f.elevation, "3.5");
            assert_eq!(f.description, "STAKE");
        }
        PnezdRecord::Short => panic!("fields expected"),
    }
    assert!(matches!(rs[1], PnezdRecord::Short));
}

#[test]
fn number_field_may_be_non_numeric_and_coordinates_are_kept_as_text() {
    let rs = records("A1, x, y, z\n");
    match &rs[0] {
        PnezdRecord::Fields(f) => {
            assert_eq!(f.number, "A1");
            assert_eq!(f.northing, "x");
        }
        PnezdRecord::Short => panic!("fields expected"),
    }
    let (points, skipped) = parse("A1, x, y, z\n");
    assert!(points.is_empty());
    assert_eq!(skipped, 1);
}

#[test]
fn empty_text_has_no_records() {
    assert!(records("").is_empty());
    assert!(records("\n\n# only comments\n").is_empty());
}
