use landsurvey::landxml::{
    attr, between, find_all, looks_like_landxml, scan_surfaces, surface_topology, SurfaceScan,
};

const TIN: &str = r#"<?xml version="1.0"?>
<LandXML><Surfaces>
<Surface name="EG">
  <Definition surfType="TIN">
    <Pnts>
      <P id="0">0 0 5</P>
      <P id="1">0 10 5</P>
      <P id="2">10 10 5</P>
      <P id="3">10 0 5</P>
    </Pnts>
    <Faces>
      <F>0 1 2</F>
      <F>0 2 3</F>
      <F i="1">0 1 3</F>
    </Faces>
  </Definition>
</Surface>
</Surfaces></LandXML>"#;

fn chars(s: &str) -> Vec<char> {
    s.chars().collect()
}

fn text_of(s: &[char], span: (usize, usize)) -> String {
    s[span.0..span.1].iter().collect()
}

/// `northing easting [elevation]` read as `[E, N, Z]`, as the importer does.
fn xyz(text: &str) -> Option<[f64; 3]> {
    let mut it = text.split_whitespace();
    let n: f64 = it.next()?.parse().ok()?;
    let e: f64 = it.next()?.parse().ok()?;
    let z: f64 = it.next().and_then(|s| s.parse().ok()).unwrap_or(0.0);
    Some([e, n, z])
}

fn nodes_and_triangles(scan: &SurfaceScan) -> Option<(Vec<[f64; 3]>, Vec<[usize; 3]>)> {
    let parsed: Vec<Option<[f64; 3]>> = scan.points.iter().map(|p| xyz(&p.text)).collect();
    let flags: Vec<bool> = parsed.iter().map(|p| p.is_some()).collect();
    let topo = surface_topology(scan, &flags)?;
    let nodes = topo.nodes.iter().map(|&k| parsed[k].unwrap()).collect();
    let tris = topo.triangles.iter().map(|&(a, b, c)| [a, b, c]).collect();
    Some((nodes, tris))
}

fn area_2d(nodes: &[[f64; 3]], tris: &[[usize; 3]]) -> f64 {
    tris.iter()
        .map(|t| {
            let (a, b, c) = (nodes[t[0]], nodes[t[1]], nodes[t[2]]);
            ((b[0] - a[0]) * (c[1] - a[1]) - (c[0] - a[0]) * (b[1] - a[1])).abs() / 2.0
        })
        .sum()
}

#[test]
fn reads_inline_tin() {
    let scans = scan_surfaces(TIN);
    let scan = scans.first().expect("a surface");
    assert_eq!(scan.name, "EG");
    let (nodes, tris) = nodes_and_triangles(scan).expect("a surface");
    assert_eq!(nodes.len(), 4);
    // Invisible face excluded -> exactly the 2 real triangles, area 100.
    assert_eq!(tris.len(), 2);
    assert!((area_2d(&nodes, &tris) - 100.0).abs() < 1e-9);
    // P order is "northing easting elev" -> node [E, N, Z]; P id=1 is N=0,E=10.
    assert_eq!(nodes[1], [10.0, 0.0, 5.0]);
    assert!(looks_like_landxml(TIN));
}

#[test]
fn scan_keeps_point_texts_and_face_flags() {
    let scans = scan_surfaces(TIN);
    assert_eq!(scans.len(), 1);
    let s = &scans[0];
    assert_eq!(s.points.len(), 4);
    assert_eq!(s.points[1].id.as_deref(), Some("1"));
    assert_eq!(s.points[1].text, "0 10 5");
    assert_eq!(s.faces.len(), 3);
    assert!(!s.faces[0].invisible);
    assert!(s.faces[2].invisible);
    let ids: Vec<String> = s.faces[1].ids.iter().map(|w| w.iter().collect()).collect();
    assert_eq!(ids, vec!["0", "2", "3"]);
}

#[test]
fn topology_uses_ids_not_positions_and_last_id_wins() {
    let xml = r#"<Surface name="S"><Pnts>
<P id="a">1 1 1</P><P id="b">2 2 2</P><P id="c">3 3 3</P><P id="a">4 4 4</P>
</Pnts><Faces><F>a b c</F><F>a b x</F></Faces></Surface>"#;
    let scans = scan_surfaces(xml);
    let topo = surface_topology(&scans[0], &vec![true; 4]).expect("topology");
    assert_eq!(topo.nodes, vec![0, 1, 2, 3]);
    // `a` was redefined by the fourth point; the face with unknown id `x` is dropped.
    assert_eq!(topo.triangles, vec![(3, 1, 2)]);
}

#[test]
fn unreadable_points_are_left_out_of_the_nodes() {
    let xml = r#"<Surface name="S"><Pnts>
<P id="1">x y</P><P id="2">0 0 0</P><P id="3">0 1 0</P><P id="4">1 1 0</P>
</Pnts><Faces><F>1 2 3</F><F>2 3 4</F></Faces></Surface>"#;
    let scans = scan_surfaces(xml);
    let (nodes, tris) = nodes_and_triangles(&scans[0]).expect("topology");
    assert_eq!(nodes.len(), 3);
    assert_eq!(tris, vec![[0, 1, 2]]);
}

#[test]
fn surface_without_faces_has_no_topology() {
    let xml = r#"<Surface name="S"><Pnts><P id="1">0 0 0</P></Pnts></Surface>"#;
    let scans = scan_surfaces(xml);
    assert_eq!(scans.len(), 1);
    assert!(surface_topology(&scans[0], &vec![true]).is_none());
}

#[test]
fn unnamed_surface_is_called_surface() {
    let xml = r#"<Surface desc="x"><Pnts><P id="1">0 0 0</P></Pnts></Surface>"#;
    let scans = scan_surfaces(xml);
    assert_eq!(scans[0].name, "Surface");
}

#[test]
fn every_surface_element_is_scanned() {
    let xml = r#"<LandXML><Surface name="A"></Surface><Surface name="B"></Surface></LandXML>"#;
    let names: Vec<String> = scan_surfaces(xml).into_iter().map(|s| s.name).collect();
    assert_eq!(names, vec!["A", "B"]);
}

#[test]
fn attribute_and_section_helpers() {
    let tag = chars(r#"<P id="17" code="IP""#);
    let span = attr(&tag, &chars("code")).expect("attribute");
    assert_eq!(text_of(&tag, span), "IP");
    assert!(attr(&tag, &chars("name")).is_none());
    let doc = chars("<Pnts a=\"1\">inner</Pnts>");
    let span = between(&doc, &chars("<Pnts"), &chars("</Pnts>")).expect("section");
    assert_eq!(text_of(&doc, span), "inner");
    assert!(between(&doc, &chars("<Faces"), &chars("</Faces>")).is_none());
    assert_eq!(find_all(&chars("abcabcab"), &chars("ab")), vec![0, 3, 6]);
    assert_eq!(find_all(&chars("aaaa"), &chars("aa")), vec![0, 2]);
}

#[test]
fn landxml_detection() {
    assert!(looks_like_landxml("<LandXML version=\"1.2\">"));
    assert!(looks_like_landxml("<?xml version=\"1.0\"?><Root><Surface name=\"x\">"));
    assert!(!looks_like_landxml("<?xml version=\"1.0\"?><Root/>"));
    assert!(!looks_like_landxml("1, 5000, 5000, 100, CP1"));
    // The root must appear in the first 512 bytes.
    let late = format!("{}<LandXML>", " ".repeat(600));
    assert!(!looks_like_landxml(&late));
    // A surface anywhere counts once the header is an XML declaration.
    let far = format!("<?xml version=\"1.0\"?>{}<Surface name=\"x\">", " ".repeat(600));
    assert!(looks_like_landxml(&far));
}
