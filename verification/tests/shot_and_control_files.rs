use landsurvey::resection::{distance_text, shot_name, shot_token_lines};
use landsurvey::transform::{control_lines, coordinate_tokens, ControlLineError};

struct Shot {
    known: (f64, f64),
    distance: Option<f64>,
    name: String,
}

/// Shots as the importer reads them: the three numbers must read, a
/// distance that does not read counts as none.
fn parse_resection_shots(text: &str) -> Vec<Shot> {
    let mut out: Vec<Shot> = Vec::new();
    for toks in shot_token_lines(text) {
        let (Ok(n), Ok(e), Ok(_dir)) =
            (toks[0].parse::<f64>(), toks[1].parse::<f64>(), toks[2].parse::<f64>())
        else {
            continue;
        };
        let distance = distance_text(&toks).and_then(|d| d.parse::<f64>().ok());
        let name = shot_name(&toks, out.len());
        out.push(Shot { known: (e, n), distance, name });
    }
    out
}

type Pair = ((f64, f64), (f64, f64));

/// Control pairs as the importer reads them.
fn parse_control_pairs(text: &str) -> Result<Vec<Pair>, String> {
    let mut out = Vec::new();
    for line in control_lines(text) {
        let numeric = |t: &String| t.parse::<f64>().is_ok();
        let first = line.tokens.first().is_some_and(numeric);
        let last = line.tokens.last().is_some_and(numeric);
        let toks = coordinate_tokens(&line.tokens, first, last)
            .map_err(|e| format!("line {}: {:?}", line.number, e))?;
        let mut nums = [0.0f64; 4];
        for (n, t) in nums.iter_mut().zip(&toks) {
            *n = match t.parse::<f64>() {
                Ok(v) if v.is_finite() => v,
                _ => return Err(format!("line {}: {t}", line.number)),
            };
        }
        out.push(((nums[1], nums[0]), (nums[3], nums[2])));
    }
    Ok(out)
}

#[test]
fn parse_handles_blank_distance_and_names() {
    let text = "# N, E, dir, dist, name\n\
                2400, 1300, 45.0, 500.0, CP1\n\
                2350, 700, 312.5, , CP2\n\
                1650 1100 178.0 640.0 CP3\n";
    let shots = parse_resection_shots(text);
    assert_eq!(shots.len(), 3);
    assert_eq!(shots[0].known, (1300.0, 2400.0)); // (E, N)
    assert_eq!(shots[0].distance, Some(500.0));
    assert_eq!(shots[1].distance, None); // blank -> angle-only
    assert_eq!(shots[1].name, "CP2");
    assert_eq!(shots[2].distance, Some(640.0));
}

#[test]
fn unnamed_shots_are_numbered_among_accepted_shots() {
    let text = "1, 2, 3\nx, y, z\n4 5 6\n";
    let shots = parse_resection_shots(text);
    assert_eq!(shots.len(), 2);
    assert_eq!(shots[0].name, "PT1");
    assert_eq!(shots[1].name, "PT2");
    let toks = vec!["1".to_string(), "2".to_string(), "3".to_string(), "".to_string(), "  ".to_string()];
    assert_eq!(shot_name(&toks, 41), "PT42");
    assert_eq!(distance_text(&toks), None);
}

#[test]
fn shot_lines_fall_back_to_whitespace_and_need_three_fields() {
    let lines = shot_token_lines("1 2 3 4\n1, 2\n\n# c\n1,2,3,,\n");
    assert_eq!(lines.len(), 2);
    assert_eq!(lines[0], vec!["1", "2", "3", "4"]);
    assert_eq!(lines[1], vec!["1", "2", "3", "", ""]);
}

#[test]
fn parse_pairs_accepts_ids_and_orders_en() {
    let text = "# srcN, srcE, dstN, dstE\n\
                1000, 2000, 5000, 6000, CP1\n\
                \n\
                CP2, 1100, 2100, 5100, 6100\n\
                1200 2200 5200 6200\n";
    let pairs = parse_control_pairs(text).expect("valid control file");
    assert_eq!(pairs.len(), 3);
    // (srcE, srcN) then (dstE, dstN)
    assert_eq!(pairs[0], ((2000.0, 1000.0), (6000.0, 5000.0)));
    assert_eq!(pairs[1], ((2100.0, 1100.0), (6100.0, 5100.0)));
    assert_eq!(pairs[2], ((2200.0, 1200.0), (6200.0, 5200.0)));
}

#[test]
fn parse_pairs_rejects_malformed_lines_loudly() {
    assert!(parse_control_pairs("bad line\n").is_err());
    assert!(parse_control_pairs("101, 1000, 2000, 5000, 6000\n").is_err());
    assert!(parse_control_pairs("1 2 3 4 5 6\n").is_err());
    assert!(parse_control_pairs("1 2 3\n").is_err());
    assert!(parse_control_pairs("NaN 2000 5000 6000\n").is_err());
    assert!(parse_control_pairs("1000 inf 5000 6000\n").is_err());
}

#[test]
fn control_lines_keep_numbers_and_tokens() {
    let ls = control_lines("\n# c\n 1,\t2  3 ,4 \n");
    assert_eq!(ls.len(), 1);
    assert_eq!(ls[0].number, 3);
    assert_eq!(ls[0].text, "1,\t2  3 ,4");
    assert_eq!(ls[0].tokens, vec!["1", "2", "3", "4"]);
}

#[test]
fn coordinate_token_shapes() {
    let five: Vec<String> = ["ID", "1", "2", "3", "4"].iter().map(|s| s.to_string()).collect();
    assert_eq!(coordinate_tokens(&five, false, true).unwrap(), vec!["1", "2", "3", "4"]);
    let five_last: Vec<String> = ["1", "2", "3", "4", "ID"].iter().map(|s| s.to_string()).collect();
    assert_eq!(coordinate_tokens(&five_last, true, false).unwrap(), vec!["1", "2", "3", "4"]);
    assert_eq!(coordinate_tokens(&five, true, true).unwrap_err(), ControlLineError::AmbiguousId);
    assert_eq!(coordinate_tokens(&five, false, false).unwrap_err(), ControlLineError::AmbiguousId);
    let three: Vec<String> = ["1", "2", "3"].iter().map(|s| s.to_string()).collect();
    assert_eq!(coordinate_tokens(&three, true, true).unwrap_err(), ControlLineError::FieldCount);
}
